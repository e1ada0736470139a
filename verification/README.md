# fast_game_of_life

Conway's Game of Life on a sparse world, verified with Verus.

The world is stored as 32x32 chunks in a hash map keyed by packed chunk
coordinates; each row of a chunk is a `u32` (bit 31 is the leftmost cell).
A generation is computed chunk by chunk with bitwise neighbour counting: eight
shifted neighbour masks are summed into 32 four-bit counters held bit-sliced
in four words, and the rule is applied to all 32 cells of a row at once.

What is proved:

- `World::step` yields exactly the next generation of the set of live cells
  (`life::next_generation`), across chunk borders, and keeps only chunks that
  hold a live cell; `World::can_step` tells whether a step stays within the
  `i32` chunk coordinates, `World::try_step` steps only then, and a world
  whose chunks lie within `r` of the origin may step and afterwards lies
  within `r + 1`.
- A generation does not depend on where the cells stand
  (`life::law_next_generation_translates`), and after a run of `set_cell`
  calls a cell is alive exactly when the last call that reached it made it
  alive (`life::law_set_cells_read_back`, and `life::law_set_cell_run` over
  the worlds that a run of `World::set_cell` calls leaves).
- `World::live_cells` lists each chunk's cells together, row by row and left
  to right; only the order of the chunks, which the hash map decides, is open.
- Reading a chunk's `*`/`.` grid back with `Chunk::from_string` restores the
  chunk (`chunk::law_star_grid_reads_back`).
- `set_cell`, `is_alive`, `clear`, `load_pattern`, `live_cells`, `add_chunk`
  and `get_chunk` are specified over the set of live cells and the stored chunks.
- `Chunk` reads patterns from text and draws itself with half blocks.
- `raster::rasterize_world` fills a pixel frame exactly as `raster::frame_pixel` says.
- `extent` checks that a pattern fits in the coordinates a world can hold.

Layout: `src/` is the verified library; `tests/` runs it; `app/` holds the
desktop viewer (minifb, `app/desktop.rs`) and the WebAssembly bindings
(wasm-bindgen, `app/wasm.rs`, built only for `wasm32`).
