use vstd::prelude::*;

use crate::bits::{
    bit, lemma_bit_clear, lemma_bit_of_nonzero, lemma_bit_set, lemma_bit_test,
    lemma_no_bit_of_zero, lemma_top_and_bottom_bits,
};
use crate::chunk::{Chunk, cell_of, empty_rows, lemma_chunk_len};
use crate::chunk_map::{
    ChunkMap, KeySet, chunk_map_clear, chunk_map_contents, chunk_map_entry_or_insert,
    chunk_map_get, chunk_map_insert, chunk_map_iter, chunk_map_new, key_set_contents,
    key_set_insert, key_set_iter, key_set_new,
};
use crate::pattern::{col_of, lemma_line_col_bounds, line_of, star_at};
use crate::coords::{
    lemma_pack_unpack, lemma_unpack_pack, pack_coords, pack_spec, unpack_coords, unpack_spec,
};
use crate::generation::{NeighborChunks, compute_chunk_gen, next_all_dead, next_rows_spec};
use crate::life::{
    in_cell_range, lemma_chunk_of_in_range, lemma_split_cell, lemma_wrap_cell, next_generation,
    with_cell, wrap_cell,
};
use crate::step_proof::{
    added_by_edges, count_bit, edge_live, interior, is_offset, key_hood, key_interior, key_step_ok,
    lemma_count_bit, lemma_edges_spawn, lemma_hood_matches, lemma_spawn_target, lemma_step_view,
    keys_within, lemma_within_step_in_range, nb_at, neighbors_match, offset_key, spawned_by, spawns,
    step_in_range_spec,
};

verus! {

broadcast use lemma_chunk_len;

/// The key of the chunk at chunk coordinates (`cx`, `cy`).
pub open spec fn key_of(cx: int, cy: int) -> u64 {
    pack_spec(cx as i32, cy as i32)
}

/// The rows of the chunk at chunk coordinates (`cx`, `cy`); empty where the map holds none.
pub open spec fn chunk_rows(m: Map<u64, Seq<u32>>, cx: int, cy: int) -> Seq<u32> {
    if m.contains_key(key_of(cx, cy)) {
        m[key_of(cx, cy)]
    } else {
        empty_rows()
    }
}

/// Whether the cell (`x`, `y`) is alive in the chunks `m`: cell `x` lies in
/// chunk column `x / 32`, at column `x % 32` of that chunk (floor division).
pub open spec fn cell_alive(m: Map<u64, Seq<u32>>, x: int, y: int) -> bool {
    &&& in_cell_range(x)
    &&& in_cell_range(y)
    &&& cell_of(chunk_rows(m, x / 32, y / 32), x % 32, y % 32)
}

/// The live cells of the chunks `m`.
pub open spec fn live_set(m: Map<u64, Seq<u32>>) -> Set<(int, int)> {
    Set::new(|c: (int, int)| cell_alive(m, c.0, c.1))
}

/// Every `*` of a loaded pattern, at whatever column of its line, makes its
/// cell alive: if the cells `after` are the cells `before` with the pattern `s`
/// loaded at (`ox`, `oy`) (as `World::load_pattern` says), then the `*` at
/// position `p`, on line `line_of(s, p)` at column `col_of(s, p)`, has made the
/// cell (`ox + col_of(s, p)`, `oy + line_of(s, p)`), wrapped, alive; and the
/// chunk of that cell is stored.
pub proof fn law_load_pattern_makes_every_star_alive(
    before: Set<(int, int)>,
    after: Set<(int, int)>,
    keys_before: Set<u64>,
    keys_after: Set<u64>,
    s: Seq<char>,
    ox: int,
    oy: int,
    p: int,
)
    requires
        after == before.union(pattern_cells(s, s.len() as int, ox, oy)),
        keys_after == keys_before.union(pattern_keys(s, s.len() as int, ox, oy)),
        0 <= p < s.len(),
        s[p] == '*',
    ensures
        after.contains((wrap_cell(ox + col_of(s, p)), wrap_cell(oy + line_of(s, p)))),
        keys_after.contains(key_of((ox + col_of(s, p)) / 32, (oy + line_of(s, p)) / 32)),
{
    assert(pattern_cells(s, s.len() as int, ox, oy).contains(
        (wrap_cell(ox + col_of(s, p)), wrap_cell(oy + line_of(s, p))),
    ));
    assert(pattern_keys(s, s.len() as int, ox, oy).contains(
        key_of((ox + col_of(s, p)) / 32, (oy + line_of(s, p)) / 32),
    ));
}

/// The cells of a list of coordinate pairs.
pub open spec fn as_cells(v: Seq<(i64, i64)>) -> Seq<(int, int)> {
    v.map_values(|c: (i64, i64)| (c.0 as int, c.1 as int))
}

/// Whether the live-cell walk over the chunks `keys`, now at row `ly`, column
/// `lx` of chunk `keys[idx]`, has passed the cell `c`.
pub open spec fn walked(keys: Seq<u64>, c: (int, int), idx: int, ly: int, lx: int) -> bool {
    let k = key_of(c.0 / 32, c.1 / 32);
    ||| exists|i: int| 0 <= i < idx && keys[i] == k
    ||| (0 <= idx < keys.len() && k == keys[idx] && (c.1 % 32 < ly || (c.1 % 32 == ly && c.0 % 32
        < lx)))
}

/// The live cells among the first `n` columns of row `ly` of the chunk at
/// chunk coordinates (`cx`, `cy`), the row packed in `row`, left to right.
pub open spec fn row_cells(row: u32, cx: int, cy: int, ly: int, n: int) -> Seq<(int, int)>
    decreases n,
{
    if n <= 0 {
        Seq::empty()
    } else if bit(row, (31 - (n - 1)) as u32) {
        row_cells(row, cx, cy, ly, n - 1).push((cx * 32 + n - 1, cy * 32 + ly))
    } else {
        row_cells(row, cx, cy, ly, n - 1)
    }
}

/// The live cells of the first `n` rows of the chunk `rows` at chunk
/// coordinates (`cx`, `cy`): row by row from the top, each left to right.
pub open spec fn chunk_cells(rows: Seq<u32>, cx: int, cy: int, n: int) -> Seq<(int, int)>
    decreases n,
{
    if n <= 0 {
        Seq::empty()
    } else {
        chunk_cells(rows, cx, cy, n - 1) + row_cells(rows[n - 1], cx, cy, n - 1, 32)
    }
}

/// The live cells of the chunks stored under `keys` in `m`, one chunk after
/// the other in the order of `keys`, each as `chunk_cells` lists it.
pub open spec fn cells_in_order(m: Map<u64, Seq<u32>>, keys: Seq<u64>) -> Seq<(int, int)>
    decreases keys.len(),
{
    if keys.len() == 0 {
        Seq::empty()
    } else {
        cells_in_order(m, keys.drop_last()) + chunk_cells(
            m[keys.last()],
            unpack_spec(keys.last()).0 as int,
            unpack_spec(keys.last()).1 as int,
            32,
        )
    }
}

/// An empty row holds no live cell.
proof fn lemma_row_cells_zero(cx: int, cy: int, ly: int, n: int)
    requires
        n <= 32,
    ensures
        row_cells(0, cx, cy, ly, n) == Seq::<(int, int)>::empty(),
    decreases n,
{
    if n > 0 {
        lemma_row_cells_zero(cx, cy, ly, n - 1);
        lemma_no_bit_of_zero((31 - (n - 1)) as u32);
    }
}

/// A cell at place (`lx`, `ly`) of chunk (`cx`, `cy`) lies in that chunk.
proof fn lemma_cell_in_chunk(cx: int, cy: int, lx: int, ly: int)
    requires
        i32::MIN <= cx <= i32::MAX,
        i32::MIN <= cy <= i32::MAX,
        0 <= lx < 32,
        0 <= ly < 32,
    ensures
        in_cell_range(cx * 32 + lx),
        in_cell_range(cy * 32 + ly),
        (cx * 32 + lx) / 32 == cx,
        (cx * 32 + lx) % 32 == lx,
        (cy * 32 + ly) / 32 == cy,
        (cy * 32 + ly) % 32 == ly,
{
    lemma_split_cell(cx * 32 + lx, cx, lx);
    lemma_split_cell(cy * 32 + ly, cy, ly);
}

/// A live cell whose chunk has the key of chunk (`cx`, `cy`) lies in that
/// chunk, at the place its remainders give.
proof fn lemma_place_of_cell(c: (int, int), cx: int, cy: int)
    requires
        in_cell_range(c.0),
        in_cell_range(c.1),
        i32::MIN <= cx <= i32::MAX,
        i32::MIN <= cy <= i32::MAX,
        key_of(c.0 / 32, c.1 / 32) == key_of(cx, cy),
    ensures
        c.0 / 32 == cx,
        c.1 / 32 == cy,
        c == (cx * 32 + c.0 % 32, cy * 32 + c.1 % 32),
        0 <= c.0 % 32 < 32,
        0 <= c.1 % 32 < 32,
{
    lemma_chunk_of_in_range(c.0);
    lemma_chunk_of_in_range(c.1);
    lemma_key_of_injective(c.0 / 32, c.1 / 32, cx, cy);
}

/// The cells that the first `n` characters of the pattern `s` make alive when
/// its top-left corner is put at (`ox`, `oy`): one for each `*`, wrapped as
/// `wrap_cell` says.
pub open spec fn pattern_cells(s: Seq<char>, n: int, ox: int, oy: int) -> Set<(int, int)> {
    Set::new(
        |c: (int, int)|
            exists|p: int|
                0 <= p < n && s[p] == '*' && c == (wrap_cell(ox + col_of(s, p)), wrap_cell(
                    oy + line_of(s, p),
                )),
    )
}

/// The live cells `s` with the chunk at (`cx`, `cy`) replaced by `rows`.
pub open spec fn with_chunk(s: Set<(int, int)>, cx: int, cy: int, rows: Seq<u32>) -> Set<(int, int)> {
    Set::new(
        |c: (int, int)|
            if in_cell_range(c.0) && in_cell_range(c.1) && c.0 / 32 == cx && c.1 / 32 == cy {
                cell_of(rows, c.0 % 32, c.1 % 32)
            } else {
                s.contains(c)
            },
    )
}

/// On a coordinate that the world can hold, the live-cell list and `is_alive`
/// agree.
pub proof fn law_live_cells_agree_with_is_alive(
    s: Set<(int, int)>,
    cells: Seq<(i64, i64)>,
    x: int,
    y: int,
)
    requires
        as_cells(cells).to_set() == s,
        in_cell_range(x),
        in_cell_range(y),
    ensures
        as_cells(cells).contains((x, y)) == s.contains((wrap_cell(x), wrap_cell(y))),
{
    lemma_wrap_cell(x);
    lemma_wrap_cell(y);
}

/// A chunk read from a pattern that fits in one chunk, stored at chunk (0, 0)
/// of an empty world, makes alive the cells that loading the pattern at (0, 0)
/// makes alive.
pub proof fn law_from_string_agrees_with_load_pattern(s: Seq<char>, rows: Seq<u32>)
    requires
        forall|p: int|
            0 <= p < s.len() && s[p] == '*' ==> col_of(s, p) < 32 && line_of(s, p) < 32,
        forall|r: int, c: int| 0 <= r < 32 && 0 <= c < 32 ==> cell_of(rows, c, r) == star_at(s, c, r),
    ensures
        with_chunk(Set::empty(), 0, 0, rows) == Set::<(int, int)>::empty().union(
            pattern_cells(s, s.len() as int, 0, 0),
        ),
{
    let lhs = with_chunk(Set::empty(), 0, 0, rows);
    let rhs = Set::<(int, int)>::empty().union(pattern_cells(s, s.len() as int, 0, 0));
    assert forall|c: (int, int)| lhs.contains(c) == rhs.contains(c) by {
        if rhs.contains(c) {
            let p = choose|p: int|
                0 <= p < s.len() && s[p] == '*' && c == (wrap_cell(0 + col_of(s, p)), wrap_cell(
                    0 + line_of(s, p),
                ));
            lemma_line_col_bounds(s, p);
            lemma_wrap_cell(col_of(s, p));
            lemma_wrap_cell(line_of(s, p));
            lemma_cell_in_chunk(0, 0, col_of(s, p), line_of(s, p));
            assert(star_at(s, col_of(s, p), line_of(s, p)));
        }
        if lhs.contains(c) {
            lemma_chunk_of_in_range(c.0);
            lemma_chunk_of_in_range(c.1);
            assert(star_at(s, c.0 % 32, c.1 % 32));
            let p = choose|p: int|
                0 <= p < s.len() && s[p] == '*' && #[trigger] col_of(s, p) == c.0 % 32 && line_of(s, p)
                    == c.1 % 32;
            lemma_wrap_cell(c.0);
            lemma_wrap_cell(c.1);
        }
    }
    assert(lhs =~= rhs);
}

/// A sparse, unbounded-looking Game of Life world stored as 32x32 chunks.
#[derive(Debug)]
pub struct World {
    chunks: ChunkMap,
}

impl View for World {
    type V = Set<(int, int)>;

    /// The live cells, as (x, y) with y growing downwards.
    closed spec fn view(&self) -> Set<(int, int)> {
        live_set(self.contents())
    }
}

/// Two chunk coordinate pairs in `i32` have the same key only if they are equal.
pub proof fn lemma_key_of_injective(a: int, b: int, c: int, d: int)
    requires
        i32::MIN <= a <= i32::MAX,
        i32::MIN <= b <= i32::MAX,
        i32::MIN <= c <= i32::MAX,
        i32::MIN <= d <= i32::MAX,
        key_of(a, b) == key_of(c, d),
    ensures
        a == c,
        b == d,
{
    lemma_unpack_pack(a as i32, b as i32);
    lemma_unpack_pack(c as i32, d as i32);
}

/// Replacing the chunk at (`cx`, `cy`) changes only the cells inside it.
proof fn lemma_cell_after_insert(m: Map<u64, Seq<u32>>, cx: int, cy: int, rows: Seq<u32>, x: int, y: int)
    requires
        i32::MIN <= cx <= i32::MAX,
        i32::MIN <= cy <= i32::MAX,
    ensures
        cell_alive(m.insert(key_of(cx, cy), rows), x, y) == if in_cell_range(x) && in_cell_range(y)
            && x / 32 == cx && y / 32 == cy {
            cell_of(rows, x % 32, y % 32)
        } else {
            cell_alive(m, x, y)
        },
{
    if in_cell_range(x) && in_cell_range(y) {
        lemma_chunk_of_in_range(x);
        lemma_chunk_of_in_range(y);
        if key_of(x / 32, y / 32) == key_of(cx, cy) {
            lemma_key_of_injective(x / 32, y / 32, cx, cy);
        }
    }
}

/// With no chunk stored, no cell is alive.
proof fn lemma_nothing_alive(m: Map<u64, Seq<u32>>)
    requires
        m.dom().is_empty(),
    ensures
        forall|c: (int, int)| !#[trigger] live_set(m).contains(c),
{
    assert forall|c: (int, int)| !#[trigger] live_set(m).contains(c) by {
        assert(!m.contains_key(key_of(c.0 / 32, c.1 / 32)));
        lemma_no_bit_of_zero((31 - c.0 % 32) as u32);
    }
}

fn add_neighbors_to_set(set: &mut KeySet, coords: u64, chunk: &Chunk, neighbors: &NeighborChunks)
    requires
        key_interior(coords),
    ensures
        key_set_contents(*final(set)) == key_set_contents(*old(set)).union(
            Set::new(|t: u64| added_by_edges(coords, chunk@, *neighbors, t)),
        ),
{
    let ghost start = key_set_contents(*set);
    let first_row = chunk.get_first_row();
    let last_row = chunk.get_last_row();
    let (x, y) = unpack_coords(coords);
    proof {
        lemma_top_and_bottom_bits(first_row);
        lemma_top_and_bottom_bits(last_row);
    }

    if first_row != 0 {
        // -- N --
        if neighbors.n.is_none() {
            key_set_insert(set, pack_coords(x, y - 1));
        }
        // -- NW --
        if (first_row >> 31) != 0 && neighbors.nw.is_none() {
            key_set_insert(set, pack_coords(x - 1, y - 1));
        }
        // -- NE --
        if (first_row & 1) != 0 && neighbors.ne.is_none() {
            key_set_insert(set, pack_coords(x + 1, y - 1));
        }
    }
    if last_row != 0 {
        // -- S --
        if neighbors.s.is_none() {
            key_set_insert(set, pack_coords(x, y + 1));
        }
        // -- SW --
        if (last_row >> 31) != 0 && neighbors.sw.is_none() {
            key_set_insert(set, pack_coords(x - 1, y + 1));
        }
        // -- SE --
        if (last_row & 1) != 0 && neighbors.se.is_none() {
            key_set_insert(set, pack_coords(x + 1, y + 1));
        }
    }
    let mut left_sum: u32 = 0;
    let mut right_sum: u32 = 0;
    for row in it: chunk.iter()
        invariant
            it.seq().unref() == chunk@,
            left_sum == count_bit(chunk@, it.index(), 31),
            right_sum == count_bit(chunk@, it.index(), 0),
    {
        proof {
            assert(chunk@.len() == 32);
            assert(it.seq().unref().len() == it.seq().len());
            assert(it.seq().len() == 32);
            assert(it.index() < it.seq().len());
            assert(it.seq().unref()[it.index()] == chunk@[it.index()]);
            lemma_top_and_bottom_bits(*row);
            lemma_count_bit(chunk@, it.index(), 31);
            lemma_count_bit(chunk@, it.index(), 0);
            assert(left_sum < 32);
            assert(*row >> 31u32 <= 1);
        }
        left_sum += *row >> 31;
        right_sum += *row & 1;
    }
    proof {
        lemma_count_bit(chunk@, 32, 31);
        lemma_count_bit(chunk@, 32, 0);
    }
    // -- W --
    if left_sum != 0 && neighbors.w.is_none() {
        key_set_insert(set, pack_coords(x - 1, y));
    }
    // -- E --
    if right_sum != 0 && neighbors.e.is_none() {
        key_set_insert(set, pack_coords(x + 1, y));
    }
    proof {
        let added = Set::new(|t: u64| added_by_edges(coords, chunk@, *neighbors, t));
        let end = key_set_contents(*set);
        assert forall|t: u64| added.contains(t) implies end.contains(t) by {
            let (dx, dy) = choose|dx: int, dy: int|
                is_offset(dx, dy) && #[trigger] nb_at(*neighbors, dx, dy) is None && edge_live(
                    chunk@,
                    dx,
                    dy,
                ) && t == offset_key(coords, dx, dy);
            if dy == -1 && dx != 0 {
                lemma_bit_of_nonzero(chunk@[0], if dx == -1 { 31u32 } else { 0u32 });
            }
            if dy == 1 && dx != 0 {
                lemma_bit_of_nonzero(chunk@[31], if dx == -1 { 31u32 } else { 0u32 });
            }
        }
        assert forall|t: u64| end.contains(t) && !start.contains(t) implies added.contains(t) by {
            if t == offset_key(coords, 0, -1) && nb_at(*neighbors, 0, -1) is None && edge_live(chunk@, 0, -1) {
            } else if t == offset_key(coords, -1, -1) && nb_at(*neighbors, -1, -1) is None && edge_live(chunk@, -1, -1) {
            } else if t == offset_key(coords, 1, -1) && nb_at(*neighbors, 1, -1) is None && edge_live(chunk@, 1, -1) {
            } else if t == offset_key(coords, 0, 1) && nb_at(*neighbors, 0, 1) is None && edge_live(chunk@, 0, 1) {
            } else if t == offset_key(coords, -1, 1) && nb_at(*neighbors, -1, 1) is None && edge_live(chunk@, -1, 1) {
            } else if t == offset_key(coords, 1, 1) && nb_at(*neighbors, 1, 1) is None && edge_live(chunk@, 1, 1) {
            } else if t == offset_key(coords, -1, 0) && nb_at(*neighbors, -1, 0) is None && edge_live(chunk@, -1, 0) {
            } else {
                assert(t == offset_key(coords, 1, 0) && nb_at(*neighbors, 1, 0) is None && edge_live(chunk@, 1, 0));
            }
        }
        assert(end =~= start.union(added));
    }
}

/// The keys of the chunks that the first `n` characters of the pattern `s`
/// put live cells in when its top-left corner is put at (`ox`, `oy`).
pub open spec fn pattern_keys(s: Seq<char>, n: int, ox: int, oy: int) -> Set<u64> {
    Set::new(
        |k: u64|
            exists|p: int|
                0 <= p < n && s[p] == '*' && k == chunk_key_of_cell(ox + col_of(s, p), oy + line_of(s, p)),
    )
}

/// Whether every chunk of `m` holds a live cell.
pub open spec fn no_empty_chunks(m: Map<u64, Seq<u32>>) -> bool {
    forall|k: u64| #[trigger] m.contains_key(k) ==> exists|i: int| 0 <= i < 32 && m[k][i] != 0
}

/// The key of the chunk that the cell (`x`, `y`) lies in, its chunk
/// coordinates cut to `i32` as `wrap_cell` does.
pub open spec fn chunk_key_of_cell(x: int, y: int) -> u64 {
    key_of(x / 32, y / 32)
}

/// Storing a chunk that holds a live cell keeps every chunk holding one.
proof fn lemma_insert_nonempty(m: Map<u64, Seq<u32>>, k: u64, rows: Seq<u32>)
    requires
        no_empty_chunks(m),
        exists|i: int| 0 <= i < 32 && rows[i] != 0,
    ensures
        no_empty_chunks(m.insert(k, rows)),
{
    assert forall|k2: u64| #[trigger] m.insert(k, rows).contains_key(k2) implies exists|i: int|
        0 <= i < 32 && m.insert(k, rows)[k2][i] != 0 by {
        if k2 == k {
            let i = choose|i: int| 0 <= i < 32 && rows[i] != 0;
            assert(m.insert(k, rows)[k2][i] != 0);
        } else {
            let i = choose|i: int| 0 <= i < 32 && m[k2][i] != 0;
            assert(m.insert(k, rows)[k2][i] != 0);
        }
    }
}

impl World {
    /// What the world's map holds: for each key of a stored chunk, its rows.
    /// Besides the live cells (`self@`), the world keeps which chunks it stores:
    /// a stored chunk may be empty, and `can_step` and `rasterize_world` look
    /// at the stored chunks.
    pub closed spec fn contents(&self) -> Map<u64, Seq<u32>> {
        chunk_map_contents(self.chunks)
    }

    /// The live cells are those that the stored chunks hold.
    pub proof fn lemma_view_is_contents(&self)
        ensures
            self@ == live_set(self.contents()),
    {
    }

    /// Whether a generation step stays within the chunk coordinates that an
    /// `i32` holds (see `step_in_range_spec`).
    pub open spec fn step_in_range(&self) -> bool {
        step_in_range_spec(self.contents())
    }

    /// Whether every stored chunk lies within `r` chunks of chunk (0, 0) on
    /// both axes.
    pub open spec fn chunks_within(&self, r: int) -> bool {
        keys_within(self.contents(), r)
    }

    /// A world whose chunks lie within `r` of chunk (0, 0), with `r + 1` still
    /// inside `i32`, may step.
    pub proof fn lemma_step_in_range(&self, r: int)
        requires
            self.chunks_within(r),
            0 <= r < i32::MAX - 1,
        ensures
            self.step_in_range(),
    {
        lemma_within_step_in_range(self.contents(), r);
    }

    fn get_neighbor_chunks(&self, coords: u64) -> (r: NeighborChunks<'_>)
        requires
            key_interior(coords),
        ensures
            neighbors_match(r, self.contents(), unpack_spec(coords).0 as int, unpack_spec(coords).1 as int),
    {
        let (x, y) = unpack_coords(coords);
        NeighborChunks {
            se: self.get_chunk(x + 1, y + 1),
            s: self.get_chunk(x, y + 1),
            sw: self.get_chunk(x - 1, y + 1),
            e: self.get_chunk(x + 1, y),
            w: self.get_chunk(x - 1, y),
            ne: self.get_chunk(x + 1, y - 1),
            n: self.get_chunk(x, y - 1),
            nw: self.get_chunk(x - 1, y - 1),
        }
    }

    /// Advances the world by one generation of Conway's Game of Life.
    pub fn step(&mut self)
        requires
            old(self).step_in_range(),
        ensures
            final(self)@ == next_generation(old(self)@),
            no_empty_chunks(final(self).contents()),
            forall|r: int| #[trigger] old(self).chunks_within(r) ==> final(self).chunks_within(r + 1),
    {
        let ghost m = self.contents();
        let mut new_gen = chunk_map_new();
        let mut extra_coords = key_set_new();
        let entries = chunk_map_iter(&self.chunks);
        // go through all the chunks
        for idx in 0..entries.len()
            invariant
                self.contents() == m,
                step_in_range_spec(m),
                forall|i: int, j: int| 0 <= i < j < entries@.len() ==> entries@[i].0 != entries@[j].0,
                forall|i: int|
                    0 <= i < entries@.len() ==> m.contains_key(#[trigger] entries@[i].0)
                        && m[entries@[i].0] == entries@[i].1@,
                forall|k: u64|
                    #[trigger] chunk_map_contents(new_gen).contains_key(k) ==> m.contains_key(k)
                        && next_rows_spec(key_hood(m, k), chunk_map_contents(new_gen)[k]),
                no_empty_chunks(chunk_map_contents(new_gen)),
                forall|i: int|
                    0 <= i < idx && !chunk_map_contents(new_gen).contains_key(#[trigger] entries@[i].0)
                        ==> next_all_dead(key_hood(m, entries@[i].0)),
                forall|t: u64|
                    #[trigger] key_set_contents(extra_coords).contains(t) <==> exists|i: int|
                        0 <= i < idx && spawned_by(m, #[trigger] entries@[i].0, t),
        {
            let coords = entries[idx].0;
            let chunk = entries[idx].1;
            let ghost before_gen = chunk_map_contents(new_gen);
            let ghost before_extra = key_set_contents(extra_coords);
            let neighbors = self.get_neighbor_chunks(coords);
            proof {
                lemma_pack_unpack(coords);
                lemma_hood_matches(neighbors, m, coords, chunk@);
                lemma_edges_spawn(neighbors, m, coords, chunk@);
            }
            add_neighbors_to_set(&mut extra_coords, coords, chunk, &neighbors);
            let new_chunk = compute_chunk_gen(Some(chunk), &neighbors);
            if let Some(new_chunk) = new_chunk {
                proof {
                    lemma_insert_nonempty(chunk_map_contents(new_gen), coords, new_chunk@);
                }
                chunk_map_insert(&mut new_gen, coords, new_chunk);
            }
            proof {
                assert forall|t: u64| #[trigger] key_set_contents(extra_coords).contains(t) <==> exists|i: int|
                    0 <= i < idx + 1 && spawned_by(m, #[trigger] entries@[i].0, t) by {
                    if spawned_by(m, coords, t) {
                        assert(entries@[idx as int].0 == coords);
                    }
                }
            }
        }
        // compute all the added chunks to the new generation
        let ghost extra = key_set_contents(extra_coords);
        proof {
            assert forall|t: u64| #[trigger] extra.contains(t) <==> exists|src: u64| spawned_by(m, src, t) by {
                if exists|src: u64| spawned_by(m, src, t) {
                    let src = choose|src: u64| spawned_by(m, src, t);
                    let (dx, dy) = choose|dx: int, dy: int| #[trigger] spawns(m, src, dx, dy) && t == offset_key(src, dx, dy);
                    assert(m.contains_key(src));
                }
            }
        }
        let extras = key_set_iter(&extra_coords);
        for idx in 0..extras.len()
            invariant
                self.contents() == m,
                step_in_range_spec(m),
                extras@.no_duplicates(),
                forall|t: u64| #[trigger] extras@.contains(t) <==> extra.contains(t),
                forall|t: u64| #[trigger] extra.contains(t) <==> exists|src: u64| spawned_by(m, src, t),
                forall|k: u64|
                    #[trigger] chunk_map_contents(new_gen).contains_key(k) ==> (m.contains_key(k) || extra.contains(k))
                        && next_rows_spec(key_hood(m, k), chunk_map_contents(new_gen)[k]),
                no_empty_chunks(chunk_map_contents(new_gen)),
                forall|k: u64|
                    m.contains_key(k) && !#[trigger] chunk_map_contents(new_gen).contains_key(k)
                        ==> next_all_dead(key_hood(m, k)),
                forall|i: int|
                    0 <= i < idx && !chunk_map_contents(new_gen).contains_key(#[trigger] extras@[i])
                        ==> next_all_dead(key_hood(m, extras@[i])),
        {
            let coords = extras[idx];
            proof {
                assert(extras@.contains(coords));
                let src = choose|src: u64| spawned_by(m, src, coords);
                lemma_spawn_target(m, src, coords);
                lemma_pack_unpack(coords);
            }
            let neighbors = self.get_neighbor_chunks(coords);
            proof {
                lemma_hood_matches(neighbors, m, coords, empty_rows());
            }
            let new_chunk = compute_chunk_gen(None, &neighbors);
            if let Some(new_chunk) = new_chunk {
                proof {
                    lemma_insert_nonempty(chunk_map_contents(new_gen), coords, new_chunk@);
                }
                chunk_map_insert(&mut new_gen, coords, new_chunk);
            }
            proof {
                assert forall|i: int|
                    0 <= i < idx + 1 && !chunk_map_contents(new_gen).contains_key(#[trigger] extras@[i])
                        implies next_all_dead(key_hood(m, extras@[i])) by {
                    if i < idx {
                        assert(extras@[i] != coords);
                    }
                }
            }
        }
        // change the old_gen with the new_gen
        proof {
            let new = chunk_map_contents(new_gen);
            assert forall|k: u64| (m.contains_key(k) || extra.contains(k)) && !#[trigger] new.contains_key(k)
                implies next_all_dead(key_hood(m, k)) by {
                if !m.contains_key(k) {
                    assert(extras@.contains(k));
                    let i = choose|i: int| 0 <= i < extras@.len() && extras@[i] == k;
                }
            }
            lemma_step_view(m, new, extra);
            assert forall|r: int| #[trigger] keys_within(m, r) implies keys_within(new, r + 1) by {
                assert forall|k: u64| #[trigger] new.contains_key(k) implies -(r + 1) <= unpack_spec(k).0
                    <= r + 1 && -(r + 1) <= unpack_spec(k).1 <= r + 1 by {
                    if !m.contains_key(k) {
                        assert(extra.contains(k));
                        let src = choose|src: u64| spawned_by(m, src, k);
                        let (dx, dy) = choose|dx: int, dy: int| #[trigger] spawns(m, src, dx, dy) && k == offset_key(src, dx, dy);
                        assert(m.contains_key(src));
                        lemma_unpack_pack((unpack_spec(src).0 + dx) as i32, (unpack_spec(src).1 + dy) as i32);
                    }
                }
            }
        }
        self.chunks = new_gen;
    }

    /// Steps the world, as `step` does, where `step` may be called (see
    /// `can_step`), and says whether it did; otherwise leaves the world as it is.
    pub fn try_step(&mut self) -> (r: bool)
        ensures
            r == old(self).step_in_range(),
            r ==> final(self)@ == next_generation(old(self)@) && no_empty_chunks(final(self).contents()),
            r ==> forall|d: int| #[trigger] old(self).chunks_within(d) ==> final(self).chunks_within(d + 1),
            !r ==> final(self).contents() == old(self).contents() && final(self)@ == old(self)@,
    {
        if self.can_step() {
            self.step();
            true
        } else {
            false
        }
    }

    /// Every live cell once, as (x, y): chunk after chunk, in the order in which
    /// the map walks its chunks (which this contract leaves open), and within a
    /// chunk row by row from the top, each row left to right.
    pub fn live_cells(&self) -> (r: Vec<(i64, i64)>)
        ensures
            as_cells(r@).no_duplicates(),
            as_cells(r@).to_set() == self@,
            exists|keys: Seq<u64>|
                keys.no_duplicates() && keys.to_set() == self.contents().dom() && as_cells(r@)
                    == #[trigger] cells_in_order(self.contents(), keys),
    {
        let ghost m = self.contents();
        let mut list: Vec<(i64, i64)> = Vec::new();
        let entries = chunk_map_iter(&self.chunks);
        let ghost keys = entries@.map_values(|e: (u64, &Chunk)| e.0);
        for idx in 0..entries.len()
            invariant
                self.contents() == m,
                keys == entries@.map_values(|e: (u64, &Chunk)| e.0),
                forall|i: int, j: int| 0 <= i < j < entries@.len() ==> entries@[i].0 != entries@[j].0,
                forall|i: int|
                    0 <= i < entries@.len() ==> m.contains_key(#[trigger] entries@[i].0)
                        && m[entries@[i].0] == entries@[i].1@,
                forall|k: u64|
                    m.contains_key(k) ==> exists|i: int| 0 <= i < entries@.len() && #[trigger] entries@[i].0 == k,
                as_cells(list@).no_duplicates(),
                forall|c: (int, int)|
                    #[trigger] as_cells(list@).contains(c) <==> live_set(m).contains(c) && walked(
                        keys,
                        c,
                        idx as int,
                        0,
                        0,
                    ),
                as_cells(list@) == cells_in_order(m, keys.take(idx as int)),
        {
            let chunk_coords = entries[idx].0;
            let chunk = entries[idx].1;
            let (chunk_x, chunk_y) = unpack_coords(chunk_coords);
            proof {
                lemma_pack_unpack(chunk_coords);
                assert(keys[idx as int] == chunk_coords);
                assert forall|i: int| 0 <= i < idx implies keys[i] != chunk_coords by {
                    assert(entries@[i].0 != entries@[idx as int].0);
                }
                assert(as_cells(list@) =~= cells_in_order(m, keys.take(idx as int)) + chunk_cells(
                    chunk@,
                    chunk_x as int,
                    chunk_y as int,
                    0,
                ));
            }
            for local_y in 0..32usize
                invariant
                    self.contents() == m,
                    0 <= idx < entries@.len(),
                    keys.len() == entries@.len(),
                    keys[idx as int] == chunk_coords,
                    forall|i: int| 0 <= i < idx ==> keys[i] != chunk_coords,
                    key_of(chunk_x as int, chunk_y as int) == chunk_coords,
                    m.contains_key(chunk_coords),
                    m[chunk_coords] == chunk@,
                    as_cells(list@).no_duplicates(),
                    forall|c: (int, int)|
                        #[trigger] as_cells(list@).contains(c) <==> live_set(m).contains(c) && walked(
                            keys,
                            c,
                            idx as int,
                            local_y as int,
                            0,
                        ),
                    (chunk_x, chunk_y) == unpack_spec(chunk_coords),
                    as_cells(list@) == cells_in_order(m, keys.take(idx as int)) + chunk_cells(
                        chunk@,
                        chunk_x as int,
                        chunk_y as int,
                        local_y as int,
                    ),
            {
                let row = chunk.get_row(local_y);
                let ghost prefix = cells_in_order(m, keys.take(idx as int)) + chunk_cells(
                    chunk@,
                    chunk_x as int,
                    chunk_y as int,
                    local_y as int,
                );
                // an empty row holds no live cell
                if row != 0 {
                    assert(as_cells(list@) =~= prefix + row_cells(
                        row,
                        chunk_x as int,
                        chunk_y as int,
                        local_y as int,
                        0,
                    ));
                    for local_x in 0..32u32
                        invariant
                            self.contents() == m,
                            0 <= idx < entries@.len(),
                            0 <= local_y < 32,
                            keys.len() == entries@.len(),
                            keys[idx as int] == chunk_coords,
                            forall|i: int| 0 <= i < idx ==> keys[i] != chunk_coords,
                            key_of(chunk_x as int, chunk_y as int) == chunk_coords,
                            m.contains_key(chunk_coords),
                            m[chunk_coords] == chunk@,
                            row == chunk@[local_y as int],
                            as_cells(list@).no_duplicates(),
                            forall|c: (int, int)|
                                #[trigger] as_cells(list@).contains(c) <==> live_set(m).contains(c)
                                    && walked(keys, c, idx as int, local_y as int, local_x as int),
                            as_cells(list@) == cells_in_order(m, keys.take(idx as int)) + chunk_cells(
                                chunk@,
                                chunk_x as int,
                                chunk_y as int,
                                local_y as int,
                            ) + row_cells(row, chunk_x as int, chunk_y as int, local_y as int, local_x as int),
                    {
                        let ghost before = list@;
                        let ghost cell = (chunk_x * 32 + local_x, chunk_y * 32 + local_y);
                        proof {
                            lemma_cell_in_chunk(chunk_x as int, chunk_y as int, local_x as int, local_y as int);
                            lemma_bit_test(row, (31 - local_x) as u32);
                            assert(live_set(m).contains(cell) == bit(row, (31 - local_x) as u32));
                            assert(!walked(keys, cell, idx as int, local_y as int, local_x as int));
                        }
                        if (row & (1 << (31 - local_x))) != 0 {
                            let x = chunk_x as i64 * 32 + local_x as i64;
                            let y = chunk_y as i64 * 32 + local_y as i64;
                            list.push((x, y));
                            proof {
                                assert(as_cells(list@) =~= as_cells(before).push(cell));
                                assert(as_cells(list@)[as_cells(before).len() as int] == cell);
                                assert(as_cells(list@).contains(cell));
                                assert(as_cells(list@) =~= cells_in_order(m, keys.take(idx as int)) + chunk_cells(
                                    chunk@,
                                    chunk_x as int,
                                    chunk_y as int,
                                    local_y as int,
                                ) + row_cells(row, chunk_x as int, chunk_y as int, local_y as int, local_x + 1));
                            }
                        } else {
                            assert(list@ == before);
                            assert(as_cells(list@) =~= cells_in_order(m, keys.take(idx as int)) + chunk_cells(
                                chunk@,
                                chunk_x as int,
                                chunk_y as int,
                                local_y as int,
                            ) + row_cells(row, chunk_x as int, chunk_y as int, local_y as int, local_x + 1));
                        }
                        proof {
                            assert(!as_cells(before).contains(cell));
                            assert forall|c: (int, int)| #[trigger] as_cells(list@).contains(c) <==> live_set(
                                m,
                            ).contains(c) && walked(keys, c, idx as int, local_y as int, local_x + 1) by {
                                if live_set(m).contains(c) && walked(keys, c, idx as int, local_y as int, local_x + 1)
                                    && !walked(keys, c, idx as int, local_y as int, local_x as int) {
                                    lemma_place_of_cell(c, chunk_x as int, chunk_y as int);
                                    assert(c == cell);
                                }
                                if c != cell {
                                    if as_cells(list@).contains(c) {
                                        let i = choose|i: int| 0 <= i < as_cells(list@).len() && as_cells(list@)[i] == c;
                                        if i < as_cells(before).len() {
                                            assert(as_cells(before)[i] == c);
                                        }
                                    }
                                    if as_cells(before).contains(c) {
                                        let i = choose|i: int| 0 <= i < as_cells(before).len() && as_cells(before)[i] == c;
                                        assert(as_cells(list@)[i] == c);
                                    }
                                }
                            }
                        }
                    }
                    assert(as_cells(list@) =~= cells_in_order(m, keys.take(idx as int)) + chunk_cells(
                        chunk@,
                        chunk_x as int,
                        chunk_y as int,
                        local_y + 1,
                    ));
                } else {
                    proof {
                        lemma_row_cells_zero(chunk_x as int, chunk_y as int, local_y as int, 32);
                        assert(as_cells(list@) =~= cells_in_order(m, keys.take(idx as int)) + chunk_cells(
                            chunk@,
                            chunk_x as int,
                            chunk_y as int,
                            local_y + 1,
                        ));
                        assert forall|c: (int, int)| #[trigger] as_cells(list@).contains(c) <==> live_set(
                            m,
                        ).contains(c) && walked(keys, c, idx as int, local_y + 1, 0) by {
                            if live_set(m).contains(c) && walked(keys, c, idx as int, local_y + 1, 0)
                                && !walked(keys, c, idx as int, local_y as int, 0) {
                                lemma_place_of_cell(c, chunk_x as int, chunk_y as int);
                                lemma_no_bit_of_zero((31 - c.0 % 32) as u32);
                            }
                        }
                    }
                }
            }
            proof {
                assert(keys.take(idx + 1).drop_last() =~= keys.take(idx as int));
                assert(keys.take(idx + 1).last() == chunk_coords);
                assert(as_cells(list@) =~= cells_in_order(m, keys.take(idx + 1)));
                assert forall|c: (int, int)| #[trigger] as_cells(list@).contains(c) <==> live_set(m).contains(c)
                    && walked(keys, c, idx + 1, 0, 0) by {
                    if walked(keys, c, idx + 1, 0, 0) && !walked(keys, c, idx as int, 32, 0) {
                        let i = choose|i: int| 0 <= i < idx + 1 && keys[i] == key_of(c.0 / 32, c.1 / 32);
                        assert(i == idx);
                    }
                    if live_set(m).contains(c) {
                        lemma_chunk_of_in_range(c.1);
                    }
                }
            }
        }
        proof {
            assert forall|c: (int, int)| as_cells(list@).to_set().contains(c) == live_set(m).contains(c) by {
                if live_set(m).contains(c) {
                    let k = key_of(c.0 / 32, c.1 / 32);
                    if !m.contains_key(k) {
                        lemma_no_bit_of_zero((31 - c.0 % 32) as u32);
                    }
                    let i = choose|i: int| 0 <= i < entries@.len() && #[trigger] entries@[i].0 == k;
                    assert(keys[i] == k);
                }
            }
            assert(as_cells(list@).to_set() =~= live_set(m));
            assert(keys.take(keys.len() as int) =~= keys);
            assert forall|i: int, j: int| 0 <= i < j < keys.len() implies keys[i] != keys[j] by {
                assert(entries@[i].0 != entries@[j].0);
            }
            assert forall|k: u64| keys.to_set().contains(k) == m.contains_key(k) by {
                if m.contains_key(k) {
                    let i = choose|i: int| 0 <= i < entries@.len() && #[trigger] entries@[i].0 == k;
                    assert(keys[i] == k);
                }
                if keys.to_set().contains(k) {
                    let i = choose|i: int| 0 <= i < keys.len() && keys[i] == k;
                    assert(entries@[i].0 == k);
                }
            }
            assert(keys.to_set() =~= m.dom());
            assert(as_cells(list@) == cells_in_order(m, keys));
        }
        list
    }

    /// Makes alive the cell under each `*` of the text `pattern`, put with its
    /// top-left corner at (`origin_x`, `origin_y`): line `l`, column `c` of the
    /// text lands on (`origin_x + c`, `origin_y + l`), wrapped as `wrap_cell`
    /// says. Other characters leave their cells as they are.
    pub fn load_pattern(&mut self, origin_x: i64, origin_y: i64, pattern: &str)
        requires
            pattern@.len() <= isize::MAX,
            forall|p: int|
                0 <= p < pattern@.len() && pattern@[p] == '*' ==> i64::MIN <= origin_x + col_of(
                    pattern@,
                    p,
                ) <= i64::MAX && i64::MIN <= origin_y + line_of(pattern@, p) <= i64::MAX,
        ensures
            final(self)@ == old(self)@.union(
                pattern_cells(pattern@, pattern@.len() as int, origin_x as int, origin_y as int),
            ),
            final(self).contents().dom() == old(self).contents().dom().union(
                pattern_keys(pattern@, pattern@.len() as int, origin_x as int, origin_y as int),
            ),
    {
        let ghost start_keys = self.contents().dom();
        let ghost start = self@;
        let mut line_idx: usize = 0;
        let mut char_idx: usize = 0;
        for char in it: pattern.chars()
            invariant
                it.seq() == pattern@,
                pattern@.len() <= isize::MAX,
                forall|p: int|
                    0 <= p < pattern@.len() && pattern@[p] == '*' ==> i64::MIN <= origin_x + col_of(
                        pattern@,
                        p,
                    ) <= i64::MAX && i64::MIN <= origin_y + line_of(pattern@, p) <= i64::MAX,
                line_idx == line_of(pattern@, it.index()),
                char_idx == col_of(pattern@, it.index()),
                self@ == start.union(
                    pattern_cells(pattern@, it.index(), origin_x as int, origin_y as int),
                ),
                self.contents().dom() == start_keys.union(
                    pattern_keys(pattern@, it.index(), origin_x as int, origin_y as int),
                ),
        {
            let ghost before_keys = self.contents().dom();
            let ghost p = it.index();
            let ghost before = self@;
            proof {
                lemma_line_col_bounds(pattern@, p);
                assert(pattern@[p] == char);
            }
            if char == '\n' {
                line_idx += 1;
                char_idx = 0;
            } else {
                if char == '*' {
                    let x = origin_x + char_idx as i64;
                    let y = origin_y + line_idx as i64;
                    self.set_cell(x, y, true);
                }
                char_idx += 1;
            }
            proof {
                let ox = origin_x as int;
                let oy = origin_y as int;
                let here = (wrap_cell(ox + col_of(pattern@, p)), wrap_cell(oy + line_of(pattern@, p)));
                assert forall|c: (int, int)| #[trigger] pattern_cells(pattern@, p + 1, ox, oy).contains(c)
                    == (pattern_cells(pattern@, p, ox, oy).contains(c) || (char == '*' && c == here)) by {
                    if pattern_cells(pattern@, p + 1, ox, oy).contains(c) {
                        let q = choose|q: int|
                            0 <= q < p + 1 && pattern@[q] == '*' && c == (wrap_cell(ox + col_of(pattern@, q)), wrap_cell(
                                oy + line_of(pattern@, q),
                            ));
                        if q < p {
                            assert(pattern_cells(pattern@, p, ox, oy).contains(c));
                        }
                    }
                    if pattern_cells(pattern@, p, ox, oy).contains(c) {
                        let q = choose|q: int|
                            0 <= q < p && pattern@[q] == '*' && c == (wrap_cell(ox + col_of(pattern@, q)), wrap_cell(
                                oy + line_of(pattern@, q),
                            ));
                        assert(0 <= q < p + 1);
                    }
                    if char == '*' && c == here {
                        assert(0 <= p < p + 1 && pattern@[p] == '*');
                    }
                }
                assert(self@ =~= start.union(pattern_cells(pattern@, p + 1, ox, oy)));
                let here_key = chunk_key_of_cell(ox + col_of(pattern@, p), oy + line_of(pattern@, p));
                assert forall|k: u64| #[trigger] pattern_keys(pattern@, p + 1, ox, oy).contains(k)
                    == (pattern_keys(pattern@, p, ox, oy).contains(k) || (char == '*' && k == here_key)) by {
                    if pattern_keys(pattern@, p + 1, ox, oy).contains(k) {
                        let q = choose|q: int|
                            0 <= q < p + 1 && pattern@[q] == '*' && k == chunk_key_of_cell(
                                ox + col_of(pattern@, q),
                                oy + line_of(pattern@, q),
                            );
                        if q < p {
                            assert(pattern_keys(pattern@, p, ox, oy).contains(k));
                        }
                    }
                    if pattern_keys(pattern@, p, ox, oy).contains(k) {
                        let q = choose|q: int|
                            0 <= q < p && pattern@[q] == '*' && k == chunk_key_of_cell(
                                ox + col_of(pattern@, q),
                                oy + line_of(pattern@, q),
                            );
                        assert(0 <= q < p + 1);
                    }
                    if char == '*' && k == here_key {
                        assert(0 <= p < p + 1 && pattern@[p] == '*');
                    }
                }
                assert(self.contents().dom() =~= start_keys.union(pattern_keys(pattern@, p + 1, ox, oy)));
            }
        }
    }

    /// Whether `step` may be called: whether every stored chunk, and every
    /// chunk that the step would add, has neighbours on every side within `i32`.
    pub fn can_step(&self) -> (r: bool)
        ensures
            r == self.step_in_range(),
    {
        let ghost m = self.contents();
        let entries = chunk_map_iter(&self.chunks);
        for idx in 0..entries.len()
            invariant
                self.contents() == m,
                forall|i: int|
                    0 <= i < entries@.len() ==> m.contains_key(#[trigger] entries@[i].0)
                        && m[entries@[i].0] == entries@[i].1@,
                forall|k: u64|
                    m.contains_key(k) ==> exists|i: int| 0 <= i < entries@.len() && #[trigger] entries@[i].0 == k,
                forall|i: int| 0 <= i < idx ==> key_step_ok(m, #[trigger] entries@[i].0),
        {
            let coords = entries[idx].0;
            let chunk = entries[idx].1;
            let (x, y) = unpack_coords(coords);
            if x == i32::MIN || x == i32::MAX || y == i32::MIN || y == i32::MAX {
                proof {
                    assert(!key_step_ok(m, coords));
                }
                return false;
            }
            let neighbors = self.get_neighbor_chunks(coords);
            let mut spawned = key_set_new();
            proof {
                lemma_pack_unpack(coords);
                lemma_edges_spawn(neighbors, m, coords, chunk@);
            }
            add_neighbors_to_set(&mut spawned, coords, chunk, &neighbors);
            let targets = key_set_iter(&spawned);
            for t_idx in 0..targets.len()
                invariant
                    self.contents() == m,
                    m.contains_key(coords),
                    key_interior(coords),
                    (x, y) == unpack_spec(coords),
                    forall|t: u64| #[trigger] targets@.contains(t) <==> spawned_by(m, coords, t),
                    forall|j: int| 0 <= j < t_idx ==> key_interior(#[trigger] targets@[j]),
            {
                let (tx, ty) = unpack_coords(targets[t_idx]);
                proof {
                    let t = targets@[t_idx as int];
                    assert(targets@.contains(t));
                    let (dx, dy) = choose|dx: int, dy: int| #[trigger] spawns(m, coords, dx, dy) && t == offset_key(coords, dx, dy);
                    lemma_unpack_pack((x + dx) as i32, (y + dy) as i32);
                }
                if tx == i32::MIN || tx == i32::MAX || ty == i32::MIN || ty == i32::MAX {
                    proof {
                        let t = targets@[t_idx as int];
                        let (dx, dy) = choose|dx: int, dy: int| #[trigger] spawns(m, coords, dx, dy) && t == offset_key(coords, dx, dy);
                        assert(!key_step_ok(m, coords));
                    }
                    return false;
                }
            }
            proof {
                assert forall|dx: int, dy: int| #[trigger] spawns(m, coords, dx, dy) implies interior(
                    unpack_spec(coords).0 + dx,
                ) && interior(unpack_spec(coords).1 + dy) by {
                    let t = offset_key(coords, dx, dy);
                    assert(spawned_by(m, coords, t));
                    assert(targets@.contains(t));
                    let j = choose|j: int| 0 <= j < targets@.len() && targets@[j] == t;
                    lemma_unpack_pack((x + dx) as i32, (y + dy) as i32);
                }
            }
        }
        proof {
            assert forall|k: u64| #[trigger] m.contains_key(k) implies key_interior(k) by {
                let i = choose|i: int| 0 <= i < entries@.len() && #[trigger] entries@[i].0 == k;
                assert(key_step_ok(m, entries@[i].0));
            }
            assert forall|k: u64, dx: int, dy: int| #[trigger] spawns(m, k, dx, dy) implies interior(
                unpack_spec(k).0 + dx,
            ) && interior(unpack_spec(k).1 + dy) by {
                let i = choose|i: int| 0 <= i < entries@.len() && #[trigger] entries@[i].0 == k;
                assert(key_step_ok(m, entries@[i].0));
            }
        }
        true
    }

    /// Stores `chunk` at chunk coordinates (`cx`, `cy`), replacing the cells there.
    pub fn add_chunk(&mut self, cx: i32, cy: i32, chunk: Chunk)
        ensures
            final(self)@ == with_chunk(old(self)@, cx as int, cy as int, chunk@),
            final(self).contents() == old(self).contents().insert(key_of(cx as int, cy as int), chunk@),
    {
        let ghost m = self.contents();
        let ghost rows = chunk@;
        chunk_map_insert(&mut self.chunks, pack_coords(cx, cy), chunk);
        proof {
            assert forall|c: (int, int)| #[trigger] self@.contains(c) == with_chunk(
                live_set(m),
                cx as int,
                cy as int,
                rows,
            ).contains(c) by {
                lemma_cell_after_insert(m, cx as int, cy as int, rows, c.0, c.1);
            }
            assert(self@ =~= with_chunk(live_set(m), cx as int, cy as int, rows));
        }
    }

    /// An empty world.
    pub fn new() -> (w: Self)
        ensures
            w@ == Set::<(int, int)>::empty(),
            w.contents().dom() == Set::<u64>::empty(),
    {
        let w = Self { chunks: chunk_map_new() };
        proof {
            lemma_nothing_alive(w.contents());
        }
        assert(w@ =~= Set::<(int, int)>::empty());
        w
    }

    /// Kills every cell.
    pub fn clear(&mut self)
        ensures
            final(self)@ == Set::<(int, int)>::empty(),
            final(self).contents().dom() == Set::<u64>::empty(),
    {
        chunk_map_clear(&mut self.chunks);
        proof {
            lemma_nothing_alive(self.contents());
        }
        assert(self@ =~= Set::<(int, int)>::empty());
    }

    /// The chunk at chunk coordinates (`cx`, `cy`), if the world holds one.
    pub fn get_chunk(&self, cx: i32, cy: i32) -> (r: Option<&Chunk>)
        ensures
            match r {
                Some(c) => self.contents().contains_key(key_of(cx as int, cy as int)) && c@
                    == self.contents()[key_of(cx as int, cy as int)],
                None => !self.contents().contains_key(key_of(cx as int, cy as int)),
            },
    {
        chunk_map_get(&self.chunks, pack_coords(cx, cy))
    }

    /// Whether the cell (`x`, `y`) is alive; a coordinate outside the range
    /// that chunk coordinates can hold is wrapped as `wrap_cell` says.
    pub fn is_alive(&self, x: i64, y: i64) -> (r: bool)
        ensures
            r == self@.contains((wrap_cell(x as int), wrap_cell(y as int))),
    {
        let chunk_x = x.checked_div_euclid(32).unwrap();
        let chunk_y = y.checked_div_euclid(32).unwrap();
        let local_x = x.checked_rem_euclid(32).unwrap();
        let local_y = y.checked_rem_euclid(32).unwrap();
        let chunk_coords = pack_coords(
            #[verifier::truncate]
            (chunk_x as i32),
            #[verifier::truncate]
            (chunk_y as i32),
        );
        let chunk = chunk_map_get(&self.chunks, chunk_coords);
        let ghost m = self.contents();
        let ghost wx = wrap_cell(x as int);
        let ghost wy = wrap_cell(y as int);
        proof {
            lemma_wrap_cell(x as int);
            lemma_wrap_cell(y as int);
            assert(self@.contains((wx, wy)) == cell_of(chunk_rows(m, wx / 32, wy / 32), local_x as int, local_y as int));
        }
        if let Some(chunk) = chunk {
            let row = chunk.get_row(local_y as usize);
            proof {
                lemma_bit_test(row, (31 - local_x) as u32);
            }
            (row & (1u32 << ((31 - local_x) as u32))) != 0
        } else {
            proof {
                lemma_no_bit_of_zero((31 - local_x) as u32);
            }
            false
        }
    }

    /// Makes the cell (`x`, `y`) alive or dead; a coordinate outside the range
    /// that chunk coordinates can hold is wrapped as `wrap_cell` says.
    pub fn set_cell(&mut self, x: i64, y: i64, value: bool)
        ensures
            final(self)@ == with_cell(old(self)@, x as int, y as int, value),
            final(self).contents().dom() == old(self).contents().dom().insert(
                chunk_key_of_cell(x as int, y as int),
            ),
    {
        let ghost m = self.contents();
        let chunk_x = x.checked_div_euclid(32).unwrap();
        let chunk_y = y.checked_div_euclid(32).unwrap();
        let local_x = x.checked_rem_euclid(32).unwrap();
        let local_y = y.checked_rem_euclid(32).unwrap();
        let chunk_coords = pack_coords(
            #[verifier::truncate]
            (chunk_x as i32),
            #[verifier::truncate]
            (chunk_y as i32),
        );

        // get or insert the chunk
        let chunk = chunk_map_entry_or_insert(&mut self.chunks, chunk_coords, Chunk::new());
        let row = chunk.get_row(local_y as usize);
        let mask = 1u32 << ((31 - local_x) as u32);
        let new_row = if value {
            row | mask
        } else {
            row & !mask
        };
        let ghost old_rows = chunk@;
        chunk.set_row(local_y as usize, new_row);
        proof {
            let cx = (chunk_x as i32) as int;
            let cy = (chunk_y as i32) as int;
            let wx = wrap_cell(x as int);
            let wy = wrap_cell(y as int);
            lemma_wrap_cell(x as int);
            lemma_wrap_cell(y as int);
            assert(old_rows == chunk_rows(m, cx, cy));
            let rows = old_rows.update(local_y as int, new_row);
            assert(self.contents() == m.insert(key_of(cx, cy), rows));
            let expected = if value {
                live_set(m).insert((wx, wy))
            } else {
                live_set(m).remove((wx, wy))
            };
            assert forall|c: (int, int)| #[trigger] self@.contains(c) == expected.contains(c) by {
                lemma_cell_after_insert(m, cx, cy, rows, c.0, c.1);
                if in_cell_range(c.0) && in_cell_range(c.1) && c.0 / 32 == cx && c.1 / 32 == cy {
                    lemma_chunk_of_in_range(c.0);
                    lemma_chunk_of_in_range(c.1);
                    let s = (31 - c.0 % 32) as u32;
                    if value {
                        lemma_bit_set(rows[c.1 % 32], (31 - local_x) as u32, s);
                        lemma_bit_set(old_rows[c.1 % 32], (31 - local_x) as u32, s);
                    } else {
                        lemma_bit_clear(rows[c.1 % 32], (31 - local_x) as u32, s);
                        lemma_bit_clear(old_rows[c.1 % 32], (31 - local_x) as u32, s);
                    }
                }
            }
            assert(self@ =~= expected);
        }
    }
}

} // verus!
