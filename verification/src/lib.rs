//! Conway's Game of Life on a sparse world of 32x32 chunks whose rows are
//! packed into `u32`s, with each generation computed by bitwise neighbour
//! counting, verified against the rules of the game.

/// Bit-level facts: single bits, the four-bit lane counter, the rule.
pub mod bits;
/// A 32x32 chunk of cells, read from and drawn as text.
pub mod chunk;
/// The hash map and hash set that hold a world's chunks.
pub mod chunk_map;
/// Packing chunk coordinates into map keys.
pub mod coords;
/// Checks that a pattern fits in the coordinates a world can hold.
pub mod extent;
/// The next generation of one chunk from its neighbourhood.
pub mod generation;
/// The rules of the game on sets of cells.
pub mod life;
/// Lines and columns of pattern text.
pub mod pattern;
/// Drawing a world into a pixel frame.
pub mod raster;
/// Why a world step computes the next generation of every cell.
pub mod step_proof;
/// The world: chunks stored by their coordinates.
pub mod world;

pub use chunk::Chunk;
pub use world::World;
