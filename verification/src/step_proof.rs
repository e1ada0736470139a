use vstd::prelude::*;

use crate::bits::{as_count, bit, lemma_bit_of_nonzero, lemma_no_bit_of_zero};
use crate::chunk::{empty_rows, lemma_chunk_len, Chunk};
use crate::coords::{lemma_unpack_pack, unpack_spec};
use crate::generation::{
    NeighborChunks, block_of, hood_cell, hood_next, next_all_dead, next_rows_spec,
};
use crate::life::{in_cell_range, lemma_chunk_of_in_range, lemma_split_cell, next_generation};
use crate::world::{cell_alive, chunk_rows, key_of, live_set};

verus! {

broadcast use lemma_chunk_len;

/// Whether a chunk coordinate has a neighbour on both sides within `i32`.
pub open spec fn interior(c: int) -> bool {
    i32::MIN < c < i32::MAX
}

/// Whether the chunk stored under `k` has neighbours on every side within `i32`.
pub open spec fn key_interior(k: u64) -> bool {
    interior(unpack_spec(k).0 as int) && interior(unpack_spec(k).1 as int)
}

/// The key of the chunk at offset (`dx`, `dy`) from the chunk stored under `k`.
pub open spec fn offset_key(k: u64, dx: int, dy: int) -> u64 {
    key_of(unpack_spec(k).0 + dx, unpack_spec(k).1 + dy)
}

/// Whether a live cell of the chunk `rows` touches the chunk at offset (`dx`, `dy`).
pub open spec fn edge_live(rows: Seq<u32>, dx: int, dy: int) -> bool {
    if dy == -1 {
        if dx == 0 {
            rows[0] != 0
        } else if dx == -1 {
            bit(rows[0], 31)
        } else {
            bit(rows[0], 0)
        }
    } else if dy == 1 {
        if dx == 0 {
            rows[31] != 0
        } else if dx == -1 {
            bit(rows[31], 31)
        } else {
            bit(rows[31], 0)
        }
    } else if dx == -1 {
        exists|i: int| 0 <= i < 32 && #[trigger] bit(rows[i], 31)
    } else {
        exists|i: int| 0 <= i < 32 && #[trigger] bit(rows[i], 0)
    }
}

/// Whether (`dx`, `dy`) names one of the eight neighbouring chunks.
pub open spec fn is_offset(dx: int, dy: int) -> bool {
    -1 <= dx <= 1 && -1 <= dy <= 1 && !(dx == 0 && dy == 0)
}

/// Whether a generation step must also compute the chunk at offset
/// (`dx`, `dy`) from the stored chunk `k`: the world holds no chunk there and a
/// live cell of `k` touches it.
pub open spec fn spawns(m: Map<u64, Seq<u32>>, k: u64, dx: int, dy: int) -> bool {
    &&& is_offset(dx, dy)
    &&& m.contains_key(k)
    &&& !m.contains_key(offset_key(k, dx, dy))
    &&& edge_live(m[k], dx, dy)
}

/// Whether the stored chunk `k` makes a generation step compute the chunk `t`.
pub open spec fn spawned_by(m: Map<u64, Seq<u32>>, k: u64, t: u64) -> bool {
    exists|dx: int, dy: int| #[trigger] spawns(m, k, dx, dy) && t == offset_key(k, dx, dy)
}

/// Whether a generation step over the chunks `m` stays within `i32` chunk
/// coordinates: every stored chunk, and every chunk that one of them makes the
/// step compute, has neighbours on every side.
pub open spec fn step_in_range_spec(m: Map<u64, Seq<u32>>) -> bool {
    &&& forall|k: u64| #[trigger] m.contains_key(k) ==> key_interior(k)
    &&& forall|k: u64, dx: int, dy: int|
        #[trigger] spawns(m, k, dx, dy) ==> interior(unpack_spec(k).0 + dx) && interior(
            unpack_spec(k).1 + dy,
        )
}

/// Whether every chunk of `m` lies within `r` chunks of chunk (0, 0) on both axes.
pub open spec fn keys_within(m: Map<u64, Seq<u32>>, r: int) -> bool {
    forall|k: u64|
        #[trigger] m.contains_key(k) ==> -r <= unpack_spec(k).0 <= r && -r <= unpack_spec(k).1 <= r
}

/// Chunks that lie within `r` of chunk (0, 0), with `r + 1` still inside `i32`
/// on both sides, can take a generation step.
pub proof fn lemma_within_step_in_range(m: Map<u64, Seq<u32>>, r: int)
    requires
        keys_within(m, r),
        0 <= r < i32::MAX - 1,
    ensures
        step_in_range_spec(m),
{
    assert forall|k: u64, dx: int, dy: int| #[trigger] spawns(m, k, dx, dy) implies interior(
        unpack_spec(k).0 + dx,
    ) && interior(unpack_spec(k).1 + dy) by {
        assert(m.contains_key(k));
    }
}

/// The 3x3 chunks around chunk (`cx`, `cy`) of `m`, row by row from the north-west.
pub open spec fn world_hood(m: Map<u64, Seq<u32>>, cx: int, cy: int) -> Seq<Seq<u32>> {
    seq![
        chunk_rows(m, cx - 1, cy - 1), chunk_rows(m, cx, cy - 1), chunk_rows(m, cx + 1, cy - 1),
        chunk_rows(m, cx - 1, cy), chunk_rows(m, cx, cy), chunk_rows(m, cx + 1, cy),
        chunk_rows(m, cx - 1, cy + 1), chunk_rows(m, cx, cy + 1), chunk_rows(m, cx + 1, cy + 1),
    ]
}

/// The 3x3 chunks around the chunk stored under `k`.
pub open spec fn key_hood(m: Map<u64, Seq<u32>>, k: u64) -> Seq<Seq<u32>> {
    world_hood(m, unpack_spec(k).0 as int, unpack_spec(k).1 as int)
}

/// Whether `opt` is what `m` holds at chunk (`cx`, `cy`).
pub open spec fn opt_matches(opt: Option<&Chunk>, m: Map<u64, Seq<u32>>, cx: int, cy: int) -> bool {
    match opt {
        Some(c) => m.contains_key(key_of(cx, cy)) && c@ == m[key_of(cx, cy)],
        None => !m.contains_key(key_of(cx, cy)),
    }
}

/// Whether the neighbour chunks `nb` are those of chunk (`cx`, `cy`) of `m`.
pub open spec fn neighbors_match(nb: NeighborChunks, m: Map<u64, Seq<u32>>, cx: int, cy: int) -> bool {
    &&& opt_matches(nb.nw, m, cx - 1, cy - 1)
    &&& opt_matches(nb.n, m, cx, cy - 1)
    &&& opt_matches(nb.ne, m, cx + 1, cy - 1)
    &&& opt_matches(nb.w, m, cx - 1, cy)
    &&& opt_matches(nb.e, m, cx + 1, cy)
    &&& opt_matches(nb.sw, m, cx - 1, cy + 1)
    &&& opt_matches(nb.s, m, cx, cy + 1)
    &&& opt_matches(nb.se, m, cx + 1, cy + 1)
}

/// The neighbour in direction (`dx`, `dy`).
pub open spec fn nb_at<'a>(nb: NeighborChunks<'a>, dx: int, dy: int) -> Option<&'a Chunk> {
    if dy == -1 {
        if dx == -1 {
            nb.nw
        } else if dx == 0 {
            nb.n
        } else {
            nb.ne
        }
    } else if dy == 0 {
        if dx == -1 {
            nb.w
        } else {
            nb.e
        }
    } else {
        if dx == -1 {
            nb.sw
        } else if dx == 0 {
            nb.s
        } else {
            nb.se
        }
    }
}

/// Number of the first `n` rows of `rows` with bit `j` set.
pub open spec fn count_bit(rows: Seq<u32>, n: int, j: u32) -> int
    decreases n,
{
    if n <= 0 {
        0
    } else {
        count_bit(rows, n - 1, j) + as_count(bit(rows[n - 1], j))
    }
}

pub(crate) proof fn lemma_count_bit(rows: Seq<u32>, n: int, j: u32)
    requires
        0 <= n,
    ensures
        0 <= count_bit(rows, n, j) <= n,
        count_bit(rows, n, j) != 0 <==> exists|i: int| 0 <= i < n && #[trigger] bit(rows[i], j),
    decreases n,
{
    if n > 0 {
        lemma_count_bit(rows, n - 1, j);
        if count_bit(rows, n - 1, j) != 0 {
            let w = choose|i: int| 0 <= i < n - 1 && #[trigger] bit(rows[i], j);
            assert(bit(rows[w], j));
        }
    }
}

/// Seen from a chunk that has neighbours on every side, a cell of its 3x3
/// neighbourhood is the world cell at the same offset.
pub(crate) proof fn lemma_world_hood_cell(m: Map<u64, Seq<u32>>, cx: int, cy: int, a: int, b: int)
    requires
        interior(cx),
        interior(cy),
        -1 <= a <= 32,
        -1 <= b <= 32,
    ensures
        hood_cell(world_hood(m, cx, cy), a, b) == cell_alive(m, cx * 32 + a, cy * 32 + b),
{
    let bx = block_of(a);
    let by = block_of(b);
    lemma_split_cell(cx * 32 + a, cx + bx - 1, a - (bx - 1) * 32);
    lemma_split_cell(cy * 32 + b, cy + by - 1, b - (by - 1) * 32);
    let h = world_hood(m, cx, cy);
    assert(h[by * 3 + bx] == chunk_rows(m, cx + bx - 1, cy + by - 1)) by {
        if by == 0 {
            if bx == 0 {
            } else if bx == 1 {
            } else {
            }
        } else if by == 1 {
            if bx == 0 {
            } else if bx == 1 {
            } else {
            }
        } else {
            if bx == 0 {
            } else if bx == 1 {
            } else {
            }
        }
    }
}

/// The next state of a cell of a chunk with neighbours on every side, computed
/// from the chunk's neighbourhood, is its state in the next generation.
pub(crate) proof fn lemma_next_matches(m: Map<u64, Seq<u32>>, cx: int, cy: int, lx: int, ly: int)
    requires
        interior(cx),
        interior(cy),
        0 <= lx < 32,
        0 <= ly < 32,
    ensures
        hood_next(world_hood(m, cx, cy), lx, ly) == next_generation(live_set(m)).contains(
            (cx * 32 + lx, cy * 32 + ly),
        ),
{
    lemma_world_hood_cell(m, cx, cy, lx, ly);
    lemma_world_hood_cell(m, cx, cy, lx + 1, ly - 1);
    lemma_world_hood_cell(m, cx, cy, lx - 1, ly - 1);
    lemma_world_hood_cell(m, cx, cy, lx, ly - 1);
    lemma_world_hood_cell(m, cx, cy, lx + 1, ly);
    lemma_world_hood_cell(m, cx, cy, lx - 1, ly);
    lemma_world_hood_cell(m, cx, cy, lx, ly + 1);
    lemma_world_hood_cell(m, cx, cy, lx + 1, ly + 1);
    lemma_world_hood_cell(m, cx, cy, lx - 1, ly + 1);
    let x = cx * 32 + lx;
    let y = cy * 32 + ly;
    lemma_split_cell(x, cx, lx);
    lemma_split_cell(y, cy, ly);
    let s = live_set(m);
    assert(s.contains((x + 1, y - 1)) == cell_alive(m, x + 1, y - 1));
    assert(s.contains((x - 1, y - 1)) == cell_alive(m, x - 1, y - 1));
    assert(s.contains((x, y - 1)) == cell_alive(m, x, y - 1));
    assert(s.contains((x + 1, y)) == cell_alive(m, x + 1, y));
    assert(s.contains((x - 1, y)) == cell_alive(m, x - 1, y));
    assert(s.contains((x, y + 1)) == cell_alive(m, x, y + 1));
    assert(s.contains((x + 1, y + 1)) == cell_alive(m, x + 1, y + 1));
    assert(s.contains((x - 1, y + 1)) == cell_alive(m, x - 1, y + 1));
    assert(s.contains((x, y)) == cell_alive(m, x, y));
}

/// A chunk that a step computes because of a stored chunk lies next to it,
/// is not stored, and has neighbours on every side.
pub(crate) proof fn lemma_spawn_target(m: Map<u64, Seq<u32>>, k: u64, t: u64)
    requires
        step_in_range_spec(m),
        spawned_by(m, k, t),
    ensures
        key_interior(t),
        !m.contains_key(t),
        key_of(unpack_spec(t).0 as int, unpack_spec(t).1 as int) == t,
{
    let (dx, dy) = choose|dx: int, dy: int| #[trigger] spawns(m, k, dx, dy) && t == offset_key(k, dx, dy);
    assert(m.contains_key(k));
    let cx = unpack_spec(k).0 + dx;
    let cy = unpack_spec(k).1 + dy;
    lemma_unpack_pack(cx as i32, cy as i32);
}

/// The state of one cell after a step whose chunks satisfy what the step's loops establish.
pub(crate) proof fn lemma_step_cell(m: Map<u64, Seq<u32>>, new: Map<u64, Seq<u32>>, extra: Set<u64>, x: int, y: int)
    requires
        step_in_range_spec(m),
        step_result(m, new, extra),
    ensures
        cell_alive(new, x, y) == next_generation(live_set(m)).contains((x, y)),
{
    if in_cell_range(x) && in_cell_range(y) {
        lemma_chunk_of_in_range(x);
        lemma_chunk_of_in_range(y);
        let cx = x / 32;
        let cy = y / 32;
        let lx = x % 32;
        let ly = y % 32;
        let k = key_of(cx, cy);
        lemma_unpack_pack(cx as i32, cy as i32);
        if m.contains_key(k) || extra.contains(k) {
            if extra.contains(k) {
                let src = choose|src: u64| spawned_by(m, src, k);
                lemma_spawn_target(m, src, k);
            }
            assert(key_hood(m, k) == world_hood(m, cx, cy));
            lemma_next_matches(m, cx, cy, lx, ly);
            if new.contains_key(k) {
                assert(bit(new[k][ly], (31 - lx) as u32) == hood_next(
                    key_hood(m, k),
                    31 - ((31 - lx) as u32),
                    ly,
                ));
            } else {
                assert(!hood_next(key_hood(m, k), 31 - ((31 - lx) as u32), ly));
                lemma_no_bit_of_zero((31 - lx) as u32);
            }
        } else {
            assert(!new.contains_key(k));
            lemma_no_bit_of_zero((31 - lx) as u32);
            lemma_unvisited_neighbour(m, extra, x, y, 1, -1);
            lemma_unvisited_neighbour(m, extra, x, y, -1, -1);
            lemma_unvisited_neighbour(m, extra, x, y, 0, -1);
            lemma_unvisited_neighbour(m, extra, x, y, 1, 0);
            lemma_unvisited_neighbour(m, extra, x, y, -1, 0);
            lemma_unvisited_neighbour(m, extra, x, y, 0, 1);
            lemma_unvisited_neighbour(m, extra, x, y, 1, 1);
            lemma_unvisited_neighbour(m, extra, x, y, -1, 1);
            assert(!live_set(m).contains((x, y)));
        }
    }
}

/// A cell next to a chunk that a step neither holds nor computes is dead:
/// were it alive, its chunk would have made the step compute that chunk.
pub(crate) proof fn lemma_unvisited_neighbour(m: Map<u64, Seq<u32>>, extra: Set<u64>, x: int, y: int, dx: int, dy: int)
    requires
        in_cell_range(x),
        in_cell_range(y),
        is_offset(dx, dy),
        !m.contains_key(key_of(x / 32, y / 32)),
        !extra.contains(key_of(x / 32, y / 32)),
        forall|t: u64| #[trigger] extra.contains(t) <==> exists|src: u64| spawned_by(m, src, t),
    ensures
        !live_set(m).contains((x + dx, y + dy)),
{
    if cell_alive(m, x + dx, y + dy) {
        lemma_chunk_of_in_range(x);
        lemma_chunk_of_in_range(y);
        lemma_chunk_of_in_range(x + dx);
        lemma_chunk_of_in_range(y + dy);
        let cx = x / 32;
        let cy = y / 32;
        let lx = x % 32;
        let ly = y % 32;
        // the chunk of the neighbour and the cell's place in it
        let ox = if lx + dx < 0 { -1int } else if lx + dx >= 32 { 1int } else { 0int };
        let oy = if ly + dy < 0 { -1int } else if ly + dy >= 32 { 1int } else { 0int };
        lemma_split_cell(x + dx, cx + ox, lx + dx - ox * 32);
        lemma_split_cell(y + dy, cy + oy, ly + dy - oy * 32);
        let src = key_of(cx + ox, cy + oy);
        lemma_unpack_pack((cx + ox) as i32, (cy + oy) as i32);
        if !m.contains_key(src) {
            lemma_no_bit_of_zero((31 - (lx + dx - ox * 32)) as u32);
            assert(chunk_rows(m, cx + ox, cy + oy) == empty_rows());
        }
        assert(m.contains_key(src));
        // the neighbour cannot lie in the cell's own chunk, which holds nothing
        if !(ox == 0 && oy == 0) {
            let rows = m[src];
            let nlx = lx + dx - ox * 32;
            let nly = ly + dy - oy * 32;
            assert(bit(rows[nly], (31 - nlx) as u32));
            if oy != 0 && ox == 0 {
                lemma_bit_of_nonzero(rows[nly], (31 - nlx) as u32);
            }
            assert(edge_live(rows, -ox, -oy));
            assert(offset_key(src, -ox, -oy) == key_of(cx, cy));
            assert(spawns(m, src, -ox, -oy));
            assert(spawned_by(m, src, key_of(cx, cy)));
            assert(extra.contains(key_of(cx, cy)));
        }
    }
}

/// What the two loops of a step leave: each chunk of `new` is a stored or an
/// added chunk with its next generation, each stored or added chunk missing
/// from `new` dies out, and `extra` holds exactly the chunks that stored chunks
/// make the step compute.
pub open spec fn step_result(m: Map<u64, Seq<u32>>, new: Map<u64, Seq<u32>>, extra: Set<u64>) -> bool {
    &&& forall|k: u64|
        #[trigger] new.contains_key(k) ==> (m.contains_key(k) || extra.contains(k))
            && next_rows_spec(key_hood(m, k), new[k])
    &&& forall|k: u64|
        (m.contains_key(k) || extra.contains(k)) && !#[trigger] new.contains_key(k)
            ==> next_all_dead(key_hood(m, k))
    &&& forall|t: u64| #[trigger] extra.contains(t) <==> exists|src: u64| spawned_by(m, src, t)
}

/// After the loops of a step, the new chunks hold exactly the next generation.
pub(crate) proof fn lemma_step_view(m: Map<u64, Seq<u32>>, new: Map<u64, Seq<u32>>, extra: Set<u64>)
    requires
        step_in_range_spec(m),
        step_result(m, new, extra),
    ensures
        live_set(new) == next_generation(live_set(m)),
{
    assert forall|c: (int, int)| #[trigger] live_set(new).contains(c) == next_generation(
        live_set(m),
    ).contains(c) by {
        lemma_step_cell(m, new, extra, c.0, c.1);
    }
    assert(live_set(new) =~= next_generation(live_set(m)));
}

/// Neighbour chunks taken from the world form the world's neighbourhood.
pub(crate) proof fn lemma_hood_matches(nb: NeighborChunks, m: Map<u64, Seq<u32>>, k: u64, center: Seq<u32>)
    requires
        neighbors_match(nb, m, unpack_spec(k).0 as int, unpack_spec(k).1 as int),
        center == chunk_rows(m, unpack_spec(k).0 as int, unpack_spec(k).1 as int),
    ensures
        nb.hood(center) == key_hood(m, k),
{
    assert(nb.hood(center) =~= key_hood(m, k));
}

/// With neighbour chunks taken from the world, the chunks that the edges of a
/// stored chunk add are those that it makes a step compute.
pub(crate) proof fn lemma_edges_spawn(nb: NeighborChunks, m: Map<u64, Seq<u32>>, k: u64, rows: Seq<u32>)
    requires
        neighbors_match(nb, m, unpack_spec(k).0 as int, unpack_spec(k).1 as int),
        m.contains_key(k),
        m[k] == rows,
    ensures
        forall|t: u64| added_by_edges(k, rows, nb, t) == spawned_by(m, k, t),
{
    assert forall|dx: int, dy: int| is_offset(dx, dy) implies (#[trigger] nb_at(nb, dx, dy) is None)
        == !m.contains_key(offset_key(k, dx, dy)) by {
    }
    assert forall|t: u64| added_by_edges(k, rows, nb, t) == spawned_by(m, k, t) by {
        if added_by_edges(k, rows, nb, t) {
            let (dx, dy) = choose|dx: int, dy: int|
                is_offset(dx, dy) && #[trigger] nb_at(nb, dx, dy) is None && edge_live(rows, dx, dy)
                    && t == offset_key(k, dx, dy);
            assert(spawns(m, k, dx, dy));
        }
        if spawned_by(m, k, t) {
            let (dx, dy) = choose|dx: int, dy: int| #[trigger] spawns(m, k, dx, dy) && t == offset_key(k, dx, dy);
            assert(nb_at(nb, dx, dy) is None);
        }
    }
}

/// Whether the stored chunk `k` and every chunk that it makes a step compute
/// have neighbours on every side within `i32`.
pub open spec fn key_step_ok(m: Map<u64, Seq<u32>>, k: u64) -> bool {
    &&& key_interior(k)
    &&& forall|dx: int, dy: int|
        #[trigger] spawns(m, k, dx, dy) ==> interior(unpack_spec(k).0 + dx) && interior(
            unpack_spec(k).1 + dy,
        )
}

/// Whether `t` is the key of a neighbour of chunk `coords` that `neighbors` lacks
/// and that a live cell of `rows` touches.
pub open spec fn added_by_edges(coords: u64, rows: Seq<u32>, neighbors: NeighborChunks, t: u64) -> bool {
    exists|dx: int, dy: int|
        is_offset(dx, dy) && #[trigger] nb_at(neighbors, dx, dy) is None && edge_live(rows, dx, dy)
            && t == offset_key(coords, dx, dy)
}

} // verus!
