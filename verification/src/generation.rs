use vstd::prelude::*;

use crate::bits::{
    as_count, bit, lane, lemma_adder_lane, lemma_no_bit_of_zero, lemma_bit_of_shift_left_fill,
    lemma_bit_of_shift_right_fill, lemma_lane_bits, lemma_next_row_lane, life_rule,
};
use crate::chunk::{cell_of, empty_rows, lemma_chunk_len, Chunk};

verus! {

broadcast use lemma_chunk_len;

/// The eight chunks around a chunk; `None` where the world holds no chunk.
pub struct NeighborChunks<'a> {
    pub ne: Option<&'a Chunk>,
    pub e: Option<&'a Chunk>,
    pub se: Option<&'a Chunk>,
    pub n: Option<&'a Chunk>,
    pub s: Option<&'a Chunk>,
    pub nw: Option<&'a Chunk>,
    pub w: Option<&'a Chunk>,
    pub sw: Option<&'a Chunk>,
}

/// The rows of an optional chunk; a missing chunk is empty.
pub open spec fn rows_of(chunk: Option<&Chunk>) -> Seq<u32> {
    match chunk {
        Some(c) => c@,
        None => empty_rows(),
    }
}

impl<'a> NeighborChunks<'a> {
    /// The 3x3 blocks around `center`, row by row from the north-west block.
    pub open spec fn hood(&self, center: Seq<u32>) -> Seq<Seq<u32>> {
        seq![
            rows_of(self.nw), rows_of(self.n), rows_of(self.ne),
            rows_of(self.w), center, rows_of(self.e),
            rows_of(self.sw), rows_of(self.s), rows_of(self.se),
        ]
    }
}

/// Which of the three blocks along an axis holds coordinate `v` (-32 <= v < 64).
pub open spec fn block_of(v: int) -> int {
    if v < 0 {
        0
    } else if v < 32 {
        1
    } else {
        2
    }
}

/// Whether the cell at (`x`, `y`) of a 3x3 block neighbourhood is alive; the
/// centre block spans 0 <= x, y < 32.
pub open spec fn hood_cell(h: Seq<Seq<u32>>, x: int, y: int) -> bool {
    let bx = block_of(x);
    let by = block_of(y);
    cell_of(h[by * 3 + bx], x - (bx - 1) * 32, y - (by - 1) * 32)
}

/// Column offset of the `k`-th neighbour mask: NE, NW, N, E, W, S, SE, SW.
pub open spec fn mask_dx(k: int) -> int {
    if k == 0 || k == 3 || k == 6 {
        1
    } else if k == 1 || k == 4 || k == 7 {
        -1
    } else {
        0
    }
}

/// Row offset of the `k`-th neighbour mask: NE, NW, N, E, W, S, SE, SW.
pub open spec fn mask_dy(k: int) -> int {
    if k < 3 {
        -1
    } else if k < 5 {
        0
    } else {
        1
    }
}

/// Number of live neighbours of the cell (`x`, `y`) of a neighbourhood.
pub open spec fn hood_count(h: Seq<Seq<u32>>, x: int, y: int) -> int {
    as_count(hood_cell(h, x + 1, y - 1)) + as_count(hood_cell(h, x - 1, y - 1)) + as_count(
        hood_cell(h, x, y - 1),
    ) + as_count(hood_cell(h, x + 1, y)) + as_count(hood_cell(h, x - 1, y)) + as_count(
        hood_cell(h, x, y + 1),
    ) + as_count(hood_cell(h, x + 1, y + 1)) + as_count(hood_cell(h, x - 1, y + 1))
}

/// The state of cell (`x`, `y`) of the centre block in the next generation.
pub open spec fn hood_next(h: Seq<Seq<u32>>, x: int, y: int) -> bool {
    life_rule(hood_cell(h, x, y), hood_count(h, x, y))
}

/// What the neighbour masks of row `i` of the centre block hold: lane `j` of
/// mask `k` is the `k`-th neighbour of the cell in column `31 - j`.
pub open spec fn row_masks_spec(h: Seq<Seq<u32>>, masks: Seq<u32>, i: int) -> bool {
    &&& masks.len() == 8
    &&& forall|k: int, j: u32|
        0 <= k < 8 && j < 32 ==> #[trigger] bit(masks[k], j) == hood_cell(
            h,
            31 - j + mask_dx(k),
            i + mask_dy(k),
        )
}

/// Sum over the first `n` masks of lane `j`.
pub open spec fn mask_lane_sum(masks: Seq<u32>, n: int, j: u32) -> int
    decreases n,
{
    if n <= 0 {
        0
    } else {
        mask_lane_sum(masks, n - 1, j) + as_count(bit(masks[n - 1], j))
    }
}

// turns [1,2,3][4,0,0] into [2,3,4]
/// Each cell's east neighbour: the row moved one column west, the east chunk's
/// column 0 filling column 31.
fn shift_left_fill(base: u32, ext: u32) -> (r: u32)
    ensures
        forall|j: u32|
            j < 32 ==> #[trigger] bit(r, j) == if j == 0 {
                bit(ext, 31)
            } else {
                bit(base, (j - 1) as u32)
            },
{
    proof {
        assert forall|j: u32| j < 32 implies #[trigger] bit((base << 1u32) | (ext >> 31u32), j)
            == if j == 0 {
            bit(ext, 31)
        } else {
            bit(base, (j - 1) as u32)
        } by {
            lemma_bit_of_shift_left_fill(base, ext, j);
        }
    }
    let base = base << 1;
    base | (ext >> 31)
}

// turn [1,2,3][0,0,4] into [4,1,2]
/// Each cell's west neighbour: the row moved one column east, the west chunk's
/// column 31 filling column 0.
fn shift_right_fill(base: u32, ext: u32) -> (r: u32)
    ensures
        forall|j: u32|
            j < 32 ==> #[trigger] bit(r, j) == if j == 31 {
                bit(ext, 0)
            } else {
                bit(base, (j + 1) as u32)
            },
{
    proof {
        assert forall|j: u32| j < 32 implies #[trigger] bit((base >> 1u32) | (ext << 31u32), j)
            == if j == 31 {
            bit(ext, 0)
        } else {
            bit(base, (j + 1) as u32)
        } by {
            lemma_bit_of_shift_right_fill(base, ext, j);
        }
    }
    let base = base >> 1;
    base | (ext << 31)
}

/// The next state of the 32 cells of `row`, from the bit-sliced count of their
/// live neighbours: a cell lives with three neighbours, or with two if alive.
fn calc_next_row(bit_adder: &[u32; 4], row: u32) -> (r: u32)
    ensures
        forall|j: u32|
            j < 32 ==> #[trigger] bit(r, j) == life_rule(bit(row, j), lane(bit_adder@, j)),
{
    let is2 = !bit_adder[0] & bit_adder[1] & !bit_adder[2] & !bit_adder[3];
    let is3 = bit_adder[0] & bit_adder[1] & !bit_adder[2] & !bit_adder[3];
    proof {
        assert forall|j: u32| j < 32 implies #[trigger] bit(is3 | (row & is2), j) == life_rule(
            bit(row, j),
            lane(bit_adder@, j),
        ) by {
            lemma_next_row_lane(bit_adder[0], bit_adder[1], bit_adder[2], bit_adder[3], row, j);
            lemma_lane_bits(bit_adder[0], j);
            lemma_lane_bits(bit_adder[1], j);
            lemma_lane_bits(bit_adder[2], j);
            lemma_lane_bits(bit_adder[3], j);
        }
    }
    is3 | (row & is2)
}

/// Row `row` of a chunk; an empty row where there is no chunk, and past the
/// last row of a chunk (as `Chunk::get_row` reads it).
fn get_chunk_row(chunk: Option<&Chunk>, row: usize) -> (r: u32)
    requires
        chunk is Some ==> row != 32,
    ensures
        r == if chunk is None || row > 32 {
            0u32
        } else {
            rows_of(chunk)[row as int]
        },
{
    if let Some(c) = chunk {
        c.get_row(row)
    } else {
        0
    }
}

/// Adds one mask to 32 four-bit counters kept bit-sliced in `bit_adder`
/// (`bit_adder[b]` holds bit `b` of every lane): a ripple-carry increment in
/// each lane whose mask bit is set.
fn add_to_bit_adder(bit_adder: &mut [u32; 4], mask: u32)
    ensures
        forall|j: u32|
            j < 32 ==> #[trigger] lane(final(bit_adder)@, j) == (lane(old(bit_adder)@, j)
                + as_count(bit(mask, j))) % 16,
{
    let ghost a = old(bit_adder)@;
    let carry1 = bit_adder[0] & mask;
    bit_adder[0] ^= mask;
    let carry2 = bit_adder[1] & carry1;
    bit_adder[1] ^= carry1;
    let carry3 = bit_adder[2] & carry2;
    bit_adder[2] ^= carry2;
    bit_adder[3] ^= carry3;
    proof {
        assert forall|j: u32| j < 32 implies #[trigger] lane(bit_adder@, j) == (lane(a, j)
            + as_count(bit(mask, j))) % 16 by {
            lemma_adder_lane(a[0], a[1], a[2], a[3], mask, j);
            lemma_lane_bits(a[0], j);
            lemma_lane_bits(a[1], j);
            lemma_lane_bits(a[2], j);
            lemma_lane_bits(a[3], j);
            lemma_lane_bits(bit_adder[0], j);
            lemma_lane_bits(bit_adder[1], j);
            lemma_lane_bits(bit_adder[2], j);
            lemma_lane_bits(bit_adder[3], j);
            lemma_lane_bits(mask, j);
        }
    }
}

/// The eight neighbour masks of row 0, which borrows its north row from the chunk above.
fn calc_top_row_masks(neighbors: &NeighborChunks, chunk: &Chunk) -> (r: [u32; 8])
    ensures
        row_masks_spec(neighbors.hood(chunk@), r@, 0),
{
    let north_row = get_chunk_row(neighbors.n, 31);
    let mid_row = get_chunk_row(Some(chunk), 0);
    let south_row = get_chunk_row(Some(chunk), 1);
    let r = [
        shift_left_fill(north_row, get_chunk_row(neighbors.ne, 31)),
        shift_right_fill(north_row, get_chunk_row(neighbors.nw, 31)),
        north_row,
        shift_left_fill(mid_row, get_chunk_row(neighbors.e, 0)),
        shift_right_fill(mid_row, get_chunk_row(neighbors.w, 0)),
        south_row,
        shift_left_fill(south_row, get_chunk_row(neighbors.e, 1)),
        shift_right_fill(south_row, get_chunk_row(neighbors.w, 1)),
    ];
    proof {
        let h = neighbors.hood(chunk@);
        assert forall|k: int, j: u32| 0 <= k < 8 && j < 32 implies #[trigger] bit(r@[k], j)
            == hood_cell(h, 31 - j + mask_dx(k), 0 + mask_dy(k)) by {
            assert(r@[k] == r[k]);
        }
    }
    r
}

/// The eight neighbour masks of an inner row `i`.
fn calc_inner_row_masks(neighbors: &NeighborChunks, chunk: &Chunk, i: usize) -> (r: [u32; 8])
    requires
        1 <= i < 31,
    ensures
        row_masks_spec(neighbors.hood(chunk@), r@, i as int),
{
    let north_row = get_chunk_row(Some(chunk), i - 1);
    let mid_row = get_chunk_row(Some(chunk), i);
    let south_row = get_chunk_row(Some(chunk), i + 1);
    let r = [
        shift_left_fill(north_row, get_chunk_row(neighbors.e, i - 1)),
        shift_right_fill(north_row, get_chunk_row(neighbors.w, i - 1)),
        north_row,
        shift_left_fill(mid_row, get_chunk_row(neighbors.e, i)),
        shift_right_fill(mid_row, get_chunk_row(neighbors.w, i)),
        south_row,
        shift_left_fill(south_row, get_chunk_row(neighbors.e, i + 1)),
        shift_right_fill(south_row, get_chunk_row(neighbors.w, i + 1)),
    ];
    proof {
        let h = neighbors.hood(chunk@);
        assert forall|k: int, j: u32| 0 <= k < 8 && j < 32 implies #[trigger] bit(r@[k], j)
            == hood_cell(h, 31 - j + mask_dx(k), i + mask_dy(k)) by {
            assert(r@[k] == r[k]);
        }
    }
    r
}

/// The eight neighbour masks of row 31, which borrows its south row from the chunk below.
fn calc_bottom_row_masks(neighbors: &NeighborChunks, chunk: &Chunk) -> (r: [u32; 8])
    ensures
        row_masks_spec(neighbors.hood(chunk@), r@, 31),
{
    let north_row = get_chunk_row(Some(chunk), 30);
    let mid_row = get_chunk_row(Some(chunk), 31);
    let south_row = get_chunk_row(neighbors.s, 0);
    let r = [
        shift_left_fill(north_row, get_chunk_row(neighbors.e, 30)),
        shift_right_fill(north_row, get_chunk_row(neighbors.w, 30)),
        north_row,
        shift_left_fill(mid_row, get_chunk_row(neighbors.e, 31)),
        shift_right_fill(mid_row, get_chunk_row(neighbors.w, 31)),
        south_row,
        shift_left_fill(south_row, get_chunk_row(neighbors.se, 0)),
        shift_right_fill(south_row, get_chunk_row(neighbors.sw, 0)),
    ];
    proof {
        let h = neighbors.hood(chunk@);
        assert forall|k: int, j: u32| 0 <= k < 8 && j < 32 implies #[trigger] bit(r@[k], j)
            == hood_cell(h, 31 - j + mask_dx(k), 31 + mask_dy(k)) by {
            assert(r@[k] == r[k]);
        }
    }
    r
}

/// The rows `rows` hold the next generation of the centre block of `h`.
pub open spec fn next_rows_spec(h: Seq<Seq<u32>>, rows: Seq<u32>) -> bool {
    &&& rows.len() == 32
    &&& forall|i: int, j: u32|
        0 <= i < 32 && j < 32 ==> #[trigger] bit(rows[i], j) == hood_next(h, 31 - j, i)
}

/// No cell of the centre block of `h` is alive in the next generation.
pub open spec fn next_all_dead(h: Seq<Seq<u32>>) -> bool {
    forall|i: int, j: u32| 0 <= i < 32 && j < 32 ==> !#[trigger] hood_next(h, 31 - j, i)
}

proof fn lemma_mask_lane_sum_bounds(masks: Seq<u32>, n: int, j: u32)
    requires
        0 <= n,
    ensures
        0 <= mask_lane_sum(masks, n, j) <= n,
    decreases n,
{
    if n > 0 {
        lemma_mask_lane_sum_bounds(masks, n - 1, j);
    }
}

/// The counter that summed the eight neighbour masks of row `i`, tested by the
/// rule, gives the next state of each cell of that row.
proof fn lemma_row_rule(
    h: Seq<Seq<u32>>,
    masks: Seq<u32>,
    adder: Seq<u32>,
    row: u32,
    new_row: u32,
    i: int,
)
    requires
        0 <= i < 32,
        h.len() == 9,
        row_masks_spec(h, masks, i),
        row == h[4][i],
        forall|j: u32| j < 32 ==> #[trigger] lane(adder, j) == mask_lane_sum(masks, 8, j),
        forall|j: u32|
            j < 32 ==> #[trigger] bit(new_row, j) == life_rule(bit(row, j), lane(adder, j)),
    ensures
        forall|j: u32| j < 32 ==> #[trigger] bit(new_row, j) == hood_next(h, 31 - j, i),
{
    assert forall|j: u32| j < 32 implies #[trigger] bit(new_row, j) == hood_next(h, 31 - j, i) by {
        reveal_with_fuel(mask_lane_sum, 9);
        assert(bit(masks[0], j) == hood_cell(h, 31 - j + mask_dx(0), i + mask_dy(0)));
        assert(bit(masks[1], j) == hood_cell(h, 31 - j + mask_dx(1), i + mask_dy(1)));
        assert(bit(masks[2], j) == hood_cell(h, 31 - j + mask_dx(2), i + mask_dy(2)));
        assert(bit(masks[3], j) == hood_cell(h, 31 - j + mask_dx(3), i + mask_dy(3)));
        assert(bit(masks[4], j) == hood_cell(h, 31 - j + mask_dx(4), i + mask_dy(4)));
        assert(bit(masks[5], j) == hood_cell(h, 31 - j + mask_dx(5), i + mask_dy(5)));
        assert(bit(masks[6], j) == hood_cell(h, 31 - j + mask_dx(6), i + mask_dy(6)));
        assert(bit(masks[7], j) == hood_cell(h, 31 - j + mask_dx(7), i + mask_dy(7)));
        assert(mask_lane_sum(masks, 8, j) == hood_count(h, 31 - j, i));
        assert(hood_cell(h, 31 - j, i) == bit(row, j));
    }
}

/// Computes the next generation of a chunk from the chunk itself (`None` for a
/// chunk the world does not hold) and its neighbours; `None` when every cell of
/// the result is dead.
#[verifier::rlimit(50)]
pub fn compute_chunk_gen(opt_chunk: Option<&Chunk>, neighbors: &NeighborChunks) -> (r: Option<
    Chunk,
>)
    ensures
        match r {
            Some(c) => next_rows_spec(neighbors.hood(rows_of(opt_chunk)), c@) && exists|i: int|
                0 <= i < 32 && c@[i] != 0,
            None => next_all_dead(neighbors.hood(rows_of(opt_chunk))),
        },
{
    let ghost h = neighbors.hood(rows_of(opt_chunk));
    let mut new_chunk = Chunk::new();
    let mut has_data = false;
    let mut bit_adder: [u32; 4];

    let empty = Chunk::new();
    let chunk = if let Some(chunk) = opt_chunk {
        chunk
    } else {
        &empty
    };
    assert(chunk@ == rows_of(opt_chunk));

    // compute first row
    bit_adder = [0;4];
    let masks = calc_top_row_masks(&neighbors, chunk);
    proof {
        lemma_zero_lanes(bit_adder@, masks@);
    }
    for k in 0..8
        invariant
            forall|j: u32|
                j < 32 ==> #[trigger] lane(bit_adder@, j) == mask_lane_sum(masks@, k as int, j),
    {
        add_to_bit_adder(&mut bit_adder, masks[k]);
        proof {
            lemma_lanes_step(masks@, k as int);
        }
    }
    let new_row = calc_next_row(&bit_adder, chunk.get_row(0));
    proof {
        lemma_row_rule(h, masks@, bit_adder@, chunk@[0], new_row, 0);
    }
    new_chunk.set_row(0, new_row);
    has_data = has_data || new_row != 0;
    assert(new_chunk@[0] == new_row);

    // compute inner rows
    for i in 1..31
        invariant
            h == neighbors.hood(chunk@),
            new_chunk@.len() == 32,
            forall|i2: int, j: u32|
                0 <= i2 < i && j < 32 ==> #[trigger] bit(new_chunk@[i2], j) == hood_next(
                    h,
                    31 - j,
                    i2,
                ),
            has_data <==> exists|i2: int| 0 <= i2 < i && new_chunk@[i2] != 0,
    {
        bit_adder = [0;4];
        let masks = calc_inner_row_masks(&neighbors, chunk, i);
        proof {
            lemma_zero_lanes(bit_adder@, masks@);
        }
        for k in 0..8
            invariant
                forall|j: u32|
                    j < 32 ==> #[trigger] lane(bit_adder@, j) == mask_lane_sum(
                        masks@,
                        k as int,
                        j,
                    ),
        {
            add_to_bit_adder(&mut bit_adder, masks[k]);
            proof {
                lemma_lanes_step(masks@, k as int);
            }
        }
        let new_row = calc_next_row(&bit_adder, chunk.get_row(i));
        proof {
            lemma_row_rule(h, masks@, bit_adder@, chunk@[i as int], new_row, i as int);
        }
        let ghost before = new_chunk@;
        new_chunk.set_row(i, new_row);
        has_data = has_data || new_row != 0;
        proof {
            assert forall|i2: int| 0 <= i2 < i implies new_chunk@[i2] == before[i2] by {}
            if has_data {
                if new_row == 0 {
                    let w = choose|i2: int| 0 <= i2 < i && before[i2] != 0;
                    assert(new_chunk@[w] != 0);
                } else {
                    assert(new_chunk@[i as int] != 0);
                }
            } else {
                assert forall|i2: int| 0 <= i2 < i + 1 implies new_chunk@[i2] == 0 by {}
            }
        }
    }

    // compute last row
    bit_adder = [0;4];
    let masks = calc_bottom_row_masks(&neighbors, chunk);
    proof {
        lemma_zero_lanes(bit_adder@, masks@);
    }
    for k in 0..8
        invariant
            forall|j: u32|
                j < 32 ==> #[trigger] lane(bit_adder@, j) == mask_lane_sum(masks@, k as int, j),
    {
        add_to_bit_adder(&mut bit_adder, masks[k]);
        proof {
            lemma_lanes_step(masks@, k as int);
        }
    }
    let new_row = calc_next_row(&bit_adder, chunk.get_row(31));
    proof {
        lemma_row_rule(h, masks@, bit_adder@, chunk@[31], new_row, 31);
    }
    let ghost before = new_chunk@;
    new_chunk.set_row(31, new_row);
    has_data = has_data || new_row != 0;
    proof {
        assert forall|i: int, j: u32| 0 <= i < 32 && j < 32 implies #[trigger] bit(
            new_chunk@[i],
            j,
        ) == hood_next(h, 31 - j, i) by {
            if i < 31 {
                assert(new_chunk@[i] == before[i]);
            }
        }
    }

    // after
    if has_data {
        proof {
            if new_row == 0 {
                let w = choose|i2: int| 0 <= i2 < 31 && before[i2] != 0;
                assert(new_chunk@[w] != 0);
            } else {
                assert(new_chunk@[31] != 0);
            }
            assert(next_rows_spec(h, new_chunk@));
        }
        let result = Some(new_chunk);
        assert(next_rows_spec(h, result.unwrap()@));
        result
    } else {
        proof {
            assert forall|i: int, j: u32| 0 <= i < 32 && j < 32 implies !#[trigger] hood_next(
                h,
                31 - j,
                i,
            ) by {
                assert(new_chunk@[i] == 0);
                lemma_no_bit_of_zero(j);
            }
        }
        None
    }
}

/// A freshly cleared counter holds zero in every lane.
proof fn lemma_zero_lanes(adder: Seq<u32>, masks: Seq<u32>)
    requires
        adder.len() == 4,
        forall|i: int| 0 <= i < 4 ==> adder[i] == 0u32,
    ensures
        forall|j: u32| j < 32 ==> #[trigger] lane(adder, j) == mask_lane_sum(masks, 0, j),
{
    assert forall|j: u32| j < 32 implies #[trigger] lane(adder, j) == mask_lane_sum(masks, 0, j) by {
        assert(adder[0] == 0u32 && adder[1] == 0u32 && adder[2] == 0u32 && adder[3] == 0u32);
        lemma_no_bit_of_zero(j);
    }
}

/// Adding one more mask keeps the lanes equal to the partial sums, which stay below 16.
proof fn lemma_lanes_step(masks: Seq<u32>, k: int)
    requires
        0 <= k < 8,
    ensures
        forall|j: u32|
            j < 32 ==> (#[trigger] mask_lane_sum(masks, k + 1, j)) == (mask_lane_sum(masks, k, j)
                + as_count(bit(masks[k], j))) % 16,
{
    assert forall|j: u32| j < 32 implies (#[trigger] mask_lane_sum(masks, k + 1, j)) == (
    mask_lane_sum(masks, k, j) + as_count(bit(masks[k], j))) % 16 by {
        lemma_mask_lane_sum_bounds(masks, k + 1, j);
    }
}

} // verus!
