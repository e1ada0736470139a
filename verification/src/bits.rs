use vstd::prelude::*;

verus! {

/// Whether bit `j` of `v` is set, bit 0 being the least significant one.
pub open spec fn bit(v: u32, j: u32) -> bool {
    (v >> j) & 1u32 == 1u32
}

/// Turns a boolean into the number 0 or 1.
pub open spec fn as_count(b: bool) -> int {
    if b {
        1
    } else {
        0
    }
}

/// The rule of the game: a cell lives in the next generation when it has three
/// live neighbours, or when it is alive and has two.
pub open spec fn life_rule(alive: bool, neighbours: int) -> bool {
    neighbours == 3 || (alive && neighbours == 2)
}

pub proof fn lemma_bit_of_shift_left_fill(base: u32, ext: u32, j: u32)
    by (bit_vector)
    requires
        j < 32,
    ensures
        bit((base << 1u32) | (ext >> 31u32), j) == if j == 0 {
            bit(ext, 31)
        } else {
            bit(base, (j - 1) as u32)
        },
{
}

pub proof fn lemma_bit_of_shift_right_fill(base: u32, ext: u32, j: u32)
    by (bit_vector)
    requires
        j < 32,
    ensures
        bit((base >> 1u32) | (ext << 31u32), j) == if j == 31 {
            bit(ext, 0)
        } else {
            bit(base, (j + 1) as u32)
        },
{
}

pub proof fn lemma_bit_set(row: u32, s: u32, j: u32)
    by (bit_vector)
    requires
        s < 32,
        j < 32,
    ensures
        bit(row | (1u32 << s), j) == (j == s || bit(row, j)),
{
}

pub proof fn lemma_bit_clear(row: u32, s: u32, j: u32)
    by (bit_vector)
    requires
        s < 32,
        j < 32,
    ensures
        bit(row & !(1u32 << s), j) == (j != s && bit(row, j)),
{
}

pub proof fn lemma_bit_test(row: u32, s: u32)
    by (bit_vector)
    requires
        s < 32,
    ensures
        ((row & (1u32 << s)) != 0) == bit(row, s),
        (((row >> s) & 1) == 1) == bit(row, s),
{
}

pub proof fn lemma_bit_of_nonzero(v: u32, j: u32)
    by (bit_vector)
    requires
        j < 32,
        bit(v, j),
    ensures
        v != 0,
{
}

pub proof fn lemma_no_bit_of_zero(j: u32)
    by (bit_vector)
    ensures
        !bit(0, j),
{
}

pub proof fn lemma_top_and_bottom_bits(row: u32)
    by (bit_vector)
    ensures
        (row >> 31u32) == (if bit(row, 31) { 1u32 } else { 0u32 }),
        (row & 1u32) == (if bit(row, 0) { 1u32 } else { 0u32 }),
{
}

/// One step of a four-bit ripple counter kept in 32 parallel lanes.
pub proof fn lemma_adder_lane(a0: u32, a1: u32, a2: u32, a3: u32, m: u32, j: u32)
    by (bit_vector)
    requires
        j < 32,
    ensures
        ({
            let c1 = a0 & m;
            let c2 = a1 & c1;
            let c3 = a2 & c2;
            let n0 = a0 ^ m;
            let n1 = a1 ^ c1;
            let n2 = a2 ^ c2;
            let n3 = a3 ^ c3;
            let old_lane = ((a0 >> j) & 1) + 2 * ((a1 >> j) & 1) + 4 * ((a2 >> j) & 1) + 8 * ((
            a3 >> j) & 1);
            let new_lane = ((n0 >> j) & 1) + 2 * ((n1 >> j) & 1) + 4 * ((n2 >> j) & 1) + 8 * ((
            n3 >> j) & 1);
            new_lane == (old_lane + ((m >> j) & 1)) % 16
        }),
{
}

/// The lane test that decides the next state of 32 cells at once.
pub proof fn lemma_next_row_lane(a0: u32, a1: u32, a2: u32, a3: u32, row: u32, j: u32)
    by (bit_vector)
    requires
        j < 32,
    ensures
        ({
            let is2 = !a0 & a1 & !a2 & !a3;
            let is3 = a0 & a1 & !a2 & !a3;
            let lane = ((a0 >> j) & 1) + 2 * ((a1 >> j) & 1) + 4 * ((a2 >> j) & 1) + 8 * ((a3
                >> j) & 1);
            bit(is3 | (row & is2), j) == (lane == 3 || (bit(row, j) && lane == 2))
        }),
{
}

pub proof fn lemma_lane_bits(v: u32, j: u32)
    by (bit_vector)
    requires
        j < 32,
    ensures
        ((v >> j) & 1) == (if bit(v, j) { 1u32 } else { 0u32 }),
{
}

/// Two words with the same 32 bits are equal.
pub proof fn lemma_bits_determine(a: u32, b: u32)
    by (bit_vector)
    requires
        bit(a, 0) == bit(b, 0),
        bit(a, 1) == bit(b, 1),
        bit(a, 2) == bit(b, 2),
        bit(a, 3) == bit(b, 3),
        bit(a, 4) == bit(b, 4),
        bit(a, 5) == bit(b, 5),
        bit(a, 6) == bit(b, 6),
        bit(a, 7) == bit(b, 7),
        bit(a, 8) == bit(b, 8),
        bit(a, 9) == bit(b, 9),
        bit(a, 10) == bit(b, 10),
        bit(a, 11) == bit(b, 11),
        bit(a, 12) == bit(b, 12),
        bit(a, 13) == bit(b, 13),
        bit(a, 14) == bit(b, 14),
        bit(a, 15) == bit(b, 15),
        bit(a, 16) == bit(b, 16),
        bit(a, 17) == bit(b, 17),
        bit(a, 18) == bit(b, 18),
        bit(a, 19) == bit(b, 19),
        bit(a, 20) == bit(b, 20),
        bit(a, 21) == bit(b, 21),
        bit(a, 22) == bit(b, 22),
        bit(a, 23) == bit(b, 23),
        bit(a, 24) == bit(b, 24),
        bit(a, 25) == bit(b, 25),
        bit(a, 26) == bit(b, 26),
        bit(a, 27) == bit(b, 27),
        bit(a, 28) == bit(b, 28),
        bit(a, 29) == bit(b, 29),
        bit(a, 30) == bit(b, 30),
        bit(a, 31) == bit(b, 31),
    ensures
        a == b,
{
}

/// The value that lane `j` of a four-word bit-sliced counter holds.
pub open spec fn lane(a: Seq<u32>, j: u32) -> int {
    as_count(bit(a[0], j)) + 2 * as_count(bit(a[1], j)) + 4 * as_count(bit(a[2], j)) + 8
        * as_count(bit(a[3], j))
}

} // verus!
