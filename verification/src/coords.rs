use vstd::prelude::*;

verus! {

/// The key under which the chunk at chunk coordinates (`x`, `y`) is stored:
/// `x` in the high 32 bits, `y` in the low 32 bits, both as two's complement.
pub open spec fn pack_spec(x: i32, y: i32) -> u64 {
    ((x as u32 as u64) << 32u64) | (y as u32 as u64)
}

/// The chunk coordinates that a key stands for.
pub open spec fn unpack_spec(packed: u64) -> (i32, i32) {
    ((packed >> 32u64) as i32, packed as i32)
}

// stored as u64 from (x,y)
pub fn pack_coords(x: i32, y: i32) -> (r: u64)
    ensures
        r == pack_spec(x, y),
{
    let x_part = (x as u32 as u64) << 32;
    let y_part = y as u32 as u64;
    x_part | y_part
}

// restored from u64 to (x,y)
pub fn unpack_coords(packed: u64) -> (r: (i32, i32))
    ensures
        r == unpack_spec(packed),
{
    let x = (packed >> 32) as i32;
    let y = packed as i32;
    (x, y)
}

proof fn lemma_unpack_pack_parts(x: i32, y: i32)
    by (bit_vector)
    ensures
        ((((x as u32 as u64) << 32u64) | (y as u32 as u64)) >> 32u64) as i32 == x,
        ((((x as u32 as u64) << 32u64) | (y as u32 as u64)) as i32) == y,
{
}

proof fn lemma_pack_unpack_parts(k: u64)
    by (bit_vector)
    ensures
        ((((k >> 32u64) as i32) as u32 as u64) << 32u64) | ((k as i32) as u32 as u64) == k,
{
}

/// Unpacking a packed key gives back the coordinates.
pub proof fn lemma_unpack_pack(x: i32, y: i32)
    ensures
        unpack_spec(pack_spec(x, y)) == (x, y),
{
    lemma_unpack_pack_parts(x, y);
}

/// Packing the coordinates of a key gives back the key: every key stands for
/// exactly one pair of chunk coordinates.
pub proof fn lemma_pack_unpack(k: u64)
    ensures
        pack_spec(unpack_spec(k).0, unpack_spec(k).1) == k,
{
    lemma_pack_unpack_parts(k);
}

} // verus!
