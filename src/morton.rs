use vstd::prelude::*;
use crate::position::BlockPos;

verus! {

/// Maps a signed coordinate to an unsigned one by flipping the sign bit, which
/// keeps the order across the origin.
pub fn to_positive(val: i32) -> (r: u32)
    ensures
        r as int == val as int + 0x8000_0000,
{
    let r = (val as i64 + 0x8000_0000) as u32;
    r
}

/// The Hilbert-curve index of an unsigned 3D point.
pub uninterp spec fn hilbert_index(x: u32, y: u32, z: u32) -> u128;

/// Relies on lindel::hilbert_encode for three `u32` coordinates: a deterministic
/// Hilbert index in a `u128`.
#[verifier::external_body]
fn hilbert_encode3(x: u32, y: u32, z: u32) -> (r: u128)
    ensures
        r == hilbert_index(x, y, z),
{
    lindel::hilbert_encode([x, y, z])
}

/// The sign-flipped coordinates of a block position.
pub open spec fn positive_of(v: i32) -> u32 {
    (v as int + 0x8000_0000) as u32
}

/// The spatial key of a block position: a pure function of the position.
pub open spec fn hilbert_key(pos: BlockPos) -> u128 {
    hilbert_index(positive_of(pos.x), positive_of(pos.y), positive_of(pos.z))
}

/// The Hilbert-curve key of a block position.
pub fn to_hilbert(pos: BlockPos) -> (r: u128)
    ensures
        r == hilbert_key(pos),
{
    hilbert_encode3(to_positive(pos.x), to_positive(pos.y), to_positive(pos.z))
}

/// Bit `i` of `v`, for `i < 21`, moved to bit `3 * i`; the other bits cleared.
pub open spec fn spread3(v: u128) -> u128 {
    (v & 0x1)
    | ((v & 0x2) << 2u128)
    | ((v & 0x4) << 4u128)
    | ((v & 0x8) << 6u128)
    | ((v & 0x10) << 8u128)
    | ((v & 0x20) << 10u128)
    | ((v & 0x40) << 12u128)
    | ((v & 0x80) << 14u128)
    | ((v & 0x100) << 16u128)
    | ((v & 0x200) << 18u128)
    | ((v & 0x400) << 20u128)
    | ((v & 0x800) << 22u128)
    | ((v & 0x1000) << 24u128)
    | ((v & 0x2000) << 26u128)
    | ((v & 0x4000) << 28u128)
    | ((v & 0x8000) << 30u128)
    | ((v & 0x10000) << 32u128)
    | ((v & 0x20000) << 34u128)
    | ((v & 0x40000) << 36u128)
    | ((v & 0x80000) << 38u128)
    | ((v & 0x100000) << 40u128)
}

/// Smallest coordinate the Morton key covers.
pub const MORTON_MIN: i32 = -0x10_0000;

/// One past the largest coordinate the Morton key covers.
pub const MORTON_END: i32 = 0x10_0000;

/// A coordinate of the Morton key's domain as an unsigned 21-bit value: the sign
/// bit of its 21-bit two's complement flipped, which keeps the order.
pub open spec fn offset21(x: i32) -> u128 {
    (x as int + 0x10_0000) as u128
}

/// The coordinate's 21 bits, sign bit flipped, spread three bits apart.
pub fn morton_partition_3(x: i32) -> (r: u128)
    requires
        MORTON_MIN <= x < MORTON_END,
    ensures
        r == spread3(offset21(x)),
{
    let v: u128 = (x as i64 + 0x10_0000) as u128;
    let x1: u128 = (v | v << 32u128) & 0x1f00000000ffff;
    let x2: u128 = (x1 | x1 << 16u128) & 0x1f0000ff0000ff;
    let x3: u128 = (x2 | x2 << 8u128) & 0x100f00f00f00f00f;
    let x4: u128 = (x3 | x3 << 4u128) & 0x10c30c30c30c30c3;
    let x5: u128 = (x4 | x4 << 2u128) & 0x1249249249249249;
    assert(x5 == spread3(v)) by (bit_vector)
        requires
            v < 0x20_0000,
            x1 == (v | v << 32u128) & 0x1f00000000ffff,
            x2 == (x1 | x1 << 16u128) & 0x1f0000ff0000ff,
            x3 == (x2 | x2 << 8u128) & 0x100f00f00f00f00f,
            x4 == (x3 | x3 << 4u128) & 0x10c30c30c30c30c3,
            x5 == (x4 | x4 << 2u128) & 0x1249249249249249,
    ;
    x5
}

/// Spreading keeps the order of 21-bit values.
pub proof fn lemma_spread3_monotone(a: u128, b: u128)
    requires
        a < b < 0x20_0000,
    ensures
        spread3(a) < spread3(b),
{
    assert(a < b ==> spread3(a) < spread3(b)) by (bit_vector)
        requires
            a < 0x20_0000,
            b < 0x20_0000,
    ;
}

/// The Morton key keeps the order of each coordinate across the origin.
pub proof fn lemma_partition_monotone(a: i32, b: i32)
    requires
        MORTON_MIN <= a < b < MORTON_END,
    ensures
        spread3(offset21(a)) < spread3(offset21(b)),
{
    lemma_spread3_monotone(offset21(a), offset21(b));
}

/// The Morton key of a block position whose coordinates lie in
/// `MORTON_MIN .. MORTON_END`.
pub open spec fn morton_key(pos: BlockPos) -> u128 {
    spread3(offset21(pos.x)) | (spread3(offset21(pos.y)) << 1u128) | (spread3(offset21(pos.z))
        << 2u128)
}

/// The interleaved bits of three spread values add up without carries.
proof fn lemma_interleave_sum(x: u128, y: u128, z: u128)
    requires
        x < 0x20_0000,
        y < 0x20_0000,
        z < 0x20_0000,
    ensures
        spread3(x) | (spread3(y) << 1u128) | (spread3(z) << 2u128) == spread3(x) + 2 * spread3(y) + 4
            * spread3(z),
        spread3(x) <= 0x1249249249249249,
        spread3(y) <= 0x1249249249249249,
        spread3(z) <= 0x1249249249249249,
{
    assert(spread3(x) | (spread3(y) << 1u128) | (spread3(z) << 2u128) == spread3(x) + 2 * spread3(y)
        + 4 * spread3(z) && spread3(x) <= 0x1249249249249249 && spread3(y) <= 0x1249249249249249
        && spread3(z) <= 0x1249249249249249) by (bit_vector)
        requires
            x < 0x20_0000,
            y < 0x20_0000,
            z < 0x20_0000,
    ;
}

/// A position at most another on every axis gets a key at most the other's.
pub proof fn lemma_morton_monotone(p: BlockPos, q: BlockPos)
    requires
        MORTON_MIN <= p.x <= q.x < MORTON_END,
        MORTON_MIN <= p.y <= q.y < MORTON_END,
        MORTON_MIN <= p.z <= q.z < MORTON_END,
    ensures
        morton_key(p) <= morton_key(q),
{
    lemma_interleave_sum(offset21(p.x), offset21(p.y), offset21(p.z));
    lemma_interleave_sum(offset21(q.x), offset21(q.y), offset21(q.z));
    if p.x < q.x {
        lemma_partition_monotone(p.x, q.x);
    }
    if p.y < q.y {
        lemma_partition_monotone(p.y, q.y);
    }
    if p.z < q.z {
        lemma_partition_monotone(p.z, q.z);
    }
}

/// The Morton key of a block position: each coordinate's 21 bits, sign bit
/// flipped, interleaved, `x` in bit `3i`, `y` in bit `3i + 1`, `z` in bit
/// `3i + 2`.
pub fn to_morton(pos: BlockPos) -> (r: u128)
    requires
        MORTON_MIN <= pos.x < MORTON_END,
        MORTON_MIN <= pos.y < MORTON_END,
        MORTON_MIN <= pos.z < MORTON_END,
    ensures
        r == morton_key(pos),
{
    let x = morton_partition_3(pos.x);
    let y = morton_partition_3(pos.y);
    let z = morton_partition_3(pos.z);
    x | (y << 1u128) | (z << 2u128)
}

} // verus!
