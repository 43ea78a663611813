use vstd::prelude::*;

verus! {

/// The place of a single precision number in the total order of its
/// format, read from its bits: the numbers without the sign bit count up
/// from zero by their magnitude, those with it count down from minus one.
pub open spec fn total_order32(bits: u32) -> int {
    if bits >> 31 == 1 {
        -((bits & 0x7fff_ffff) as int) - 1
    } else {
        (bits & 0x7fff_ffff) as int
    }
}

/// The place of a double precision number in the total order of its
/// format, read from its bits.
pub open spec fn total_order64(bits: u64) -> int {
    if bits >> 63 == 1 {
        -((bits & 0x7fff_ffff_ffff_ffff) as int) - 1
    } else {
        (bits & 0x7fff_ffff_ffff_ffff) as int
    }
}

/// The key of a single precision number, from its bits: the place of the
/// number in the total order of its format, counted from the least. Squared
/// lengths and scores enter the refinement as such keys.
pub fn rank32(bits: u32) -> (key: u64)
    ensures
        key == total_order32(bits) + 0x8000_0000,
{
    assert(bits >> 31 == 1 ==> !bits == 0x7fff_ffff - (bits & 0x7fff_ffff)) by (bit_vector);
    assert(!(bits >> 31 == 1) ==> bits | 0x8000_0000 == 0x8000_0000 + (bits & 0x7fff_ffff))
        by (bit_vector);
    assert(bits & 0x7fff_ffff <= 0x7fff_ffff) by (bit_vector);
    let key: u32 = if bits >> 31 == 1 {
        !bits
    } else {
        bits | 0x8000_0000
    };
    key as u64
}

/// The key of a double precision number, from its bits: the place of the
/// number in the total order of its format, counted from the least.
pub fn rank64(bits: u64) -> (key: u64)
    ensures
        key == total_order64(bits) + 0x8000_0000_0000_0000,
{
    assert(bits >> 63 == 1 ==> !bits == 0x7fff_ffff_ffff_ffff - (bits & 0x7fff_ffff_ffff_ffff))
        by (bit_vector);
    assert(!(bits >> 63 == 1) ==> bits | 0x8000_0000_0000_0000 == 0x8000_0000_0000_0000 + (bits
        & 0x7fff_ffff_ffff_ffff)) by (bit_vector);
    assert(bits & 0x7fff_ffff_ffff_ffff <= 0x7fff_ffff_ffff_ffff) by (bit_vector);
    if bits >> 63 == 1 {
        !bits
    } else {
        bits | 0x8000_0000_0000_0000
    }
}

/// The keys of two single precision numbers stand as the numbers do in the
/// total order, and differ where the bits do.
pub proof fn lemma_rank32_keeps_order(a: u32, b: u32)
    ensures
        total_order32(a) < total_order32(b) <==> total_order32(a) + 0x8000_0000 < total_order32(b)
            + 0x8000_0000,
        0 <= total_order32(a) + 0x8000_0000 <= u32::MAX,
        total_order32(a) == total_order32(b) <==> a == b,
{
    assert(a & 0x7fff_ffff <= 0x7fff_ffff) by (bit_vector);
    assert((a >> 31 == 1) == (b >> 31 == 1) && a & 0x7fff_ffff == b & 0x7fff_ffff ==> a == b)
        by (bit_vector);
}

/// The keys of two double precision numbers stand as the numbers do in the
/// total order, and differ where the bits do.
pub proof fn lemma_rank64_keeps_order(a: u64, b: u64)
    ensures
        total_order64(a) < total_order64(b) <==> total_order64(a) + 0x8000_0000_0000_0000
            < total_order64(b) + 0x8000_0000_0000_0000,
        0 <= total_order64(a) + 0x8000_0000_0000_0000 <= u64::MAX,
        total_order64(a) == total_order64(b) <==> a == b,
{
    assert(a & 0x7fff_ffff_ffff_ffff <= 0x7fff_ffff_ffff_ffff) by (bit_vector);
    assert((a >> 63 == 1) == (b >> 63 == 1) && a & 0x7fff_ffff_ffff_ffff == b
        & 0x7fff_ffff_ffff_ffff ==> a == b) by (bit_vector);
}

} // verus!
