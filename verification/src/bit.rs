use vstd::prelude::*;

verus! {

/// A `u32` with only bit `bit` set.
pub fn bit_mask(bit: u32) -> (mask: u32)
    requires
        bit < 32,
    ensures
        mask == 1u32 << bit,
        mask & (1u32 << bit) != 0,
        mask & !(1u32 << bit) == 0,
{
    let mask = 1u32 << bit;
    assert(mask & (1u32 << bit) != 0 && mask & !(1u32 << bit) == 0) by (bit_vector)
        requires
            mask == 1u32 << bit,
            bit < 32,
    ;
    mask
}

/// Two 32-bit halves as one 64-bit number, `high` on top.
pub fn compose_u32(high: u32, low: u32) -> (value: u64)
    ensures
        value == high as int * 0x1_0000_0000 + low as int,
        value >> 32u64 == high as u64,
        value & 0xffff_ffffu64 == low as u64,
{
    let value = (high as u64) << 32u64 | low as u64;
    assert(value == high as int * 0x1_0000_0000 + low as int && value >> 32u64 == high as u64
        && value & 0xffff_ffffu64 == low as u64) by (bit_vector)
        requires
            value == (high as u64) << 32u64 | low as u64,
    ;
    value
}

} // verus!
