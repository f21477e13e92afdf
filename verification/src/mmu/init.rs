use vstd::prelude::*;

verus! {

// Where each field of TCR_EL1 starts.
pub const T0SZ_SHIFT: u64 = 0;
pub const IRGN0_SHIFT: u64 = 8;
pub const ORGN0_SHIFT: u64 = 10;
pub const SH0_SHIFT: u64 = 12;
pub const TG0_SHIFT: u64 = 14;
pub const EPD1_SHIFT: u64 = 23;
pub const TG1_SHIFT: u64 = 30;
pub const IPS_SHIFT: u64 = 32;

pub const NORMAL_MEMORY: u64 = 0xFF;
pub const DEVICE_MEMORY: u64 = 0x00;

pub const NORMAL_SLOT: u64 = 0;
pub const DEVICE_SLOT: u64 = 1;

/// Memory attribute slot 0 is normal write-back memory, slot 1 device memory.
pub const MAIR_EL1: u64 = (NORMAL_MEMORY << (NORMAL_SLOT * 8)) | (DEVICE_MEMORY << (DEVICE_SLOT * 8));

pub const VA_BITS: u64 = 39;
pub const T0SZ: u64 = 64 - VA_BITS;

pub const WRITE_BACK: u64 = 0b01;
pub const INNER_SHAREABLE: u64 = 0b11;
pub const GRANULE_4KIB_TTBR0: u64 = 0b00;
pub const GRANULE_4KIB_TTBR1: u64 = 0b10;
pub const PHYSICAL_40_BITS: u64 = 0b010;
pub const WALK_DISABLED: u64 = 1;

/// A 39-bit space through TTBR0 with 4 KiB pages, walks cached write-back
/// and inner shareable, TTBR1 walks off, 40-bit physical addresses.
pub const TCR_EL1: u64 = (T0SZ << T0SZ_SHIFT) | (WRITE_BACK << IRGN0_SHIFT) | (WRITE_BACK
    << ORGN0_SHIFT) | (INNER_SHAREABLE << SH0_SHIFT) | (GRANULE_4KIB_TTBR0 << TG0_SHIFT) | (
WALK_DISABLED << EPD1_SHIFT) | (GRANULE_4KIB_TTBR1 << TG1_SHIFT) | (PHYSICAL_40_BITS
    << IPS_SHIFT);

pub const SCTLR_M: u64 = 1 << 0;
pub const SCTLR_C: u64 = 1 << 2;
pub const SCTLR_I: u64 = 1 << 12;

/// The MMU, the data cache and the instruction cache on.
pub const SCTLR_EL1: u64 = SCTLR_M | SCTLR_C | SCTLR_I;

/// The control register value with the MMU and both caches switched on,
/// everything else as it was.
pub fn sctlr_enabled(sctlr: u64) -> (value: u64)
    ensures
        value == sctlr | SCTLR_EL1,
{
    sctlr | SCTLR_EL1
}

} // verus!
