use vstd::prelude::*;

use vstd::arithmetic::power2::{lemma2_to64, pow2};

use crate::board::Gic;

verus! {

// Distributor registers.
pub const GICD_CTLR: usize = 0x0;
pub const GICD_TYPER: usize = 0x4;
pub const GICD_ISENABLER: usize = 0x100;
pub const GICD_ITARGETSR: usize = 0x800;

/// Mask for the number of interrupt lines.
pub const IT_LINES_NUMBER_MASK: u32 = 0x1F;

/// Number of interrupt lines per block.
pub const LINES_PER_BLOCK: u32 = 32;

/// SGIs and PPIs are always delivered to the local core; only SPIs need routing.
pub const FIRST_SPI: u32 = 32;

pub const TARGET_CPU0: u8 = 0x01;

// CPU interface registers.
pub const GICC_CTLR: usize = 0x0;
pub const GICC_PMR: usize = 0x4;
pub const GICC_IAR: usize = 0x0C;
pub const GICC_EOIR: usize = 0x10;

/// Mask for the interrupt number.
pub const IRQ_MASK: u32 = 0x3FF;

pub const SPURIOUS_INTERRUPT_ID: u32 = 1023;

/// The writes that enable an interrupt: its bit in an enable register and,
/// for a shared peripheral interrupt, the byte routing it to core 0.
#[derive(Debug, Clone, Copy, PartialEq, Eq, Structural)]
pub struct EnableWrites {
    pub enable_register: usize,
    pub enable_bits: u32,
    pub target_register: Option<usize>,
}

/// How many interrupt lines the distributor says it has.
pub fn line_count(typer: u32) -> (n: u32)
    ensures
        n == LINES_PER_BLOCK * (typer % 32 + 1),
        n >= 32,
{
    let it_lines_number = typer & IT_LINES_NUMBER_MASK;
    proof {
        lemma2_to64();
        vstd::bits::lemma_low_bits_mask_values();
        vstd::bits::lemma_u32_low_bits_mask_is_mod(typer, 5);
    }
    LINES_PER_BLOCK * (it_lines_number + 1)
}

/// Where and what to write to enable interrupt `intid`: one bit per
/// interrupt in the enable registers, one byte per interrupt in the target
/// registers.
pub fn enable(gic: &Gic, intid: u32) -> (writes: EnableWrites)
    requires
        gic.distributor_base + GICD_ITARGETSR + intid <= usize::MAX,
    ensures
        writes.enable_register == gic.distributor_base + GICD_ISENABLER + (intid / 32) * 4,
        writes.enable_bits == pow2((intid % 32) as nat),
        writes.target_register == if intid >= FIRST_SPI {
            Some((gic.distributor_base + GICD_ITARGETSR + intid) as usize)
        } else {
            None
        },
{
    let block = intid as usize / 32;
    let bit = intid % 32;
    proof {
        vstd::bits::lemma_u32_pow2_no_overflow(bit as nat);
        vstd::bits::lemma_u32_shl_is_mul(1, bit);
    }
    let enable_register = gic.distributor_base + GICD_ISENABLER + block * 4;
    // One byte per interrupt here, unlike the bit-per-interrupt ISENABLER above.
    let target_register = if intid >= FIRST_SPI {
        Some(gic.distributor_base + GICD_ITARGETSR + intid as usize)
    } else {
        None
    };
    EnableWrites { enable_register, enable_bits: 1u32 << bit, target_register }
}

/// An interrupt taken from the CPU interface, to be ended once handled.
#[derive(Debug)]
pub struct Interrupt {
    val: u32,
}

impl Interrupt {
    /// The value acknowledging it returned.
    pub closed spec fn spec_val(self) -> u32 {
        self.val
    }

    fn new(val: u32) -> (interrupt: Self)
        ensures
            interrupt.spec_val() == val,
    {
        Self { val }
    }

    /// The interrupt's number.
    pub fn intid(&self) -> (id: u32)
        ensures
            id == self.spec_val() % 1024,
    {
        proof {
            lemma2_to64();
            vstd::bits::lemma_low_bits_mask_values();
            vstd::bits::lemma_u32_low_bits_mask_is_mod(self.val, 10);
        }
        self.val & IRQ_MASK
    }

    fn is_spurious(&self) -> (b: bool)
        ensures
            b == (self.spec_val() % 1024 == SPURIOUS_INTERRUPT_ID),
    {
        self.intid() == SPURIOUS_INTERRUPT_ID
    }

    /// Finish with the interrupt: the value to write to the end-of-interrupt
    /// register, the one acknowledging it returned.
    pub fn end(self) -> (eoir: u32)
        ensures
            eoir == self.spec_val(),
    {
        self.val
    }
}

/// The interrupt an acknowledge register value names, or `None` when it is
/// the spurious one: nothing was pending.
pub fn acknowledge(iar: u32) -> (interrupt: Option<Interrupt>)
    ensures
        match interrupt {
            Some(i) => i.spec_val() == iar && iar % 1024 != SPURIOUS_INTERRUPT_ID,
            None => iar % 1024 == SPURIOUS_INTERRUPT_ID,
        },
{
    let interrupt = Interrupt::new(iar);
    if interrupt.is_spurious() {
        None
    } else {
        Some(interrupt)
    }
}

} // verus!
