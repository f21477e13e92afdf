use vstd::prelude::*;

use vstd::arithmetic::power2::{lemma2_to64, pow2};

verus! {

/// Which table a walk is looking at. There is no level 0 because `T0SZ = 25`
/// gives a 39-bit address space, and 39 bits start at level 1.
#[derive(Debug, Clone, Copy, PartialEq, Eq, Structural)]
pub enum Level {
    Level1,
    Level2,
    Level3,
}

/// Where a level's slot index starts in a virtual address: 30, 21, 12.
pub open spec fn shift_of(level: Level) -> nat {
    match level {
        Level::Level1 => 30,
        Level::Level2 => 21,
        Level::Level3 => 12,
    }
}

/// How much address space one slot of `level` covers.
pub open spec fn size_of(level: Level) -> nat {
    pow2(shift_of(level))
}

/// The level below `level`, if any.
pub open spec fn spec_next(level: Level) -> Option<Level> {
    match level {
        Level::Level1 => Some(Level::Level2),
        Level::Level2 => Some(Level::Level3),
        Level::Level3 => None,
    }
}

/// The sizes of the levels: 1 GiB, 2 MiB, 4 KiB.
pub proof fn lemma_sizes()
    ensures
        size_of(Level::Level1) == 0x4000_0000,
        size_of(Level::Level2) == 0x20_0000,
        size_of(Level::Level3) == 0x1000,
{
    lemma2_to64();
}

impl Level {
    /// Two spaces per level down, so a child table reads as nested under
    /// its parent.
    pub fn indent(self) -> (indent: &'static str)
        ensures
            indent@ == match self {
                Level::Level1 => ""@,
                Level::Level2 => "  "@,
                Level::Level3 => "    "@,
            },
    {
        match self {
            Level::Level1 => "",
            Level::Level2 => "  ",
            Level::Level3 => "    ",
        }
    }

    /// The level's number: 1, 2 or 3.
    pub fn number(self) -> (n: u8)
        ensures
            n == 3 - (shift_of(self) - 12) / 9,
    {
        match self {
            Level::Level1 => 1,
            Level::Level2 => 2,
            Level::Level3 => 3,
        }
    }

    /// The level below this one; level 3 is the last.
    pub fn next(self) -> (next: Option<Self>)
        ensures
            next == spec_next(self),
    {
        match self {
            Level::Level1 => Some(Level::Level2),
            Level::Level2 => Some(Level::Level3),
            Level::Level3 => None,
        }
    }

    /// Where this level's slot index starts in a virtual address.
    fn offset(self) -> (offset: usize)
        ensures
            offset == shift_of(self),
    {
        match self {
            Level::Level1 => 30,
            Level::Level2 => 21,
            Level::Level3 => 12,
        }
    }

    /// Which of the 512 slots an address lands in.
    pub fn slot_of(self, va: usize) -> (slot: usize)
        ensures
            slot == (va as nat / size_of(self)) % 512,
            slot < 512,
    {
        let shift = self.offset();
        proof {
            vstd::bits::lemma_usize_shr_is_div(va, shift);
        }
        let slot = (va >> shift) & 0x1FF;
        proof {
            let q = va >> shift;
            assert(q & 0x1FF == q % 512 && q & 0x1FF < 512) by (bit_vector);
        }
        slot
    }

    /// The bits this level does not translate: the offset into a block.
    pub fn offset_mask(self) -> (mask: usize)
        ensures
            mask == size_of(self) - 1,
    {
        self.size() - 1
    }

    /// How much address space one slot covers: 1 GiB, 2 MiB, 4 KiB.
    pub fn size(self) -> (size: usize)
        ensures
            size == size_of(self),
            size > 0,
    {
        let shift = self.offset();
        proof {
            lemma2_to64();
            vstd::bits::lemma_usize_shl_is_mul(1, shift);
        }
        1usize << shift
    }

    /// `addr` is a multiple of the slot size.
    pub fn is_aligned(self, addr: usize) -> (aligned: bool)
        ensures
            aligned == (addr as nat % size_of(self) == 0),
    {
        let size = self.size();
        let mask = self.offset_mask();
        proof {
            assert(crate::layout::is_pow2(size)) by {
                assert(shift_of(self) < usize::BITS);
            }
            crate::layout::lemma_mask_is_mod(addr, size);
        }
        addr & mask == 0
    }
}

} // verus!
