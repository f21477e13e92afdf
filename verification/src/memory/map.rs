use vstd::prelude::*;

use vstd::arithmetic::power2::{lemma2_to64, pow2};
use crate::layout::{aligned, is_pow2, lemma_align_down, lemma_align_up, lemma_multiples_apart, lemma_pow2_exponent};

verus! {

/// Round `addr` up to the next multiple of the power of two `align`.
pub fn align_up(addr: usize, align: usize) -> (result: usize)
    requires
        is_pow2(align),
        addr + (align - 1) <= usize::MAX,
    ensures
        result % align == 0,
        addr <= result < addr + align,
        forall|t: int| #[trigger] aligned(t, align as int) && addr <= t ==> result <= t,
{
    proof {
        lemma_align_up(addr, align);
        lemma_pow2_exponent(align);
        assert forall|t: int| aligned(t, align as int) && addr <= t implies
            ((addr + (align - 1)) as usize) & !((align - 1) as usize) <= t by {
            let r = ((addr + (align - 1)) as usize) & !((align - 1) as usize);
            if t < r {
                lemma_multiples_apart(t, r as int, align as int);
            }
        }
    }
    (addr + (align - 1)) & !(align - 1)
}

/// Round `addr` down to a multiple of the power of two `align`.
pub fn align_down(addr: usize, align: usize) -> (result: usize)
    requires
        is_pow2(align),
    ensures
        result % align == 0,
        result <= addr < result + align,
        forall|t: int| #[trigger] aligned(t, align as int) && t <= addr ==> t <= result,
{
    proof {
        lemma_align_down(addr, align);
        lemma_pow2_exponent(align);
        assert forall|t: int| aligned(t, align as int) && t <= addr implies
            t <= addr & !((align - 1) as usize) by {
            let r = addr & !((align - 1) as usize);
            if r < t {
                lemma_multiples_apart(r as int, t, align as int);
            }
        }
    }
    addr & !(align - 1)
}

} // verus!

verus! {

use crate::memory::gaps::{exact_gaps, gaps};
use crate::memory::pfn::PAGE_SIZE;
use crate::memory::region::{PageRange, Region};

pub const RESERVED: usize = 16;

/// `reserve` found every slot already taken.
pub struct Full;

/// RAM rounded inward to whole pages, and the regions of it that are spoken for.
pub struct MemoryMap {
    arena: Region,
    reserved: Vec<Region>,
}

impl MemoryMap {
    pub closed spec fn spec_arena(self) -> Region {
        self.arena
    }

    /// What has been reserved, in the order it was.
    pub closed spec fn reservations(self) -> Seq<Region> {
        self.reserved@
    }

    pub closed spec fn wf(self) -> bool {
        &&& self.arena.wf()
        &&& self.arena.base % PAGE_SIZE == 0
        &&& self.arena.size % PAGE_SIZE == 0
        &&& self.reserved@.len() <= RESERVED
        &&& forall|i: int| 0 <= i < self.reserved@.len() ==> (#[trigger] self.reserved@[i]).wf()
    }

    /// The whole pages of `memory`, with nothing reserved; `None` when not even
    /// one page boundary lies inside it.
    pub fn new(memory: Region) -> (map: Option<MemoryMap>)
        requires
            memory.wf(),
            memory.base + (PAGE_SIZE - 1) <= usize::MAX,
        ensures
            match map {
                Some(m) => {
                    &&& m.wf()
                    &&& m.reservations() == Seq::<Region>::empty()
                    &&& m.spec_arena().base == crate::memory::pfn::pages_up(memory.base as int)
                        * PAGE_SIZE
                    &&& m.spec_arena().spec_end() == memory.spec_end() / (PAGE_SIZE as int)
                        * PAGE_SIZE
                },
                None => memory.spec_end() / (PAGE_SIZE as int) * PAGE_SIZE < crate::memory::pfn::pages_up(
                    memory.base as int,
                ) * PAGE_SIZE,
            },
    {
        proof {
            lemma2_to64();
            assert(is_pow2(PAGE_SIZE)) by {
                assert(PAGE_SIZE == pow2(12));
            }
        }
        let base = align_up(memory.base, PAGE_SIZE);
        let end = align_down(memory.end(), PAGE_SIZE);
        proof {
            lemma_page_rounding(memory.base as int, base as int);
            lemma_page_rounding_down(memory.spec_end(), end as int);
        }
        let size = match end.checked_sub(base) {
            Some(size) => size,
            None => {
                return None;
            },
        };
        Some(MemoryMap { arena: Region { base, size }, reserved: Vec::new() })
    }

    pub fn arena(&self) -> (arena: Region)
        ensures
            arena == self.spec_arena(),
            self.wf() ==> arena.wf() && arena.base % PAGE_SIZE == 0 && arena.size % PAGE_SIZE == 0,
    {
        self.arena
    }

    /// Keep `region` out of the unreserved runs, unless every slot is taken.
    pub fn reserve(&mut self, region: Region) -> (result: Result<(), Full>)
        requires
            old(self).wf(),
            region.wf(),
        ensures
            final(self).wf(),
            final(self).spec_arena() == old(self).spec_arena(),
            old(self).reservations().len() < RESERVED ==> result is Ok
                && final(self).reservations() == old(self).reservations().push(region),
            old(self).reservations().len() >= RESERVED ==> result is Err
                && final(self).reservations() == old(self).reservations(),
    {
        if self.reserved.len() >= RESERVED {
            return Err(Full);
        }
        self.reserved.push(region);
        Ok(())
    }

    /// Every reservation, in the order it was made.
    pub fn reserved(&self) -> (regions: Vec<Region>)
        ensures
            regions@ == self.reservations(),
    {
        let mut regions = Vec::new();
        let mut i: usize = 0;
        while i < self.reserved.len()
            invariant
                i <= self.reserved@.len(),
                regions@ == self.reserved@.subrange(0, i as int),
            decreases self.reserved@.len() - i,
        {
            regions.push(self.reserved[i]);
            i += 1;
            assert(regions@ =~= self.reserved@.subrange(0, i as int));
        }
        assert(regions@ =~= self.reserved@);
        regions
    }

    /// The free runs of the arena, as [`gaps`] finds them.
    pub fn unreserved(&self) -> (runs: Vec<PageRange>)
        requires
            self.wf(),
        ensures
            exact_gaps(self.spec_arena(), self.reservations(), runs@),
    {
        gaps(self.arena, self.reserved.as_slice())
    }
}

/// The page-aligned address rounded up from `addr` is the one `pages_up` names.
proof fn lemma_page_rounding(addr: int, base: int)
    requires
        base % (PAGE_SIZE as int) == 0,
        addr <= base < addr + PAGE_SIZE,
    ensures
        base == crate::memory::pfn::pages_up(addr) * PAGE_SIZE,
{
}

/// The page-aligned address rounded down from `addr` is its page number times the page size.
proof fn lemma_page_rounding_down(addr: int, end: int)
    requires
        end % (PAGE_SIZE as int) == 0,
        end <= addr < end + PAGE_SIZE,
        0 <= end,
    ensures
        end == addr / (PAGE_SIZE as int) * PAGE_SIZE,
{
}

} // verus!
