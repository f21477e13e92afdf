use vstd::prelude::*;

verus! {

/// One `(address, size)` pair. A range of physical memory, whoever it came from.
#[derive(Clone, Copy, Debug)]
pub struct Region {
    pub base: usize,
    pub size: usize,
}

/// Whether the half-open ranges `[a, a + a_size)` and `[b, b + b_size)` share an address.
pub open spec fn ranges_overlap(a: int, a_size: int, b: int, b_size: int) -> bool {
    a < b + b_size && b < a + a_size
}

impl Region {
    /// The region of no bytes at address zero.
    pub fn empty() -> (region: Region)
        ensures
            region.base == 0 && region.size == 0,
    {
        Region { base: 0, size: 0 }
    }

    /// The end of the region is representable: the region does not wrap around.
    pub open spec fn wf(self) -> bool {
        self.base + self.size <= usize::MAX
    }

    /// One past the last address, as a mathematical integer.
    pub open spec fn spec_end(self) -> int {
        self.base + self.size
    }

    pub open spec fn contains_addr(self, addr: int) -> bool {
        self.base <= addr < self.spec_end()
    }

    pub open spec fn overlaps(self, other: Region) -> bool {
        ranges_overlap(self.base as int, self.size as int, other.base as int, other.size as int)
    }

    pub fn end(&self) -> (end: usize)
        requires
            self.wf(),
        ensures
            end == self.spec_end(),
    {
        self.base + self.size
    }

    pub fn is_overlapping(&self, other: &Region) -> (overlapping: bool)
        requires
            self.wf(),
            other.wf(),
        ensures
            overlapping == self.overlaps(*other),
    {
        self.base < other.end() && other.base < self.end()
    }
}

/// Overlap is symmetric.
pub proof fn lemma_overlap_symmetric(a: Region, b: Region)
    ensures
        a.overlaps(b) == b.overlaps(a),
{
}

} // verus!
