use vstd::prelude::*;

pub use crate::region::Region;
use crate::memory::pfn::{pages_up, Pfn, PAGE_SIZE};

verus! {

/// Frames `start` up to, not including, `end`.
pub struct PageRange {
    // including
    pub start: Pfn,
    // excluding
    pub end: Pfn,
}

/// The frames touched by the part of `region` that lies inside `arena`,
/// rounded outward to whole pages, or `None` if the two do not meet.
pub open spec fn spec_page_range(region: Region, arena: Region) -> Option<PageRange> {
    let base = if region.base >= arena.base {
        region.base as int
    } else {
        arena.base as int
    };
    let end = if region.spec_end() <= arena.spec_end() {
        region.spec_end()
    } else {
        arena.spec_end()
    };
    if base < end {
        Some(
            PageRange {
                start: Pfn((base / (PAGE_SIZE as int)) as usize),
                end: Pfn(pages_up(end) as usize),
            },
        )
    } else {
        None
    }
}

impl PageRange {
    pub open spec fn has(self, pfn: int) -> bool {
        self.start.0 <= pfn < self.end.0
    }

    /// The frames of `region` that lie inside `arena`, rounded outward.
    pub fn new(region: Region, arena: Region) -> (range: Option<Self>)
        requires
            region.wf(),
            arena.wf(),
        ensures
            range == spec_page_range(region, arena),
            range matches Some(r) ==> r.start.0 < r.end.0,
    {
        let base = if region.base >= arena.base {
            region.base
        } else {
            arena.base
        };
        let end = if region.end() <= arena.end() {
            region.end()
        } else {
            arena.end()
        };
        if base < end {
            let start = Pfn::from_addr_down(base);
            let end = Pfn::from_addr_up(end);
            Some(Self { start, end })
        } else {
            None
        }
    }

    pub fn pages(&self) -> (pages: usize)
        requires
            self.start.0 <= self.end.0,
        ensures
            pages == self.end.0 - self.start.0,
    {
        self.start.pages_until(self.end)
    }

    pub fn contains(&self, pfn: Pfn) -> (contains: bool)
        ensures
            contains == self.has(pfn.0 as int),
    {
        self.start.0 <= pfn.0 && pfn.0 < self.end.0
    }
}

} // verus!
