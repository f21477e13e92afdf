use vstd::prelude::*;

use crate::memory::region::Region;
use crate::mmu::descriptor::Descriptor;

verus! {

/// A named region of the address space and how to map it: with `None`, the
/// region is left unmapped.
pub struct Mapping {
    pub name: &'static str,
    pub region: Region,
    pub template: Option<Descriptor>,
}

} // verus!
