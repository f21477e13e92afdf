use vstd::prelude::*;

use crate::memory::region::Region;

pub mod gaps;
pub mod map;
pub mod pages;
pub mod pfn;
pub mod region;

verus! {

/// The region from `start` up to, not including, `end`.
pub fn between(start: usize, end: usize) -> (region: Region)
    requires
        start <= end,
    ensures
        region.base == start,
        region.spec_end() == end,
        region.wf(),
{
    Region { base: start, size: end - start }
}

/// Where the linker put the parts of the kernel image: each field is the
/// address of the symbol of the same name.
#[derive(Debug, Clone, Copy)]
pub struct KernelLayout {
    pub image_start: usize,
    pub text_end: usize,
    pub vectors_start: usize,
    pub vectors_end: usize,
    pub exec_end: usize,
    pub rodata_end: usize,
    pub data_end: usize,
    pub bss_start: usize,
    pub stack_bottom: usize,
    pub stack_top: usize,
}

impl KernelLayout {
    /// Region taken by kernel image itself.
    pub fn image(&self) -> (region: Region)
        requires
            self.image_start <= self.stack_top,
        ensures
            region.base == self.image_start,
            region.spec_end() == self.stack_top,
    {
        between(self.image_start, self.stack_top)
    }

    /// Everything the kernel executes: instructions and the exception vectors.
    /// Read-only, executable at exception level 1.
    pub fn executable(&self) -> (region: Region)
        requires
            self.image_start <= self.exec_end,
        ensures
            region.base == self.image_start,
            region.spec_end() == self.exec_end,
    {
        between(self.image_start, self.exec_end)
    }

    /// Constants. Read-only and never executed.
    pub fn rodata(&self) -> (region: Region)
        requires
            self.exec_end <= self.rodata_end,
        ensures
            region.base == self.exec_end,
            region.spec_end() == self.rodata_end,
    {
        between(self.exec_end, self.rodata_end)
    }

    /// Everything the kernel writes: data, zeroed data, and the stack.
    /// Writable and never executed.
    pub fn writable(&self) -> (region: Region)
        requires
            self.rodata_end <= self.stack_top,
        ensures
            region.base == self.rodata_end,
            region.spec_end() == self.stack_top,
    {
        between(self.rodata_end, self.stack_top)
    }

    /// Instructions alone. Inside the executable region, for reporting only.
    pub fn text(&self) -> (region: Region)
        requires
            self.image_start <= self.text_end,
        ensures
            region.base == self.image_start,
            region.spec_end() == self.text_end,
    {
        between(self.image_start, self.text_end)
    }

    /// The exception vector table `VBAR_EL1` points at. Inside the executable
    /// region.
    pub fn vectors(&self) -> (region: Region)
        requires
            self.vectors_start <= self.vectors_end,
        ensures
            region.base == self.vectors_start,
            region.spec_end() == self.vectors_end,
    {
        between(self.vectors_start, self.vectors_end)
    }

    /// Initialised data. Inside the writable region.
    pub fn data(&self) -> (region: Region)
        requires
            self.rodata_end <= self.data_end,
        ensures
            region.base == self.rodata_end,
            region.spec_end() == self.data_end,
    {
        between(self.rodata_end, self.data_end)
    }

    /// Zeroed data. Inside the writable region.
    pub fn bss(&self) -> (region: Region)
        requires
            self.bss_start <= self.stack_bottom,
        ensures
            region.base == self.bss_start,
            region.spec_end() == self.stack_bottom,
    {
        between(self.bss_start, self.stack_bottom)
    }

    /// The kernel stack. Inside the writable region.
    pub fn stack(&self) -> (region: Region)
        requires
            self.stack_bottom <= self.stack_top,
        ensures
            region.base == self.stack_bottom,
            region.spec_end() == self.stack_top,
    {
        between(self.stack_bottom, self.stack_top)
    }
}

} // verus!
