use vstd::prelude::*;

use crate::dtb::cursor::{be_u32, be_u32_at};

verus! {

pub const MAGIC_OFFSET: usize = 0x00;
pub const TOTAL_SIZE_OFFSET: usize = 0x04;
pub const OFF_DT_STRUCT_OFFSET: usize = 0x08;
pub const OFF_DT_STRINGS_OFFSET: usize = 0x0C;
pub const OFF_MEM_RSVMAP_OFFSET: usize = 0x10;
pub const VERSION_OFFSET: usize = 0x14;
pub const LAST_COMP_VERSION_OFFSET: usize = 0x18;
pub const BOOT_CPUID_OFFSET: usize = 0x1C;
pub const SIZE_DT_STRINGS_OFFSET: usize = 0x20;
pub const SIZE_DT_STRUCT_OFFSET: usize = 0x24;
pub const HEADER_SIZE: usize = 0x28;

/// What every device tree blob starts with.
pub const MAGIC: u32 = 0xd00d_feed;

/// The newest layout this parser reads.
pub const SUPPORTED_VERSION: u32 = 17;

/// A blob starts with a header this parser accepts: long enough, with the
/// magic number, and readable by a parser of the supported version.
pub open spec fn accepted(blob: Seq<u8>) -> bool {
    &&& blob.len() >= HEADER_SIZE
    &&& be_u32(blob, MAGIC_OFFSET as int) == MAGIC
    &&& be_u32(blob, LAST_COMP_VERSION_OFFSET as int) <= SUPPORTED_VERSION
}

/// The fixed-size header at the start of a device tree blob.
pub struct Header<'a> {
    blob: &'a [u8],
}

impl<'a> Header<'a> {
    /// The bytes the header is read from.
    pub closed spec fn spec_blob(self) -> Seq<u8> {
        self.blob@
    }

    #[verifier::type_invariant]
    closed spec fn inv(self) -> bool {
        accepted(self.blob@)
    }

    /// The header at the start of `blob`, if it is one this parser accepts.
    pub fn from_bytes(blob: &'a [u8]) -> (header: Option<Header<'a>>)
        ensures
            header is Some <==> accepted(blob@),
            header matches Some(h) ==> h.spec_blob() == blob@,
    {
        if blob.len() < HEADER_SIZE {
            return None;
        }
        if be_u32_at(blob, MAGIC_OFFSET) != MAGIC {
            return None;
        }
        if be_u32_at(blob, LAST_COMP_VERSION_OFFSET) > SUPPORTED_VERSION {
            return None;
        }
        Some(Header { blob })
    }

    /// The header field at `offset`.
    fn u32_at(&self, offset: usize) -> (value: u32)
        requires
            offset + 4 <= HEADER_SIZE,
        ensures
            value == be_u32(self.spec_blob(), offset as int),
    {
        proof {
            use_type_invariant(self);
        }
        be_u32_at(self.blob, offset)
    }

    pub fn magic(&self) -> (value: u32)
        ensures
            value == be_u32(self.spec_blob(), MAGIC_OFFSET as int),
            value == MAGIC,
    {
        proof {
            use_type_invariant(self);
        }
        self.u32_at(MAGIC_OFFSET)
    }

    pub fn total_size(&self) -> (value: u32)
        ensures
            value == be_u32(self.spec_blob(), TOTAL_SIZE_OFFSET as int),
    {
        self.u32_at(TOTAL_SIZE_OFFSET)
    }

    pub fn off_dt_struct(&self) -> (value: u32)
        ensures
            value == be_u32(self.spec_blob(), OFF_DT_STRUCT_OFFSET as int),
    {
        self.u32_at(OFF_DT_STRUCT_OFFSET)
    }

    pub fn off_dt_strings(&self) -> (value: u32)
        ensures
            value == be_u32(self.spec_blob(), OFF_DT_STRINGS_OFFSET as int),
    {
        self.u32_at(OFF_DT_STRINGS_OFFSET)
    }

    pub fn off_mem_rsvmap(&self) -> (value: u32)
        ensures
            value == be_u32(self.spec_blob(), OFF_MEM_RSVMAP_OFFSET as int),
    {
        self.u32_at(OFF_MEM_RSVMAP_OFFSET)
    }

    pub fn version(&self) -> (value: u32)
        ensures
            value == be_u32(self.spec_blob(), VERSION_OFFSET as int),
    {
        self.u32_at(VERSION_OFFSET)
    }

    pub fn last_comp_version(&self) -> (value: u32)
        ensures
            value == be_u32(self.spec_blob(), LAST_COMP_VERSION_OFFSET as int),
            value <= SUPPORTED_VERSION,
    {
        proof {
            use_type_invariant(self);
        }
        self.u32_at(LAST_COMP_VERSION_OFFSET)
    }

    pub fn boot_cpuid(&self) -> (value: u32)
        ensures
            value == be_u32(self.spec_blob(), BOOT_CPUID_OFFSET as int),
    {
        self.u32_at(BOOT_CPUID_OFFSET)
    }

    pub fn size_dt_strings(&self) -> (value: u32)
        ensures
            value == be_u32(self.spec_blob(), SIZE_DT_STRINGS_OFFSET as int),
    {
        self.u32_at(SIZE_DT_STRINGS_OFFSET)
    }

    pub fn size_dt_struct(&self) -> (value: u32)
        ensures
            value == be_u32(self.spec_blob(), SIZE_DT_STRUCT_OFFSET as int),
    {
        self.u32_at(SIZE_DT_STRUCT_OFFSET)
    }
}

} // verus!
