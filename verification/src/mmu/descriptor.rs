use vstd::prelude::*;

use crate::mmu::level::Level;

verus! {

// Where each field sits in a descriptor. Every shift is the low end of that
// field's range, and no two fields may overlap.
pub const ATTR_INDEX: u64 = 2;
pub const NS: u64 = 5;
pub const AP: u64 = 6;
pub const SH_SHIFT: u64 = 8;
pub const AF: u64 = 10;
pub const NG: u64 = 11;
pub const CONTIGUOUS: u64 = 52;
pub const PXN: u64 = 53;
pub const UXN: u64 = 54;

/// Bits 47:12. An address ORs straight in - its own bit 12 is already at
/// position 12 - so there is no shift, only a mask.
pub const ADDRESS: u64 = 0x0000_FFFF_FFFF_F000;

/// What a translation table entry says about the memory it maps.
#[derive(Clone, Copy, Debug, PartialEq, Eq, Structural)]
pub struct Descriptor {
    pub kind: Kind,
    pub attr_idx: AttrIndex,
    pub ns: bool,
    pub ap: AccessPermissions,
    pub sh: SH,
    pub af: bool,
    pub ng: bool,
    /// The physical address itself, not a page number. A level 1 block needs its
    /// low 30 bits zero, a level 2 block its low 21, a level 3 page its low 12.
    pub address: usize,
    pub contig: bool,
    pub pxn: bool,
    pub uxn: bool,
}

/// What bits 1:0 of an entry say.
#[derive(Clone, Copy, Debug, PartialEq, Eq, Structural)]
pub enum Kind {
    /// Bits `00` and `10`. Not an error - it is how a slot says nothing is mapped.
    Invalid,
    /// A leaf above level 3
    Block,
    /// At level 1 or 2 - the address of the table below.
    /// At level 3 - 4KiB page address
    Table,
}

/// Which of the eight memory types in MAIR_EL1 applies.
#[derive(Clone, Copy, Debug, PartialEq, Eq, Structural)]
pub enum AttrIndex {
    Normal,
    Device,
    Other(u8),
}

/// AP[2:1]. Note that execute permission is not in here - that is PXN and UXN.
#[derive(Clone, Copy, Debug, PartialEq, Eq, Structural)]
pub enum AccessPermissions {
    KernelReadWrite,
    AllReadWrite,
    KernelReadOnly,
    AllReadOnly,
}

/// Shareability. Ignored for Device memory, which is never cached in the
/// first place.
#[derive(Clone, Copy, Debug, PartialEq, Eq, Structural)]
pub enum SH {
    NonShareable,
    Reserved,
    OuterShareable,
    InnerShareable,
}

pub open spec fn kind_bits(kind: Kind) -> u64 {
    match kind {
        Kind::Invalid => 0,
        Kind::Block => 1,
        Kind::Table => 3,
    }
}

pub open spec fn kind_of(bits: u64) -> Kind {
    if bits == 1 {
        Kind::Block
    } else if bits == 3 {
        Kind::Table
    } else {
        Kind::Invalid
    }
}

pub open spec fn attr_bits(attr: AttrIndex) -> u64 {
    match attr {
        AttrIndex::Normal => 0,
        AttrIndex::Device => 1,
        AttrIndex::Other(other) => (other as u64) & 7,
    }
}

pub open spec fn attr_of(bits: u64) -> AttrIndex {
    if bits == 0 {
        AttrIndex::Normal
    } else if bits == 1 {
        AttrIndex::Device
    } else {
        AttrIndex::Other(bits as u8)
    }
}

pub open spec fn ap_bits(ap: AccessPermissions) -> u64 {
    match ap {
        AccessPermissions::KernelReadWrite => 0,
        AccessPermissions::AllReadWrite => 1,
        AccessPermissions::KernelReadOnly => 2,
        AccessPermissions::AllReadOnly => 3,
    }
}

pub open spec fn ap_of(bits: u64) -> AccessPermissions {
    if bits == 0 {
        AccessPermissions::KernelReadWrite
    } else if bits == 1 {
        AccessPermissions::AllReadWrite
    } else if bits == 2 {
        AccessPermissions::KernelReadOnly
    } else {
        AccessPermissions::AllReadOnly
    }
}

pub open spec fn sh_bits(sh: SH) -> u64 {
    match sh {
        SH::NonShareable => 0,
        SH::Reserved => 1,
        SH::OuterShareable => 2,
        SH::InnerShareable => 3,
    }
}

pub open spec fn sh_of(bits: u64) -> SH {
    if bits == 0 {
        SH::NonShareable
    } else if bits == 1 {
        SH::Reserved
    } else if bits == 2 {
        SH::OuterShareable
    } else {
        SH::InnerShareable
    }
}

pub open spec fn flag(b: bool) -> u64 {
    if b {
        1
    } else {
        0
    }
}

/// The entry a descriptor packs into.
pub open spec fn spec_to_u64(d: Descriptor) -> u64 {
    kind_bits(d.kind) | attr_bits(d.attr_idx) << ATTR_INDEX | flag(d.ns) << NS | ap_bits(d.ap) << AP
        | sh_bits(d.sh) << SH_SHIFT | flag(d.af) << AF | flag(d.ng) << NG | (d.address as u64
        & ADDRESS) | flag(d.contig) << CONTIGUOUS | flag(d.pxn) << PXN | flag(d.uxn) << UXN
}

/// The descriptor an entry stands for.
pub open spec fn spec_from_u64(value: u64) -> Descriptor {
    Descriptor {
        kind: kind_of(value & 3),
        attr_idx: attr_of((value >> ATTR_INDEX) & 7),
        ns: value & (1u64 << NS) != 0,
        ap: ap_of((value >> AP) & 3),
        sh: sh_of((value >> SH_SHIFT) & 3),
        af: value & (1u64 << AF) != 0,
        ng: value & (1u64 << NG) != 0,
        address: (value & ADDRESS) as usize,
        contig: value & (1u64 << CONTIGUOUS) != 0,
        pxn: value & (1u64 << PXN) != 0,
        uxn: value & (1u64 << UXN) != 0,
    }
}

/// A descriptor that an entry can hold as it is: its address a page-aligned
/// address below 2^48, and an attribute index other than the first two
/// named by its number below eight.
pub open spec fn encodable(d: Descriptor) -> bool {
    &&& (d.address as u64) & !ADDRESS == 0
    &&& d.address as u64 == d.address
    &&& d.attr_idx matches AttrIndex::Other(x) ==> 2 <= x < 8
}

/// The fields packed by `spec_to_u64` come back out of their places.
proof fn lemma_fields(
    k: u64,
    a: u64,
    n: u64,
    ap: u64,
    sh: u64,
    af: u64,
    ng: u64,
    addr: u64,
    c: u64,
    p: u64,
    u: u64,
)
    requires
        k < 4,
        a < 8,
        n < 2,
        ap < 4,
        sh < 4,
        af < 2,
        ng < 2,
        addr & !ADDRESS == 0,
        c < 2,
        p < 2,
        u < 2,
    ensures
        ({
            let v = k | a << ATTR_INDEX | n << NS | ap << AP | sh << SH_SHIFT | af << AF | ng << NG
                | (addr & ADDRESS) | c << CONTIGUOUS | p << PXN | u << UXN;
            &&& v & 3 == k
            &&& (v >> ATTR_INDEX) & 7 == a
            &&& (v & (1u64 << NS) != 0) == (n == 1)
            &&& (v >> AP) & 3 == ap
            &&& (v >> SH_SHIFT) & 3 == sh
            &&& (v & (1u64 << AF) != 0) == (af == 1)
            &&& (v & (1u64 << NG) != 0) == (ng == 1)
            &&& v & ADDRESS == addr
            &&& (v & (1u64 << CONTIGUOUS) != 0) == (c == 1)
            &&& (v & (1u64 << PXN) != 0) == (p == 1)
            &&& (v & (1u64 << UXN) != 0) == (u == 1)
        }),
{
    assert({
        let v = k | a << ATTR_INDEX | n << NS | ap << AP | sh << SH_SHIFT | af << AF | ng << NG | (
        addr & ADDRESS) | c << CONTIGUOUS | p << PXN | u << UXN;
        &&& v & 3 == k
        &&& (v >> ATTR_INDEX) & 7 == a
        &&& (v & (1u64 << NS) != 0) == (n == 1)
        &&& (v >> AP) & 3 == ap
        &&& (v >> SH_SHIFT) & 3 == sh
        &&& (v & (1u64 << AF) != 0) == (af == 1)
        &&& (v & (1u64 << NG) != 0) == (ng == 1)
        &&& v & ADDRESS == addr
        &&& (v & (1u64 << CONTIGUOUS) != 0) == (c == 1)
        &&& (v & (1u64 << PXN) != 0) == (p == 1)
        &&& (v & (1u64 << UXN) != 0) == (u == 1)
    }) by (bit_vector)
        requires
            k < 4,
            a < 8,
            n < 2,
            ap < 4,
            sh < 4,
            af < 2,
            ng < 2,
            addr & !ADDRESS == 0,
            c < 2,
            p < 2,
            u < 2,
    ;
}

/// Unpacking a packed descriptor gives it back, whenever it is one an entry
/// can hold.
pub proof fn lemma_roundtrip(d: Descriptor)
    requires
        encodable(d),
    ensures
        spec_from_u64(spec_to_u64(d)) == d,
{
    let x = match d.attr_idx {
        AttrIndex::Other(x) => x as u64,
        _ => 0,
    };
    assert(x < 8 ==> (x & 7) == x) by (bit_vector);
    lemma_fields(
        kind_bits(d.kind),
        attr_bits(d.attr_idx),
        flag(d.ns),
        ap_bits(d.ap),
        sh_bits(d.sh),
        flag(d.af),
        flag(d.ng),
        d.address as u64,
        flag(d.contig),
        flag(d.pxn),
        flag(d.uxn),
    );
}

/// Every bit that some field of a descriptor owns.
pub const FIELD_BITS: u64 = 0x0070_FFFF_FFFF_FFFF;

/// Packing the descriptor any entry stands for gives back every bit some
/// field owns: the bits no field owns are dropped, and bits 1:0 of `10`,
/// which read as invalid, pack back as `00`. The address bits must fit a
/// `usize`, as they always do where it is 64 bits wide.
pub proof fn lemma_entry_roundtrip(v: u64)
    requires
        ((v & ADDRESS) as usize) as u64 == v & ADDRESS,
    ensures
        spec_to_u64(spec_from_u64(v)) == (v & FIELD_BITS) & !(if v & 3 == 2 {
            2u64
        } else {
            0u64
        }),
{
    let k = if v & 3 == 2 {
        0u64
    } else {
        v & 3
    };
    let a = (v >> ATTR_INDEX) & 7;
    let ap = (v >> AP) & 3;
    let sh = (v >> SH_SHIFT) & 3;
    let m = v & ADDRESS;
    let d = spec_from_u64(v);
    assert({
        &&& v & 3 < 4
        &&& a < 8
        &&& ((a as u8) as u64) & 7 == a
        &&& ap < 4
        &&& sh < 4
        &&& m & ADDRESS == m
        &&& (v & FIELD_BITS) & !(if v & 3 == 2 {
            2u64
        } else {
            0u64
        }) == k | a << ATTR_INDEX | (if v & (1u64 << NS) != 0 {
            1u64
        } else {
            0u64
        }) << NS | ap << AP | sh << SH_SHIFT | (if v & (1u64 << AF) != 0 {
            1u64
        } else {
            0u64
        }) << AF | (if v & (1u64 << NG) != 0 {
            1u64
        } else {
            0u64
        }) << NG | m | (if v & (1u64 << CONTIGUOUS) != 0 {
            1u64
        } else {
            0u64
        }) << CONTIGUOUS | (if v & (1u64 << PXN) != 0 {
            1u64
        } else {
            0u64
        }) << PXN | (if v & (1u64 << UXN) != 0 {
            1u64
        } else {
            0u64
        }) << UXN
    }) by (bit_vector)
        requires
            k == (if v & 3 == 2 {
                0u64
            } else {
                v & 3
            }),
            a == (v >> ATTR_INDEX) & 7,
            ap == (v >> AP) & 3,
            sh == (v >> SH_SHIFT) & 3,
            m == v & ADDRESS,
    ;
    assert(kind_bits(d.kind) == k);
    assert(attr_bits(d.attr_idx) == a);
    assert(ap_bits(d.ap) == ap);
    assert(sh_bits(d.sh) == sh);
    assert(((d.address as u64) & ADDRESS) == m);
}

/// The entry maps memory the way `template` says: the memory type as three
/// bits hold it, the permissions, the shareability and every flag; only the
/// kind and the address are left to the entry.
pub open spec fn carries(entry: u64, template: Descriptor) -> bool {
    let d = spec_from_u64(entry);
    &&& d.attr_idx == attr_of(attr_bits(template.attr_idx))
    &&& d.ns == template.ns
    &&& d.ap == template.ap
    &&& d.sh == template.sh
    &&& d.af == template.af
    &&& d.ng == template.ng
    &&& d.contig == template.contig
    &&& d.pxn == template.pxn
    &&& d.uxn == template.uxn
}

/// Whatever else a descriptor holds, the entry it packs into keeps its kind,
/// the bits of its address that an entry has room for, and its attributes.
pub proof fn lemma_kind_address(d: Descriptor)
    ensures
        spec_from_u64(spec_to_u64(d)).kind == d.kind,
        spec_from_u64(spec_to_u64(d)).address == ((d.address as u64) & ADDRESS) as usize,
        carries(spec_to_u64(d), d),
{
    let a = d.address as u64;
    let m = a & ADDRESS;
    assert(m & !ADDRESS == 0 && m & ADDRESS == m) by (bit_vector)
        requires
            m == a & ADDRESS,
    ;
    let x = match d.attr_idx {
        AttrIndex::Other(x) => x as u64,
        _ => 0,
    };
    assert((x & 7) < 8) by (bit_vector);
    lemma_fields(
        kind_bits(d.kind),
        attr_bits(d.attr_idx),
        flag(d.ns),
        ap_bits(d.ap),
        sh_bits(d.sh),
        flag(d.af),
        flag(d.ng),
        m,
        flag(d.contig),
        flag(d.pxn),
        flag(d.uxn),
    );
}

impl Kind {
    /// What bits[1:0] of a leaf have to say at `level`. `0b01` is a block at
    /// levels 1 and 2 and *invalid* at level 3, where a leaf is a page and uses
    /// `0b11` - the same encoding that means "table" further up.
    pub fn from_level(level: Level) -> (kind: Self)
        ensures
            kind == (if level == Level::Level3 {
                Kind::Table
            } else {
                Kind::Block
            }),
    {
        match level {
            Level::Level1 | Level::Level2 => Self::Block,
            Level::Level3 => Self::Table,
        }
    }

    fn from_u64(value: u64) -> (kind: Self)
        ensures
            kind == kind_of(value & 3),
    {
        let bits = value & 0b11;
        if bits == 0b01 {
            Self::Block
        } else if bits == 0b11 {
            Self::Table
        } else {
            Self::Invalid
        }
    }

    fn to_u64(self) -> (bits: u64)
        ensures
            bits == kind_bits(self),
    {
        match self {
            Self::Invalid => 0b00,
            Self::Block => 0b01,
            Self::Table => 0b11,
        }
    }
}

impl AttrIndex {
    /// What the memory type is called in a printed map.
    pub fn name(self) -> (name: &'static str)
        ensures
            name@ == match self {
                AttrIndex::Normal => "normal"@,
                AttrIndex::Device => "device"@,
                AttrIndex::Other(_) => "other"@,
            },
    {
        match self {
            Self::Normal => "normal",
            Self::Device => "device",
            Self::Other(_) => "other",
        }
    }

    fn from_u64(value: u64) -> (attr: Self)
        ensures
            attr == attr_of((value >> ATTR_INDEX) & 7),
    {
        let bits = (value >> ATTR_INDEX) & 0b111;
        if bits == 0 {
            Self::Normal
        } else if bits == 1 {
            Self::Device
        } else {
            Self::Other(bits as u8)
        }
    }

    fn to_u64(self) -> (bits: u64)
        ensures
            bits == attr_bits(self),
    {
        match self {
            Self::Normal => 0,
            Self::Device => 1,
            Self::Other(other) => other as u64 & 0b111,
        }
    }
}

impl AccessPermissions {
    fn from_u64(value: u64) -> (ap: Self)
        ensures
            ap == ap_of((value >> AP) & 3),
    {
        let bits = (value >> AP) & 0b11;
        if bits == 0b00 {
            Self::KernelReadWrite
        } else if bits == 0b01 {
            Self::AllReadWrite
        } else if bits == 0b10 {
            Self::KernelReadOnly
        } else {
            Self::AllReadOnly
        }
    }

    fn to_u64(self) -> (bits: u64)
        ensures
            bits == ap_bits(self),
    {
        match self {
            Self::KernelReadWrite => 0b00,
            Self::AllReadWrite => 0b01,
            Self::KernelReadOnly => 0b10,
            Self::AllReadOnly => 0b11,
        }
    }
}

impl SH {
    fn from_u64(value: u64) -> (sh: Self)
        ensures
            sh == sh_of((value >> SH_SHIFT) & 3),
    {
        let bits = (value >> SH_SHIFT) & 0b11;
        if bits == 0b00 {
            Self::NonShareable
        } else if bits == 0b01 {
            Self::Reserved
        } else if bits == 0b10 {
            Self::OuterShareable
        } else {
            Self::InnerShareable
        }
    }

    fn to_u64(self) -> (bits: u64)
        ensures
            bits == sh_bits(self),
    {
        match self {
            Self::NonShareable => 0b00,
            Self::Reserved => 0b01,
            Self::OuterShareable => 0b10,
            Self::InnerShareable => 0b11,
        }
    }
}

fn bool_flag(b: bool) -> (f: u64)
    ensures
        f == flag(b),
{
    if b {
        1
    } else {
        0
    }
}

/// `next` is a block with every attribute of `d`, sitting `delta` bytes
/// further along in physical memory.
pub open spec fn spec_continues_into(d: Descriptor, next: Descriptor, delta: u64) -> bool {
    &&& next.kind == Kind::Block
    &&& spec_to_u64(next) & !ADDRESS == spec_to_u64(d) & !ADDRESS
    &&& next.address == d.address + delta
}

impl Descriptor {
    /// What the kernel may do here. `!AF` is shouted rather than abbreviated
    /// because a clear access flag faults on every single access.
    pub fn perms(self) -> (perms: &'static str)
        ensures
            perms@ == if !self.af {
                "!AF"@
            } else {
                match (self.ap, self.pxn) {
                    (AccessPermissions::KernelReadWrite, false) => "rwx"@,
                    (AccessPermissions::KernelReadWrite, true) => "rw"@,
                    (AccessPermissions::AllReadWrite, false) => "rwx/u"@,
                    (AccessPermissions::AllReadWrite, true) => "rw/u"@,
                    (AccessPermissions::KernelReadOnly, false) => "rx"@,
                    (AccessPermissions::KernelReadOnly, true) => "r"@,
                    (AccessPermissions::AllReadOnly, false) => "rx/u"@,
                    (AccessPermissions::AllReadOnly, true) => "r/u"@,
                }
            },
    {
        if !self.af {
            return "!AF";
        }
        match (self.ap, self.pxn) {
            (AccessPermissions::KernelReadWrite, false) => "rwx",
            (AccessPermissions::KernelReadWrite, true) => "rw",
            (AccessPermissions::AllReadWrite, false) => "rwx/u",
            (AccessPermissions::AllReadWrite, true) => "rw/u",
            (AccessPermissions::KernelReadOnly, false) => "rx",
            (AccessPermissions::KernelReadOnly, true) => "r",
            (AccessPermissions::AllReadOnly, false) => "rx/u",
            (AccessPermissions::AllReadOnly, true) => "r/u",
        }
    }

    /// True when `next` is the same kind of block with the same attributes,
    /// sitting `delta` further along in physical memory - which is what
    /// makes two rows of a printed map safe to show as one.
    pub fn continues_into(self, next: Descriptor, delta: u64) -> (b: bool)
        ensures
            b == spec_continues_into(self, next, delta),
    {
        let same_kind = match next.kind {
            Kind::Block => true,
            _ => false,
        };
        let same_attributes = next.to_u64() & !ADDRESS == self.to_u64() & !ADDRESS;
        let at = (self.address as u64).checked_add(delta);
        let follows = match at {
            Some(at) => next.address as u64 == at,
            None => false,
        };
        same_kind && same_attributes && follows
    }

    /// The descriptor an all-zero entry stands for: nothing mapped.
    pub fn zero() -> (d: Descriptor)
        ensures
            d == spec_from_u64(0),
    {
        Descriptor::from_u64(0)
    }

    /// A kernel read-write, never executed block of device memory.
    pub fn device_block() -> (d: Descriptor)
        ensures
            d == (Descriptor {
                kind: Kind::Block,
                attr_idx: AttrIndex::Device,
                ns: false,
                ap: AccessPermissions::KernelReadWrite,
                sh: SH::NonShareable,
                af: true,
                ng: false,
                address: 0,
                contig: false,
                pxn: true,
                uxn: true,
            }),
    {
        Descriptor {
            kind: Kind::Block,
            attr_idx: AttrIndex::Device,
            ns: false,
            ap: AccessPermissions::KernelReadWrite,
            sh: SH::NonShareable,
            af: true,
            ng: false,
            address: 0x0000_0000,
            contig: false,
            pxn: true,
            uxn: true,
        }
    }

    /// A kernel read-write, inner shareable block of normal memory, never
    /// executed from user mode.
    pub fn normal_block() -> (d: Descriptor)
        ensures
            d == (Descriptor {
                kind: Kind::Block,
                attr_idx: AttrIndex::Normal,
                ns: false,
                ap: AccessPermissions::KernelReadWrite,
                sh: SH::InnerShareable,
                af: true,
                ng: false,
                address: 0x4000_0000,
                contig: false,
                pxn: false,
                uxn: true,
            }),
    {
        Descriptor {
            kind: Kind::Block,
            attr_idx: AttrIndex::Normal,
            ns: false,
            ap: AccessPermissions::KernelReadWrite,
            sh: SH::InnerShareable,
            af: true,
            ng: false,
            address: 0x4000_0000,
            contig: false,
            pxn: false,
            uxn: true,
        }
    }

    /// The descriptor an entry stands for.
    pub fn from_u64(value: u64) -> (d: Self)
        ensures
            d == spec_from_u64(value),
    {
        Descriptor {
            kind: Kind::from_u64(value),
            attr_idx: AttrIndex::from_u64(value),
            ns: value & (1u64 << NS) != 0,
            ap: AccessPermissions::from_u64(value),
            sh: SH::from_u64(value),
            af: value & (1u64 << AF) != 0,
            ng: value & (1u64 << NG) != 0,
            address: (value & ADDRESS) as usize,
            contig: value & (1u64 << CONTIGUOUS) != 0,
            pxn: value & (1u64 << PXN) != 0,
            uxn: value & (1u64 << UXN) != 0,
        }
    }

    /// The entry the descriptor packs into.
    pub fn to_u64(self) -> (value: u64)
        ensures
            value == spec_to_u64(self),
    {
        self.kind.to_u64() | self.attr_idx.to_u64() << ATTR_INDEX | bool_flag(self.ns) << NS
            | self.ap.to_u64() << AP | self.sh.to_u64() << SH_SHIFT | bool_flag(self.af) << AF
            | bool_flag(self.ng) << NG | (self.address as u64 & ADDRESS) | bool_flag(self.contig)
            << CONTIGUOUS | bool_flag(self.pxn) << PXN | bool_flag(self.uxn) << UXN
    }
}

} // verus!
