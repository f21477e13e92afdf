use vstd::prelude::*;

verus! {

// Exception classes, bits 31:26 of ESR_EL1.
pub const UNKNOWN: u64 = 0x00;
pub const DATA_ABORT_CURRENT_EL: u64 = 0x25;
pub const INSTR_ABORT_CURRENT_EL: u64 = 0x21;
pub const BRK: u64 = 0x3C;

// The top four bits of a fault status code. The bottom two are the level the
// table walk had reached, which is why these are compared after a shift.
pub const ADDRESS_SIZE: u64 = 0b0000;
pub const TRANSLATION: u64 = 0b0001;
pub const ACCESS_FLAG: u64 = 0b0010;
pub const PERMISSION: u64 = 0b0011;

// These carry no level, so they are matched whole.
pub const EXTERNAL: u64 = 0x10;
pub const ALIGNMENT: u64 = 0x21;
pub const TLB_CONFLICT: u64 = 0x30;

/// Why the exception was taken.
#[derive(Debug, Clone, Copy, PartialEq, Eq, Structural)]
pub enum ESRClass {
    Unknown,
    DataAbortCurrentEL,
    InstrAbortCurrentEL,
    Brk,
    Other(u8),
}

/// The class an exception class number names.
pub open spec fn spec_esr_class(val: u64) -> ESRClass {
    if val == UNKNOWN {
        ESRClass::Unknown
    } else if val == DATA_ABORT_CURRENT_EL {
        ESRClass::DataAbortCurrentEL
    } else if val == INSTR_ABORT_CURRENT_EL {
        ESRClass::InstrAbortCurrentEL
    } else if val == BRK {
        ESRClass::Brk
    } else {
        ESRClass::Other(val as u8)
    }
}

impl ESRClass {
    /// FAR_EL1 holds stale data for anything that was not a memory access.
    pub fn has_fault_address(&self) -> (b: bool)
        ensures
            b == (*self == ESRClass::DataAbortCurrentEL || *self == ESRClass::InstrAbortCurrentEL),
    {
        matches!(self, Self::DataAbortCurrentEL | Self::InstrAbortCurrentEL)
    }
}

impl From<u64> for ESRClass {
    fn from(val: u64) -> (class: Self) {
        if val == UNKNOWN {
            Self::Unknown
        } else if val == DATA_ABORT_CURRENT_EL {
            Self::DataAbortCurrentEL
        } else if val == INSTR_ABORT_CURRENT_EL {
            Self::InstrAbortCurrentEL
        } else if val == BRK {
            Self::Brk
        } else {
            Self::Other(val as u8)
        }
    }
}

impl vstd::std_specs::convert::FromSpecImpl<u64> for ESRClass {
    open spec fn obeys_from_spec() -> bool {
        true
    }

    open spec fn from_spec(v: u64) -> ESRClass {
        spec_esr_class(v)
    }
}

/// Bits 5:0 of a data or instruction abort's syndrome - what the MMU objected to.
/// The four faults that carry a level report which table the walk died in.
#[derive(Debug, Clone, Copy, PartialEq, Eq, Structural)]
pub enum FaultStatus {
    AddressSize(u8),
    Translation(u8),
    AccessFlag(u8),
    Permission(u8),
    External,
    Alignment,
    TlbConflict,
    Other(u8),
}

/// The fault status a syndrome reports.
pub open spec fn spec_fault_status(syndrome: u64) -> FaultStatus {
    let code = syndrome % 64;
    let level = (code % 4) as u8;
    let group = code / 4;
    if group == ADDRESS_SIZE {
        FaultStatus::AddressSize(level)
    } else if group == TRANSLATION {
        FaultStatus::Translation(level)
    } else if group == ACCESS_FLAG {
        FaultStatus::AccessFlag(level)
    } else if group == PERMISSION {
        FaultStatus::Permission(level)
    } else if code == EXTERNAL {
        FaultStatus::External
    } else if code == ALIGNMENT {
        FaultStatus::Alignment
    } else if code == TLB_CONFLICT {
        FaultStatus::TlbConflict
    } else {
        FaultStatus::Other(code as u8)
    }
}

impl FaultStatus {
    /// Decode the fault status code in the low six bits of `syndrome`.
    pub fn from_syndrome(syndrome: u64) -> (status: Self)
        ensures
            status == spec_fault_status(syndrome),
    {
        let code = syndrome & 0x3F;
        let level = (code & 0b11) as u8;
        proof {
            assert(code == syndrome % 64 && code & 3 == code % 4 && code >> 2 == code / 4
                && code < 64) by (bit_vector)
                requires
                    code == syndrome & 0x3F,
            ;
        }
        match code >> 2 {
            ADDRESS_SIZE => Self::AddressSize(level),
            TRANSLATION => Self::Translation(level),
            ACCESS_FLAG => Self::AccessFlag(level),
            PERMISSION => Self::Permission(level),
            _ => match code {
                EXTERNAL => Self::External,
                ALIGNMENT => Self::Alignment,
                TLB_CONFLICT => Self::TlbConflict,
                other => Self::Other(other as u8),
            },
        }
    }
}

/// The exception syndrome register, split into its class and its syndrome.
pub struct Esr {
    pub class: ESRClass,
    pub syndrome: u64,
}

impl Esr {
    /// Split the value of ESR_EL1: class in bits 31:26, syndrome in 24:0.
    pub fn new(val: u64) -> (esr: Self)
        ensures
            esr.class == spec_esr_class((val / 0x400_0000) % 64),
            esr.syndrome == val % 0x200_0000,
    {
        let class_bits = (val >> 26) & 0x3F;
        let syndrome = val & 0x1FFFFFF;
        proof {
            assert(class_bits == (val / 0x400_0000) % 64 && syndrome == val % 0x200_0000)
                by (bit_vector)
                requires
                    class_bits == (val >> 26) & 0x3F,
                    syndrome == val & 0x1FFFFFF,
            ;
        }
        Self { class: ESRClass::from(class_bits), syndrome }
    }

    /// Bit 6 of a data abort's syndrome: the access was a write.
    pub fn is_write(&self) -> (write: bool)
        ensures
            write == ((self.syndrome / 64) % 2 == 1),
    {
        let syndrome = self.syndrome;
        proof {
            assert((syndrome & 0x40 != 0) == ((syndrome / 64) % 2 == 1)) by (bit_vector);
        }
        syndrome & 0x40 != 0
    }
}

/// The fault status codes as the architecture numbers them: `0b0000ll`
/// is an address size fault, `0b0001ll` a translation fault, `0b0010ll` an
/// access flag fault and `0b0011ll` a permission fault, each at table level
/// `ll`; `0b010000` is an external abort, `0b100001` an alignment fault and
/// `0b110000` a TLB conflict. Only the low six bits of the syndrome count.
pub proof fn lemma_fault_codes(syndrome: u64)
    ensures
        syndrome % 64 <= 0x03 ==> spec_fault_status(syndrome) == FaultStatus::AddressSize(
            (syndrome % 4) as u8,
        ),
        0x04 <= syndrome % 64 <= 0x07 ==> spec_fault_status(syndrome) == FaultStatus::Translation(
            (syndrome % 4) as u8,
        ),
        0x08 <= syndrome % 64 <= 0x0B ==> spec_fault_status(syndrome) == FaultStatus::AccessFlag(
            (syndrome % 4) as u8,
        ),
        0x0C <= syndrome % 64 <= 0x0F ==> spec_fault_status(syndrome) == FaultStatus::Permission(
            (syndrome % 4) as u8,
        ),
        syndrome % 64 == 0x10 ==> spec_fault_status(syndrome) == FaultStatus::External,
        syndrome % 64 == 0x21 ==> spec_fault_status(syndrome) == FaultStatus::Alignment,
        syndrome % 64 == 0x30 ==> spec_fault_status(syndrome) == FaultStatus::TlbConflict,
        syndrome % 64 >= 0x10 && syndrome % 64 != 0x10 && syndrome % 64 != 0x21 && syndrome % 64
            != 0x30 ==> spec_fault_status(syndrome) == FaultStatus::Other((syndrome % 64) as u8),
        spec_fault_status(syndrome) == spec_fault_status(syndrome % 64),
{
    assert((syndrome % 64) % 4 == syndrome % 4) by (bit_vector);
    assert((syndrome % 64) % 64 == syndrome % 64) by (bit_vector);
}

/// The exception classes as the architecture numbers them, read from bits
/// 31:26 of ESR_EL1: `0x00` unknown, `0x25` a data abort and `0x21` an
/// instruction abort taken without a change of level, `0x3C` a `BRK`.
pub proof fn lemma_class_codes(val: u64)
    ensures
        (val >> 26) & 0x3F == 0x00 ==> spec_esr_class((val / 0x400_0000) % 64) == ESRClass::Unknown,
        (val >> 26) & 0x3F == 0x25 ==> spec_esr_class((val / 0x400_0000) % 64)
            == ESRClass::DataAbortCurrentEL,
        (val >> 26) & 0x3F == 0x21 ==> spec_esr_class((val / 0x400_0000) % 64)
            == ESRClass::InstrAbortCurrentEL,
        (val >> 26) & 0x3F == 0x3C ==> spec_esr_class((val / 0x400_0000) % 64) == ESRClass::Brk,
{
    assert((val >> 26) & 0x3F == (val / 0x400_0000) % 64) by (bit_vector);
}

} // verus!
