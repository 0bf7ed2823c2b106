use vstd::prelude::*;

use crate::child_id::child_flag;

verus! {

/// Octant index as used by the older [`crate::LocationalCode`] form of the
/// locational encoding. Same naming and bit assignment as
/// [`crate::ChildId`]: bit 0 is +X, bit 1 is +Z and bit 2 is +Y.
#[derive(Debug, Copy, Clone, PartialEq, Eq, Structural)]
pub enum ChildCode {
    BLF,
    BRF,
    BLB,
    BRB,
    TLF,
    TRF,
    TLB,
    TRB,
}

/// The 3-bit octant index that a `ChildCode` stands for.
pub open spec fn child_code_value(c: ChildCode) -> u64 {
    match c {
        ChildCode::BLF => 0,
        ChildCode::BRF => 1,
        ChildCode::BLB => 2,
        ChildCode::BRB => 3,
        ChildCode::TLF => 4,
        ChildCode::TRF => 5,
        ChildCode::TLB => 6,
        ChildCode::TRB => 7,
    }
}

/// The `ChildCode` whose octant index equals the low three bits of `v`.
pub open spec fn child_code_of(v: u64) -> ChildCode {
    if v & 0b111 == 0 {
        ChildCode::BLF
    } else if v & 0b111 == 1 {
        ChildCode::BRF
    } else if v & 0b111 == 2 {
        ChildCode::BLB
    } else if v & 0b111 == 3 {
        ChildCode::BRB
    } else if v & 0b111 == 4 {
        ChildCode::TLF
    } else if v & 0b111 == 5 {
        ChildCode::TRF
    } else if v & 0b111 == 6 {
        ChildCode::TLB
    } else {
        ChildCode::TRB
    }
}

impl ChildCode {
    /// The octant index of this child, a value below eight.
    pub fn value(&self) -> (r: u64)
        ensures
            r == child_code_value(*self),
    {
        match *self {
            ChildCode::BLF => 0,
            ChildCode::BRF => 1,
            ChildCode::BLB => 2,
            ChildCode::BRB => 3,
            ChildCode::TLF => 4,
            ChildCode::TRF => 5,
            ChildCode::TLB => 6,
            ChildCode::TRB => 7,
        }
    }
}

impl From<u64> for ChildCode {
    /// Derives a `ChildCode` from any integer by masking its low three bits.
    fn from(v: u64) -> (r: ChildCode)
        ensures
            r == child_code_of(v),
    {
        if v & 0b111 == 0 {
            ChildCode::BLF
        } else if v & 0b111 == 1 {
            ChildCode::BRF
        } else if v & 0b111 == 2 {
            ChildCode::BLB
        } else if v & 0b111 == 3 {
            ChildCode::BRB
        } else if v & 0b111 == 4 {
            ChildCode::TLF
        } else if v & 0b111 == 5 {
            ChildCode::TRF
        } else if v & 0b111 == 6 {
            ChildCode::TLB
        } else {
            ChildCode::TRB
        }
    }
}

impl vstd::std_specs::convert::FromSpecImpl<u64> for ChildCode {
    open spec fn obeys_from_spec() -> bool {
        true
    }

    open spec fn from_spec(v: u64) -> ChildCode {
        child_code_of(v)
    }
}

/// Branch-mask bit names, one per octant. The flag of an octant is
/// `1 << index`, so the eight flags tile the byte.
#[derive(Debug, Copy, Clone, PartialEq, Eq, Structural)]
pub enum ChildrenFlags {
    BLF,
    BRF,
    BLB,
    BRB,
    TLF,
    TRF,
    TLB,
    TRB,
}

impl ChildrenFlags {
    /// The mask bit this name stands for.
    pub fn mask(&self) -> (r: u8)
        ensures
            r == child_flag(children_flags_index(*self)),
    {
        let v: u64 = match *self {
            ChildrenFlags::BLF => 0,
            ChildrenFlags::BRF => 1,
            ChildrenFlags::BLB => 2,
            ChildrenFlags::BRB => 3,
            ChildrenFlags::TLF => 4,
            ChildrenFlags::TRF => 5,
            ChildrenFlags::TLB => 6,
            ChildrenFlags::TRB => 7,
        };
        1u8 << (v as u8)
    }
}

/// The octant index a `ChildrenFlags` name belongs to.
pub open spec fn children_flags_index(c: ChildrenFlags) -> u64 {
    match c {
        ChildrenFlags::BLF => 0,
        ChildrenFlags::BRF => 1,
        ChildrenFlags::BLB => 2,
        ChildrenFlags::BRB => 3,
        ChildrenFlags::TLF => 4,
        ChildrenFlags::TRF => 5,
        ChildrenFlags::TLB => 6,
        ChildrenFlags::TRB => 7,
    }
}

} // verus!
