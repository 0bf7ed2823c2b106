use vstd::prelude::*;

verus! {

/// One of the eight octants of a cube, named by vertical position
/// (B = bottom, T = top), horizontal side (L = left, R = right) and depth
/// position (F = front, B = back).
///
/// The 3-bit octant index fixes the axis assignment, and it is load-bearing
/// for the whole encoding: bit 0 is +X, bit 1 is +Z and bit 2 is +Y.
#[derive(Debug, Copy, Clone, PartialEq, Eq, Structural)]
pub enum ChildId {
    BLF,
    BRF,
    BLB,
    BRB,
    TLF,
    TRF,
    TLB,
    TRB,
}

/// The 3-bit octant index that a `ChildId` stands for.
pub open spec fn child_id_value(c: ChildId) -> u64 {
    match c {
        ChildId::BLF => 0,
        ChildId::BRF => 1,
        ChildId::BLB => 2,
        ChildId::BRB => 3,
        ChildId::TLF => 4,
        ChildId::TRF => 5,
        ChildId::TLB => 6,
        ChildId::TRB => 7,
    }
}

/// The `ChildId` whose octant index equals the low three bits of `v`.
pub open spec fn child_id_of(v: u64) -> ChildId {
    if v & 0b111 == 0 {
        ChildId::BLF
    } else if v & 0b111 == 1 {
        ChildId::BRF
    } else if v & 0b111 == 2 {
        ChildId::BLB
    } else if v & 0b111 == 3 {
        ChildId::BRB
    } else if v & 0b111 == 4 {
        ChildId::TLF
    } else if v & 0b111 == 5 {
        ChildId::TRF
    } else if v & 0b111 == 6 {
        ChildId::TLB
    } else {
        ChildId::TRB
    }
}

/// The presence bit a child with octant index `v` occupies in a branch mask.
pub open spec fn child_flag(v: u64) -> u8 {
    1u8 << (v as u8)
}

impl ChildId {
    /// The octant index of this child, a value below eight.
    pub fn value(&self) -> (r: u64)
        ensures
            r == child_id_value(*self),
    {
        match *self {
            ChildId::BLF => 0,
            ChildId::BRF => 1,
            ChildId::BLB => 2,
            ChildId::BRB => 3,
            ChildId::TLF => 4,
            ChildId::TRF => 5,
            ChildId::TLB => 6,
            ChildId::TRB => 7,
        }
    }

    /// The presence bit this child occupies in an 8-bit branch mask:
    /// `1 << index`. The eight flags tile the byte.
    pub fn flag(&self) -> (r: u8)
        ensures
            r == child_flag(child_id_value(*self)),
    {
        let v = self.value();
        1u8 << (v as u8)
    }
}

/// A `ChildId` is recovered from its own octant index.
pub proof fn lemma_child_id_roundtrip(c: ChildId)
    ensures
        child_id_of(child_id_value(c)) == c,
{
    let v = child_id_value(c);
    assert(v < 8);
    assert(v & 0b111 == v) by (bit_vector)
        requires
            v < 8u64,
    ;
}

/// Deriving a `ChildId` reads only the low three bits, and its index gives
/// those bits back.
pub proof fn lemma_child_id_of_low(c: u64, v: u64)
    requires
        c & 7 == v,
    ensures
        v < 8,
        child_id_of(c) == child_id_of(v),
        child_id_value(child_id_of(c)) == v,
{
    assert(c & 7 < 8 && (c & 7) & 7 == c & 7 && c & 0b111 == c & 7) by (bit_vector);
    assert(v & 0b111 == v && v & 7 == v) by (bit_vector)
        requires
            v < 8u64,
    ;
}

impl From<u64> for ChildId {
    /// Derives a `ChildId` from any integer by masking its low three bits.
    fn from(v: u64) -> (r: ChildId)
        ensures
            r == child_id_of(v),
    {
        if v & 0b111 == 0 {
            ChildId::BLF
        } else if v & 0b111 == 1 {
            ChildId::BRF
        } else if v & 0b111 == 2 {
            ChildId::BLB
        } else if v & 0b111 == 3 {
            ChildId::BRB
        } else if v & 0b111 == 4 {
            ChildId::TLF
        } else if v & 0b111 == 5 {
            ChildId::TRF
        } else if v & 0b111 == 6 {
            ChildId::TLB
        } else {
            ChildId::TRB
        }
    }
}

impl vstd::std_specs::convert::FromSpecImpl<u64> for ChildId {
    open spec fn obeys_from_spec() -> bool {
        true
    }

    open spec fn from_spec(v: u64) -> ChildId {
        child_id_of(v)
    }
}

} // verus!
