use vstd::prelude::*;

use crate::children::ChildCode;
use crate::children::child_code_of;
use crate::children::child_code_value;

verus! {

/// The early, loop-based form of the locational encoding: a bare 64-bit
/// code whose significant bits are a sentinel followed by one 3-bit octant
/// index per level. [`crate::NodeLocation`] supersedes it with constant-time
/// depth and coordinate arithmetic; this form is kept for callers that work
/// on raw codes.
#[derive(Debug, Copy, Clone, Hash, PartialEq, Eq, Structural)]
pub struct LocationalCode(pub u64);

/// Greatest tree depth a 64-bit code can hold: a sentinel plus 21 octant
/// groups take all 64 bits.
pub const MAX_DEPTH: u32 = 21;

/// How many 3-bit steps bring `c` down to its sentinel; the number of
/// octant groups below the top set bit, rounding the sentinel group in.
pub open spec fn lc_depth(c: u64) -> nat
    decreases c,
{
    if c <= 1 {
        0
    } else {
        1 + lc_depth(c / 8)
    }
}

/// A code never takes more than 21 steps to shift away, and a code of
/// depth `d >= 1` is at least `2 * 8^(d-1)`.
pub proof fn lemma_lc_depth_bound(c: u64)
    ensures
        lc_depth(c) <= 21,
        lc_depth(c) >= 1 ==> vstd::arithmetic::power2::pow2(
            (3 * (lc_depth(c) - 1) + 1) as nat,
        ) <= c,
    decreases c,
{
    vstd::arithmetic::power2::lemma2_to64();
    if c <= 1 {
    } else {
        lemma_lc_depth_bound(c / 8);
        let d = lc_depth(c);
        assert(lc_depth(c / 8) == d - 1);
        if d >= 2 {
            let p = vstd::arithmetic::power2::pow2((3 * (d - 2) + 1) as nat);
            assert(p <= c / 8);
            assert(vstd::arithmetic::power2::pow2((3 * (d - 1) + 1) as nat) == 8 * p) by {
                vstd::arithmetic::power2::lemma_pow2_adds((3 * (d - 2) + 1) as nat, 3);
            }
            assert(8 * (c / 8) <= c) by (nonlinear_arith);
            if d > 21 {
                assert(lc_depth(c / 8) >= 21);
                assert(vstd::arithmetic::power2::pow2((3 * 20 + 1) as nat) <= c / 8);
                assert(vstd::arithmetic::power2::pow2(61) == 0x2000_0000_0000_0000) by {
                    vstd::arithmetic::power2::lemma2_to64_rest();
                }
                assert(c / 8 <= u64::MAX / 8) by (nonlinear_arith);
            }
        }
    }
}

impl LocationalCode {
    /// Builder kept from the early form of the interface; fine positioning
    /// never reached it, so it always yields the root code. Coordinate
    /// addressed construction lives in `NodeLocation::new`.
    #[allow(unused_variables)]
    pub fn new(x: u32, y: u32, z: u32) -> (r: LocationalCode)
        ensures
            r.0 == 1,
    {
        LocationalCode(1)
    }

    /// The code one level up, dropping this node's own octant group.
    /// `None` at depth one, where the next step up is the root group.
    pub fn parent(&self) -> (r: Option<LocationalCode>)
        ensures
            r is Some <==> lc_depth(self.0) != 1,
            r matches Some(p) ==> p.0 == self.0 >> 3,
    {
        match self.depth() {
            1 => None,
            _ => Some(LocationalCode(self.0 >> 3)),
        }
    }

    /// The code one level down through octant `code`: shift by a group and
    /// put the new octant index in the low bits. `None` once the 64 bits
    /// are full.
    pub fn child(&self, code: ChildCode) -> (r: Option<LocationalCode>)
        ensures
            r is Some <==> lc_depth(self.0) < 21,
            r matches Some(l) ==> l.0 == (self.0 << 3) | child_code_value(code),
    {
        match self.depth() {
            depth if depth >= MAX_DEPTH => None,
            _ => Some(LocationalCode((self.0 << 3) | code.value())),
        }
    }

    /// Depth of the code, counted by shifting groups away until only the
    /// sentinel is left.
    pub fn depth(&self) -> (r: u32)
        ensures
            r == lc_depth(self.0),
    {
        let mut code = self.0;
        let mut depth: u32 = 0;

        while code > 1
            invariant
                depth + lc_depth(code) == lc_depth(self.0),
            decreases code,
        {
            proof {
                lemma_lc_depth_bound(self.0);
                assert(code >> 3 == code / 8) by (bit_vector);
            }
            code >>= 3;
            depth += 1;
        }

        depth
    }

    /// The parent code paired with this node's own octant index.
    pub fn disown(&self) -> (r: (Option<LocationalCode>, ChildCode))
        ensures
            r.0 is Some <==> lc_depth(self.0) != 1,
            r.0 matches Some(p) ==> p.0 == self.0 >> 3,
            r.1 == child_code_of(self.0),
    {
        (self.parent(), ChildCode::from(self.0))
    }
}

impl From<LocationalCode> for ChildCode {
    /// This node's own octant index within its parent: the low three bits.
    fn from(from: LocationalCode) -> (r: ChildCode)
        ensures
            r == child_code_of(from.0),
    {
        ChildCode::from(from.0)
    }
}

impl vstd::std_specs::convert::FromSpecImpl<LocationalCode> for ChildCode {
    open spec fn obeys_from_spec() -> bool {
        true
    }

    open spec fn from_spec(v: LocationalCode) -> ChildCode {
        child_code_of(v.0)
    }
}

} // verus!
