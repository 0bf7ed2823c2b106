use vstd::prelude::*;

use crate::node_location::NodeLocation;
use crate::node_location::depth_of;
use crate::node_location::is_ancestor;
use crate::node_location::is_valid_code;
use crate::node_location::lemma_lz_bounds;
use crate::node_location::lemma_lz_from_bounds;
use crate::node_location::lemma_pow2_le;
use crate::node_location::lemma_valid_code_bounds;
use core::cmp::Ordering;
use vstd::arithmetic::power2::pow2;
use vstd::std_specs::bits::u64_leading_zeros;

verus! {

/// The code left-aligned so that the sentinel is the top bit: the value
/// `code * 2^leading_zeros`, kept as a mathematical integer.
pub open spec fn loc_shifted(c: u64) -> nat {
    (c * pow2(u64_leading_zeros(c) as nat)) as nat
}

/// The depth-first total order on locational codes: compare the aligned
/// codes, which compares octant paths lexicographically; when the aligned
/// codes tie, the path of one is the other padded with zero octants, and
/// the shallower code (more leading zeros) comes first.
pub open spec fn loc_lt(a: u64, b: u64) -> bool {
    ||| loc_shifted(a) < loc_shifted(b)
    ||| (loc_shifted(a) == loc_shifted(b) && u64_leading_zeros(a) > u64_leading_zeros(b))
}

/// Non-strict form of [`loc_lt`].
pub open spec fn loc_le(a: u64, b: u64) -> bool {
    loc_lt(a, b) || a == b
}

/// Ground facts about the aligned code of a nonzero `c`: it occupies the
/// top bit, it is a multiple of its own alignment, and the code is
/// recovered by dividing the alignment back out.
pub(crate) proof fn lemma_shifted_basics(c: u64)
    requires
        c >= 1,
    ensures
        u64_leading_zeros(c) <= 63,
        pow2(63) <= loc_shifted(c) < pow2(64),
        loc_shifted(c) <= u64::MAX,
        loc_shifted(c) == c * pow2(u64_leading_zeros(c) as nat),
        loc_shifted(c) % pow2(u64_leading_zeros(c) as nat) == 0,
        loc_shifted(c) / pow2(u64_leading_zeros(c) as nat) == c,
{
    vstd::arithmetic::power2::lemma2_to64_rest();
    lemma_lz_bounds(c);
    let lz = u64_leading_zeros(c) as nat;
    let p = pow2(lz);
    vstd::arithmetic::power2::lemma_pow2_pos(lz);
    vstd::arithmetic::power2::lemma_pow2_adds((63 - lz) as nat, lz);
    vstd::arithmetic::power2::lemma_pow2_adds((64 - lz) as nat, lz);
    assert(pow2((63 - lz) as nat) <= c ==> pow2((63 - lz) as nat) * p <= c * p)
        by (nonlinear_arith)
        requires
            p > 0,
    ;
    assert(c < pow2((64 - lz) as nat) ==> c * p < pow2((64 - lz) as nat) * p) by (nonlinear_arith)
        requires
            p > 0,
    ;
    vstd::arithmetic::div_mod::lemma_mod_multiples_basic(c as int, p as int);
    vstd::arithmetic::div_mod::lemma_div_multiples_vanish(c as int, p as int);
    assert(c * p == p * c) by (nonlinear_arith);
}

/// The aligned code and the leading-zero count together pin the code
/// down: two distinct codes never agree on both.
pub proof fn lemma_loc_order_strict(a: u64, b: u64)
    requires
        a >= 1,
        b >= 1,
    ensures
        loc_shifted(a) == loc_shifted(b) && u64_leading_zeros(a) == u64_leading_zeros(b) ==> a
            == b,
{
    lemma_shifted_basics(a);
    lemma_shifted_basics(b);
}

/// The depth-first order is transitive.
pub proof fn lemma_loc_lt_transitive(a: u64, b: u64, c: u64)
    requires
        loc_lt(a, b),
        loc_lt(b, c),
    ensures
        loc_lt(a, c),
{
}

/// Any two codes are ordered one way, equal, or ordered the other way,
/// and only one of the three holds.
pub proof fn lemma_loc_lt_trichotomy(a: u64, b: u64)
    ensures
        loc_lt(a, b) || a == b || loc_lt(b, a),
        loc_lt(a, b) ==> a != b && !loc_lt(b, a),
        a == b ==> !loc_lt(a, b) && !loc_lt(b, a),
{
    if a >= 1 && b >= 1 {
        lemma_loc_order_strict(a, b);
    } else {
        if a >= 1 {
            lemma_shifted_basics(a);
            vstd::arithmetic::power2::lemma_pow2_pos(63);
        }
        if b >= 1 {
            lemma_shifted_basics(b);
            vstd::arithmetic::power2::lemma_pow2_pos(63);
        }
    }
}

/// Exec form of the depth-first order on raw codes.
pub(crate) fn code_lt(a: u64, b: u64) -> (r: bool)
    ensures
        r == loc_lt(a, b),
{
    if a == 0 {
        proof {
            if b >= 1 {
                lemma_shifted_basics(b);
                vstd::arithmetic::power2::lemma_pow2_pos(63);
            }
        }
        return b != 0;
    }
    if b == 0 {
        proof {
            lemma_shifted_basics(a);
            vstd::arithmetic::power2::lemma_pow2_pos(63);
        }
        return false;
    }
    proof {
        lemma_shifted_basics(a);
        lemma_shifted_basics(b);
        vstd::bits::lemma_u64_shl_is_mul(a, u64_leading_zeros(a) as u64);
        vstd::bits::lemma_u64_shl_is_mul(b, u64_leading_zeros(b) as u64);
    }
    let a_lzc = a.leading_zeros();
    let b_lzc = b.leading_zeros();
    let a_shifted = a << (a_lzc as u64);
    let b_shifted = b << (b_lzc as u64);
    a_shifted < b_shifted || (a_shifted == b_shifted && b_lzc < a_lzc)
}

/// On well-formed codes the leading-zero count is a linear function of
/// the depth.
proof fn lemma_valid_lz(c: u64)
    requires
        is_valid_code(c),
    ensures
        u64_leading_zeros(c) == 63 - 3 * depth_of(c),
        depth_of(c) <= 21,
{
    lemma_valid_code_bounds(c);
    crate::node_location::lemma_depth_of_le_21(c);
    let d = depth_of(c);
    vstd::arithmetic::power2::lemma_pow2_adds((3 * d) as nat, 1);
    vstd::arithmetic::power2::lemma2_to64();
    lemma_lz_from_bounds(c, (63 - 3 * d) as nat);
}

/// Two multiples of `p` that differ, differ by at least `p`.
proof fn lemma_aligned_gap(p: nat, x: nat, y: nat)
    requires
        p > 0,
        x % p == 0,
        y % p == 0,
        x < y,
    ensures
        x + p <= y,
{
    let qx = x / p;
    let qy = y / p;
    vstd::arithmetic::div_mod::lemma_fundamental_div_mod(x as int, p as int);
    vstd::arithmetic::div_mod::lemma_fundamental_div_mod(y as int, p as int);
    assert(x == p * qx && y == p * qy && x < y ==> qx < qy) by (nonlinear_arith)
        requires
            p > 0,
    ;
    assert(p * qx + p <= p * qy) by (nonlinear_arith)
        requires
            p > 0,
            qx < qy,
    ;
}

/// The aligned code is a multiple of every alignment up to its own.
proof fn lemma_shifted_mod(c: u64, e: nat)
    requires
        c >= 1,
        e <= u64_leading_zeros(c),
    ensures
        loc_shifted(c) % pow2(e) == 0,
{
    lemma_shifted_basics(c);
    let lz = u64_leading_zeros(c) as nat;
    vstd::arithmetic::power2::lemma_pow2_adds((lz - e) as nat, e);
    vstd::arithmetic::power2::lemma_pow2_pos(e);
    assert(c * pow2(lz) == (c * pow2((lz - e) as nat)) * pow2(e)) by (nonlinear_arith)
        requires
            pow2(lz) == pow2((lz - e) as nat) * pow2(e),
    ;
    vstd::arithmetic::div_mod::lemma_mod_multiples_basic(
        (c * pow2((lz - e) as nat)) as int,
        pow2(e) as int,
    );
}

/// A descendant's aligned block nests inside its ancestor's: the whole
/// subtree of `a` lives in the half-open run of aligned codes starting
/// at `a`'s own.
pub proof fn lemma_ancestor_block(a: u64, b: u64)
    requires
        is_valid_code(a),
        is_valid_code(b),
        is_ancestor(a, b),
    ensures
        depth_of(a) <= depth_of(b),
        a != b ==> depth_of(a) < depth_of(b),
        u64_leading_zeros(b) <= u64_leading_zeros(a),
        loc_shifted(a) <= loc_shifted(b),
        loc_shifted(b) + pow2(u64_leading_zeros(b) as nat) <= loc_shifted(a) + pow2(
            u64_leading_zeros(a) as nat,
        ),
    decreases b,
{
    if a == b {
    } else {
        let p = b / 8;
        let r = b % 8;
        assert(b >= 8);
        lemma_ancestor_block(a, p);
        lemma_valid_lz(a);
        lemma_valid_lz(b);
        lemma_valid_lz(p);
        lemma_shifted_basics(a);
        lemma_shifted_basics(b);
        lemma_shifted_basics(p);
        let lzb = u64_leading_zeros(b) as nat;
        let lzp = u64_leading_zeros(p) as nat;
        assert(lzp == lzb + 3);
        vstd::arithmetic::div_mod::lemma_fundamental_div_mod(b as int, 8);
        assert(pow2(lzp) == 8 * pow2(lzb)) by {
            vstd::arithmetic::power2::lemma_pow2_adds(lzb, 3);
            vstd::arithmetic::power2::lemma2_to64();
        }
        assert(b * pow2(lzb) == p * pow2(lzp) + r * pow2(lzb)) by (nonlinear_arith)
            requires
                b == 8 * p + r,
                pow2(lzp) == 8 * pow2(lzb),
        ;
        assert((r + 1) * pow2(lzb) <= 8 * pow2(lzb)) by (nonlinear_arith)
            requires
                r < 8u64,
        ;
        assert((r + 1) * pow2(lzb) == r * pow2(lzb) + pow2(lzb)) by (nonlinear_arith);
        assert(r * pow2(lzb) >= 0) by (nonlinear_arith);
        assert(loc_shifted(b) + pow2(lzb) <= loc_shifted(p) + pow2(lzp));
    }
}

/// Law: a proper ancestor orders strictly before every one of its
/// descendants in the depth-first order.
pub proof fn lemma_ancestor_orders_first(a: u64, b: u64)
    requires
        is_valid_code(a),
        is_valid_code(b),
        is_ancestor(a, b),
        a != b,
    ensures
        loc_lt(a, b),
{
    lemma_ancestor_block(a, b);
    lemma_valid_lz(a);
    lemma_valid_lz(b);
}

/// A valid code whose aligned block sits inside the aligned block of
/// `a` lies in `a`'s subtree.
proof fn lemma_block_within(a: u64, c: u64)
    requires
        is_valid_code(a),
        is_valid_code(c),
        u64_leading_zeros(c) <= u64_leading_zeros(a),
        loc_shifted(a) <= loc_shifted(c),
        loc_shifted(c) + pow2(u64_leading_zeros(c) as nat) <= loc_shifted(a) + pow2(
            u64_leading_zeros(a) as nat,
        ),
    ensures
        is_ancestor(a, c),
    decreases c,
{
    lemma_valid_lz(a);
    lemma_valid_lz(c);
    lemma_shifted_basics(a);
    lemma_shifted_basics(c);
    let lza = u64_leading_zeros(a) as nat;
    let lzc = u64_leading_zeros(c) as nat;
    vstd::arithmetic::power2::lemma_pow2_pos(lzc);
    vstd::arithmetic::power2::lemma_pow2_pos(lza);
    if lzc == lza {
        assert(loc_shifted(a) == loc_shifted(c));
        lemma_loc_order_strict(a, c);
    } else {
        // c is deeper than a, so it has a parent to pass through.
        assert(depth_of(c) > depth_of(a));
        assert(c != 1);
        assert(c >= 8);
        let p = c / 8;
        let r = c % 8;
        lemma_valid_lz(p);
        lemma_shifted_basics(p);
        let lzp = u64_leading_zeros(p) as nat;
        assert(lzp == lzc + 3);
        assert(lzp <= lza);
        vstd::arithmetic::div_mod::lemma_fundamental_div_mod(c as int, 8);
        assert(pow2(lzp) == 8 * pow2(lzc)) by {
            vstd::arithmetic::power2::lemma_pow2_adds(lzc, 3);
            vstd::arithmetic::power2::lemma2_to64();
        }
        assert(c * pow2(lzc) == p * pow2(lzp) + r * pow2(lzc)) by (nonlinear_arith)
            requires
                c == 8 * p + r,
                pow2(lzp) == 8 * pow2(lzc),
        ;
        assert(r * pow2(lzc) < pow2(lzp)) by (nonlinear_arith)
            requires
                r < 8u64,
                pow2(lzp) == 8 * pow2(lzc),
                pow2(lzc) > 0,
        ;
        // The parent's block still starts no earlier than a's block.
        lemma_shifted_mod(a, lzp);
        vstd::arithmetic::power2::lemma_pow2_pos(lzp);
        if loc_shifted(p) < loc_shifted(a) {
            lemma_aligned_gap(pow2(lzp), loc_shifted(p), loc_shifted(a));
            assert(false);
        }
        // And it ends no later than a's block ends.
        assert((loc_shifted(a) + pow2(lza)) % pow2(lzp) == 0) by {
            lemma_shifted_mod(a, lzp);
            vstd::arithmetic::power2::lemma_pow2_adds((lza - lzp) as nat, lzp);
            vstd::arithmetic::div_mod::lemma_mod_multiples_basic(
                pow2((lza - lzp) as nat) as int,
                pow2(lzp) as int,
            );
            vstd::arithmetic::div_mod::lemma_add_mod_noop(
                loc_shifted(a) as int,
                pow2(lza) as int,
                pow2(lzp) as int,
            );
            vstd::arithmetic::div_mod::lemma_small_mod(0, pow2(lzp));
        }
        if loc_shifted(p) + pow2(lzp) > loc_shifted(a) + pow2(lza) {
            assert((loc_shifted(p) + pow2(lzp)) % pow2(lzp) == 0) by {
                vstd::arithmetic::div_mod::lemma_mod_add_multiples_vanish(
                    loc_shifted(p) as int,
                    pow2(lzp) as int,
                );
            }
            lemma_aligned_gap(pow2(lzp), loc_shifted(a) + pow2(lza), loc_shifted(p) + pow2(lzp));
            assert(false);
        }
        lemma_block_within(a, p);
    }
}

/// Law: in the depth-first order everything that lies strictly between
/// a proper ancestor `a` and one of `a`'s descendants `d` is itself a
/// descendant of `a`. In a sorted layout the subtree of `a` is therefore
/// one contiguous run.
pub proof fn lemma_descendants_contiguous(a: u64, c: u64, d: u64)
    requires
        is_valid_code(a),
        is_valid_code(c),
        is_valid_code(d),
        is_ancestor(a, d),
        loc_lt(a, c),
        loc_le(c, d),
    ensures
        is_ancestor(a, c),
        a != c,
{
    lemma_loc_lt_trichotomy(a, c);
    if c == d {
    } else {
        lemma_ancestor_block(a, d);
        lemma_valid_lz(a);
        lemma_valid_lz(c);
        lemma_valid_lz(d);
        lemma_shifted_basics(a);
        lemma_shifted_basics(c);
        lemma_shifted_basics(d);
        let lza = u64_leading_zeros(a) as nat;
        let lzc = u64_leading_zeros(c) as nat;
        let lzd = u64_leading_zeros(d) as nat;
        vstd::arithmetic::power2::lemma_pow2_pos(lza);
        vstd::arithmetic::power2::lemma_pow2_pos(lzc);
        vstd::arithmetic::power2::lemma_pow2_pos(lzd);
        assert(loc_shifted(c) <= loc_shifted(d));
        assert(loc_shifted(c) < loc_shifted(a) + pow2(lza));
        if lzc > lza {
            // A shallower stranger cannot sit inside a's block: its
            // aligned code would be a multiple of a coarser alignment
            // strictly inside one aligned cell.
            assert(loc_shifted(a) < loc_shifted(c));
            lemma_shifted_mod(c, lza);
            lemma_shifted_mod(a, lza);
            lemma_aligned_gap(pow2(lza), loc_shifted(a), loc_shifted(c));
            assert(false);
        }
        assert(loc_shifted(a) <= loc_shifted(c));
        lemma_shifted_mod(a, lzc);
        assert((loc_shifted(a) + pow2(lza)) % pow2(lzc) == 0) by {
            vstd::arithmetic::power2::lemma_pow2_adds((lza - lzc) as nat, lzc);
            vstd::arithmetic::div_mod::lemma_mod_multiples_basic(
                pow2((lza - lzc) as nat) as int,
                pow2(lzc) as int,
            );
            vstd::arithmetic::div_mod::lemma_add_mod_noop(
                loc_shifted(a) as int,
                pow2(lza) as int,
                pow2(lzc) as int,
            );
            vstd::arithmetic::div_mod::lemma_small_mod(0, pow2(lzc));
        }
        lemma_aligned_gap(pow2(lzc), loc_shifted(c), loc_shifted(a) + pow2(lza));
        lemma_block_within(a, c);
    }
}

impl NodeLocation {
    /// The depth-first total order on locations: every node orders
    /// before all of its descendants, and disjoint subtrees order by the
    /// first octant where their paths diverge.
    pub fn cmp(&self, other: &NodeLocation) -> (r: Ordering)
        requires
            self.code >= 1,
            other.code >= 1,
        ensures
            r is Less <==> loc_lt(self.code, other.code),
            r is Equal <==> self.code == other.code,
            r is Greater <==> loc_lt(other.code, self.code),
    {
        proof {
            lemma_shifted_basics(self.code);
            lemma_shifted_basics(other.code);
            lemma_loc_lt_trichotomy(self.code, other.code);
            vstd::bits::lemma_u64_shl_is_mul(self.code, u64_leading_zeros(self.code) as u64);
            vstd::bits::lemma_u64_shl_is_mul(other.code, u64_leading_zeros(other.code) as u64);
        }
        let self_lzc = self.code.leading_zeros();
        let other_lzc = other.code.leading_zeros();

        // Align both codes so the sentinel is the most significant bit.
        let self_shifted = self.code << (self_lzc as u64);
        let other_shifted = other.code << (other_lzc as u64);

        if self_shifted == other_shifted {
            // Equal once aligned: one path is the other padded with zero
            // octants, and the shallower of the two comes first.
            if other_lzc < self_lzc {
                Ordering::Less
            } else if other_lzc == self_lzc {
                Ordering::Equal
            } else {
                Ordering::Greater
            }
        } else if self_shifted < other_shifted {
            Ordering::Less
        } else {
            Ordering::Greater
        }
    }
}

} // verus!
