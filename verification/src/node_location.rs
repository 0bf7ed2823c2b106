use vstd::prelude::*;

use crate::child_id::ChildId;
use crate::child_id::child_id_of;
use crate::child_id::child_id_value;
use crate::coords::axis_sum;
use crate::coords::code_of_units;
use crate::coords::coord_bound;
use crate::locational_code::lc_depth;
use vstd::arithmetic::power2::pow2;
use vstd::std_specs::bits::u64_leading_zeros;
use vstd::std_specs::bits::axiom_u64_leading_zeros;

verus! {

/// A position in the octree, packed into one 64-bit locational code: a
/// single sentinel bit followed by one 3-bit octant index per level,
/// ordered root to leaf. The root is `code == 1`; the code must stay
/// nonzero, and every operation here keeps it so.
#[derive(Debug, Copy, Clone, Hash, PartialEq, Eq, Structural)]
pub struct NodeLocation {
    pub code: u64,
}

/// Deepest location a 64-bit code can hold: the sentinel plus 21 octant
/// groups take all 64 bits.
pub const MAX_DEPTH: u32 = 21;

/// Depth of a code: the number of 3-bit groups below the sentinel.
/// Equals the constant-time form `21 - ((leading_zeros + 1) / 3)` on every
/// code, also the ill-formed ones.
pub open spec fn depth_of(c: u64) -> nat
    decreases c,
{
    if c < 4 {
        0
    } else {
        1 + depth_of(c / 8)
    }
}

/// A well-formed code: the group above the last full octant group is
/// exactly the sentinel bit.
pub open spec fn is_valid_code(c: u64) -> bool
    decreases c,
{
    if c == 1 {
        true
    } else if c < 8 {
        false
    } else {
        is_valid_code(c / 8)
    }
}

/// `a` lies on the root path of `b` (or is `b` itself).
pub open spec fn is_ancestor(a: u64, b: u64) -> bool
    decreases b,
{
    if a == b {
        true
    } else if b < 8 {
        false
    } else {
        is_ancestor(a, b / 8)
    }
}

/// No code is deeper than 21.
pub proof fn lemma_depth_of_le_21(c: u64)
    ensures
        depth_of(c) <= 21,
    decreases c,
{
    vstd::arithmetic::power2::lemma2_to64();
    if c >= 4 {
        lemma_depth_of_le_21(c / 8);
        if depth_of(c) > 21 {
            lemma_depth_lower_bound(c);
            let e = (3 * (depth_of(c) - 1) + 2) as nat;
            vstd::arithmetic::power2::lemma2_to64_rest();
            vstd::arithmetic::power2::lemma_pow2_strictly_increases(64, e);
            assert(pow2(e) > u64::MAX as nat);
        }
    }
}

/// A code of depth `d` is at least `4 * 8^(d-1)`; depth 22 would need 65
/// bits.
proof fn lemma_depth_lower_bound(c: u64)
    requires
        depth_of(c) >= 1,
    ensures
        pow2((3 * (depth_of(c) - 1) + 2) as nat) <= c,
    decreases c,
{
    let d = depth_of(c);
    vstd::arithmetic::power2::lemma2_to64();
    if d == 1 {
        assert(c >= 4);
    } else {
        lemma_depth_lower_bound(c / 8);
        let p = pow2((3 * (d - 2) + 2) as nat);
        assert(p <= c / 8);
        assert(pow2((3 * (d - 1) + 2) as nat) == 8 * p) by {
            vstd::arithmetic::power2::lemma_pow2_adds((3 * (d - 2) + 2) as nat, 3);
        }
        assert(8 * (c / 8) <= c) by (nonlinear_arith);
        if 3 * (d - 1) + 2 >= 64 {
            vstd::arithmetic::power2::lemma_pow2_strictly_increases(64, (3 * (d - 1) + 2) as nat);
            vstd::arithmetic::power2::lemma2_to64_rest();
            assert(pow2(64) > u64::MAX as nat);
        }
    }
}

/// Powers of two do not decrease with the exponent.
pub(crate) proof fn lemma_pow2_le(e1: nat, e2: nat)
    requires
        e1 <= e2,
    ensures
        pow2(e1) <= pow2(e2),
{
    if e1 < e2 {
        vstd::arithmetic::power2::lemma_pow2_strictly_increases(e1, e2);
    }
}

/// Any `x` between two neighbouring powers of two has exactly that many
/// leading zeros.
pub(crate) proof fn lemma_lz_from_bounds(x: u64, n: nat)
    requires
        n <= 63,
        pow2((63 - n) as nat) <= x < pow2((64 - n) as nat),
    ensures
        u64_leading_zeros(x) == n,
{
    vstd::arithmetic::power2::lemma_pow2_pos((63 - n) as nat);
    assert(x > 0);
    let m = u64_leading_zeros(x) as nat;
    lemma_lz_bounds(x);
    if m < n {
        lemma_pow2_le((64 - n) as nat, (63 - m) as nat);
    }
    if m > n {
        lemma_pow2_le((64 - m) as nat, (63 - n) as nat);
    }
}

/// The defining window of `leading_zeros`: a nonzero `x` sits between the
/// powers of two picked out by its leading-zero count.
pub(crate) proof fn lemma_lz_bounds(x: u64)
    requires
        x > 0,
    ensures
        u64_leading_zeros(x) <= 63,
        pow2((63 - u64_leading_zeros(x)) as nat) <= x,
        x < pow2((64 - u64_leading_zeros(x)) as nat),
{
    axiom_u64_leading_zeros(x);
    let lz = u64_leading_zeros(x);
    assert(0 <= lz < 64);
    // The bit at position 63 - lz is set, so x >= 2^(63 - lz).
    let lo: u64 = (63 - lz) as u64;
    assert((x >> lo) & 1u64 != 0u64);
    assert(x >> lo >= 1) by (bit_vector)
        requires
            (x >> lo) & 1u64 != 0u64,
    ;
    vstd::bits::lemma_u64_shr_is_div(x, lo);
    vstd::arithmetic::power2::lemma_pow2_pos(lo as nat);
    assert(x as nat / pow2(lo as nat) >= 1);
    assert(pow2(lo as nat) <= x) by {
        let d = pow2(lo as nat) as int;
        let q = x as int / d;
        vstd::arithmetic::div_mod::lemma_fundamental_div_mod(x as int, d);
        vstd::arithmetic::div_mod::lemma_mod_division_less_than_divisor(x as int, d);
        assert(q >= 1 && d > 0 ==> d * q >= d) by (nonlinear_arith);
    }
    // All bits at position 64 - lz and above are clear, so x < 2^(64 - lz).
    if lz >= 1 {
        let hi: u64 = (64 - lz) as u64;
        assert(x >> hi == 0);
        vstd::bits::lemma_u64_shr_is_div(x, hi);
        assert(x as nat / pow2(hi as nat) == 0);
        vstd::arithmetic::power2::lemma_pow2_pos(hi as nat);
        assert(x < pow2(hi as nat)) by {
            let d = pow2(hi as nat) as int;
            vstd::arithmetic::div_mod::lemma_fundamental_div_mod(x as int, d);
            vstd::arithmetic::div_mod::lemma_mod_division_less_than_divisor(x as int, d);
        }
    } else {
        vstd::arithmetic::power2::lemma2_to64_rest();
        assert(pow2(64) > u64::MAX as nat);
    }
}

/// The recursive depth equals the constant-time leading-zeros form.
pub proof fn lemma_depth_formula(c: u64)
    ensures
        depth_of(c) == 21 - ((u64_leading_zeros(c) + 1) / 3),
        u64_leading_zeros(c) <= 64,
    decreases c,
{
    axiom_u64_leading_zeros(c);
    vstd::arithmetic::power2::lemma2_to64();
    if c == 0 {
        assert(u64_leading_zeros(c) == 64);
    } else {
        lemma_lz_bounds(c);
        let lz = u64_leading_zeros(c) as nat;
        if c < 4 {
            // c in [1, 3]: the window forces lz >= 62.
            if lz <= 61 {
                lemma_pow2_le(2, (63 - lz) as nat);
            }
        } else {
            lemma_depth_formula(c / 8);
            if lz == 61 {
                // c in [4, 7]: one level above an empty remainder.
                assert(pow2(2) <= c < pow2(3));
                assert(c / 8 == 0);
            } else {
                // c >= 8: the window of c / 8 moves up by exactly 3.
                assert(lz <= 60) by {
                    if lz >= 62 {
                        lemma_pow2_le((64 - lz) as nat, 2);
                    }
                }
                assert(pow2((63 - lz) as nat) == 8 * pow2((60 - lz) as nat)) by {
                    vstd::arithmetic::power2::lemma_pow2_adds((60 - lz) as nat, 3);
                }
                assert(pow2((64 - lz) as nat) == 8 * pow2((61 - lz) as nat)) by {
                    vstd::arithmetic::power2::lemma_pow2_adds((61 - lz) as nat, 3);
                }
                assert(pow2((60 - lz) as nat) <= c / 8 < pow2((61 - lz) as nat)) by {
                    let p = pow2((60 - lz) as nat) as int;
                    vstd::arithmetic::power2::lemma_pow2_pos((60 - lz) as nat);
                    vstd::arithmetic::div_mod::lemma_fundamental_div_mod(c as int, 8);
                    assert(8 * p <= c ==> p <= c / 8) by (nonlinear_arith);
                    assert(c < 8 * (4 * p) ==> c / 8 < 4 * p) by (nonlinear_arith);
                }
                lemma_lz_from_bounds(c / 8, (lz + 3) as nat);
                assert((lz + 4) / 3 == (lz + 1) / 3 + 1);
            }
        }
    }
}

/// A well-formed code of depth `d` lies in `[8^d, 2 * 8^d)`.
pub proof fn lemma_valid_code_bounds(c: u64)
    requires
        is_valid_code(c),
    ensures
        pow2((3 * depth_of(c)) as nat) <= c,
        c < 2 * pow2((3 * depth_of(c)) as nat),
    decreases c,
{
    vstd::arithmetic::power2::lemma2_to64();
    if c == 1 {
    } else {
        lemma_valid_code_bounds(c / 8);
        let d = depth_of(c);
        assert(c >= 8);
        assert(depth_of(c / 8) == d - 1);
        let p = pow2((3 * (d - 1)) as nat);
        assert(pow2((3 * d) as nat) == 8 * p) by {
            vstd::arithmetic::power2::lemma_pow2_adds((3 * (d - 1)) as nat, 3);
        }
        vstd::arithmetic::div_mod::lemma_fundamental_div_mod(c as int, 8);
        assert(p <= c / 8 && c / 8 < 2 * p);
    }
}

/// On well-formed codes the two depth measures agree.
pub proof fn lemma_valid_lc_depth(c: u64)
    requires
        is_valid_code(c),
    ensures
        lc_depth(c) == depth_of(c),
    decreases c,
{
    if c != 1 {
        lemma_valid_lc_depth(c / 8);
    }
}

/// Law: a location of positive depth is exactly its parent's child under
/// its own octant index, so `parent` followed by `child(child_id)` gives
/// the location back.
pub proof fn lemma_parent_child_round_trip(l: NodeLocation)
    requires
        is_valid_code(l.code),
        depth_of(l.code) >= 1,
    ensures
        l.code > 1,
        is_valid_code(l.code / 8),
        depth_of((l.code / 8) as u64) == depth_of(l.code) - 1 < 21,
        (l.code / 8) * 8 + child_id_value(child_id_of(l.code)) == l.code,
{
    lemma_depth_of_le_21(l.code);
    let c = l.code;
    assert(c >= 8);
    assert(c & 7 == c % 8 && c & 7 < 8) by (bit_vector);
    crate::child_id::lemma_child_id_of_low(c, c & 7);
    vstd::arithmetic::div_mod::lemma_fundamental_div_mod(c as int, 8);
}

/// Law: stepping down to any child and back up returns to the same
/// location, and the child reports the octant it was reached through.
pub proof fn lemma_child_parent_round_trip(l: NodeLocation, c: ChildId)
    requires
        is_valid_code(l.code),
        depth_of(l.code) < 21,
    ensures
        ({
            let k = (l.code * 8 + child_id_value(c)) as u64;
            &&& l.code * 8 + child_id_value(c) <= u64::MAX
            &&& k > 1
            &&& k / 8 == l.code
            &&& child_id_of(k) == c
            &&& child_id_value(child_id_of(k)) == child_id_value(c)
            &&& is_valid_code(k)
            &&& depth_of(k) == depth_of(l.code) + 1
        }),
{
    lemma_valid_code_bounds(l.code);
    lemma_pow2_le((3 * depth_of(l.code)) as nat, 60);
    assert(2 * pow2(60) == pow2(61)) by {
        vstd::arithmetic::power2::lemma_pow2_adds(60, 1);
        vstd::arithmetic::power2::lemma2_to64();
    }
    vstd::arithmetic::power2::lemma2_to64_rest();
    let a = l.code;
    let v = child_id_value(c);
    assert(a < 0x2000_0000_0000_0000);
    let k = (a * 8 + v) as u64;
    assert(k / 8 == a && k % 8 == v) by (nonlinear_arith)
        requires
            v < 8u64,
            a < 0x2000_0000_0000_0000u64,
            k == a * 8 + v,
    ;
    assert(k & 7 == k % 8) by (bit_vector);
    crate::child_id::lemma_child_id_of_low(k, k & 7);
    crate::child_id::lemma_child_id_roundtrip(c);
}

impl NodeLocation {
    /// The location addressing the cell that holds the point `(x, y, z)`
    /// in the cubic grid of side `2^depth` centered on the origin. `None`
    /// when a coordinate falls outside `[-2^depth / 2, 2^depth / 2)` or
    /// the depth exceeds 21.
    pub fn new(x: i32, y: i32, z: i32, depth: u32) -> (r: Option<NodeLocation>)
        ensures
            r is Some <==> depth <= 21 && -coord_bound(depth as nat) <= x < coord_bound(
                depth as nat,
            ) && -coord_bound(depth as nat) <= y < coord_bound(depth as nat) && -coord_bound(
                depth as nat,
            ) <= z < coord_bound(depth as nat),
            r matches Some(l) ==> {
                &&& l.code == code_of_units(
                    (x + coord_bound(depth as nat)) as nat,
                    (z + coord_bound(depth as nat)) as nat,
                    (y + coord_bound(depth as nat)) as nat,
                    depth as nat,
                )
                &&& is_valid_code(l.code)
                &&& depth_of(l.code) == depth
            },
    {
        if depth > MAX_DEPTH {
            return None;
        }
        proof {
            vstd::arithmetic::power2::lemma2_to64();
            lemma_pow2_le(depth as nat, 21);
            vstd::bits::lemma_u32_shl_is_mul(1, depth);
        }
        let bound: i32 = ((1u32 << depth) / 2) as i32;
        if x >= bound || x < -bound || y >= bound || y < -bound || z >= bound || z < -bound {
            return None;
        }
        let ghost d = depth as nat;
        let ghost ux0 = (x + coord_bound(d)) as nat;
        let ghost uy0 = (y + coord_bound(d)) as nat;
        let ghost uz0 = (z + coord_bound(d)) as nat;
        proof {
            vstd::arithmetic::power2::lemma_pow2_unfold(d);
            assert(ux0 < pow2(d) && uy0 < pow2(d) && uz0 < pow2(d));
            vstd::arithmetic::power2::lemma_pow2_pos(d);
            vstd::arithmetic::div_mod::lemma_small_mod(ux0, pow2(d));
            vstd::arithmetic::div_mod::lemma_small_mod(uy0, pow2(d));
            vstd::arithmetic::div_mod::lemma_small_mod(uz0, pow2(d));
            vstd::arithmetic::div_mod::lemma_basic_div(ux0 as int, pow2(d) as int);
            vstd::arithmetic::div_mod::lemma_basic_div(uy0 as int, pow2(d) as int);
            vstd::arithmetic::div_mod::lemma_basic_div(uz0 as int, pow2(d) as int);
        }
        let mut xr = x;
        let mut yr = y;
        let mut zr = z;
        let mut max = bound;
        let mut code: u64 = 1;
        let mut level: u32 = 0;

        while level < depth
            invariant
                depth <= 21,
                level <= depth,
                ux0 < pow2(d),
                uy0 < pow2(d),
                uz0 < pow2(d),
                d == depth as nat,
                ux0 == x + coord_bound(d),
                uy0 == y + coord_bound(d),
                uz0 == z + coord_bound(d),
                max as int == coord_bound((d - level) as nat),
                level < depth ==> xr as int + coord_bound((d - level) as nat) == ux0 % pow2(
                    (d - level) as nat,
                ),
                level < depth ==> yr as int + coord_bound((d - level) as nat) == uy0 % pow2(
                    (d - level) as nat,
                ),
                level < depth ==> zr as int + coord_bound((d - level) as nat) == uz0 % pow2(
                    (d - level) as nat,
                ),
                code == code_of_units(
                    ux0 / pow2((d - level) as nat),
                    uz0 / pow2((d - level) as nat),
                    uy0 / pow2((d - level) as nat),
                    level as nat,
                ),
            decreases depth - level,
        {
            let ghost j = (d - level) as nat;
            let ghost bx: nat = (ux0 / pow2((j - 1) as nat)) % 2;
            let ghost by: nat = (uy0 / pow2((j - 1) as nat)) % 2;
            let ghost bz: nat = (uz0 / pow2((j - 1) as nat)) % 2;
            proof {
                vstd::arithmetic::power2::lemma2_to64();
                // Split one bit per axis off the running remainders.
                crate::coords::lemma_unit_step(ux0, j, xr as int);
                crate::coords::lemma_unit_step(uy0, j, yr as int);
                crate::coords::lemma_unit_step(uz0, j, zr as int);
                // The partial code stays below 2^61, so the shift is exact.
                vstd::arithmetic::power2::lemma_pow2_adds(j, level as nat);
                vstd::arithmetic::power2::lemma_pow2_pos(j);
                vstd::arithmetic::div_mod::lemma_multiply_divide_lt(
                    ux0 as int,
                    pow2(j) as int,
                    pow2(level as nat) as int,
                );
                vstd::arithmetic::div_mod::lemma_multiply_divide_lt(
                    uy0 as int,
                    pow2(j) as int,
                    pow2(level as nat) as int,
                );
                vstd::arithmetic::div_mod::lemma_multiply_divide_lt(
                    uz0 as int,
                    pow2(j) as int,
                    pow2(level as nat) as int,
                );
                crate::coords::lemma_code_of_units_shape(
                    ux0 / pow2(j),
                    uz0 / pow2(j),
                    uy0 / pow2(j),
                    level as nat,
                );
            }
            let ghost cc: u64 = code;
            code = code << 3;
            max = max / 2;

            let mut g: u64 = 0;
            if xr >= 0 {
                g = g + 1;
            }
            if yr >= 0 {
                g = g + 4;
            }
            if zr >= 0 {
                g = g + 2;
            }
            proof {
                assert(cc < 0x2000_0000_0000_0000) by {
                    lemma_pow2_le((3 * level + 1) as nat, 61);
                    vstd::arithmetic::power2::lemma_pow2_adds((3 * level as nat) as nat, 1);
                    vstd::arithmetic::power2::lemma2_to64_rest();
                }
                assert((cc << 3) == cc * 8 && ((cc << 3) | g) == cc * 8 + g) by (bit_vector)
                    requires
                        cc < 0x2000_0000_0000_0000u64,
                        g < 8u64,
                ;
            }
            code = code | g;
            proof {
                assert(g == bx + 2 * bz + 4 * by);
                assert(code_of_units(
                    ux0 / pow2((j - 1) as nat),
                    uz0 / pow2((j - 1) as nat),
                    uy0 / pow2((j - 1) as nat),
                    (level + 1) as nat,
                ) == 8 * code_of_units(
                    ux0 / pow2(j),
                    uz0 / pow2(j),
                    uy0 / pow2(j),
                    level as nat,
                ) + (bx + 2 * bz + 4 * by));
                assert(code == cc * 8 + g);
            }
            if xr >= 0 {
                xr = xr - max;
            } else {
                xr = xr + max;
            }
            if yr >= 0 {
                yr = yr - max;
            } else {
                yr = yr + max;
            }
            if zr >= 0 {
                zr = zr - max;
            } else {
                zr = zr + max;
            }
            level = level + 1;
        }
        proof {
            assert(pow2(0) == 1) by {
                vstd::arithmetic::power2::lemma2_to64();
            }
            assert(ux0 / pow2(0) == ux0 && uz0 / pow2(0) == uz0 && uy0 / pow2(0) == uy0);
            crate::coords::lemma_code_of_units_shape(ux0, uz0, uy0, d);
        }
        Some(NodeLocation { code })
    }

    /// The `(x, y, z, depth)` cell this location addresses: the inverse
    /// of `new`, read off the code by walking from the leaf level up.
    pub fn coordinates(&self) -> (r: (i32, i32, i32, u32))
        ensures
            r.0 == axis_sum(self.code, 1, 0),
            r.1 == axis_sum(self.code, 4, 0),
            r.2 == axis_sum(self.code, 2, 0),
            r.3 == lc_depth(self.code),
            is_valid_code(self.code) ==> r.3 == depth_of(self.code),
    {
        proof {
            if is_valid_code(self.code) {
                lemma_valid_lc_depth(self.code);
            }
        }
        let mut x: i32 = 0;
        let mut y: i32 = 0;
        let mut z: i32 = 0;
        let mut depth: u32 = 0;
        let mut code = self.code;

        proof {
            crate::locational_code::lemma_lc_depth_bound(self.code);
        }
        proof {
            vstd::arithmetic::power2::lemma2_to64();
        }
        while code > 1
            invariant
                depth + lc_depth(code) == lc_depth(self.code),
                lc_depth(self.code) <= 21,
                x + axis_sum(code, 1, depth as nat) == axis_sum(self.code, 1, 0),
                y + axis_sum(code, 4, depth as nat) == axis_sum(self.code, 4, 0),
                z + axis_sum(code, 2, depth as nat) == axis_sum(self.code, 2, 0),
                -(pow2(depth as nat) as int) < x < pow2(depth as nat) as int,
                -(pow2(depth as nat) as int) < y < pow2(depth as nat) as int,
                -(pow2(depth as nat) as int) < z < pow2(depth as nat) as int,
            decreases code,
        {
            proof {
                vstd::arithmetic::power2::lemma2_to64();
                lemma_pow2_le(depth as nat, 20);
                lemma_pow2_le((depth + 1) as nat, 21);
                vstd::bits::lemma_u32_shl_is_mul(1, depth);
                if depth >= 1 {
                    vstd::arithmetic::power2::lemma_pow2_unfold(depth as nat);
                }
                let c = code;
                assert((c & 1 > 0 <==> c % 2 == 1) && (c & 2 > 0 <==> (c / 2) % 2 == 1) && (c & 4
                    > 0 <==> (c / 4) % 2 == 1) && c >> 3 == c / 8) by (bit_vector);
            }
            let max: i32 = ((1u32 << depth) / 2) as i32;
            let mut min: i32 = max;
            if max < 1 {
                min = 1;
            }
            if code & 0b001 > 0 {
                x = x + max;
            } else {
                x = x - min;
            }
            if code & 0b100 > 0 {
                y = y + max;
            } else {
                y = y - min;
            }
            if code & 0b010 > 0 {
                z = z + max;
            } else {
                z = z - min;
            }
            code = code >> 3;
            depth = depth + 1;
        }
        (x, y, z, depth)
    }

    /// The root location, the bare sentinel code.
    pub fn new_root() -> (r: NodeLocation)
        ensures
            r.code == 1,
            is_valid_code(r.code),
            depth_of(r.code) == 0,
    {
        NodeLocation { code: 1 }
    }

    /// The location one level up, dropping this node's own octant group.
    /// `None` at the root.
    pub fn parent(&self) -> (r: Option<NodeLocation>)
        ensures
            r is Some <==> self.code > 1,
            r matches Some(p) ==> p.code == self.code >> 3 && p.code == self.code / 8,
            is_valid_code(self.code) ==> (r matches Some(p) ==> is_valid_code(p.code)
                && depth_of(p.code) + 1 == depth_of(self.code)),
    {
        proof {
            let c = self.code;
            assert(c >> 3 == c / 8) by (bit_vector);
        }
        if self.code <= 1 {
            None
        } else {
            proof {
                if is_valid_code(self.code) {
                    assert(self.code >= 8);
                    assert(depth_of(self.code) == 1 + depth_of(self.code / 8));
                }
            }
            Some(NodeLocation { code: self.code >> 3 })
        }
    }

    /// The location one level down through octant `child`. `None` once the
    /// 64 bits are full.
    pub fn child(&self, child: ChildId) -> (r: Option<NodeLocation>)
        ensures
            r is Some <==> depth_of(self.code) < 21,
            r matches Some(l) ==> l.code == (self.code << 3) | child_id_value(child),
            is_valid_code(self.code) ==> (r matches Some(l) ==> {
                &&& l.code == self.code * 8 + child_id_value(child)
                &&& is_valid_code(l.code)
                &&& depth_of(l.code) == depth_of(self.code) + 1
                &&& child_id_of(l.code) == child
                &&& l.code / 8 == self.code
            }),
    {
        let d = self.depth();
        if d >= MAX_DEPTH {
            None
        } else {
            let v = child.value();
            let code = (self.code << 3) | v;
            proof {
                if is_valid_code(self.code) {
                    lemma_valid_code_bounds(self.code);
                    lemma_pow2_le((3 * depth_of(self.code)) as nat, 60);
                    assert(2 * pow2(60) == pow2(61)) by {
                        vstd::arithmetic::power2::lemma_pow2_adds(60, 1);
                        vstd::arithmetic::power2::lemma2_to64();
                    }
                    vstd::arithmetic::power2::lemma2_to64_rest();
                    let a = self.code;
                    assert(a < 0x2000_0000_0000_0000);
                    assert(child_id_value(child) < 8);
                    assert((a << 3) | v == a * 8 + v && ((a << 3) | v) & 7 == v) by (bit_vector)
                        requires
                            a < 0x2000_0000_0000_0000u64,
                            v < 8u64,
                    ;
                    assert((a * 8 + v) / 8 == a && (a * 8 + v) % 8 == v) by (nonlinear_arith)
                        requires
                            v < 8u64,
                            a < 0x2000_0000_0000_0000u64,
                    ;
                    assert(is_valid_code(code));
                    assert(depth_of(code) == 1 + depth_of(a));
                    crate::child_id::lemma_child_id_of_low(code, v);
                    crate::child_id::lemma_child_id_roundtrip(child);
                }
            }
            Some(NodeLocation { code })
        }
    }

    /// This node's own octant index within its parent: the low three bits.
    pub fn child_id(&self) -> (r: ChildId)
        ensures
            r == child_id_of(self.code),
    {
        ChildId::from(self.code)
    }

    /// Depth of this location, taken in constant time from the leading
    /// zeros of the code.
    pub fn depth(&self) -> (r: u32)
        ensures
            r == depth_of(self.code),
            r <= 21,
    {
        proof {
            lemma_depth_formula(self.code);
        }
        MAX_DEPTH - ((self.code.leading_zeros() + 1) / 3)
    }

    /// The parent location paired with this node's own octant index.
    pub fn disown(&self) -> (r: (Option<NodeLocation>, ChildId))
        ensures
            r.0 is Some <==> self.code > 1,
            r.0 matches Some(p) ==> p.code == self.code / 8,
            r.1 == child_id_of(self.code),
    {
        (self.parent(), self.child_id())
    }
}

} // verus!
