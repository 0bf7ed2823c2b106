use vstd::prelude::*;

use crate::locational_code::lc_depth;
use crate::node_location::depth_of;
use crate::node_location::is_valid_code;
use vstd::arithmetic::power2::pow2;

verus! {

/// Half-open coordinate bound at depth `d`: coordinates live in
/// `[-bound, bound)` with `bound = 2^d / 2`. At the root the bound is
/// zero and no cell can be addressed.
pub open spec fn coord_bound(d: nat) -> int {
    (pow2(d) / 2) as int
}

/// The code for offset (unit) coordinates `ux`, `uz`, `uy` at depth `d`:
/// a sentinel followed, level by level, by one bit of each axis, the
/// deepest level in the lowest octant group. Within a group, bit 0 is +X,
/// bit 1 is +Z and bit 2 is +Y.
pub open spec fn code_of_units(ux: nat, uz: nat, uy: nat, d: nat) -> nat
    decreases d,
{
    if d == 0 {
        1
    } else {
        8 * code_of_units(ux / 2, uz / 2, uy / 2, (d - 1) as nat) + (ux % 2 + 2 * (uz % 2) + 4 * (
        uy % 2))
    }
}

/// Whether the low octant group of `c` has the axis bit picked by `sel`
/// set (`sel` is 1 for X, 2 for Z, 4 for Y).
pub open spec fn axis_bit(c: u64, sel: u64) -> bool {
    (c as nat / sel as nat) % 2 == 1
}

/// What one octant group contributes to a coordinate at walk level `l`:
/// half a cell toward positive on a set bit, half a cell toward negative
/// on a clear bit, with a floor adjustment at the leaf level where half a
/// cell rounds down to nothing.
pub open spec fn axis_contrib(bit: bool, l: nat) -> int {
    if bit {
        if l == 0 {
            0
        } else {
            pow2((l - 1) as nat) as int
        }
    } else {
        if l == 0 {
            -1
        } else {
            -(pow2((l - 1) as nat) as int)
        }
    }
}

/// The coordinate that a leaf-to-root walk starting at level `l`
/// accumulates for the axis picked by `sel`.
pub open spec fn axis_sum(c: u64, sel: u64, l: nat) -> int
    decreases c,
{
    if c <= 1 {
        0
    } else {
        axis_contrib(axis_bit(c, sel), l) + axis_sum(c / 8, sel, l + 1)
    }
}

/// The offset coordinate packed in `c` for the axis picked by `sel`: one
/// bit per octant group, deepest level lowest.
pub open spec fn unit_of(c: u64, sel: u64) -> nat
    decreases c,
{
    if c <= 1 {
        0
    } else {
        2 * unit_of(c / 8, sel) + (if axis_bit(c, sel) {
            1nat
        } else {
            0nat
        })
    }
}

/// A code built from unit coordinates below `2^d` is well formed, sits in
/// `[8^d, 2 * 8^d)` and has depth `d` under both depth measures.
pub proof fn lemma_code_of_units_shape(ux: nat, uz: nat, uy: nat, d: nat)
    requires
        d <= 21,
        ux < pow2(d),
        uz < pow2(d),
        uy < pow2(d),
    ensures
        pow2((3 * d) as nat) <= code_of_units(ux, uz, uy, d) < 2 * pow2((3 * d) as nat),
        code_of_units(ux, uz, uy, d) < pow2(64),
        is_valid_code(code_of_units(ux, uz, uy, d) as u64),
        depth_of(code_of_units(ux, uz, uy, d) as u64) == d,
        lc_depth(code_of_units(ux, uz, uy, d) as u64) == d,
    decreases d,
{
    vstd::arithmetic::power2::lemma2_to64();
    vstd::arithmetic::power2::lemma2_to64_rest();
    if d == 0 {
    } else {
        assert(ux / 2 < pow2((d - 1) as nat) && uz / 2 < pow2((d - 1) as nat) && uy / 2 < pow2(
            (d - 1) as nat,
        )) by {
            vstd::arithmetic::power2::lemma_pow2_unfold(d);
        }
        lemma_code_of_units_shape(ux / 2, uz / 2, uy / 2, (d - 1) as nat);
        let q = code_of_units(ux / 2, uz / 2, uy / 2, (d - 1) as nat);
        let g = (ux % 2 + 2 * (uz % 2) + 4 * (uy % 2)) as nat;
        let c = code_of_units(ux, uz, uy, d);
        assert(g < 8);
        assert(c == 8 * q + g);
        let p = pow2((3 * (d - 1)) as nat);
        assert(pow2((3 * d) as nat) == 8 * p) by {
            vstd::arithmetic::power2::lemma_pow2_adds((3 * (d - 1)) as nat, 3);
        }
        assert(pow2((3 * d) as nat) <= c < 2 * pow2((3 * d) as nat)) by {
            assert(p <= q < 2 * p);
            assert(8 * p <= 8 * q) by (nonlinear_arith)
                requires
                    p <= q,
            ;
            assert(q <= 2 * p - 1 ==> 8 * q <= 16 * p - 8) by (nonlinear_arith);
        }
        assert(c < pow2(64)) by {
            if 3 * d < 64 {
                crate::node_location::lemma_pow2_le((3 * d + 1) as nat, 64);
                vstd::arithmetic::power2::lemma_pow2_adds((3 * d) as nat, 1);
            }
        }
        let cu = c as u64;
        assert(cu / 8 == q && cu % 8 == g) by (nonlinear_arith)
            requires
                cu == 8 * q + g,
                g < 8,
        ;
        assert(cu >= 8);
        assert(is_valid_code(cu));
        assert(depth_of(cu) == 1 + depth_of(q as u64));
        assert(lc_depth(cu) == 1 + lc_depth(q as u64));
    }
}

/// Reading the unit coordinates back out of a built code gives the
/// coordinates the code was built from.
pub proof fn lemma_unit_of_code(ux: nat, uz: nat, uy: nat, d: nat)
    requires
        d <= 21,
        ux < pow2(d),
        uz < pow2(d),
        uy < pow2(d),
    ensures
        unit_of(code_of_units(ux, uz, uy, d) as u64, 1) == ux,
        unit_of(code_of_units(ux, uz, uy, d) as u64, 2) == uz,
        unit_of(code_of_units(ux, uz, uy, d) as u64, 4) == uy,
    decreases d,
{
    vstd::arithmetic::power2::lemma2_to64();
    if d == 0 {
    } else {
        assert(ux / 2 < pow2((d - 1) as nat) && uz / 2 < pow2((d - 1) as nat) && uy / 2 < pow2(
            (d - 1) as nat,
        )) by {
            vstd::arithmetic::power2::lemma_pow2_unfold(d);
        }
        lemma_unit_of_code(ux / 2, uz / 2, uy / 2, (d - 1) as nat);
        lemma_code_of_units_shape(ux / 2, uz / 2, uy / 2, (d - 1) as nat);
        lemma_code_of_units_shape(ux, uz, uy, d);
        let q = code_of_units(ux / 2, uz / 2, uy / 2, (d - 1) as nat);
        let g = (ux % 2 + 2 * (uz % 2) + 4 * (uy % 2)) as nat;
        let c = code_of_units(ux, uz, uy, d);
        let cu = c as u64;
        assert(cu == 8 * q + g && g < 8);
        assert(cu / 8 == q && cu % 8 == g) by (nonlinear_arith)
            requires
                cu == 8 * q + g,
                g < 8,
        ;
        assert(cu >= 8);
        // The low group carries exactly one parity bit per axis.
        assert((cu as nat / 1nat) % 2 == ux % 2 && (cu as nat / 2nat) % 2 == uz % 2 && (
        cu as nat / 4nat) % 2 == uy % 2) by (nonlinear_arith)
            requires
                cu == 8 * q + g,
                g == ux % 2 + 2 * (uz % 2) + 4 * (uy % 2),
        ;
        assert(unit_of(cu, 1) == 2 * unit_of(q as u64, 1) + ux % 2);
        assert(unit_of(cu, 2) == 2 * unit_of(q as u64, 2) + uz % 2);
        assert(unit_of(cu, 4) == 2 * unit_of(q as u64, 4) + uy % 2);
    }
}

/// One construction step for a single axis: how the recentered remainder
/// `rcur` picks the next bit and what remains once the cell halves.
pub proof fn lemma_unit_step(u0: nat, j: nat, rcur: int)
    requires
        1 <= j <= 21,
        rcur + coord_bound(j) == u0 % pow2(j),
    ensures
        ({
            let b: nat = (u0 / pow2((j - 1) as nat)) % 2;
            &&& (b == 1 <==> rcur >= 0)
            &&& coord_bound(j) == pow2((j - 1) as nat)
            &&& (j >= 2 ==> 2 * coord_bound((j - 1) as nat) == pow2((j - 1) as nat))
            &&& (j == 1 ==> coord_bound(0) == 0)
            &&& u0 % pow2((j - 1) as nat) == u0 % pow2(j) - b * pow2((j - 1) as nat)
            &&& u0 % pow2(j) < pow2(j)
            &&& (u0 / pow2((j - 1) as nat)) / 2 == u0 / pow2(j)
            &&& coord_bound((j - 1) as nat) <= pow2(21)
            &&& coord_bound(j) / 2 == coord_bound((j - 1) as nat)
        }),
{
    vstd::arithmetic::power2::lemma2_to64();
    vstd::arithmetic::power2::lemma_pow2_unfold(j);
    vstd::arithmetic::power2::lemma_pow2_pos((j - 1) as nat);
    let p = pow2((j - 1) as nat);
    crate::node_location::lemma_pow2_le((j - 1) as nat, 21);
    if j >= 2 {
        vstd::arithmetic::power2::lemma_pow2_unfold((j - 1) as nat);
    }
    vstd::arithmetic::div_mod::lemma_breakdown(u0 as int, p as int, 2);
    vstd::arithmetic::div_mod::lemma_mod_division_less_than_divisor(u0 as int, p as int);
    vstd::arithmetic::div_mod::lemma_mod_division_less_than_divisor(u0 as int, pow2(j) as int);
    vstd::arithmetic::div_mod::lemma_div_denominator(u0 as int, p as int, 2);
    let b: nat = (u0 / p) % 2;
    assert(u0 % (p * 2) == p * b + u0 % p);
    assert(p * 2 == pow2(j));
    assert(b == 0 || b == 1);
}

/// Raising the walk's starting level by one doubles every contribution,
/// once the leaf-level floor adjustment is out of the picture.
proof fn lemma_axis_sum_shift(c: u64, sel: u64, l: nat)
    requires
        l >= 1,
    ensures
        axis_sum(c, sel, l + 1) == 2 * axis_sum(c, sel, l),
    decreases c,
{
    if c <= 1 {
    } else {
        lemma_axis_sum_shift(c / 8, sel, l + 1);
        assert(pow2(l) == 2 * pow2((l - 1) as nat)) by {
            vstd::arithmetic::power2::lemma_pow2_unfold(l);
        }
    }
}

/// Starting the walk one level up doubles the total and adds one cell,
/// the cell the leaf-level floor adjustment had taken away.
proof fn lemma_axis_sum_shift0(c: u64, sel: u64)
    ensures
        axis_sum(c, sel, 1) == 2 * axis_sum(c, sel, 0) + (if c >= 2 {
            1int
        } else {
            0int
        }),
    decreases c,
{
    if c <= 1 {
    } else {
        lemma_axis_sum_shift(c / 8, sel, 1);
        vstd::arithmetic::power2::lemma2_to64();
    }
}

/// The walked coordinate is the unit coordinate, recentered by half the
/// cube's side.
pub proof fn lemma_axis_sum_units(c: u64, sel: u64)
    ensures
        axis_sum(c, sel, 0) == unit_of(c, sel) - (if lc_depth(c) == 0 {
            0int
        } else {
            pow2((lc_depth(c) - 1) as nat) as int
        }),
    decreases c,
{
    vstd::arithmetic::power2::lemma2_to64();
    if c <= 1 {
    } else {
        lemma_axis_sum_units(c / 8, sel);
        lemma_axis_sum_shift0(c / 8, sel);
        let b = axis_bit(c, sel);
        assert(axis_contrib(b, 0) == (if b {
            1int
        } else {
            0int
        }) - 1);
        if c / 8 >= 2 {
            assert(lc_depth(c) == 1 + lc_depth(c / 8));
            assert(lc_depth(c / 8) >= 1);
            assert(pow2((lc_depth(c) - 1) as nat) == 2 * pow2((lc_depth(c / 8) - 1) as nat)) by {
                vstd::arithmetic::power2::lemma_pow2_unfold((lc_depth(c) - 1) as nat);
            }
        }
    }
}

/// For every coordinate triple valid at depth `d`, building the code and
/// walking it back yields the same triple, and the code's walked depth is
/// `d` again.
pub proof fn lemma_coordinates_round_trip(x: int, y: int, z: int, d: nat)
    requires
        d <= 21,
        -coord_bound(d) <= x < coord_bound(d),
        -coord_bound(d) <= y < coord_bound(d),
        -coord_bound(d) <= z < coord_bound(d),
    ensures
        ({
            let c = code_of_units(
                (x + coord_bound(d)) as nat,
                (z + coord_bound(d)) as nat,
                (y + coord_bound(d)) as nat,
                d,
            ) as u64;
            &&& axis_sum(c, 1, 0) == x
            &&& axis_sum(c, 4, 0) == y
            &&& axis_sum(c, 2, 0) == z
            &&& lc_depth(c) == d
            &&& depth_of(c) == d
            &&& is_valid_code(c)
        }),
{
    vstd::arithmetic::power2::lemma2_to64();
    assert(d >= 1);
    assert(coord_bound(d) == pow2((d - 1) as nat)) by {
        vstd::arithmetic::power2::lemma_pow2_unfold(d);
    }
    let bound = coord_bound(d);
    let ux = (x + bound) as nat;
    let uz = (z + bound) as nat;
    let uy = (y + bound) as nat;
    assert(ux < pow2(d) && uz < pow2(d) && uy < pow2(d)) by {
        vstd::arithmetic::power2::lemma_pow2_unfold(d);
    }
    lemma_code_of_units_shape(ux, uz, uy, d);
    lemma_unit_of_code(ux, uz, uy, d);
    let c = code_of_units(ux, uz, uy, d) as u64;
    lemma_axis_sum_units(c, 1);
    lemma_axis_sum_units(c, 2);
    lemma_axis_sum_units(c, 4);
}

} // verus!
