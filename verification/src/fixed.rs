//! Fixed-point arithmetic helpers.
//!
//! Values in the unit interval are represented as integers scaled by
//! `FP = 2^16`.  Division in contracts is `int` division, which for a
//! positive divisor is floor division.

use vstd::prelude::*;
use vstd::arithmetic::div_mod::lemma_fundamental_div_mod;
use vstd::arithmetic::div_mod::lemma_fundamental_div_mod_converse;
use vstd::arithmetic::div_mod::lemma_div_is_ordered;
use vstd::arithmetic::div_mod::lemma_div_multiples_vanish;

verus! {

/// The fixed-point scale: values in [0, 1] map to [0, FP].
pub const FP: i64 = 65536;

/// Rounding division of nonnegative `a` by positive `d`:
/// the nearest integer to `a / d`, halves rounded up.
pub open spec fn rdiv(a: int, d: int) -> int {
    (2 * a + d) / (2 * d)
}

/// `-b <= a <= b` (absolute-value bound without an `abs` operator).
pub open spec fn in_abs(a: int, b: int) -> bool {
    -b <= a <= b
}

/// A quotient of a value bounded by `b * d` is bounded by `b`.
pub proof fn lemma_div_in_range(a: int, d: int, b: int)
    requires
        0 < d,
        0 <= b,
        in_abs(a, b * d),
    ensures
        in_abs(a / d, b),
{
    assert(b * d == d * b && -(b * d) == d * -b && -b * d == -(b * d)) by (nonlinear_arith);
    lemma_div_is_ordered(a, b * d, d);
    lemma_div_is_ordered(-(b * d), a, d);
    lemma_div_multiples_vanish(b, d);
    lemma_div_multiples_vanish(-b, d);
}

/// A quotient by a positive divisor is monotone in the dividend.
pub proof fn lemma_div_mono(a: int, b: int, d: int)
    requires
        0 < d,
        a <= b,
    ensures
        a / d <= b / d,
{
    lemma_div_is_ordered(a, b, d);
}

/// Floor division of `a` by a positive divisor `d`; agrees with `int`
/// division in contracts.
pub fn div_floor(a: i64, d: i64) -> (q: i64)
    requires
        1 <= d,
        -0x4000_0000_0000_0000 <= a,
    ensures
        q == a as int / d as int,
{
    if a >= 0 {
        let q0: u64 = (a as u64) / (d as u64);
        q0 as i64
    } else {
        let na: u64 = (-a) as u64;
        let q0: u64 = na / (d as u64);
        let r0: u64 = na % (d as u64);
        proof {
            lemma_fundamental_div_mod(na as int, d as int);
            if r0 == 0 {
                assert(a as int == -(q0 as int) * (d as int) + 0) by (nonlinear_arith)
                    requires na as int == (d as int) * (q0 as int) + (r0 as int),
                        a as int == -(na as int), r0 == 0;
                lemma_fundamental_div_mod_converse(a as int, d as int, -(q0 as int), 0);
            } else {
                assert(a as int == (-(q0 as int) - 1) * (d as int) + ((d as int) - (r0 as int)))
                    by (nonlinear_arith)
                    requires na as int == (d as int) * (q0 as int) + (r0 as int),
                        a as int == -(na as int);
                lemma_fundamental_div_mod_converse(
                    a as int, d as int, -(q0 as int) - 1, d as int - r0 as int);
            }
        }
        if r0 == 0 {
            -(q0 as i64)
        } else {
            -(q0 as i64) - 1
        }
    }
}

/// Rounding division of nonnegative `a` by positive `d`; agrees with
/// `rdiv` in contracts.
pub fn div_round(a: u64, d: u64) -> (q: u64)
    requires
        1 <= d <= 0x1_0000_0000,
        2 * a + d <= u64::MAX,
    ensures
        q == rdiv(a as int, d as int),
{
    (2 * a + d) / (2 * d)
}

/// `rdiv` never exceeds the bound that the exact quotient obeys.
pub proof fn lemma_rdiv_le(a: int, d: int, b: int)
    requires
        0 < d,
        0 <= a,
        0 <= b,
        a <= b * d,
    ensures
        0 <= rdiv(a, d) <= b,
{
    assert(2 * a + d <= 2 * b * d + d) by (nonlinear_arith)
        requires a <= b * d;
    assert(2 * b * d + d == b * (2 * d) + d) by (nonlinear_arith);
    lemma_div_is_ordered(2 * a + d, b * (2 * d) + d, 2 * d);
    assert((b * (2 * d) + d) / (2 * d) == b) by {
        lemma_fundamental_div_mod_converse(b * (2 * d) + d, 2 * d, b, d);
    }
    lemma_div_is_ordered(0, 2 * a + d, 2 * d);
}

/// Product of three factors each bounded by `FP`, used for one term of a
/// transform sum; the result is bounded by `FP^3`.
pub fn tri_term(ch: i64, fx: i64, fy: i64) -> (t: i64)
    requires
        in_abs(ch as int, FP as int),
        in_abs(fx as int, FP as int),
        in_abs(fy as int, FP as int),
    ensures
        t == ch * fx * fy,
        in_abs(t as int, 0x1_0000_0000_0000),
{
    proof {
        assert(in_abs(ch * fx, 0x1_0000_0000) && in_abs(ch * fx * fy, 0x1_0000_0000_0000))
            by (nonlinear_arith)
            requires in_abs(ch as int, 65536), in_abs(fx as int, 65536),
                in_abs(fy as int, 65536);
    }
    (ch * fx) * fy
}

} // verus!
