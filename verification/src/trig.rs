//! Fixed-point cosine for the transform basis functions.
//!
//! `cos_fp(c, j, n)` approximates `FP * cos(pi * c * (j + 1/2) / n)`: the
//! angle is reduced to the first quadrant, scaled by a fixed-point value of
//! pi (`PI_FP`), and the cosine is evaluated by a truncated alternating
//! series in Horner form.  The result is always within `[-FP, FP]`.

use vstd::prelude::*;
use crate::fixed::FP;
use crate::fixed::rdiv;
use crate::fixed::in_abs;
use crate::fixed::div_round;
use crate::fixed::lemma_rdiv_le;
use crate::fixed::lemma_div_mono;
use vstd::arithmetic::div_mod::lemma_div_multiples_vanish;
use vstd::arithmetic::div_mod::lemma_mod_bound;
use vstd::arithmetic::div_mod::lemma_basic_div;
use vstd::arithmetic::div_mod::lemma_div_of0;
use vstd::arithmetic::div_mod::lemma_small_mod;

verus! {

/// Fixed-point value of pi at scale `FP`.
pub const PI_FP: u64 = 205887;

/// First-quadrant fixed-point cosine of the angle `pi * rp / (2 * n)`,
/// for `0 <= rp <= n`.
pub open spec fn spec_cosq(rp: int, n: int) -> int {
    let t = rdiv(205887 * rp, 2 * n);
    let t2 = (t * t) / 65536;
    let u4 = 65536 - t2 / 90;
    let u3 = 65536 - ((t2 * u4) / 65536) / 56;
    let u2 = 65536 - ((t2 * u3) / 65536) / 30;
    let u1 = 65536 - ((t2 * u2) / 65536) / 12;
    65536 - ((t2 * u1) / 65536) / 2
}

/// Fixed-point cosine of `pi * c * (j + 1/2) / n`: the angle is reduced
/// modulo a full turn and folded into the first quadrant.
pub open spec fn spec_cos(c: int, j: int, n: int) -> int {
    let m = c * (2 * j + 1);
    let r = m % (4 * n);
    if r < n {
        spec_cosq(r, n)
    } else if r < 2 * n {
        -spec_cosq(2 * n - r, n)
    } else if r < 3 * n {
        -spec_cosq(r - 2 * n, n)
    } else {
        spec_cosq(4 * n - r, n)
    }
}

/// The first-quadrant evaluation stays within `[-FP, FP]`.
proof fn lemma_cosq_bounds(rp: int, n: int)
    requires
        1 <= n,
        0 <= rp <= n,
    ensures
        in_abs(spec_cosq(rp, n), FP as int),
{
    let t = rdiv(205887 * rp, 2 * n);
    assert(205887 * rp <= 102944 * (2 * n)) by (nonlinear_arith)
        requires 0 <= rp <= n;
    assert(0 <= 205887 * rp) by (nonlinear_arith)
        requires 0 <= rp;
    lemma_rdiv_le(205887 * rp, 2 * n, 102944);
    let t2 = (t * t) / 65536;
    assert(t * t <= 161706 * 65536 && 0 <= t * t) by (nonlinear_arith)
        requires 0 <= t <= 102944;
    lemma_div_mono(t * t, (161706 * 65536) as int, 65536);
    lemma_div_multiples_vanish(161706, 65536);
    assert(0 <= t2 <= 161706);
    let u4 = 65536 - t2 / 90;
    assert(0 <= t2 / 90 <= 1797);
    let p4 = (t2 * u4) / 65536;
    assert(t2 * u4 <= t2 * 65536 && 0 <= t2 * u4) by (nonlinear_arith)
        requires 0 <= t2, 0 <= u4 <= 65536;
    lemma_div_mono(t2 * u4, t2 * 65536, 65536);
    lemma_div_multiples_vanish(t2, 65536);
    assert(t2 * 65536 == 65536 * t2) by (nonlinear_arith);
    assert(0 <= p4 <= t2);
    let u3 = 65536 - p4 / 56;
    assert(0 <= p4 / 56 <= 2888);
    let p3 = (t2 * u3) / 65536;
    assert(t2 * u3 <= t2 * 65536 && 0 <= t2 * u3) by (nonlinear_arith)
        requires 0 <= t2, 0 <= u3 <= 65536;
    lemma_div_mono(t2 * u3, t2 * 65536, 65536);
    assert(0 <= p3 <= t2);
    let u2 = 65536 - p3 / 30;
    assert(0 <= p3 / 30 <= 5391);
    let p2 = (t2 * u2) / 65536;
    assert(t2 * u2 <= t2 * 65536 && 0 <= t2 * u2) by (nonlinear_arith)
        requires 0 <= t2, 0 <= u2 <= 65536;
    lemma_div_mono(t2 * u2, t2 * 65536, 65536);
    assert(0 <= p2 <= t2);
    let u1 = 65536 - p2 / 12;
    assert(0 <= p2 / 12 <= 13476);
    let p1 = (t2 * u1) / 65536;
    assert(t2 * u1 <= t2 * 65536 && 0 <= t2 * u1) by (nonlinear_arith)
        requires 0 <= t2, 0 <= u1 <= 65536;
    lemma_div_mono(t2 * u1, t2 * 65536, 65536);
    assert(0 <= p1 <= t2);
    assert(0 <= p1 / 2 <= 80853);
}

/// The reduced cosine is bounded by `FP` in absolute value.
pub proof fn lemma_cos_bounds(c: int, j: int, n: int)
    requires
        1 <= n,
        0 <= c,
        0 <= j,
    ensures
        in_abs(spec_cos(c, j, n), FP as int),
{
    let m = c * (2 * j + 1);
    let r = m % (4 * n);
    lemma_mod_bound(m, 4 * n);
    if r < n {
        lemma_cosq_bounds(r, n);
    } else if r < 2 * n {
        lemma_cosq_bounds(2 * n - r, n);
    } else if r < 3 * n {
        lemma_cosq_bounds(r - 2 * n, n);
    } else {
        lemma_cosq_bounds(4 * n - r, n);
    }
}

/// At frequency zero the basis value is exactly `FP`.
pub proof fn lemma_cos_zero(j: int, n: int)
    requires
        1 <= n,
        0 <= j,
    ensures
        spec_cos(0, j, n) == FP as int,
{
    let m = 0 * (2 * j + 1);
    assert(m == 0);
    lemma_small_mod(0, (4 * n) as nat);
    assert(m % (4 * n) == 0);
    let t = rdiv((205887 * 0) as int, 2 * n);
    assert(205887 * 0 == 0);
    assert(t == (2 * n) / (4 * n));
    lemma_basic_div(2 * n, 4 * n);
    assert(t == 0);
    assert(t * t == 0) by (nonlinear_arith)
        requires t == 0;
    lemma_div_of0(65536);
    let t2 = (t * t) / 65536;
    assert(t2 == 0);
    lemma_div_of0(90);
    let u4 = 65536 - t2 / 90;
    assert(u4 == 65536);
    assert(t2 * u4 == 0) by (nonlinear_arith)
        requires t2 == 0;
    lemma_div_of0(56);
    let u3 = 65536 - ((t2 * u4) / 65536) / 56;
    assert(u3 == 65536);
    assert(t2 * u3 == 0) by (nonlinear_arith)
        requires t2 == 0;
    lemma_div_of0(30);
    let u2 = 65536 - ((t2 * u3) / 65536) / 30;
    assert(u2 == 65536);
    assert(t2 * u2 == 0) by (nonlinear_arith)
        requires t2 == 0;
    lemma_div_of0(12);
    let u1 = 65536 - ((t2 * u2) / 65536) / 12;
    assert(u1 == 65536);
    assert(t2 * u1 == 0) by (nonlinear_arith)
        requires t2 == 0;
    lemma_div_of0(2);
    assert(spec_cosq(0, n) == 65536);
}

/// First-quadrant cosine evaluation; see `spec_cosq`.
fn cosq(rp: u64, n: u64) -> (res: i64)
    requires
        1 <= n <= 100,
        rp <= n,
    ensures
        res == spec_cosq(rp as int, n as int),
        in_abs(res as int, FP as int),
{
    proof {
        assert(205887 * rp <= 102944 * (2 * n) && 0 <= 205887 * rp) by (nonlinear_arith)
            requires rp <= n;
        lemma_rdiv_le(205887 * rp as int, 2 * n as int, 102944);
    }
    let t: u64 = div_round(PI_FP * rp, 2 * n);
    proof {
        assert(t * t <= 161706 * 65536) by (nonlinear_arith)
            requires 0 <= t <= 102944;
        lemma_div_mono(t as int * t as int, (161706 * 65536) as int, 65536);
        lemma_div_multiples_vanish(161706, 65536);
    }
    let t2: u64 = (t * t) / 65536;
    let u4: u64 = 65536 - t2 / 90;
    proof {
        assert(t2 * u4 <= t2 * 65536) by (nonlinear_arith)
            requires u4 <= 65536;
        lemma_div_mono(t2 as int * u4 as int, t2 as int * 65536, 65536);
        lemma_div_multiples_vanish(t2 as int, 65536);
        assert(t2 as int * 65536 == 65536 * t2 as int) by (nonlinear_arith);
        assert(t2 * 65536 <= 161706 * 65536) by (nonlinear_arith)
            requires t2 <= 161706;
    }
    let u3: u64 = 65536 - ((t2 * u4) / 65536) / 56;
    proof {
        assert(t2 * u3 <= t2 * 65536) by (nonlinear_arith)
            requires u3 <= 65536;
        lemma_div_mono(t2 as int * u3 as int, t2 as int * 65536, 65536);
    }
    let u2: u64 = 65536 - ((t2 * u3) / 65536) / 30;
    proof {
        assert(t2 * u2 <= t2 * 65536) by (nonlinear_arith)
            requires u2 <= 65536;
        lemma_div_mono(t2 as int * u2 as int, t2 as int * 65536, 65536);
    }
    let u1: u64 = 65536 - ((t2 * u2) / 65536) / 12;
    proof {
        assert(t2 * u1 <= t2 * 65536) by (nonlinear_arith)
            requires u1 <= 65536;
        lemma_div_mono(t2 as int * u1 as int, t2 as int * 65536, 65536);
    }
    let p1: u64 = ((t2 * u1) / 65536) / 2;
    65536i64 - (p1 as i64)
}

/// Fixed-point cosine of `pi * c * (j + 1/2) / n`; see `spec_cos`.
pub fn cos_fp(c: u64, j: u64, n: u64) -> (res: i64)
    requires
        1 <= n <= 100,
        c <= 7,
        j < n,
    ensures
        res == spec_cos(c as int, j as int, n as int),
        in_abs(res as int, FP as int),
{
    proof {
        assert(c * (2 * j + 1) <= 7 * 199) by (nonlinear_arith)
            requires c <= 7, j < 100;
    }
    let m: u64 = c * (2 * j + 1);
    proof {
        lemma_mod_bound(m as int, 4 * n as int);
    }
    let r: u64 = m % (4 * n);
    if r < n {
        cosq(r, n)
    } else if r < 2 * n {
        let res = cosq(2 * n - r, n);
        -res
    } else if r < 3 * n {
        let res = cosq(r - 2 * n, n);
        -res
    } else {
        cosq(4 * n - r, n)
    }
}

} // verus!
