//! From RGBA pixels to the four fixed-point channel planes.
//!
//! The encoder first takes the alpha-weighted average color, then composites
//! every pixel atop that average using its own alpha, and finally projects
//! the composited color into luminance (L), yellow−blue (P), red−green (Q)
//! and alpha (A) planes, each value scaled by `FP`.

use vstd::prelude::*;
use crate::fixed::FP;
use crate::fixed::rdiv;
use crate::fixed::in_abs;
use crate::fixed::div_round;
use crate::fixed::lemma_rdiv_le;
use crate::fixed::lemma_div_mono;
use vstd::arithmetic::div_mod::lemma_div_multiples_vanish;
use vstd::arithmetic::div_mod::lemma_div_pos_is_pos;

verus! {

/// Channel `c` (0=R, 1=G, 2=B, 3=A) of pixel `i` as an integer in [0, 255].
pub open spec fn px(rgba: Seq<u8>, i: int, c: int) -> int {
    rgba[4 * i + c] as int
}

/// Sum of the alpha bytes of the first `k` pixels.
pub open spec fn sum_alpha(rgba: Seq<u8>, k: int) -> int
    decreases k,
{
    if k <= 0 {
        0
    } else {
        sum_alpha(rgba, k - 1) + px(rgba, k - 1, 3)
    }
}

/// Alpha-weighted sum of channel `c` over the first `k` pixels.
pub open spec fn sum_weighted(rgba: Seq<u8>, c: int, k: int) -> int
    decreases k,
{
    if k <= 0 {
        0
    } else {
        sum_weighted(rgba, c, k - 1) + px(rgba, k - 1, 3) * px(rgba, k - 1, c)
    }
}

/// The alpha-weighted average of channel `c`, scaled to [0, FP]; zero when
/// the image is fully transparent.
pub open spec fn spec_avg(rgba: Seq<u8>, c: int, n: int) -> int {
    if sum_alpha(rgba, n) > 0 {
        rdiv(sum_weighted(rgba, c, n) * 65536, 255 * sum_alpha(rgba, n))
    } else {
        0
    }
}

/// The image has any non-opaque pixel exactly when the alpha total falls
/// short of the fully opaque total.
pub open spec fn spec_has_alpha(rgba: Seq<u8>, n: int) -> bool {
    sum_alpha(rgba, n) < 255 * n
}

/// Alpha of pixel `i` scaled to [0, FP].
pub open spec fn spec_alpha_fp(rgba: Seq<u8>, i: int) -> int {
    rdiv(px(rgba, i, 3) * 65536, 255)
}

/// Channel `c` of pixel `i` composited atop the average color, in [0, FP].
pub open spec fn spec_comp(rgba: Seq<u8>, n: int, i: int, c: int) -> int {
    let al = spec_alpha_fp(rgba, i);
    (spec_avg(rgba, c, n) * (65536 - al)) / 65536 + (al * px(rgba, i, c)) / 255
}

/// Luminance of pixel `i`, in [0, FP].
pub open spec fn spec_l(rgba: Seq<u8>, n: int, i: int) -> int {
    (spec_comp(rgba, n, i, 0) + spec_comp(rgba, n, i, 1) + spec_comp(rgba, n, i, 2)) / 3
}

/// Yellow−blue of pixel `i`, in [-FP, FP].
pub open spec fn spec_p(rgba: Seq<u8>, n: int, i: int) -> int {
    (spec_comp(rgba, n, i, 0) + spec_comp(rgba, n, i, 1)) / 2 - spec_comp(rgba, n, i, 2)
}

/// Red−green of pixel `i`, in [-FP, FP].
pub open spec fn spec_q(rgba: Seq<u8>, n: int, i: int) -> int {
    spec_comp(rgba, n, i, 0) - spec_comp(rgba, n, i, 1)
}

/// The weighted sums are nonnegative and bounded by the alpha total.
pub proof fn lemma_sum_bounds(rgba: Seq<u8>, c: int, k: int)
    requires
        0 <= k,
        rgba.len() >= 4 * k,
        0 <= c < 4,
    ensures
        0 <= sum_alpha(rgba, k) <= 255 * k,
        0 <= sum_weighted(rgba, c, k) <= 255 * sum_alpha(rgba, k),
    decreases k,
{
    if k > 0 {
        lemma_sum_bounds(rgba, c, k - 1);
        assert(0 <= px(rgba, k - 1, 3) * px(rgba, k - 1, c)
            <= 255 * px(rgba, k - 1, 3)) by (nonlinear_arith)
            requires 0 <= px(rgba, k - 1, 3) <= 255, 0 <= px(rgba, k - 1, c) <= 255;
        assert(255 * sum_alpha(rgba, k - 1) + 255 * px(rgba, k - 1, 3)
            == 255 * sum_alpha(rgba, k)) by (nonlinear_arith)
            requires sum_alpha(rgba, k) == sum_alpha(rgba, k - 1) + px(rgba, k - 1, 3);
        assert(255 * (k - 1) + 255 == 255 * k) by (nonlinear_arith);
    }
}

/// The average of any channel lies in [0, FP].
pub proof fn lemma_avg_range(rgba: Seq<u8>, c: int, n: int)
    requires
        0 <= n,
        rgba.len() >= 4 * n,
        0 <= c < 4,
    ensures
        0 <= spec_avg(rgba, c, n) <= 65536,
{
    lemma_sum_bounds(rgba, c, n);
    if sum_alpha(rgba, n) > 0 {
        let sw = sum_weighted(rgba, c, n);
        let sa = sum_alpha(rgba, n);
        assert(sw * 65536 <= 65536 * (255 * sa) && 0 <= sw * 65536) by (nonlinear_arith)
            requires 0 <= sw <= 255 * sa;
        lemma_rdiv_le(sw * 65536, 255 * sa, 65536);
    }
}

/// Alpha total of the first `n` pixels.
#[verifier::loop_isolation(false)]
pub fn alpha_total(rgba: &[u8], n: usize) -> (s: u64)
    requires
        n <= 10000,
        rgba.len() == 4 * n,
    ensures
        s == sum_alpha(rgba@, n as int),
        s <= 255 * n,
{
    let mut s: u64 = 0;
    let mut k: usize = 0;
    while k < n
        invariant
            k <= n,
            s == sum_alpha(rgba@, k as int),
            s <= 255 * k,
        decreases n - k,
    {
        s = s + rgba[4 * k + 3] as u64;
        k = k + 1;
    }
    s
}

/// Alpha-weighted total of channel `c` over the first `n` pixels.
#[verifier::loop_isolation(false)]
fn weighted_total(rgba: &[u8], n: usize, c: usize) -> (s: u64)
    requires
        n <= 10000,
        rgba.len() == 4 * n,
        c < 4,
    ensures
        s == sum_weighted(rgba@, c as int, n as int),
        s <= 65025 * n,
{
    let mut s: u64 = 0;
    let mut k: usize = 0;
    while k < n
        invariant
            k <= n,
            s == sum_weighted(rgba@, c as int, k as int),
            s <= 65025 * k,
        decreases n - k,
    {
        proof {
            assert(px(rgba@, k as int, 3) * px(rgba@, k as int, c as int) <= 65025
                && 0 <= px(rgba@, k as int, 3) * px(rgba@, k as int, c as int))
                by (nonlinear_arith)
                requires 0 <= px(rgba@, k as int, 3) <= 255,
                    0 <= px(rgba@, k as int, c as int) <= 255;
        }
        let t: u64 = (rgba[4 * k + 3] as u64) * (rgba[4 * k + c] as u64);
        s = s + t;
        k = k + 1;
    }
    s
}

/// The alpha-weighted average of channel `c`, scaled to [0, FP].
pub fn avg_channel(rgba: &[u8], n: usize, c: usize) -> (a: i64)
    requires
        n <= 10000,
        rgba.len() == 4 * n,
        c < 4,
    ensures
        a == spec_avg(rgba@, c as int, n as int),
        0 <= a <= 65536,
{
    proof {
        lemma_sum_bounds(rgba@, c as int, n as int);
        lemma_avg_range(rgba@, c as int, n as int);
    }
    let sa: u64 = alpha_total(rgba, n);
    if sa > 0 {
        let sw: u64 = weighted_total(rgba, n, c);
        let a: u64 = div_round(sw * 65536, 255 * sa);
        a as i64
    } else {
        0
    }
}

/// Composite one channel byte atop the average using the pixel's alpha.
fn comp_channel(avg: i64, al: u64, c8: u8, Ghost(sv): Ghost<int>) -> (r: i64)
    requires
        0 <= avg <= 65536,
        al <= 65536,
        sv == (avg * (65536 - al)) / 65536 + (al * c8) / 255,
    ensures
        r == sv,
        0 <= r <= 65536 - al + (al * c8) / 255,
        0 <= r <= 65536,
{
    proof {
        assert(avg * (65536 - al) <= 65536 * (65536 - al) && 0 <= avg * (65536 - al))
            by (nonlinear_arith)
            requires 0 <= avg <= 65536, al <= 65536;
        lemma_div_mono(avg * (65536 - al), 65536 * (65536 - al), 65536);
        lemma_div_multiples_vanish(65536 - al as int, 65536);
        assert(65536 * (65536 - al) == (65536 - al) * 65536) by (nonlinear_arith);
        assert(al * c8 <= al * 255 && 0 <= al * c8) by (nonlinear_arith)
            requires c8 <= 255, al >= 0;
        lemma_div_mono(al as int * c8 as int, al as int * 255, 255);
        lemma_div_multiples_vanish(al as int, 255);
        assert(al as int * 255 == 255 * al as int) by (nonlinear_arith);
    }
    let t1: u64 = ((avg as u64) * (65536 - al)) / 65536;
    let t2: u64 = (al * (c8 as u64)) / 255;
    proof {
        assert(t1 <= 65536 - al);
        assert(t2 <= al);
    }
    (t1 + t2) as i64
}

/// Build the L, P, Q and A planes of the image, each entry in fixed point.
#[verifier::loop_isolation(false)]
pub fn lpqa_planes(rgba: &[u8], n: usize) -> (planes: (Vec<i64>, Vec<i64>, Vec<i64>, Vec<i64>))
    requires
        1 <= n <= 10000,
        rgba.len() == 4 * n,
    ensures
        planes.0.len() == n && planes.1.len() == n && planes.2.len() == n
            && planes.3.len() == n,
        forall|i: int| 0 <= i < n ==> {
            &&& #[trigger] planes.0@[i] == spec_l(rgba@, n as int, i)
            &&& planes.1@[i] == spec_p(rgba@, n as int, i)
            &&& planes.2@[i] == spec_q(rgba@, n as int, i)
            &&& planes.3@[i] == spec_alpha_fp(rgba@, i)
            &&& 0 <= planes.0@[i] <= 65536
            &&& in_abs(planes.1@[i] as int, 65536)
            &&& in_abs(planes.2@[i] as int, 65536)
            &&& 0 <= planes.3@[i] <= 65536
        },
{
    let avg_r: i64 = avg_channel(rgba, n, 0);
    let avg_g: i64 = avg_channel(rgba, n, 1);
    let avg_b: i64 = avg_channel(rgba, n, 2);
    let mut lv: Vec<i64> = Vec::new();
    let mut pv: Vec<i64> = Vec::new();
    let mut qv: Vec<i64> = Vec::new();
    let mut av: Vec<i64> = Vec::new();
    let mut i: usize = 0;
    while i < n
        invariant
            i <= n,
            lv.len() == i && pv.len() == i && qv.len() == i && av.len() == i,
            forall|j: int| 0 <= j < i ==> {
                &&& #[trigger] lv@[j] == spec_l(rgba@, n as int, j)
                &&& pv@[j] == spec_p(rgba@, n as int, j)
                &&& qv@[j] == spec_q(rgba@, n as int, j)
                &&& av@[j] == spec_alpha_fp(rgba@, j)
                &&& 0 <= lv@[j] <= 65536
                &&& in_abs(pv@[j] as int, 65536)
                &&& in_abs(qv@[j] as int, 65536)
                &&& 0 <= av@[j] <= 65536
            },
        decreases n - i,
    {
        let a8: u8 = rgba[4 * i + 3];
        proof {
            assert(a8 as int * 65536 <= 65536 * 255 && 0 <= a8 as int * 65536)
                by (nonlinear_arith)
                requires a8 <= 255;
            lemma_rdiv_le(a8 as int * 65536, 255, 65536);
        }
        let al: u64 = div_round((a8 as u64) * 65536, 255);
        let r: i64 = comp_channel(avg_r, al, rgba[4 * i],
            Ghost(spec_comp(rgba@, n as int, i as int, 0)));
        let g: i64 = comp_channel(avg_g, al, rgba[4 * i + 1],
            Ghost(spec_comp(rgba@, n as int, i as int, 1)));
        let b: i64 = comp_channel(avg_b, al, rgba[4 * i + 2],
            Ghost(spec_comp(rgba@, n as int, i as int, 2)));
        let lsum: u64 = (r + g + b) as u64;
        proof {
            lemma_div_mono(lsum as int, (3 * 65536) as int, 3);
            lemma_div_multiples_vanish(65536, 3);
            lemma_div_pos_is_pos(lsum as int, 3);
        }
        let l: i64 = ((lsum / 3) as i64);
        let phalf: u64 = ((r + g) as u64) / 2;
        proof {
            lemma_div_mono((r + g) as int, (2 * 65536) as int, 2);
            lemma_div_multiples_vanish(65536, 2);
            lemma_div_pos_is_pos((r + g) as int, 2);
        }
        let p: i64 = (phalf as i64) - b;
        let q: i64 = r - g;
        lv.push(l);
        pv.push(p);
        qv.push(q);
        av.push(al as i64);
        proof {
            assert(lv@[i as int] == spec_l(rgba@, n as int, i as int));
            assert(pv@[i as int] == spec_p(rgba@, n as int, i as int));
            assert(qv@[i as int] == spec_q(rgba@, n as int, i as int));
            assert(av@[i as int] == spec_alpha_fp(rgba@, i as int));
        }
        i = i + 1;
    }
    (lv, pv, qv, av)
}


/// Every plane value lies in the fixed-point unit range: luminance and
/// alpha in [0, FP], the two chroma planes in [-FP, FP].
pub proof fn lemma_plane_ranges(rgba: Seq<u8>, n: int, i: int)
    requires
        1 <= n,
        rgba.len() == 4 * n,
        0 <= i < n,
    ensures
        0 <= spec_l(rgba, n, i) <= 65536,
        in_abs(spec_p(rgba, n, i), 65536),
        in_abs(spec_q(rgba, n, i), 65536),
        0 <= spec_alpha_fp(rgba, i) <= 65536,
{
    let al = spec_alpha_fp(rgba, i);
    assert(px(rgba, i, 3) * 65536 <= 255 * 65536 && 0 <= px(rgba, i, 3) * 65536)
        by (nonlinear_arith)
        requires 0 <= px(rgba, i, 3) <= 255;
    lemma_rdiv_le(px(rgba, i, 3) * 65536, 255, 65536);
    assert forall|c: int| 0 <= c < 3 implies
        0 <= #[trigger] spec_comp(rgba, n, i, c) <= 65536 by {
        lemma_avg_range(rgba, c, n);
        let avg = spec_avg(rgba, c, n);
        assert(avg * (65536 - al) <= 65536 * (65536 - al) && 0 <= avg * (65536 - al))
            by (nonlinear_arith)
            requires 0 <= avg <= 65536, al <= 65536;
        lemma_div_mono(avg * (65536 - al), 65536 * (65536 - al), 65536);
        lemma_div_multiples_vanish(65536 - al, 65536);
        assert(65536 * (65536 - al) == (65536 - al) * 65536) by (nonlinear_arith);
        lemma_div_pos_is_pos(avg * (65536 - al), 65536);
        assert(al * px(rgba, i, c) <= al * 255 && 0 <= al * px(rgba, i, c))
            by (nonlinear_arith)
            requires 0 <= px(rgba, i, c) <= 255, 0 <= al;
        lemma_div_mono(al * px(rgba, i, c), al * 255, 255);
        lemma_div_multiples_vanish(al, 255);
        assert(al * 255 == 255 * al) by (nonlinear_arith);
        lemma_div_pos_is_pos(al * px(rgba, i, c), 255);
    }
    let c0 = spec_comp(rgba, n, i, 0);
    let c1 = spec_comp(rgba, n, i, 1);
    let c2 = spec_comp(rgba, n, i, 2);
    lemma_div_mono(c0 + c1 + c2, (3 * 65536) as int, 3);
    lemma_div_multiples_vanish(65536, 3);
    lemma_div_pos_is_pos(c0 + c1 + c2, 3);
    lemma_div_mono(c0 + c1, (2 * 65536) as int, 2);
    lemma_div_multiples_vanish(65536, 2);
    lemma_div_pos_is_pos(c0 + c1, 2);
}

} // verus!
