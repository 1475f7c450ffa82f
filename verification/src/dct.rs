//! Forward transform of a channel plane into DC and AC coefficients.
//!
//! Each coefficient over the triangular scan is the basis-weighted sum of
//! the plane, divided by the pixel count; the AC list is normalized by its
//! maximum absolute value (the channel scale) and quantized to 4 bits.

use vstd::prelude::*;
use crate::fixed::FP;
use crate::fixed::in_abs;
use crate::fixed::div_floor;
use crate::fixed::tri_term;
use crate::fixed::lemma_div_in_range;
use crate::fixed::lemma_div_mono;
use crate::trig::spec_cos;
use crate::trig::cos_fp;
use crate::trig::lemma_cos_zero;
use crate::grid::tri_all;
use crate::grid::tri_from;
use crate::grid::lemma_tri_guard;
use crate::grid::lemma_tri_bounds;
use crate::grid::lemma_tri_len;
use crate::grid::lemma_tri_first;
use vstd::arithmetic::div_mod::lemma_fundamental_div_mod;
use vstd::arithmetic::div_mod::lemma_mod_bound;
use vstd::arithmetic::div_mod::lemma_div_pos_is_pos;

verus! {

/// Basis-weighted sum of the first `k` plane entries for frequency
/// `(cx, cy)`; entry `i` sits at pixel `(i % w, i / w)`.
pub open spec fn dct_sum(chs: Seq<int>, w: int, h: int, cx: int, cy: int, k: int) -> int
    decreases k,
{
    if k <= 0 {
        0
    } else {
        dct_sum(chs, w, h, cx, cy, k - 1)
            + chs[k - 1] * spec_cos(cx, (k - 1) % w, w) * spec_cos(cy, (k - 1) / w, h)
    }
}

/// The transform coefficient at frequency `(cx, cy)`, scaled to `FP`.
pub open spec fn coef(chs: Seq<int>, w: int, h: int, cx: int, cy: int) -> int {
    dct_sum(chs, w, h, cx, cy, w * h) / (w * h * 65536 * 65536)
}

/// The ordered AC coefficient list of a channel with grid `nx × ny`.
pub open spec fn acs(chs: Seq<int>, w: int, h: int, nx: int, ny: int) -> Seq<int> {
    tri_all(nx, ny).skip(1).map_values(|p: (int, int)| coef(chs, w, h, p.0, p.1))
}

/// Maximum absolute value of a sequence (zero when empty).
pub open spec fn max_abs(s: Seq<int>) -> int
    decreases s.len(),
{
    if s.len() == 0 {
        0
    } else {
        let m = max_abs(s.drop_last());
        let v = if s.last() < 0 { -s.last() } else { s.last() };
        if v > m {
            v
        } else {
            m
        }
    }
}

/// Quantize one normalized AC value to a 4-bit level.
pub open spec fn quant(v: int, scale: int) -> int {
    let t = if scale > 0 { (v * 65536) / scale } else { 0 };
    (15 * (65536 + t) + 65536) / ((2 * 65536) as int)
}

/// `max_abs` dominates every element and is nonnegative.
pub proof fn lemma_max_abs_ge(s: Seq<int>)
    ensures
        0 <= max_abs(s),
        forall|j: int| 0 <= j < s.len() ==> in_abs(#[trigger] s[j], max_abs(s)),
    decreases s.len(),
{
    if s.len() > 0 {
        lemma_max_abs_ge(s.drop_last());
        assert forall|j: int| 0 <= j < s.len() implies in_abs(#[trigger] s[j], max_abs(s)) by {
            if j < s.len() - 1 {
                assert(s.drop_last()[j] == s[j]);
            } else {
                assert(s[j] == s.last());
            }
        }
    }
}

/// Position of a flat pixel index inside a `w`-wide raster.
pub proof fn lemma_flat_index(k: int, w: int, h: int)
    requires
        1 <= w,
        0 <= k < w * h,
    ensures
        0 <= k % w < w,
        0 <= k / w < h,
{
    lemma_mod_bound(k, w);
    lemma_fundamental_div_mod(k, w);
    lemma_div_pos_is_pos(k, w);
    assert(k / w < h) by (nonlinear_arith)
        requires k == w * (k / w) + k % w, 0 <= k % w < w, k < w * h, 1 <= w;
}

/// A plane of nonnegative entries has a nonnegative DC coefficient.
pub proof fn lemma_dc_nonneg(chs: Seq<int>, w: int, h: int, k: int)
    requires
        1 <= w,
        1 <= h,
        0 <= k <= w * h,
        chs.len() >= w * h,
        forall|i: int| 0 <= i < chs.len() ==> 0 <= #[trigger] chs[i],
    ensures
        0 <= dct_sum(chs, w, h, 0, 0, k),
    decreases k,
{
    if k > 0 {
        lemma_dc_nonneg(chs, w, h, k - 1);
        lemma_flat_index(k - 1, w, h);
        lemma_cos_zero((k - 1) % w, w);
        lemma_cos_zero((k - 1) / w, h);
        assert(0 <= chs[k - 1] * 65536 * 65536) by (nonlinear_arith)
            requires 0 <= chs[k - 1];
    }
}

/// One transform coefficient of a plane whose entries are bounded by `FP`.
#[verifier::loop_isolation(false)]
pub fn compute_coef(
    ch: &Vec<i64>,
    Ghost(chs): Ghost<Seq<int>>,
    w: usize,
    h: usize,
    n: usize,
    cx: usize,
    cy: usize,
) -> (f: i64)
    requires
        1 <= w <= 100,
        1 <= h <= 100,
        n == w * h,
        1 <= n <= 10000,
        ch.len() == n,
        chs.len() == n,
        forall|i: int| 0 <= i < n ==> ch@[i] == #[trigger] chs[i] && in_abs(chs[i], 65536),
        cx <= 7,
        cy <= 7,
    ensures
        f == coef(chs, w as int, h as int, cx as int, cy as int),
        in_abs(f as int, 65536),
{
    let mut fxv: Vec<i64> = Vec::new();
    let mut x: usize = 0;
    while x < w
        invariant
            x <= w,
            fxv.len() == x,
            forall|j: int| 0 <= j < x ==> #[trigger] fxv@[j]
                == spec_cos(cx as int, j, w as int) && in_abs(fxv@[j] as int, 65536),
        decreases w - x,
    {
        let v: i64 = cos_fp(cx as u64, x as u64, w as u64);
        fxv.push(v);
        x = x + 1;
    }
    let mut fyv: Vec<i64> = Vec::new();
    let mut y: usize = 0;
    while y < h
        invariant
            y <= h,
            fyv.len() == y,
            forall|j: int| 0 <= j < y ==> #[trigger] fyv@[j]
                == spec_cos(cy as int, j, h as int) && in_abs(fyv@[j] as int, 65536),
        decreases h - y,
    {
        let v: i64 = cos_fp(cy as u64, y as u64, h as u64);
        fyv.push(v);
        y = y + 1;
    }
    let mut acc: i64 = 0;
    let mut k: usize = 0;
    while k < n
        invariant
            k <= n,
            acc == dct_sum(chs, w as int, h as int, cx as int, cy as int, k as int),
            in_abs(acc as int, k * 0x1_0000_0000_0000),
        decreases n - k,
    {
        proof {
            lemma_flat_index(k as int, w as int, h as int);
            assert(ch@[k as int] == chs[k as int] && in_abs(chs[k as int], 65536));
        }
        let xi: usize = k % w;
        let yi: usize = k / w;
        let t: i64 = tri_term(ch[k], fxv[xi], fyv[yi]);
        acc = acc + t;
        k = k + 1;
    }
    let d: i64 = (n as i64) * 65536 * 65536;
    proof {
        assert(65536 * ((n as int) * 65536 * 65536) == (n as int) * 0x1_0000_0000_0000)
            by (nonlinear_arith);
        lemma_div_in_range(acc as int, d as int, 65536);
    }
    div_floor(acc, d)
}

/// Transform one channel plane: DC term, AC scale and the quantized AC
/// levels, in scan order.
#[verifier::loop_isolation(false)]
pub fn encode_channel(
    ch: &Vec<i64>,
    Ghost(chs): Ghost<Seq<int>>,
    w: usize,
    h: usize,
    n: usize,
    nx: usize,
    ny: usize,
) -> (out: (i64, i64, Vec<u8>))
    requires
        1 <= w <= 100,
        1 <= h <= 100,
        n == w * h,
        1 <= n <= 10000,
        ch.len() == n,
        chs.len() == n,
        forall|i: int| 0 <= i < n ==> ch@[i] == #[trigger] chs[i] && in_abs(chs[i], 65536),
        1 <= nx <= 7,
        1 <= ny <= 7,
    ensures
        out.0 == coef(chs, w as int, h as int, 0, 0),
        in_abs(out.0 as int, 65536),
        out.1 == max_abs(acs(chs, w as int, h as int, nx as int, ny as int)),
        0 <= out.1 <= 65536,
        out.2.len() == acs(chs, w as int, h as int, nx as int, ny as int).len(),
        forall|j: int| 0 <= j < out.2.len() ==> #[trigger] out.2@[j] as int
            == quant(acs(chs, w as int, h as int, nx as int, ny as int)[j], out.1 as int)
            && out.2@[j] < 16,
{
    let wi = Ghost(w as int);
    let hi = Ghost(h as int);
    let nxi = Ghost(nx as int);
    let nyi = Ghost(ny as int);
    proof {
        lemma_tri_first(nxi@, nyi@);
        lemma_tri_bounds(nxi@, nyi@, 0, 0);
        lemma_tri_len(nxi@, nyi@, 0, 0);
    }
    let ghost whole: Seq<(int, int)> = tri_all(nxi@, nyi@);
    let mut dc: i64 = 0;
    let mut ac: Vec<i64> = Vec::new();
    let mut scale: i64 = 0;
    let ghost mut done: Seq<(int, int)> = Seq::empty();
    let mut cy: usize = 0;
    while cy < ny
        invariant
            cy <= ny,
            whole == done + tri_from(nxi@, nyi@, cy as int, 0),
            done.len() == 0 <==> (cy == 0),
            done.len() >= 1 ==> dc == coef(chs, wi@, hi@, 0, 0) && in_abs(dc as int, 65536),
            ac.len() == (if done.len() == 0 { 0int } else { done.len() - 1 }),
            forall|j: int| 0 <= j < ac.len() ==> #[trigger] ac@[j]
                == coef(chs, wi@, hi@, whole[j + 1].0, whole[j + 1].1)
                && in_abs(ac@[j] as int, 65536),
            scale == max_abs(acs(chs, wi@, hi@, nxi@, nyi@).take(ac.len() as int)),
            0 <= scale <= 65536,
        decreases ny - cy,
    {
        let mut cx: usize = 0;
        proof {
            assert((nx as int) * ((ny - cy) as int) <= 49) by (nonlinear_arith)
                requires nx <= 7, ny - cy <= 7, 0 <= ny as int - cy as int;
        }
        let row: usize = nx * (ny - cy);
        while cx * ny < row
            invariant
                cy < ny,
                cx <= nx,
                (cx as int) * (ny as int) <= 49,
                row == nx * (ny as int - cy as int),
                whole == done + tri_from(nxi@, nyi@, cy as int, cx as int),
                done.len() == 0 <==> (cy == 0 && cx == 0),
                done.len() >= 1 ==> dc == coef(chs, wi@, hi@, 0, 0)
                    && in_abs(dc as int, 65536),
                ac.len() == (if done.len() == 0 { 0int } else { done.len() - 1 }),
                forall|j: int| 0 <= j < ac.len() ==> #[trigger] ac@[j]
                    == coef(chs, wi@, hi@, whole[j + 1].0, whole[j + 1].1)
                    && in_abs(ac@[j] as int, 65536),
                scale == max_abs(acs(chs, wi@, hi@, nxi@, nyi@).take(ac.len() as int)),
                0 <= scale <= 65536,
            decreases nx - cx,
        {
            proof {
                lemma_tri_guard(nxi@, nyi@, cy as int, cx as int);
                assert(tri_from(nxi@, nyi@, cy as int, cx as int) ==
                    seq![(cx as int, cy as int)]
                        + tri_from(nxi@, nyi@, cy as int, cx as int + 1));
            }
            let f: i64 = compute_coef(ch, Ghost(chs), w, h, n, cx, cy);
            if cx == 0 && cy == 0 {
                dc = f;
                proof {
                    assert(whole[0] == (0int, 0int));
                }
            } else {
                proof {
                    assert(done.len() >= 1);
                    assert(whole[done.len() as int] == (cx as int, cy as int));
                    let aseq = acs(chs, wi@, hi@, nxi@, nyi@);
                    assert(aseq[ac.len() as int]
                        == coef(chs, wi@, hi@, whole[ac.len() + 1].0, whole[ac.len() + 1].1));
                    assert(aseq.take(ac.len() + 1).drop_last() =~= aseq.take(ac.len() as int));
                    assert(aseq.take(ac.len() + 1).last() == aseq[ac.len() as int]);
                }
                ac.push(f);
                let af: i64 = if f < 0 { -f } else { f };
                if af > scale {
                    scale = af;
                }
            }
            proof {
                let prev = done;
                done = done.push((cx as int, cy as int));
                assert(done =~= prev + seq![(cx as int, cy as int)]);
                assert(whole =~= done + tri_from(nxi@, nyi@, cy as int, cx as int + 1));
            }
            cx = cx + 1;
            proof {
                assert((cx as int) * (ny as int) <= 49) by (nonlinear_arith)
                    requires cx <= 7, ny <= 7, 0 <= cx, 0 <= ny;
            }
        }
        proof {
            assert(tri_from(nxi@, nyi@, cy as int, cx as int)
                == tri_from(nxi@, nyi@, cy as int + 1, 0));
            assert(cy == 0 ==> done.len() >= 1);
        }
        cy = cy + 1;
    }
    proof {
        assert(tri_from(nxi@, nyi@, ny as int, 0) =~= Seq::<(int, int)>::empty());
        assert(whole =~= done);
        assert(acs(chs, wi@, hi@, nxi@, nyi@).take(ac.len() as int)
            =~= acs(chs, wi@, hi@, nxi@, nyi@));
    }
    proof {
        lemma_max_abs_ge(acs(chs, wi@, hi@, nxi@, nyi@));
    }
    let nibs: Vec<u8> = quant_levels(&ac, scale,
        Ghost(acs(chs, wi@, hi@, nxi@, nyi@)));
    (dc, scale, nibs)
}

/// Quantize every AC value of a channel against its scale.
#[verifier::loop_isolation(false)]
fn quant_levels(ac: &Vec<i64>, scale: i64, Ghost(aseq): Ghost<Seq<int>>) -> (nibs: Vec<u8>)
    requires
        aseq.len() == ac.len(),
        forall|j: int| 0 <= j < ac.len() ==> ac@[j] == #[trigger] aseq[j]
            && in_abs(aseq[j], 65536),
        0 <= scale <= 65536,
        forall|j: int| 0 <= j < ac.len() ==> in_abs(#[trigger] aseq[j], scale as int),
    ensures
        nibs.len() == ac.len(),
        forall|j: int| 0 <= j < nibs.len() ==> #[trigger] nibs@[j] as int
            == quant(aseq[j], scale as int) && nibs@[j] < 16,
{
    let mut nibs: Vec<u8> = Vec::new();
    let mut j: usize = 0;
    while j < ac.len()
        invariant
            j <= ac.len(),
            nibs.len() == j,
            forall|k: int| 0 <= k < j ==> #[trigger] nibs@[k] as int
                == quant(aseq[k], scale as int) && nibs@[k] < 16,
        decreases ac.len() - j,
    {
        let v: i64 = ac[j];
        proof {
            assert(ac@[j as int] == aseq[j as int] && in_abs(aseq[j as int], scale as int));
        }
        let t: i64 = if scale > 0 {
            proof {
                assert(in_abs(v as int * 65536, 65536 * scale)) by (nonlinear_arith)
                    requires in_abs(v as int, scale as int), 0 < scale;
                lemma_div_in_range(v as int * 65536, scale as int, 65536);
            }
            div_floor(v * 65536, scale)
        } else {
            0
        };
        let num: u64 = (15 * (65536 + t) + 65536) as u64;
        proof {
            lemma_div_mono(num as int, (31 * 65536) as int, (2 * 65536) as int);
        }
        let u: u64 = num / (2 * 65536);
        nibs.push(u as u8);
        j = j + 1;
    }
    nibs
}


/// The basis-weighted sum over `k` entries is bounded by `k * FP^3`.
pub proof fn lemma_dct_sum_bound(chs: Seq<int>, w: int, h: int, cx: int, cy: int, k: int)
    requires
        1 <= w <= 100,
        1 <= h <= 100,
        0 <= k <= w * h,
        chs.len() >= w * h,
        0 <= cx,
        0 <= cy,
        forall|i: int| 0 <= i < chs.len() ==> in_abs(#[trigger] chs[i], 65536),
    ensures
        in_abs(dct_sum(chs, w, h, cx, cy, k), k * 0x1_0000_0000_0000),
    decreases k,
{
    if k > 0 {
        lemma_dct_sum_bound(chs, w, h, cx, cy, k - 1);
        lemma_flat_index(k - 1, w, h);
        crate::trig::lemma_cos_bounds(cx, (k - 1) % w, w);
        crate::trig::lemma_cos_bounds(cy, (k - 1) / w, h);
        let t1 = chs[k - 1] * spec_cos(cx, (k - 1) % w, w);
        assert(in_abs(t1, (65536 * 65536) as int)) by (nonlinear_arith)
            requires t1 == chs[k - 1] * spec_cos(cx, (k - 1) % w, w),
                in_abs(chs[k - 1], 65536),
                in_abs(spec_cos(cx, (k - 1) % w, w), 65536);
        assert(in_abs(t1 * spec_cos(cy, (k - 1) / w, h), 0x1_0000_0000_0000))
            by (nonlinear_arith)
            requires in_abs(t1, (65536 * 65536) as int),
                in_abs(spec_cos(cy, (k - 1) / w, h), 65536);
    }
}

/// Every transform coefficient of a unit-range plane is in `[-FP, FP]`.
pub proof fn lemma_coef_bound(chs: Seq<int>, w: int, h: int, cx: int, cy: int)
    requires
        1 <= w <= 100,
        1 <= h <= 100,
        chs.len() >= w * h,
        0 <= cx,
        0 <= cy,
        forall|i: int| 0 <= i < chs.len() ==> in_abs(#[trigger] chs[i], 65536),
    ensures
        in_abs(coef(chs, w, h, cx, cy), 65536),
{
    assert(1 <= w * h) by (nonlinear_arith)
        requires 1 <= w, 1 <= h;
    lemma_dct_sum_bound(chs, w, h, cx, cy, w * h);
    assert(65536 * (w * h * 65536 * 65536) == (w * h) * 0x1_0000_0000_0000)
        by (nonlinear_arith);
    assert(0 < w * h * 65536 * 65536) by (nonlinear_arith)
        requires 1 <= w * h;
    lemma_div_in_range(dct_sum(chs, w, h, cx, cy, w * h), w * h * 65536 * 65536, 65536);
}

/// `max_abs` of a sequence of bounded values is itself bounded.
pub proof fn lemma_max_abs_le(s: Seq<int>, b: int)
    requires
        0 <= b,
        forall|j: int| 0 <= j < s.len() ==> in_abs(#[trigger] s[j], b),
    ensures
        0 <= max_abs(s) <= b,
    decreases s.len(),
{
    if s.len() > 0 {
        assert(forall|j: int| 0 <= j < s.drop_last().len()
            ==> in_abs(#[trigger] s.drop_last()[j], b));
        lemma_max_abs_le(s.drop_last(), b);
        assert(in_abs(s.last(), b));
    }
}

/// The AC list of a unit-range plane is bounded by `FP`, and so is its
/// maximum absolute value.
pub proof fn lemma_acs_bound(chs: Seq<int>, w: int, h: int, nx: int, ny: int)
    requires
        1 <= w <= 100,
        1 <= h <= 100,
        chs.len() >= w * h,
        1 <= nx <= 7,
        1 <= ny <= 7,
        forall|i: int| 0 <= i < chs.len() ==> in_abs(#[trigger] chs[i], 65536),
    ensures
        forall|j: int| 0 <= j < acs(chs, w, h, nx, ny).len()
            ==> in_abs(#[trigger] acs(chs, w, h, nx, ny)[j], 65536),
        0 <= max_abs(acs(chs, w, h, nx, ny)) <= 65536,
{
    lemma_tri_bounds(nx, ny, 0, 0);
    let a = acs(chs, w, h, nx, ny);
    lemma_tri_first(nx, ny);
    assert forall|j: int| 0 <= j < a.len()
        implies in_abs(#[trigger] a[j], 65536) by {
        let p = tri_all(nx, ny).skip(1)[j];
        assert(tri_all(nx, ny).skip(1) == tri_from(nx, ny, 0, 1));
        assert(p == tri_from(nx, ny, 0, 1)[j]);
        lemma_coef_bound(chs, w, h, p.0, p.1);
    }
    lemma_max_abs_le(a, 65536);
}

} // verus!
