//! The decoder: hash bytes back to an RGBA raster, plus the two cheap
//! header-only probes for average color and aspect ratio.
//!
//! Every decode-family function fails exactly when the hash is too short:
//! fewer than five bytes, fewer than six when the alpha flag is set, or —
//! for the full decode — fewer than the header plus all packed AC bytes.

use vstd::prelude::*;
use crate::fixed::in_abs;
use crate::fixed::rdiv;
use crate::fixed::div_floor;
use crate::fixed::div_round;
use crate::fixed::lemma_rdiv_le;
use crate::fixed::lemma_div_in_range;
use crate::fixed::lemma_div_mono;
use crate::trig::spec_cos;
use crate::trig::cos_fp;
use crate::grid::tri_all;
use crate::grid::tri_from;
use crate::grid::tri_count;
use crate::grid::lemma_tri_guard;
use crate::grid::lemma_tri_bounds;
use crate::grid::lemma_tri_first;
use crate::header::spec_max;
use vstd::arithmetic::div_mod::lemma_mod_bound;
use vstd::arithmetic::div_mod::lemma_div_pos_is_pos;

verus! {

/// The 24-bit header word of a hash (first three bytes, little-endian).
pub open spec fn hdr24(s: Seq<u8>) -> int {
    s[0] as int + 256 * s[1] as int + 65536 * s[2] as int
}

/// The 16-bit header word of a hash (bytes three and four).
pub open spec fn hdr16(s: Seq<u8>) -> int {
    s[3] as int + 256 * s[4] as int
}

/// Quantized luminance DC (6 bits).
pub open spec fn d_l6(s: Seq<u8>) -> int {
    hdr24(s) % 64
}

/// Quantized yellow−blue DC (6 bits).
pub open spec fn d_p6(s: Seq<u8>) -> int {
    (hdr24(s) / 64) % 64
}

/// Quantized red−green DC (6 bits).
pub open spec fn d_q6(s: Seq<u8>) -> int {
    (hdr24(s) / 4096) % 64
}

/// Quantized luminance AC scale (5 bits).
pub open spec fn d_s5(s: Seq<u8>) -> int {
    (hdr24(s) / 262144) % 32
}

/// The alpha-present flag.
pub open spec fn d_alpha(s: Seq<u8>) -> bool {
    hdr24(s) / 8388608 != 0
}

/// The stored 3-bit grid limit of the short side.
pub open spec fn d_lval(s: Seq<u8>) -> int {
    hdr16(s) % 8
}

/// Quantized yellow−blue AC scale (6 bits).
pub open spec fn d_ps6(s: Seq<u8>) -> int {
    (hdr16(s) / 8) % 64
}

/// Quantized red−green AC scale (6 bits).
pub open spec fn d_qs6(s: Seq<u8>) -> int {
    (hdr16(s) / 512) % 64
}

/// The orientation flag.
pub open spec fn d_land(s: Seq<u8>) -> bool {
    hdr16(s) / 32768 != 0
}

/// The luminance budget of the long side, as implied by the alpha flag.
pub open spec fn d_lmax(s: Seq<u8>) -> int {
    if d_alpha(s) {
        5
    } else {
        7
    }
}

/// The horizontal grid count read from the header (unclamped).
pub open spec fn d_lx(s: Seq<u8>) -> int {
    if d_land(s) {
        d_lmax(s)
    } else {
        d_lval(s)
    }
}

/// The vertical grid count read from the header (unclamped).
pub open spec fn d_ly(s: Seq<u8>) -> int {
    if d_land(s) {
        d_lval(s)
    } else {
        d_lmax(s)
    }
}

/// The luminance grid width used for reading AC terms (clamped to >= 3).
pub open spec fn d_gx(s: Seq<u8>) -> int {
    spec_max(3, d_lx(s))
}

/// The luminance grid height used for reading AC terms (clamped to >= 3).
pub open spec fn d_gy(s: Seq<u8>) -> int {
    spec_max(3, d_ly(s))
}

/// First byte that holds AC levels.
pub open spec fn d_base(s: Seq<u8>) -> int {
    if d_alpha(s) {
        6
    } else {
        5
    }
}

/// Count of luminance AC levels demanded by the header.
pub open spec fn d_nl(s: Seq<u8>) -> int {
    tri_all(d_gx(s), d_gy(s)).len() - 1
}

/// Count of all AC levels demanded by the header.
pub open spec fn d_total(s: Seq<u8>) -> int {
    d_nl(s) + 2 * (tri_all(3, 3).len() - 1)
        + if d_alpha(s) { tri_all(5, 5).len() - 1 } else { 0 }
}

/// The byte count the hash must reach for a full decode.
pub open spec fn d_needed(s: Seq<u8>) -> int {
    d_base(s) + (d_total(s) + 1) / 2
}

/// The `j`-th AC level of the nibble stream.
pub open spec fn d_nib(s: Seq<u8>, j: int) -> int {
    if j % 2 == 0 {
        s[d_base(s) + j / 2] as int % 16
    } else {
        s[d_base(s) + j / 2] as int / 16
    }
}

/// Dequantized luminance DC, in fixed point.
pub open spec fn dq_ldc(s: Seq<u8>) -> int {
    rdiv(d_l6(s) * 65536, 63)
}

/// Dequantized yellow−blue DC, in fixed point.
pub open spec fn dq_pdc(s: Seq<u8>) -> int {
    ((2 * d_p6(s) - 63) * 65536) / 63
}

/// Dequantized red−green DC, in fixed point.
pub open spec fn dq_qdc(s: Seq<u8>) -> int {
    ((2 * d_q6(s) - 63) * 65536) / 63
}

/// Dequantized luminance AC scale, in fixed point.
pub open spec fn dq_lscale(s: Seq<u8>) -> int {
    (d_s5(s) * 65536) / 31
}

/// Dequantized yellow−blue AC scale, boosted by 5/4 to compensate the
/// saturation lost to 4-bit quantization.
pub open spec fn dq_pscale(s: Seq<u8>) -> int {
    (((d_ps6(s) * 65536) / 63) * 5) / 4
}

/// Dequantized red−green AC scale, boosted by 5/4.
pub open spec fn dq_qscale(s: Seq<u8>) -> int {
    (((d_qs6(s) * 65536) / 63) * 5) / 4
}

/// Dequantized alpha DC (1 when no alpha channel is present).
pub open spec fn dq_adc(s: Seq<u8>) -> int {
    if d_alpha(s) {
        ((s[5] as int % 16) * 65536) / 15
    } else {
        65536
    }
}

/// Dequantized alpha AC scale (1 when no alpha channel is present).
pub open spec fn dq_ascale(s: Seq<u8>) -> int {
    if d_alpha(s) {
        ((s[5] as int / 16) * 65536) / 15
    } else {
        65536
    }
}

/// One dequantized AC value: the 4-bit level mapped to `[-scale, scale]`.
pub open spec fn dq_ac(nv: int, scale: int) -> int {
    ((2 * nv - 15) * scale) / 15
}

/// The luminance AC values of a hash, in scan order.
pub open spec fn d_acl(s: Seq<u8>) -> Seq<int> {
    Seq::new(d_nl(s) as nat, |j: int| dq_ac(d_nib(s, j), dq_lscale(s)))
}

/// The yellow−blue AC values of a hash.
pub open spec fn d_acp(s: Seq<u8>) -> Seq<int> {
    Seq::new((tri_all(3, 3).len() - 1) as nat,
        |j: int| dq_ac(d_nib(s, d_nl(s) + j), dq_pscale(s)))
}

/// The red−green AC values of a hash.
pub open spec fn d_acq(s: Seq<u8>) -> Seq<int> {
    Seq::new((tri_all(3, 3).len() - 1) as nat,
        |j: int| dq_ac(d_nib(s, d_nl(s) + (tri_all(3, 3).len() - 1) + j), dq_qscale(s)))
}

/// The alpha AC values of a hash.
pub open spec fn d_aca(s: Seq<u8>) -> Seq<int> {
    Seq::new((tri_all(5, 5).len() - 1) as nat,
        |j: int| dq_ac(d_nib(s, d_nl(s) + 2 * (tri_all(3, 3).len() - 1) + j), dq_ascale(s)))
}

/// Output width: the long side is fixed at 32 pixels, the short side is
/// scaled by the header's aspect ratio.
pub open spec fn d_outw(s: Seq<u8>) -> int {
    if d_lx(s) > d_ly(s) {
        32
    } else {
        rdiv(32 * d_lx(s), d_ly(s))
    }
}

/// Output height; see `d_outw`.
pub open spec fn d_outh(s: Seq<u8>) -> int {
    if d_lx(s) > d_ly(s) {
        rdiv(32 * d_ly(s), d_lx(s))
    } else {
        32
    }
}

/// Weighted basis sum of the first `k` AC terms at output pixel `(x, y)`.
pub open spec fn idct_sum(
    ac: Seq<int>, nx: int, ny: int, x: int, y: int, w: int, h: int, k: int) -> int
    decreases k,
{
    if k <= 0 {
        0
    } else {
        idct_sum(ac, nx, ny, x, y, w, h, k - 1)
            + 2 * ac[k - 1]
                * spec_cos(tri_all(nx, ny).skip(1)[k - 1].0, x, w)
                * spec_cos(tri_all(nx, ny).skip(1)[k - 1].1, y, h)
    }
}

/// A reconstructed channel value at one output pixel, in fixed point.
pub open spec fn pix_val(
    dc: int, ac: Seq<int>, nx: int, ny: int, x: int, y: int, w: int, h: int) -> int {
    (dc * 65536 * 65536 + idct_sum(ac, nx, ny, x, y, w, h, ac.len() as int))
        / ((65536 * 65536) as int)
}

/// Clamp a value over denominator `6 * FP` to an 8-bit channel.
pub open spec fn byte6(n: int) -> u8 {
    if n <= 0 {
        0
    } else if n >= 6 * 65536 {
        255
    } else {
        ((n * 255) / ((6 * 65536) as int)) as u8
    }
}

/// Clamp a value over denominator `FP` to an 8-bit channel.
pub open spec fn byte1(n: int) -> u8 {
    if n <= 0 {
        0
    } else if n >= 65536 {
        255
    } else {
        ((n * 255) / 65536) as u8
    }
}

/// The four RGBA bytes of output pixel `(x, y)`.
#[verifier::opaque]
pub open spec fn spec_px(s: Seq<u8>, x: int, y: int) -> Seq<u8> {
    let w = d_outw(s);
    let h = d_outh(s);
    let l = pix_val(dq_ldc(s), d_acl(s), d_gx(s), d_gy(s), x, y, w, h);
    let p = pix_val(dq_pdc(s), d_acp(s), 3, 3, x, y, w, h);
    let q = pix_val(dq_qdc(s), d_acq(s), 3, 3, x, y, w, h);
    let a = if d_alpha(s) {
        pix_val(dq_adc(s), d_aca(s), 5, 5, x, y, w, h)
    } else {
        65536
    };
    seq![
        byte6(6 * l + 2 * p + 3 * q),
        byte6(6 * l + 2 * p - 3 * q),
        byte6(6 * l - 4 * p),
        byte1(a),
    ]
}

/// The first `k` output pixels, flattened row-major into bytes.
#[verifier::opaque]
pub open spec fn spec_render(s: Seq<u8>, k: int) -> Seq<u8>
    decreases k,
{
    if k <= 0 {
        Seq::empty()
    } else {
        spec_render(s, k - 1)
            + spec_px(s, (k - 1) % d_outw(s), (k - 1) / d_outw(s))
    }
}


/// Dequantize one AC level against a channel scale.
fn dq_ac_exec(nv: u8, scale: i64) -> (v: i64)
    requires
        nv < 16,
        0 <= scale <= 131072,
    ensures
        v == dq_ac(nv as int, scale as int),
        in_abs(v as int, scale as int),
{
    proof {
        assert(in_abs((2 * nv as int - 15) * scale, 15 * scale)) by (nonlinear_arith)
            requires -15 <= 2 * nv as int - 15 <= 15, 0 <= scale;
        lemma_div_in_range((2 * nv as int - 15) * scale, 15, scale as int);
    }
    div_floor((2 * (nv as i64) - 15) * scale, 15)
}

/// Clamp a channel value over denominator `6 * FP` to a byte.
fn to_byte6(n: i64) -> (b: u8)
    requires
        in_abs(n as int, 0x1000_0000),
    ensures
        b == byte6(n as int),
{
    if n <= 0 {
        0
    } else if n >= 6 * 65536 {
        255
    } else {
        proof {
            lemma_div_mono(n as int * 255, (6 * 65536 - 1) * 255, (6 * 65536) as int);
            lemma_div_pos_is_pos(n as int * 255, (6 * 65536) as int);
        }
        (((n as u64) * 255) / (6 * 65536)) as u8
    }
}

/// Clamp a channel value over denominator `FP` to a byte.
fn to_byte1(n: i64) -> (b: u8)
    requires
        in_abs(n as int, 0x1000_0000),
    ensures
        b == byte1(n as int),
{
    if n <= 0 {
        0
    } else if n >= 65536 {
        255
    } else {
        proof {
            lemma_div_mono(n as int * 255, (65535 * 255) as int, 65536);
            lemma_div_pos_is_pos(n as int * 255, 65536);
        }
        (((n as u64) * 255) / 65536) as u8
    }
}

/// Evaluate one channel's inverse transform at an output pixel.
#[verifier::loop_isolation(false)]
#[verifier::rlimit(100)]
fn idct_at(
    dc: i64,
    ac: &Vec<i64>,
    Ghost(aseq): Ghost<Seq<int>>,
    nx: usize,
    ny: usize,
    x: usize,
    y: usize,
    w: usize,
    h: usize,
) -> (v: i64)
    requires
        1 <= nx <= 7,
        1 <= ny <= 7,
        aseq.len() == ac.len(),
        ac.len() == tri_all(nx as int, ny as int).len() - 1,
        ac.len() <= 60,
        forall|j: int| 0 <= j < ac.len() ==> ac@[j] == #[trigger] aseq[j]
            && in_abs(aseq[j], 131072),
        in_abs(dc as int, 65536),
        x < w <= 32,
        y < h <= 32,
    ensures
        v == pix_val(dc as int, aseq, nx as int, ny as int,
            x as int, y as int, w as int, h as int),
        in_abs(v as int, 16842752),
{
    let nxi = Ghost(nx as int);
    let nyi = Ghost(ny as int);
    let ghost pairs: Seq<(int, int)> = tri_all(nxi@, nyi@).skip(1);
    proof {
        lemma_tri_first(nxi@, nyi@);
        lemma_tri_bounds(nxi@, nyi@, 0, 1);
        assert(pairs.skip(0) =~= pairs);
    }
    let mut acc: i64 = dc * 65536 * 65536;
    let mut j: usize = 0;
    let mut cy: usize = 0;
    while cy < ny
        invariant
            cy <= ny,
            j <= ac.len(),
            pairs.skip(j as int)
                == tri_from(nxi@, nyi@, cy as int, if cy == 0 { 1int } else { 0 }),
            acc == dc * 65536 * 65536 + idct_sum(aseq, nxi@, nyi@,
                x as int, y as int, w as int, h as int, j as int),
            in_abs(acc as int, (1 + 4 * j) * 0x1_0000_0000_0000),
        decreases ny - cy,
    {
        let mut cx: usize = if cy == 0 { 1 } else { 0 };
        proof {
            assert((nx as int) * ((ny - cy) as int) <= 49) by (nonlinear_arith)
                requires nx <= 7, ny - cy <= 7, 0 <= ny as int - cy as int;
            assert((cx as int) * (ny as int) <= 49) by (nonlinear_arith)
                requires cx <= 7, ny <= 7, 0 <= cx, 0 <= ny;
        }
        let row: usize = nx * (ny - cy);
        while cx * ny < row
            invariant
                cy < ny,
                cx <= nx,
                (cx as int) * (ny as int) <= 49,
                row == nx * (ny as int - cy as int),
                j <= ac.len(),
                pairs.skip(j as int) == tri_from(nxi@, nyi@, cy as int, cx as int),
                acc == dc * 65536 * 65536 + idct_sum(aseq, nxi@, nyi@,
                    x as int, y as int, w as int, h as int, j as int),
                in_abs(acc as int, (1 + 4 * j) * 0x1_0000_0000_0000),
            decreases nx - cx,
        {
            proof {
                lemma_tri_guard(nxi@, nyi@, cy as int, cx as int);
                assert(tri_from(nxi@, nyi@, cy as int, cx as int) ==
                    seq![(cx as int, cy as int)]
                        + tri_from(nxi@, nyi@, cy as int, cx as int + 1));
                let rest = tri_from(nxi@, nyi@, cy as int, cx as int + 1);
                assert(pairs.skip(j as int) == seq![(cx as int, cy as int)] + rest);
                assert(pairs.skip(j as int).len() >= 1);
                assert(j < ac.len());
                assert(pairs.skip(j as int)[0] == (cx as int, cy as int));
                assert(pairs.skip(j as int)[0] == pairs[j as int + 0]);
                assert(pairs[j as int] == (cx as int, cy as int));
                assert(ac@[j as int] == aseq[j as int] && in_abs(aseq[j as int], 131072));
                assert(pairs.skip(j as int + 1).len() == rest.len());
                assert forall|i: int| 0 <= i < rest.len()
                    implies pairs.skip(j as int + 1)[i] == rest[i] by {
                    assert(pairs.skip(j as int + 1)[i] == pairs[i + j + 1]);
                    assert(rest[i] == pairs.skip(j as int)[i + 1]);
                    assert(pairs.skip(j as int)[i + 1] == pairs[i + 1 + j]);
                }
                assert(pairs.skip(j as int + 1) =~= rest);
            }
            let fx: i64 = cos_fp(cx as u64, x as u64, w as u64);
            let fy: i64 = cos_fp(cy as u64, y as u64, h as u64);
            let a: i64 = ac[j];
            proof {
                assert(in_abs(a as int * fx as int, (131072 * 65536) as int)
                    && in_abs((a as int * fx as int) * fy as int, 0x2_0000_0000_0000))
                    by (nonlinear_arith)
                    requires in_abs(a as int, 131072), in_abs(fx as int, 65536),
                        in_abs(fy as int, 65536);
                assert(2 * ((a as int * fx as int) * fy as int)
                    == 2 * a as int * fx as int * fy as int) by (nonlinear_arith);
            }
            let t: i64 = 2 * ((a * fx) * fy);
            acc = acc + t;
            j = j + 1;
            cx = cx + 1;
            proof {
                assert((cx as int) * (ny as int) <= 49) by (nonlinear_arith)
                    requires cx <= 7, ny <= 7, 0 <= cx, 0 <= ny;
            }
        }
        proof {
            assert(tri_from(nxi@, nyi@, cy as int, cx as int)
                == tri_from(nxi@, nyi@, cy as int + 1, 0));
        }
        cy = cy + 1;
    }
    proof {
        assert(tri_from(nxi@, nyi@, ny as int, 0) =~= Seq::<(int, int)>::empty());
        assert(pairs.skip(j as int).len() == 0);
        assert(j == ac.len());
        assert(65536 * ((65536 * 65536) as int) == 0x1_0000_0000_0000) by (nonlinear_arith);
        assert(in_abs(acc as int, (257 * 0x1_0000_0000_0000) as int));
        assert(16842752 * ((65536 * 65536) as int) == 257 * 0x1_0000_0000_0000)
            by (nonlinear_arith);
        lemma_div_in_range(acc as int, (65536 * 65536) as int, 16842752);
    }
    div_floor(acc, 65536 * 65536)
}


/// Render every output pixel of a parsed hash.
#[verifier::loop_isolation(false)]
#[verifier::rlimit(100)]
fn render(
    Ghost(s): Ghost<Seq<u8>>,
    w: usize,
    h: usize,
    gx: usize,
    gy: usize,
    l_dc: i64,
    p_dc: i64,
    q_dc: i64,
    a_dc: i64,
    has_alpha: bool,
    l_ac: &Vec<i64>,
    p_ac: &Vec<i64>,
    q_ac: &Vec<i64>,
    a_ac: &Vec<i64>,
) -> (pix: Vec<u8>)
    requires
        w as int == d_outw(s),
        h as int == d_outh(s),
        w <= 32,
        h <= 32,
        gx as int == d_gx(s),
        gy as int == d_gy(s),
        3 <= gx <= 7,
        3 <= gy <= 7,
        l_dc as int == dq_ldc(s) && in_abs(l_dc as int, 65536),
        p_dc as int == dq_pdc(s) && in_abs(p_dc as int, 65536),
        q_dc as int == dq_qdc(s) && in_abs(q_dc as int, 65536),
        a_dc as int == dq_adc(s) && in_abs(a_dc as int, 65536),
        has_alpha == d_alpha(s),
        l_ac.len() == d_acl(s).len(),
        l_ac.len() == tri_all(gx as int, gy as int).len() - 1,
        l_ac.len() <= 60,
        forall|j: int| 0 <= j < l_ac.len() ==> l_ac@[j] == #[trigger] d_acl(s)[j]
            && in_abs(d_acl(s)[j], 131072),
        p_ac.len() == d_acp(s).len(),
        p_ac.len() == tri_all(3, 3).len() - 1,
        p_ac.len() <= 60,
        forall|j: int| 0 <= j < p_ac.len() ==> p_ac@[j] == #[trigger] d_acp(s)[j]
            && in_abs(d_acp(s)[j], 131072),
        q_ac.len() == d_acq(s).len(),
        q_ac.len() == tri_all(3, 3).len() - 1,
        q_ac.len() <= 60,
        forall|j: int| 0 <= j < q_ac.len() ==> q_ac@[j] == #[trigger] d_acq(s)[j]
            && in_abs(d_acq(s)[j], 131072),
        has_alpha ==> a_ac.len() == d_aca(s).len()
            && a_ac.len() == tri_all(5, 5).len() - 1
            && a_ac.len() <= 60,
        forall|j: int| 0 <= j < a_ac.len() ==> a_ac@[j] == #[trigger] d_aca(s)[j]
            && in_abs(d_aca(s)[j], 131072),
    ensures
        pix@ == spec_render(s, (w * h) as int),
        pix.len() == 4 * w * h,
{
    proof {
        assert((w as int) * (h as int) <= 1024) by (nonlinear_arith)
            requires w <= 32, h <= 32;
    }
    let n: usize = w * h;
    let mut pix: Vec<u8> = Vec::new();
    proof {
        reveal(spec_render);
    }
    let mut k: usize = 0;
    while k < n
        invariant
            k <= n,
            pix@ == spec_render(s, k as int),
            pix.len() == 4 * k,
        decreases n - k,
    {
        proof {
            assert(1 <= w) by (nonlinear_arith)
                requires (k as int) < (w as int) * (h as int), 0 <= k, 0 <= h;
            crate::dct::lemma_flat_index(k as int, w as int, h as int);
        }
        let xi: usize = k % w;
        let yi: usize = k / w;
        let l: i64 = idct_at(l_dc, l_ac, Ghost(d_acl(s)), gx, gy, xi, yi, w, h);
        let p: i64 = idct_at(p_dc, p_ac, Ghost(d_acp(s)), 3, 3, xi, yi, w, h);
        let q: i64 = idct_at(q_dc, q_ac, Ghost(d_acq(s)), 3, 3, xi, yi, w, h);
        let a: i64 = if has_alpha {
            idct_at(a_dc, a_ac, Ghost(d_aca(s)), 5, 5, xi, yi, w, h)
        } else {
            65536
        };
        let b0: u8 = to_byte6(6 * l + 2 * p + 3 * q);
        let b1: u8 = to_byte6(6 * l + 2 * p - 3 * q);
        let b2: u8 = to_byte6(6 * l - 4 * p);
        let b3: u8 = to_byte1(a);
        pix.push(b0);
        pix.push(b1);
        pix.push(b2);
        pix.push(b3);
        proof {
            assert(seq![b0, b1, b2, b3] =~= spec_px(s, xi as int, yi as int)) by {
                reveal(spec_px);
            }
            assert(pix@ =~= spec_render(s, k as int + 1)) by {
                reveal(spec_render);
                assert(seq![b0, b1, b2, b3] =~= spec_px(s, xi as int, yi as int)) by {
                    reveal(spec_px);
                }
            }
        }
        k = k + 1;
    }
    proof {
        assert(4 * (w as int) * (h as int) == 4 * ((w as int) * (h as int)))
            by (nonlinear_arith);
    }
    pix
}

/// Decodes a hash into an RGBA image: width, height and row-major pixels
/// with straight alpha.  The long side of the output is 32 pixels.  It
/// fails exactly when the hash has fewer bytes than the header demands.
#[verifier::loop_isolation(false)]
#[verifier::rlimit(100)]
pub fn thumb_hash_to_rgba(hash: &[u8]) -> (r: Result<(usize, usize, Vec<u8>), ()>)
    ensures
        r is Ok <==> hash@.len() >= 5 && hash@.len() >= d_needed(hash@),
        match r {
            Ok(v) => v.0 == d_outw(hash@) && v.1 == d_outh(hash@)
                && v.2@ == spec_render(hash@, d_outw(hash@) * d_outh(hash@))
                && v.2@.len() == 4 * v.0 * v.1
                && (v.0 == 32 || v.1 == 32),
            Err(e) => true,
        },
{
    let ghost s: Seq<u8> = hash@;
    let n_len: usize = hash.len();
    if n_len < 5 {
        return Err(());
    }
    let h24: u64 = hash[0] as u64 + 256 * (hash[1] as u64) + 65536 * (hash[2] as u64);
    let h16: u64 = hash[3] as u64 + 256 * (hash[4] as u64);
    proof {
        lemma_mod_bound(h24 as int, 64);
        lemma_mod_bound((h24 / 64) as int, 64);
        lemma_mod_bound((h24 / 4096) as int, 64);
        lemma_mod_bound((h24 / 262144) as int, 32);
        lemma_mod_bound(h16 as int, 8);
        lemma_mod_bound((h16 / 8) as int, 64);
        lemma_mod_bound((h16 / 512) as int, 64);
    }
    let l6: u64 = h24 % 64;
    let p6: u64 = (h24 / 64) % 64;
    let q6: u64 = (h24 / 4096) % 64;
    let s5: u64 = (h24 / 262144) % 32;
    let alpha: bool = h24 / 8388608 != 0;
    let lval: u64 = h16 % 8;
    let ps6: u64 = (h16 / 8) % 64;
    let qs6: u64 = (h16 / 512) % 64;
    let land: bool = h16 / 32768 != 0;
    let lmax: u64 = if alpha { 5 } else { 7 };
    let lxa: u64 = if land { lmax } else { lval };
    let lya: u64 = if land { lval } else { lmax };
    let gx: usize = if lxa < 3 { 3 } else { lxa as usize };
    let gy: usize = if lya < 3 { 3 } else { lya as usize };
    let cntl: usize = tri_count(gx, gy);
    let cnt3: usize = tri_count(3, 3);
    let cnt5: usize = tri_count(5, 5);
    let nl: usize = cntl - 1;
    let n3: usize = cnt3 - 1;
    let n5: usize = cnt5 - 1;
    let total: usize = nl + 2 * n3 + if alpha { n5 } else { 0 };
    let base: usize = if alpha { 6 } else { 5 };
    let needed: usize = base + (total + 1) / 2;
    proof {
        assert(needed == d_needed(s));
    }
    if n_len < needed {
        return Err(());
    }
    let l_dc: i64 = div_round(l6 * 65536, 63) as i64;
    proof {
        lemma_rdiv_le((l6 * 65536) as int, 63, 65536);
        lemma_div_in_range((2 * p6 as int - 63) * 65536, 63, 65536);
        lemma_div_in_range((2 * q6 as int - 63) * 65536, 63, 65536);
        lemma_div_mono((s5 * 65536) as int, (31 * 65536) as int, 31);
        vstd::arithmetic::div_mod::lemma_div_multiples_vanish(65536, 31);
        lemma_div_pos_is_pos((s5 * 65536) as int, 31);
        lemma_div_mono((ps6 * 65536) as int, (63 * 65536) as int, 63);
        lemma_div_mono((qs6 * 65536) as int, (63 * 65536) as int, 63);
        vstd::arithmetic::div_mod::lemma_div_multiples_vanish(65536, 63);
        lemma_div_pos_is_pos((ps6 * 65536) as int, 63);
        lemma_div_pos_is_pos((qs6 * 65536) as int, 63);
    }
    let p_dc: i64 = div_floor((2 * (p6 as i64) - 63) * 65536, 63);
    let q_dc: i64 = div_floor((2 * (q6 as i64) - 63) * 65536, 63);
    let l_s: i64 = ((s5 * 65536) / 31) as i64;
    let ps0: u64 = (ps6 * 65536) / 63;
    let qs0: u64 = (qs6 * 65536) / 63;
    proof {
        lemma_div_mono((ps0 * 5) as int, (65536 * 5) as int, 4);
        lemma_div_mono((qs0 * 5) as int, (65536 * 5) as int, 4);
        lemma_div_pos_is_pos((ps0 * 5) as int, 4);
        lemma_div_pos_is_pos((qs0 * 5) as int, 4);
        vstd::arithmetic::div_mod::lemma_fundamental_div_mod_converse(
            (65536 * 5) as int, 4, 81920, 0);
    }
    let p_s: i64 = ((ps0 * 5) / 4) as i64;
    let q_s: i64 = ((qs0 * 5) / 4) as i64;
    let mut a_dc: i64 = 65536;
    let mut a_s: i64 = 65536;
    if alpha {
        let b5: u8 = hash[5];
        proof {
            lemma_mod_bound(b5 as int, 16);
            lemma_div_mono(((b5 as int % 16) * 65536) as int, (15 * 65536) as int, 15);
            lemma_div_mono(((b5 as int / 16) * 65536) as int, (15 * 65536) as int, 15);
            vstd::arithmetic::div_mod::lemma_div_multiples_vanish(65536, 15);
            lemma_div_pos_is_pos(((b5 as int % 16) * 65536) as int, 15);
            lemma_div_pos_is_pos(((b5 as int / 16) * 65536) as int, 15);
        }
        a_dc = (((b5 % 16) as u64 * 65536) / 15) as i64;
        a_s = (((b5 / 16) as u64 * 65536) / 15) as i64;
    }
    let mut nibs: Vec<u8> = Vec::new();
    let mut j: usize = 0;
    while j < total
        invariant
            j <= total,
            nibs.len() == j,
            n_len >= needed,
            forall|k: int| 0 <= k < j ==> #[trigger] nibs@[k] as int == d_nib(s, k)
                && nibs@[k] < 16,
        decreases total - j,
    {
        proof {
            lemma_div_mono(j as int, (total - 1) as int, 2);
            vstd::arithmetic::div_mod::lemma_div_plus_one((total - 1) as int, 2);
            lemma_mod_bound(j as int, 2);
            lemma_div_pos_is_pos(j as int, 2);
        }
        let idx: usize = base + j / 2;
        let byte: u8 = hash[idx];
        let v: u8 = if j % 2 == 0 { byte % 16 } else { byte / 16 };
        proof {
            lemma_mod_bound(byte as int, 16);
            lemma_div_mono(byte as int, 255, 16);
        }
        nibs.push(v);
        j = j + 1;
    }
    let mut l_ac: Vec<i64> = Vec::new();
    let mut i: usize = 0;
    while i < nl
        invariant
            i <= nl,
            l_ac.len() == i,
            nl + 2 * n3 + n5 <= nibs.len() + 60,
            forall|k: int| 0 <= k < i ==> #[trigger] l_ac@[k] == d_acl(s)[k]
                && in_abs(l_ac@[k] as int, 131072),
        decreases nl - i,
    {
        let v: i64 = dq_ac_exec(nibs[i], l_s);
        l_ac.push(v);
        i = i + 1;
    }
    let mut p_ac: Vec<i64> = Vec::new();
    let mut i2: usize = 0;
    while i2 < n3
        invariant
            i2 <= n3,
            p_ac.len() == i2,
            forall|k: int| 0 <= k < i2 ==> #[trigger] p_ac@[k] == d_acp(s)[k]
                && in_abs(p_ac@[k] as int, 131072),
        decreases n3 - i2,
    {
        let v: i64 = dq_ac_exec(nibs[nl + i2], p_s);
        p_ac.push(v);
        i2 = i2 + 1;
    }
    let mut q_ac: Vec<i64> = Vec::new();
    let mut i3: usize = 0;
    while i3 < n3
        invariant
            i3 <= n3,
            q_ac.len() == i3,
            forall|k: int| 0 <= k < i3 ==> #[trigger] q_ac@[k] == d_acq(s)[k]
                && in_abs(q_ac@[k] as int, 131072),
        decreases n3 - i3,
    {
        let v: i64 = dq_ac_exec(nibs[nl + n3 + i3], q_s);
        q_ac.push(v);
        i3 = i3 + 1;
    }
    let mut a_ac: Vec<i64> = Vec::new();
    if alpha {
        let mut i4: usize = 0;
        while i4 < n5
            invariant
                alpha,
                i4 <= n5,
                a_ac.len() == i4,
                forall|k: int| 0 <= k < i4 ==> #[trigger] a_ac@[k] == d_aca(s)[k]
                    && in_abs(a_ac@[k] as int, 131072),
            decreases n5 - i4,
        {
            let v: i64 = dq_ac_exec(nibs[nl + 2 * n3 + i4], a_s);
            a_ac.push(v);
            i4 = i4 + 1;
        }
    }
    let w_out: usize;
    let h_out: usize;
    if lxa > lya {
        proof {
            assert(32 * lya <= 32 * lxa && 0 <= 32 * lya) by (nonlinear_arith)
                requires lya <= lxa;
            lemma_rdiv_le((32 * lya) as int, lxa as int, 32);
        }
        w_out = 32;
        h_out = div_round(32 * lya, lxa) as usize;
    } else {
        proof {
            assert(lya >= 1);
            assert(32 * lxa <= 32 * lya && 0 <= 32 * lxa) by (nonlinear_arith)
                requires lxa <= lya;
            lemma_rdiv_le((32 * lxa) as int, lya as int, 32);
        }
        w_out = div_round(32 * lxa, lya) as usize;
        h_out = 32;
    }
    let pix: Vec<u8> = render(Ghost(s), w_out, h_out, gx, gy, l_dc, p_dc, q_dc, a_dc,
        alpha, &l_ac, &p_ac, &q_ac, &a_ac);
    Ok((w_out, h_out, pix))
}

/// The average color of a hash, as exact rationals: `r`, `g` and `b` are
/// numerators over 378, `a` is a numerator over 15.  Fails when fewer than
/// five bytes are present, or fewer than six with the alpha flag set.
#[derive(Clone, Copy, PartialEq, Eq, Structural, Debug)]
pub struct AverageRgba {
    /// Red numerator over 378.
    pub r: u16,
    /// Green numerator over 378.
    pub g: u16,
    /// Blue numerator over 378.
    pub b: u16,
    /// Alpha numerator over 15.
    pub a: u8,
}

/// Red numerator of the average color, clamped to [0, 378].
pub open spec fn avg_r_num(s: Seq<u8>) -> int {
    clamp378(6 * d_l6(s) + 4 * d_p6(s) + 6 * d_q6(s) - 315)
}

/// Green numerator of the average color, clamped to [0, 378].
pub open spec fn avg_g_num(s: Seq<u8>) -> int {
    clamp378(6 * d_l6(s) + 4 * d_p6(s) - 6 * d_q6(s) + 63)
}

/// Blue numerator of the average color, clamped to [0, 378].
pub open spec fn avg_b_num(s: Seq<u8>) -> int {
    clamp378(6 * d_l6(s) - 8 * d_p6(s) + 252)
}

/// Alpha numerator of the average color, over 15.
pub open spec fn avg_a_num(s: Seq<u8>) -> int {
    if d_alpha(s) {
        s[5] as int % 16
    } else {
        15
    }
}

/// Clamp a numerator to the unit interval over denominator 378.
pub open spec fn clamp378(v: int) -> int {
    if v < 0 {
        0
    } else if v > 378 {
        378
    } else {
        v
    }
}

/// Extracts the average color of a hash without running the full inverse
/// transform: only the DC header fields are read.
pub fn thumb_hash_to_average_rgba(hash: &[u8]) -> (r: Result<AverageRgba, ()>)
    ensures
        r is Ok <==> hash@.len() >= 5 && (d_alpha(hash@) ==> hash@.len() >= 6),
        match r {
            Ok(v) => v.r == avg_r_num(hash@) && v.g == avg_g_num(hash@)
                && v.b == avg_b_num(hash@) && v.a == avg_a_num(hash@),
            Err(e) => true,
        },
{
    if hash.len() < 5 {
        return Err(());
    }
    let h24: u64 = hash[0] as u64 + 256 * (hash[1] as u64) + 65536 * (hash[2] as u64);
    proof {
        lemma_mod_bound(h24 as int, 64);
        lemma_mod_bound((h24 / 64) as int, 64);
        lemma_mod_bound((h24 / 4096) as int, 64);
    }
    let l6: i64 = (h24 % 64) as i64;
    let p6: i64 = ((h24 / 64) % 64) as i64;
    let q6: i64 = ((h24 / 4096) % 64) as i64;
    let alpha: bool = h24 / 8388608 != 0;
    let a_num: u8;
    if alpha {
        if hash.len() < 6 {
            return Err(());
        }
        a_num = hash[5] % 16;
        proof {
            lemma_mod_bound(hash@[5] as int, 16);
        }
    } else {
        a_num = 15;
    }
    let rn: i64 = clamp378_exec(6 * l6 + 4 * p6 + 6 * q6 - 315);
    let gn: i64 = clamp378_exec(6 * l6 + 4 * p6 - 6 * q6 + 63);
    let bn: i64 = clamp378_exec(6 * l6 - 8 * p6 + 252);
    Ok(AverageRgba { r: rn as u16, g: gn as u16, b: bn as u16, a: a_num })
}

/// Clamp a numerator to [0, 378].
fn clamp378_exec(v: i64) -> (r: i64)
    requires
        -100000 <= v <= 100000,
    ensures
        r == clamp378(v as int),
        0 <= r <= 378,
{
    if v < 0 {
        0
    } else if v > 378 {
        378
    } else {
        v
    }
}

/// The approximate aspect ratio of the original image, as the exact pair
/// of luminance grid counts: the ratio is `lx / ly`.  At least one of the
/// two is always nonzero.
#[derive(Clone, Copy, PartialEq, Eq, Structural, Debug)]
pub struct AspectRatio {
    /// Horizontal grid count.
    pub lx: u8,
    /// Vertical grid count.
    pub ly: u8,
}

/// Extracts the approximate aspect ratio of a hash from the header alone.
pub fn thumb_hash_to_approximate_aspect_ratio(hash: &[u8]) -> (r: Result<AspectRatio, ()>)
    ensures
        r is Ok <==> hash@.len() >= 5,
        match r {
            Ok(v) => v.lx == d_lx(hash@) && v.ly == d_ly(hash@)
                && (v.lx >= 1 || v.ly >= 1),
            Err(e) => true,
        },
{
    if hash.len() < 5 {
        return Err(());
    }
    let h24: u64 = hash[0] as u64 + 256 * (hash[1] as u64) + 65536 * (hash[2] as u64);
    let h16: u64 = hash[3] as u64 + 256 * (hash[4] as u64);
    proof {
        lemma_mod_bound(h16 as int, 8);
    }
    let alpha: bool = h24 / 8388608 != 0;
    let land: bool = h16 / 32768 != 0;
    let lmax: u8 = if alpha { 5 } else { 7 };
    let lval: u8 = (h16 % 8) as u8;
    let lx: u8 = if land { lmax } else { lval };
    let ly: u8 = if land { lval } else { lmax };
    Ok(AspectRatio { lx, ly })
}

} // verus!
