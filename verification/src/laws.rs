//! Laws that relate the encoder to the decode-family functions.

use vstd::prelude::*;
use crate::fixed::in_abs;
use crate::fixed::rdiv;
use crate::fixed::lemma_rdiv_le;
use crate::channels::spec_has_alpha;
use crate::channels::sum_alpha;
use crate::channels::px;
use crate::channels::lemma_sum_bounds;
use crate::channels::lemma_plane_ranges;
use crate::dct::coef;
use crate::dct::acs;
use crate::dct::max_abs;
use crate::dct::lemma_coef_bound;
use crate::dct::lemma_acs_bound;
use crate::dct::lemma_dc_nonneg;
use crate::encode::spec_encode;
use crate::encode::enc_header24;
use crate::encode::enc_header16;
use crate::encode::enc_lx;
use crate::encode::enc_ly;
use crate::encode::plane_l;
use crate::encode::plane_p;
use crate::encode::plane_q;
use crate::header::spec_limit;
use crate::header::spec_max;
use crate::header::q_unit;
use crate::header::q_signed6;
use crate::header::lemma_grid_long_side;
use crate::header::lemma_bytes24_roundtrip;
use crate::header::lemma_bytes16_roundtrip;
use crate::header::lemma_unpack;
use crate::decode::hdr24;
use crate::decode::hdr16;
use crate::decode::d_alpha;
use crate::decode::d_land;
use crate::decode::d_lval;
use crate::decode::d_lmax;
use crate::decode::d_lx;
use crate::decode::d_ly;
use crate::decode::d_outw;
use crate::decode::d_outh;
use crate::decode::spec_render;
use vstd::arithmetic::div_mod::lemma_div_denominator;
use vstd::arithmetic::div_mod::lemma_div_pos_is_pos;
use vstd::arithmetic::div_mod::lemma_fundamental_div_mod_converse;

verus! {

/// The five header bytes of an encoded hash carry the encoder's own header
/// words, and the fields the decoders extract are the fields the encoder
/// packed: the alpha flag is the image's alpha flag, the orientation flag
/// says whether the image was wider than tall, and the grid counts that
/// `thumb_hash_to_approximate_aspect_ratio` reports are exactly the grid
/// counts the encoder chose.  The aspect ratio a decoder derives therefore
/// agrees with the encoder for every image.
pub proof fn lemma_header_round_trip(w: int, h: int, rgba: Seq<u8>)
    requires
        1 <= w <= 100,
        1 <= h <= 100,
        rgba.len() == w * h * 4,
    ensures
        hdr24(spec_encode(w, h, rgba)) == enc_header24(w, h, rgba),
        hdr16(spec_encode(w, h, rgba)) == enc_header16(w, h, rgba),
        d_alpha(spec_encode(w, h, rgba)) == spec_has_alpha(rgba, w * h),
        d_land(spec_encode(w, h, rgba)) == (w > h),
        d_lx(spec_encode(w, h, rgba)) == enc_lx(w, h, rgba),
        d_ly(spec_encode(w, h, rgba)) == enc_ly(w, h, rgba),
{
    let s = spec_encode(w, h, rgba);
    let n = w * h;
    let alpha = spec_has_alpha(rgba, n);
    let limit = spec_limit(alpha);
    let h24 = enc_header24(w, h, rgba);
    let h16 = enc_header16(w, h, rgba);
    assert(1 <= n <= 10000 && n * 4 == w * h * 4 && 4 * n == w * h * 4)
        by (nonlinear_arith)
        requires 1 <= w <= 100, 1 <= h <= 100, n == w * h;
    assert forall|i: int| 0 <= i < n implies in_abs(#[trigger] plane_l(rgba, n)[i], 65536)
        && 0 <= plane_l(rgba, n)[i] by {
        reveal(plane_l);
        lemma_plane_ranges(rgba, n, i);
    }
    assert forall|i: int| 0 <= i < n implies in_abs(#[trigger] plane_p(rgba, n)[i], 65536) by {
        reveal(plane_p);
        lemma_plane_ranges(rgba, n, i);
    }
    assert forall|i: int| 0 <= i < n implies in_abs(#[trigger] plane_q(rgba, n)[i], 65536) by {
        reveal(plane_q);
        lemma_plane_ranges(rgba, n, i);
    }
    assert(plane_l(rgba, n).len() == n) by { reveal(plane_l); }
    assert(plane_p(rgba, n).len() == n) by { reveal(plane_p); }
    assert(plane_q(rgba, n).len() == n) by { reveal(plane_q); }
    let gx = spec_max(3, enc_lx(w, h, rgba));
    let gy = spec_max(3, enc_ly(w, h, rgba));
    let m = spec_max(w, h);
    lemma_grid_long_side(w, m, limit);
    lemma_grid_long_side(h, m, limit);
    assert(1 <= enc_lx(w, h, rgba) <= 7 && 1 <= enc_ly(w, h, rgba) <= 7);
    assert(3 <= gx <= 7 && 3 <= gy <= 7);
    // header field ranges
    let l_dc = coef(plane_l(rgba, n), w, h, 0, 0);
    let p_dc = coef(plane_p(rgba, n), w, h, 0, 0);
    let q_dc = coef(plane_q(rgba, n), w, h, 0, 0);
    lemma_coef_bound(plane_l(rgba, n), w, h, 0, 0);
    lemma_coef_bound(plane_p(rgba, n), w, h, 0, 0);
    lemma_coef_bound(plane_q(rgba, n), w, h, 0, 0);
    lemma_dc_nonneg(plane_l(rgba, n), w, h, n);
    assert(0 < n * 65536 * 65536) by (nonlinear_arith)
        requires 1 <= n;
    lemma_div_pos_is_pos(crate::dct::dct_sum(plane_l(rgba, n), w, h, 0, 0, n),
        n * 65536 * 65536);
    lemma_acs_bound(plane_l(rgba, n), w, h, gx, gy);
    lemma_acs_bound(plane_p(rgba, n), w, h, 3, 3);
    lemma_acs_bound(plane_q(rgba, n), w, h, 3, 3);
    let l6 = q_unit(l_dc, 63);
    let p6 = q_signed6(p_dc);
    let q6 = q_signed6(q_dc);
    let s5 = q_unit(max_abs(acs(plane_l(rgba, n), w, h, gx, gy)), 31);
    let ps6 = q_unit(max_abs(acs(plane_p(rgba, n), w, h, 3, 3)), 63);
    let qs6 = q_unit(max_abs(acs(plane_q(rgba, n), w, h, 3, 3)), 63);
    assert(0 <= l6 <= 63 && 0 <= s5 <= 31 && 0 <= ps6 <= 63 && 0 <= qs6 <= 63) by {
        lemma_q_unit_range(l_dc, 63);
        lemma_q_unit_range(max_abs(acs(plane_l(rgba, n), w, h, gx, gy)), 31);
        lemma_q_unit_range(max_abs(acs(plane_p(rgba, n), w, h, 3, 3)), 63);
        lemma_q_unit_range(max_abs(acs(plane_q(rgba, n), w, h, 3, 3)), 63);
    }
    assert(0 <= p6 <= 63 && 0 <= q6 <= 63) by {
        lemma_q_signed6_range(p_dc);
        lemma_q_signed6_range(q_dc);
    }
    let abit: int = if alpha { 1 } else { 0 };
    let lbit: int = if w > h { 1 } else { 0 };
    let lval = if w > h { enc_ly(w, h, rgba) } else { enc_lx(w, h, rgba) };
    assert(h24 == l6 + 64 * (p6 + 64 * (q6 + 64 * (s5 + 32 * abit)))) by {
        reveal(enc_header24);
    }
    assert(h16 == lval + 8 * (ps6 + 64 * (qs6 + 64 * lbit))) by {
        reveal(enc_header16);
    }
    assert(0 <= h24 < 0x1000000);
    assert(0 <= h16 < 0x10000);
    lemma_bytes24_roundtrip(h24);
    lemma_bytes16_roundtrip(h16);
    assert(s[0] == (h24 % 256) as u8 && s[1] == ((h24 / 256) % 256) as u8
        && s[2] == (h24 / 65536) as u8 && s[3] == (h16 % 256) as u8
        && s[4] == (h16 / 256) as u8) by {
        reveal(spec_encode);
    }
    assert(hdr24(s) == h24);
    assert(hdr16(s) == h16);
    // unpack the alpha flag
    let r1 = p6 + 64 * (q6 + 64 * (s5 + 32 * abit));
    let r2 = q6 + 64 * (s5 + 32 * abit);
    let r3 = s5 + 32 * abit;
    lemma_unpack(l6, 64, r1);
    lemma_unpack(p6, 64, r2);
    lemma_unpack(q6, 64, r3);
    lemma_unpack(s5, 32, abit);
    lemma_div_denominator(h24, 64, 64);
    lemma_div_denominator(h24, 4096, 64);
    lemma_div_denominator(h24, 262144, 32);
    assert(h24 / 8388608 == abit);
    assert(d_alpha(s) == alpha);
    // unpack the orientation flag and the stored grid value
    let t1 = ps6 + 64 * (qs6 + 64 * lbit);
    let t2 = qs6 + 64 * lbit;
    assert(0 <= lval <= 7);
    lemma_unpack(lval, 8, t1);
    lemma_unpack(ps6, 64, t2);
    lemma_unpack(qs6, 64, lbit);
    lemma_div_denominator(h16, 8, 64);
    lemma_div_denominator(h16, 512, 64);
    assert(h16 / 32768 == lbit);
    assert(d_land(s) == (w > h));
    assert(d_lval(s) == lval);
    assert(d_lmax(s) == limit);
    if w > h {
        assert(enc_lx(w, h, rgba) == limit);
        assert(d_lx(s) == limit);
        assert(d_ly(s) == lval);
    } else {
        assert(enc_ly(w, h, rgba) == limit);
        assert(d_ly(s) == limit);
        assert(d_lx(s) == lval);
    }
}

/// `q_unit` maps a unit-range value into its level range.
proof fn lemma_q_unit_range(v: int, levels: int)
    requires
        0 <= v <= 65536,
        1 <= levels <= 63,
    ensures
        0 <= q_unit(v, levels) <= levels,
{
    assert(levels * v <= levels * 65536 && 0 <= levels * v) by (nonlinear_arith)
        requires 0 <= v <= 65536, 0 <= levels;
    assert(levels * 65536 == 65536 * levels) by (nonlinear_arith);
    lemma_rdiv_le(levels * v, 65536, levels);
}

/// `q_signed6` maps `[-FP, FP]` into `[0, 63]`.
proof fn lemma_q_signed6_range(v: int)
    requires
        in_abs(v, 65536),
    ensures
        0 <= q_signed6(v) <= 63,
{
    let num = 126 * (65536 + v) + 2 * 65536;
    assert(0 <= num <= 254 * 65536);
    lemma_fundamental_div_mod_converse((254 * 65536) as int, (4 * 65536) as int,
        63, (2 * 65536) as int);
    crate::fixed::lemma_div_mono(num, (254 * 65536) as int, (4 * 65536) as int);
    lemma_div_pos_is_pos(num, (4 * 65536) as int);
}

/// The encoder sets the alpha flag exactly when some pixel is not fully
/// opaque, and exactly then the hash carries the sixth header byte (the
/// encoded length grows by one).
pub proof fn lemma_alpha_detection(w: int, h: int, rgba: Seq<u8>)
    requires
        1 <= w <= 100,
        1 <= h <= 100,
        rgba.len() == w * h * 4,
    ensures
        d_alpha(spec_encode(w, h, rgba))
            <==> exists|i: int| 0 <= i < w * h && #[trigger] rgba[4 * i + 3] < 255,
        spec_has_alpha(rgba, w * h)
            <==> exists|i: int| 0 <= i < w * h && #[trigger] rgba[4 * i + 3] < 255,
{
    let n = w * h;
    assert(1 <= n && 4 * n <= rgba.len()) by (nonlinear_arith)
        requires 1 <= w <= 100, 1 <= h <= 100, n == w * h, rgba.len() == w * h * 4;
    lemma_header_round_trip(w, h, rgba);
    lemma_sum_alpha_opaque(rgba, n);
    if spec_has_alpha(rgba, n) {
        assert(!(forall|i: int| 0 <= i < n ==> px(rgba, i, 3) == 255));
        let i = choose|i: int| 0 <= i < n && #[trigger] px(rgba, i, 3) != 255;
        assert(rgba[4 * i + 3] < 255);
    } else {
        lemma_sum_bounds(rgba, 3, n);
        assert(sum_alpha(rgba, n) == 255 * n);
        assert forall|i: int| 0 <= i < n implies !(#[trigger] rgba[4 * i + 3] < 255) by {
            assert(px(rgba, i, 3) == 255);
        }
    }
}

/// The alpha byte total reaches the opaque total exactly when every pixel
/// is fully opaque.
proof fn lemma_sum_alpha_opaque(rgba: Seq<u8>, k: int)
    requires
        0 <= k,
        rgba.len() >= 4 * k,
    ensures
        sum_alpha(rgba, k) == 255 * k
            <==> forall|i: int| 0 <= i < k ==> #[trigger] px(rgba, i, 3) == 255,
    decreases k,
{
    if k > 0 {
        lemma_sum_alpha_opaque(rgba, k - 1);
        lemma_sum_bounds(rgba, 3, k - 1);
        assert(255 * k == 255 * (k - 1) + 255) by (nonlinear_arith);
    }
}

/// Encoding an image that is clearly wider than tall sets the orientation
/// flag, and decoding its hash gives a 32-pixel-wide image that is wider
/// than tall.  (`10 * h < 9 * w` keeps the rounded grid of the short side
/// strictly below the long side's budget; a near-square landscape image
/// such as 100×99 rounds to a square grid and decodes to 32×32.)
pub proof fn lemma_orientation(w: int, h: int, rgba: Seq<u8>)
    requires
        1 <= w <= 100,
        1 <= h <= 100,
        rgba.len() == w * h * 4,
        10 * h < 9 * w,
    ensures
        d_land(spec_encode(w, h, rgba)),
        d_lx(spec_encode(w, h, rgba)) > d_ly(spec_encode(w, h, rgba)),
        d_outw(spec_encode(w, h, rgba)) == 32,
        d_outh(spec_encode(w, h, rgba)) < 32,
{
    let s = spec_encode(w, h, rgba);
    let n = w * h;
    let alpha = spec_has_alpha(rgba, n);
    let limit = spec_limit(alpha);
    lemma_header_round_trip(w, h, rgba);
    assert(w > h);
    // the short side's grid count stays below the budget
    let r = rdiv(limit * h, w);
    assert(2 * (limit * h) + w <= 2 * (limit * w) - 1) by (nonlinear_arith)
        requires 10 * h < 9 * w, 5 <= limit <= 7, 1 <= h, 1 <= w;
    crate::fixed::lemma_div_mono(2 * (limit * h) + w, 2 * (limit * w) - 1, 2 * w);
    assert((2 * (limit * w) - 1) / (2 * w) == limit - 1) by {
        assert(2 * (limit * w) - 1 == (limit - 1) * (2 * w) + (2 * w - 1)) by (nonlinear_arith);
        lemma_fundamental_div_mod_converse(2 * (limit * w) - 1, 2 * w, limit - 1, 2 * w - 1);
    }
    assert(r <= limit - 1);
    assert(0 <= r) by {
        assert(0 <= 2 * (limit * h) + w) by (nonlinear_arith)
            requires 1 <= h, 1 <= w, 5 <= limit;
        lemma_div_pos_is_pos(2 * (limit * h) + w, 2 * w);
    }
    assert(enc_ly(w, h, rgba) <= limit - 1);
    assert(d_ly(s) < d_lx(s));
    // output dimensions
    let lx = d_lx(s);
    let ly = d_ly(s);
    assert(d_outw(s) == 32);
    assert(2 * (32 * ly) + lx < 32 * (2 * lx)) by (nonlinear_arith)
        requires ly <= lx - 1, 1 <= lx <= 7, 0 <= ly;
    crate::fixed::lemma_div_mono(2 * (32 * ly) + lx, 32 * (2 * lx) - 1, 2 * lx);
    assert((32 * (2 * lx) - 1) / (2 * lx) <= 31) by {
        assert(32 * (2 * lx) - 1 == 31 * (2 * lx) + (2 * lx - 1)) by (nonlinear_arith);
        lemma_fundamental_div_mod_converse(32 * (2 * lx) - 1, 2 * lx, 31, 2 * lx - 1);
    }
    assert(d_outh(s) < 32);
}

/// The codec is deterministic: both directions are plain functions of
/// their input, so equal inputs always give byte-identical results.  The
/// executable encoder and decoder each pin their output to `spec_encode`
/// and `spec_render` in their contracts, so this lemma says that two runs
/// over the same bytes cannot differ.
pub proof fn lemma_codec_deterministic(
    w: int, h: int, rgba: Seq<u8>, h1: Seq<u8>, h2: Seq<u8>,
    s: Seq<u8>, k: int, p1: Seq<u8>, p2: Seq<u8>)
    requires
        h1 == spec_encode(w, h, rgba),
        h2 == spec_encode(w, h, rgba),
        p1 == spec_render(s, k),
        p2 == spec_render(s, k),
    ensures
        h1 == h2,
        p1 == p2,
{
}

} // verus!
