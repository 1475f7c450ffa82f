//! The encoder: RGBA pixels to a compact hash byte string.

use vstd::prelude::*;
use crate::fixed::in_abs;
use crate::channels::spec_l;
use crate::channels::spec_p;
use crate::channels::spec_q;
use crate::channels::spec_alpha_fp;
use crate::channels::spec_has_alpha;
use crate::channels::alpha_total;
use crate::channels::lpqa_planes;
use crate::dct::coef;
use crate::dct::acs;
use crate::dct::max_abs;
use crate::dct::quant;
use crate::dct::encode_channel;
use crate::dct::lemma_dc_nonneg;
use crate::header::spec_limit;
use crate::header::spec_max;
use crate::header::spec_lx;
use crate::header::spec_ly;
use crate::header::grid_dims;
use crate::header::q_unit;
use crate::header::q_signed6;
use crate::header::quant_unit;
use crate::header::quant_signed6;
use crate::header::spec_header24;
use crate::header::spec_header16;
use crate::header::pack_nibbles;
use crate::header::pack_levels;
use crate::header::lemma_pack_len;
use crate::header::lemma_bytes24_roundtrip;
use crate::header::lemma_bytes16_roundtrip;
use vstd::arithmetic::div_mod::lemma_div_pos_is_pos;

verus! {

/// The luminance plane of an image, as a sequence of fixed-point values.
#[verifier::opaque]
pub open spec fn plane_l(rgba: Seq<u8>, n: int) -> Seq<int> {
    Seq::new(n as nat, |i: int| spec_l(rgba, n, i))
}

/// The yellow−blue plane.
#[verifier::opaque]
pub open spec fn plane_p(rgba: Seq<u8>, n: int) -> Seq<int> {
    Seq::new(n as nat, |i: int| spec_p(rgba, n, i))
}

/// The red−green plane.
#[verifier::opaque]
pub open spec fn plane_q(rgba: Seq<u8>, n: int) -> Seq<int> {
    Seq::new(n as nat, |i: int| spec_q(rgba, n, i))
}

/// The alpha plane.
#[verifier::opaque]
pub open spec fn plane_a(rgba: Seq<u8>, n: int) -> Seq<int> {
    Seq::new(n as nat, |i: int| spec_alpha_fp(rgba, i))
}

/// Quantized AC levels of one channel, in scan order.
#[verifier::opaque]
pub open spec fn qlevels(chs: Seq<int>, w: int, h: int, nx: int, ny: int) -> Seq<u8> {
    Seq::new(acs(chs, w, h, nx, ny).len(),
        |j: int| quant(acs(chs, w, h, nx, ny)[j], max_abs(acs(chs, w, h, nx, ny))) as u8)
}

/// The luminance grid width the encoder picks for an image.
pub open spec fn enc_lx(w: int, h: int, rgba: Seq<u8>) -> int {
    spec_lx(w, h, spec_limit(spec_has_alpha(rgba, w * h)))
}

/// The luminance grid height the encoder picks for an image.
pub open spec fn enc_ly(w: int, h: int, rgba: Seq<u8>) -> int {
    spec_ly(w, h, spec_limit(spec_has_alpha(rgba, w * h)))
}

/// The packed 24-bit header word of an image.
#[verifier::opaque]
pub open spec fn enc_header24(w: int, h: int, rgba: Seq<u8>) -> int {
    let n = w * h;
    let alpha = spec_has_alpha(rgba, n);
    let gx = spec_max(3, enc_lx(w, h, rgba));
    let gy = spec_max(3, enc_ly(w, h, rgba));
    spec_header24(
        q_unit(coef(plane_l(rgba, n), w, h, 0, 0), 63),
        q_signed6(coef(plane_p(rgba, n), w, h, 0, 0)),
        q_signed6(coef(plane_q(rgba, n), w, h, 0, 0)),
        q_unit(max_abs(acs(plane_l(rgba, n), w, h, gx, gy)), 31),
        alpha,
    )
}

/// The packed 16-bit header word of an image.
#[verifier::opaque]
pub open spec fn enc_header16(w: int, h: int, rgba: Seq<u8>) -> int {
    let n = w * h;
    spec_header16(
        if w > h { enc_ly(w, h, rgba) } else { enc_lx(w, h, rgba) },
        q_unit(max_abs(acs(plane_p(rgba, n), w, h, 3, 3)), 63),
        q_unit(max_abs(acs(plane_q(rgba, n), w, h, 3, 3)), 63),
        w > h,
    )
}

/// The concatenated quantized AC levels of all channels, in channel order.
#[verifier::opaque]
pub open spec fn enc_levels(w: int, h: int, rgba: Seq<u8>) -> Seq<u8> {
    let n = w * h;
    let gx = spec_max(3, enc_lx(w, h, rgba));
    let gy = spec_max(3, enc_ly(w, h, rgba));
    qlevels(plane_l(rgba, n), w, h, gx, gy)
        + qlevels(plane_p(rgba, n), w, h, 3, 3)
        + qlevels(plane_q(rgba, n), w, h, 3, 3)
        + if spec_has_alpha(rgba, n) {
            qlevels(plane_a(rgba, n), w, h, 5, 5)
        } else {
            Seq::empty()
        }
}

/// The whole encoded hash of an image.
#[verifier::opaque]
pub open spec fn spec_encode(w: int, h: int, rgba: Seq<u8>) -> Seq<u8> {
    let n = w * h;
    let h24 = enc_header24(w, h, rgba);
    let h16 = enc_header16(w, h, rgba);
    let head = seq![
        (h24 % 256) as u8,
        ((h24 / 256) % 256) as u8,
        (h24 / 65536) as u8,
        (h16 % 256) as u8,
        (h16 / 256) as u8,
    ];
    let abyte = if spec_has_alpha(rgba, n) {
        seq![(q_unit(coef(plane_a(rgba, n), w, h, 0, 0), 15)
            + 16 * q_unit(max_abs(acs(plane_a(rgba, n), w, h, 5, 5)), 15)) as u8]
    } else {
        Seq::<u8>::empty()
    };
    head + abyte + pack_nibbles(enc_levels(w, h, rgba))
}

/// The transform outputs of one channel: DC term, AC scale, and the
/// quantized AC levels in scan order.
pub struct ChannelOut {
    /// DC coefficient, in fixed point.
    pub dc: i64,
    /// Largest absolute AC coefficient, in fixed point.
    pub scale: i64,
    /// Quantized AC levels, one nibble each.
    pub nibs: Vec<u8>,
}

/// Run the transform over all four channel planes of an image.
#[verifier::rlimit(100)]
fn transform(rgba: &[u8], w: usize, h: usize, n: usize, gx: usize, gy: usize,
    has_alpha: bool) -> (out: (ChannelOut, ChannelOut, ChannelOut, ChannelOut))
    requires
        1 <= w <= 100,
        1 <= h <= 100,
        n == w * h,
        1 <= n <= 10000,
        rgba.len() == 4 * n,
        3 <= gx <= 7,
        3 <= gy <= 7,
    ensures
        out.0.dc == coef(plane_l(rgba@, n as int), w as int, h as int, 0, 0),
        0 <= out.0.dc <= 65536,
        out.0.scale == max_abs(acs(plane_l(rgba@, n as int), w as int, h as int,
            gx as int, gy as int)),
        0 <= out.0.scale <= 65536,
        out.0.nibs@ == qlevels(plane_l(rgba@, n as int), w as int, h as int,
            gx as int, gy as int),
        out.1.dc == coef(plane_p(rgba@, n as int), w as int, h as int, 0, 0),
        in_abs(out.1.dc as int, 65536),
        out.1.scale == max_abs(acs(plane_p(rgba@, n as int), w as int, h as int, 3, 3)),
        0 <= out.1.scale <= 65536,
        out.1.nibs@ == qlevels(plane_p(rgba@, n as int), w as int, h as int, 3, 3),
        out.2.dc == coef(plane_q(rgba@, n as int), w as int, h as int, 0, 0),
        in_abs(out.2.dc as int, 65536),
        out.2.scale == max_abs(acs(plane_q(rgba@, n as int), w as int, h as int, 3, 3)),
        0 <= out.2.scale <= 65536,
        out.2.nibs@ == qlevels(plane_q(rgba@, n as int), w as int, h as int, 3, 3),
        has_alpha ==> out.3.dc == coef(plane_a(rgba@, n as int), w as int, h as int, 0, 0)
            && 0 <= out.3.dc <= 65536
            && out.3.scale == max_abs(acs(plane_a(rgba@, n as int), w as int,
                h as int, 5, 5))
            && 0 <= out.3.scale <= 65536
            && out.3.nibs@ == qlevels(plane_a(rgba@, n as int), w as int, h as int, 5, 5),
        forall|j: int| 0 <= j < out.0.nibs@.len() ==> #[trigger] out.0.nibs@[j] < 16,
        forall|j: int| 0 <= j < out.1.nibs@.len() ==> #[trigger] out.1.nibs@[j] < 16,
        forall|j: int| 0 <= j < out.2.nibs@.len() ==> #[trigger] out.2.nibs@[j] < 16,
        forall|j: int| 0 <= j < out.3.nibs@.len() ==> #[trigger] out.3.nibs@[j] < 16,
        out.0.nibs@.len() <= 64,
        out.1.nibs@.len() <= 64,
        out.2.nibs@.len() <= 64,
        out.3.nibs@.len() <= 64,
{
    let wi = Ghost(w as int);
    let hi = Ghost(h as int);
    let ni = Ghost(n as int);
    let planes = lpqa_planes(rgba, n);
    proof {
        assert forall|i: int| 0 <= i < ni@ implies
            planes.0@[i] == #[trigger] plane_l(rgba@, ni@)[i]
            && in_abs(plane_l(rgba@, ni@)[i], 65536)
            && 0 <= plane_l(rgba@, ni@)[i] by {
            reveal(plane_l);
            assert(planes.0@[i] == spec_l(rgba@, ni@, i));
        }
        assert forall|i: int| 0 <= i < ni@ implies
            planes.1@[i] == #[trigger] plane_p(rgba@, ni@)[i]
            && in_abs(plane_p(rgba@, ni@)[i], 65536) by {
            reveal(plane_p);
            assert(planes.0@[i] == spec_l(rgba@, ni@, i));
        }
        assert forall|i: int| 0 <= i < ni@ implies
            planes.2@[i] == #[trigger] plane_q(rgba@, ni@)[i]
            && in_abs(plane_q(rgba@, ni@)[i], 65536) by {
            reveal(plane_q);
            assert(planes.0@[i] == spec_l(rgba@, ni@, i));
        }
        assert forall|i: int| 0 <= i < ni@ implies
            planes.3@[i] == #[trigger] plane_a(rgba@, ni@)[i]
            && in_abs(plane_a(rgba@, ni@)[i], 65536)
            && 0 <= plane_a(rgba@, ni@)[i] by {
            reveal(plane_a);
            assert(planes.0@[i] == spec_l(rgba@, ni@, i));
        }
        assert(plane_l(rgba@, ni@).len() == ni@) by { reveal(plane_l); }
        assert(plane_p(rgba@, ni@).len() == ni@) by { reveal(plane_p); }
        assert(plane_q(rgba@, ni@).len() == ni@) by { reveal(plane_q); }
        assert(plane_a(rgba@, ni@).len() == ni@) by { reveal(plane_a); }
        crate::grid::lemma_tri_len(gx as int, gy as int, 0, 0);
        crate::grid::lemma_tri_first(gx as int, gy as int);
        crate::grid::lemma_tri_len(3, 3, 0, 0);
        crate::grid::lemma_tri_first(3, 3);
        crate::grid::lemma_tri_len(5, 5, 0, 0);
        crate::grid::lemma_tri_first(5, 5);
        assert((gy as int) * (gx as int + 1) <= 64) by (nonlinear_arith)
            requires gx <= 7, gy <= 7, 0 <= gx, 0 <= gy;
    }
    let lch = encode_channel(&planes.0, Ghost(plane_l(rgba@, ni@)), w, h, n, gx, gy);
    let pch = encode_channel(&planes.1, Ghost(plane_p(rgba@, ni@)), w, h, n, 3, 3);
    let qch = encode_channel(&planes.2, Ghost(plane_q(rgba@, ni@)), w, h, n, 3, 3);
    proof {
        lemma_dc_nonneg(plane_l(rgba@, ni@), wi@, hi@, ni@);
        lemma_div_pos_is_pos(
            crate::dct::dct_sum(plane_l(rgba@, ni@), wi@, hi@, 0, 0, wi@ * hi@),
            wi@ * hi@ * 65536 * 65536);
        assert(lch.2@ =~= qlevels(plane_l(rgba@, ni@), wi@, hi@, gx as int, gy as int))
            by { reveal(qlevels); }
        assert(pch.2@ =~= qlevels(plane_p(rgba@, ni@), wi@, hi@, 3, 3))
            by { reveal(qlevels); }
        assert(qch.2@ =~= qlevels(plane_q(rgba@, ni@), wi@, hi@, 3, 3))
            by { reveal(qlevels); }
    }
    let ach: ChannelOut = if has_alpha {
        let a = encode_channel(&planes.3, Ghost(plane_a(rgba@, ni@)), w, h, n, 5, 5);
        proof {
            lemma_dc_nonneg(plane_a(rgba@, ni@), wi@, hi@, ni@);
            lemma_div_pos_is_pos(
                crate::dct::dct_sum(plane_a(rgba@, ni@), wi@, hi@, 0, 0, wi@ * hi@),
                wi@ * hi@ * 65536 * 65536);
            assert(a.2@ =~= qlevels(plane_a(rgba@, ni@), wi@, hi@, 5, 5))
                by { reveal(qlevels); }
        }
        ChannelOut { dc: a.0, scale: a.1, nibs: a.2 }
    } else {
        ChannelOut { dc: 65536, scale: 65536, nibs: Vec::new() }
    };
    (
        ChannelOut { dc: lch.0, scale: lch.1, nibs: lch.2 },
        ChannelOut { dc: pch.0, scale: pch.1, nibs: pch.2 },
        ChannelOut { dc: qch.0, scale: qch.1, nibs: qch.2 },
        ach,
    )
}

/// Encodes an RGBA image into a hash.raight (non-premultiplied) alpha.  The result is exactly the bytes of
/// `spec_encode`, so equal inputs always give identical hashes.
#[verifier::loop_isolation(false)]
#[verifier::rlimit(100)]
pub fn rgba_to_thumb_hash(w: usize, h: usize, rgba: &[u8]) -> (hash: Vec<u8>)
    requires
        1 <= w <= 100,
        1 <= h <= 100,
        rgba.len() == w * h * 4,
    ensures
        hash@ == spec_encode(w as int, h as int, rgba@),
        hash@.len() == 5 + (if spec_has_alpha(rgba@, w * h) { 1int } else { 0int })
            + (enc_levels(w as int, h as int, rgba@).len() + 1) / 2,
{
    proof {
        assert(1 <= (w as int) * (h as int) <= 10000) by (nonlinear_arith)
            requires 1 <= w <= 100, 1 <= h <= 100;
        assert((w as int) * (h as int) * 4 == 4 * ((w as int) * (h as int)))
            by (nonlinear_arith);
    }
    let n: usize = w * h;
    let wi = Ghost(w as int);
    let hi = Ghost(h as int);
    let ni = Ghost((w * h) as int);
    let sa: u64 = alpha_total(rgba, n);
    let has_alpha: bool = sa < 255 * (n as u64);
    assert(has_alpha == spec_has_alpha(rgba@, ni@));
    let dims = grid_dims(w, h, has_alpha);
    let lx: usize = dims.0;
    let ly: usize = dims.1;
    let gx: usize = if lx < 3 { 3 } else { lx };
    let gy: usize = if ly < 3 { 3 } else { ly };
    let chans = transform(rgba, w, h, n, gx, gy, has_alpha);
    let l6: u64 = quant_unit(chans.0.dc, 63);
    let p6: u64 = quant_signed6(chans.1.dc);
    let q6: u64 = quant_signed6(chans.2.dc);
    let s5: u64 = quant_unit(chans.0.scale, 31);
    let ps6: u64 = quant_unit(chans.1.scale, 63);
    let qs6: u64 = quant_unit(chans.2.scale, 63);
    let ab: u64 = if has_alpha { 1 } else { 0 };
    let h24: u64 = l6 + 64 * (p6 + 64 * (q6 + 64 * (s5 + 32 * ab)));
    let landscape: bool = w > h;
    let lval: u64 = if landscape { ly as u64 } else { lx as u64 };
    let lb: u64 = if landscape { 1 } else { 0 };
    let h16: u64 = lval + 8 * (ps6 + 64 * (qs6 + 64 * lb));
    proof {
        assert(h24 == enc_header24(wi@, hi@, rgba@)) by {
            reveal(enc_header24);
        }
        assert(h16 == enc_header16(wi@, hi@, rgba@)) by {
            reveal(enc_header16);
        }
        lemma_bytes24_roundtrip(h24 as int);
        lemma_bytes16_roundtrip(h16 as int);
    }
    let mut hash: Vec<u8> = Vec::new();
    hash.push((h24 % 256) as u8);
    hash.push(((h24 / 256) % 256) as u8);
    hash.push((h24 / 65536) as u8);
    hash.push((h16 % 256) as u8);
    hash.push((h16 / 256) as u8);
    let mut levels: Vec<u8> = chans.0.nibs;
    push_all(&mut levels, &chans.1.nibs);
    push_all(&mut levels, &chans.2.nibs);
    if has_alpha {
        let a4: u64 = quant_unit(chans.3.dc, 15);
        let as4: u64 = quant_unit(chans.3.scale, 15);
        hash.push((a4 + 16 * as4) as u8);
        push_all(&mut levels, &chans.3.nibs);
        proof {
            assert(levels@ =~= enc_levels(wi@, hi@, rgba@)) by {
                reveal(enc_levels);
            }
        }
    } else {
        proof {
            assert(levels@ =~= enc_levels(wi@, hi@, rgba@)) by {
                reveal(enc_levels);
                assert(levels@ + Seq::<u8>::empty() =~= levels@);
            }
        }
    }
    proof {
        lemma_pack_len(levels@);
        assert(qlevels(plane_l(rgba@, ni@), wi@, hi@, gx as int, gy as int).len() <= 64)
            by { reveal(qlevels); }
    }
    let packed: Vec<u8> = pack_levels(&levels);
    push_all(&mut hash, &packed);
    proof {
        assert(hash@ =~= spec_encode(wi@, hi@, rgba@)) by {
            reveal(spec_encode);
        }
    }
    hash
}

/// Append every byte of `src` to `dst`.
#[verifier::loop_isolation(false)]
pub fn push_all(dst: &mut Vec<u8>, src: &Vec<u8>)
    requires
        old(dst).len() + src.len() <= usize::MAX,
    ensures
        final(dst)@ == old(dst)@ + src@,
{
    let mut i: usize = 0;
    proof {
        assert(dst@ =~= old(dst)@ + src@.take(0));
    }
    while i < src.len()
        invariant
            i <= src.len(),
            dst@ == old(dst)@ + src@.take(i as int),
        decreases src.len() - i,
    {
        dst.push(src[i]);
        proof {
            assert(dst@ =~= old(dst)@ + src@.take(i as int + 1));
        }
        i = i + 1;
    }
    proof {
        assert(src@.take(src.len() as int) =~= src@);
    }
}

} // verus!
