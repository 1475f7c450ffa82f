//! The wire format: header fields, byte layout and nibble packing.
//!
//! The first five bytes carry, little-endian within two packed words, the
//! quantized DC values, the AC scales, the alpha flag, the stored grid limit
//! and the orientation flag.  A sixth byte carries the alpha DC and scale
//! when the alpha flag is set.  All later bytes hold two 4-bit AC levels
//! each, low nibble first.

use vstd::prelude::*;
use crate::fixed::rdiv;
use crate::fixed::div_round;
use crate::fixed::lemma_rdiv_le;
use vstd::arithmetic::div_mod::lemma_fundamental_div_mod;
use vstd::arithmetic::div_mod::lemma_fundamental_div_mod_converse;
use vstd::arithmetic::div_mod::lemma_div_denominator;

verus! {

/// Luminance grid budget: 7 cells on the long side, or 5 with alpha.
pub open spec fn spec_limit(has_alpha: bool) -> int {
    if has_alpha {
        5
    } else {
        7
    }
}

/// Larger of two values.
pub open spec fn spec_max(a: int, b: int) -> int {
    if a >= b {
        a
    } else {
        b
    }
}

/// Luminance grid width chosen by the encoder.
pub open spec fn spec_lx(w: int, h: int, l_limit: int) -> int {
    spec_max(1, rdiv(l_limit * w, spec_max(w, h)))
}

/// Luminance grid height chosen by the encoder.
pub open spec fn spec_ly(w: int, h: int, l_limit: int) -> int {
    spec_max(1, rdiv(l_limit * h, spec_max(w, h)))
}

/// On the long side the grid always gets the full budget.
pub proof fn lemma_grid_long_side(a: int, m: int, l_limit: int)
    requires
        1 <= a <= m,
        1 <= l_limit,
    ensures
        rdiv(l_limit * m, m) == l_limit,
        1 <= spec_max(1, rdiv(l_limit * a, m)) <= l_limit,
{
    assert(2 * (l_limit * m) + m == l_limit * (2 * m) + m) by (nonlinear_arith);
    lemma_fundamental_div_mod_converse(2 * (l_limit * m) + m, 2 * m, l_limit, m);
    assert(l_limit * a <= l_limit * m && 0 <= l_limit * a) by (nonlinear_arith)
        requires 1 <= a <= m, 1 <= l_limit;
    lemma_rdiv_le(l_limit * a, m, l_limit);
}

/// The encoder's grid dimensions for an image of `w × h` pixels.
pub fn grid_dims(w: usize, h: usize, has_alpha: bool) -> (d: (usize, usize))
    requires
        1 <= w <= 100,
        1 <= h <= 100,
    ensures
        d.0 == spec_lx(w as int, h as int, spec_limit(has_alpha)),
        d.1 == spec_ly(w as int, h as int, spec_limit(has_alpha)),
        1 <= d.0 <= spec_limit(has_alpha),
        1 <= d.1 <= spec_limit(has_alpha),
        w >= h ==> d.0 == spec_limit(has_alpha),
        h >= w ==> d.1 == spec_limit(has_alpha),
{
    let l_limit: usize = if has_alpha { 5 } else { 7 };
    let m: usize = if w >= h { w } else { h };
    proof {
        lemma_grid_long_side(w as int, m as int, l_limit as int);
        lemma_grid_long_side(h as int, m as int, l_limit as int);
    }
    let rx: u64 = div_round((l_limit * w) as u64, m as u64);
    let ry: u64 = div_round((l_limit * h) as u64, m as u64);
    let lx: usize = if rx < 1 { 1 } else { rx as usize };
    let ly: usize = if ry < 1 { 1 } else { ry as usize };
    (lx, ly)
}

/// Quantize a DC or scale value in [0, FP] to `levels` steps.
pub open spec fn q_unit(v: int, levels: int) -> int {
    rdiv(levels * v, 65536)
}

/// Quantize a signed DC value in [-FP, FP] to 6 bits.
pub open spec fn q_signed6(v: int) -> int {
    (126 * (65536 + v) + 2 * 65536) / ((4 * 65536) as int)
}

/// Exec counterpart of `q_unit`.
pub fn quant_unit(v: i64, levels: u64) -> (q: u64)
    requires
        0 <= v <= 65536,
        1 <= levels <= 63,
    ensures
        q == q_unit(v as int, levels as int),
        q <= levels,
{
    proof {
        assert(levels * v <= levels * 65536 && 0 <= levels * v) by (nonlinear_arith)
            requires 0 <= v <= 65536, 0 <= levels;
        assert(levels * 65536 == 65536 * (levels as int)) by (nonlinear_arith);
        lemma_rdiv_le(levels as int * v as int, 65536, levels as int);
    }
    div_round(levels * (v as u64), 65536)
}

/// Exec counterpart of `q_signed6`.
pub fn quant_signed6(v: i64) -> (q: u64)
    requires
        -65536 <= v <= 65536,
    ensures
        q == q_signed6(v as int),
        q <= 63,
{
    let num: u64 = (126 * (65536 + v) + 2 * 65536) as u64;
    proof {
        assert(num <= 254 * 65536);
        lemma_fundamental_div_mod_converse(
            (254 * 65536) as int, (4 * 65536) as int, 63, (2 * 65536) as int);
        crate::fixed::lemma_div_mono(num as int, (254 * 65536) as int, (4 * 65536) as int);
    }
    num / (4 * 65536)
}

/// The packed 24-bit header word.
pub open spec fn spec_header24(l6: int, p6: int, q6: int, s5: int, alpha: bool) -> int {
    l6 + 64 * (p6 + 64 * (q6 + 64 * (s5 + 32 * (if alpha { 1int } else { 0int }))))
}

/// The packed 16-bit header word.
pub open spec fn spec_header16(lval: int, ps6: int, qs6: int, landscape: bool) -> int {
    lval + 8 * (ps6 + 64 * (qs6 + 64 * (if landscape { 1int } else { 0int })))
}

/// Split a value below 2^24 into three little-endian bytes.
pub open spec fn spec_bytes24(v: int) -> Seq<int> {
    seq![v % 256, (v / 256) % 256, v / 65536]
}

/// Split a value below 2^16 into two little-endian bytes.
pub open spec fn spec_bytes16(v: int) -> Seq<int> {
    seq![v % 256, v / 256]
}

/// Rebuilding a 24-bit word from its bytes gives the word back.
pub proof fn lemma_bytes24_roundtrip(v: int)
    requires
        0 <= v < 0x1000000,
    ensures
        spec_bytes24(v)[0] + 256 * spec_bytes24(v)[1] + 65536 * spec_bytes24(v)[2] == v,
        0 <= spec_bytes24(v)[0] < 256,
        0 <= spec_bytes24(v)[1] < 256,
        0 <= spec_bytes24(v)[2] < 256,
{
    lemma_fundamental_div_mod(v, 256);
    lemma_fundamental_div_mod(v / 256, 256);
    lemma_div_denominator(v, 256, 256);
    assert(256 * ((v / 256) % 256 + 256 * (v / 65536))
        == 256 * ((v / 256) % 256) + 65536 * (v / 65536)) by (nonlinear_arith);
    assert(v / 65536 < 256) by {
        crate::fixed::lemma_div_mono(v, 0xffffff, 65536);
    }
    vstd::arithmetic::div_mod::lemma_mod_bound(v, 256);
    vstd::arithmetic::div_mod::lemma_mod_bound(v / 256, 256);
    vstd::arithmetic::div_mod::lemma_div_pos_is_pos(v, 256);
    vstd::arithmetic::div_mod::lemma_div_pos_is_pos(v, 65536);
}

/// Rebuilding a 16-bit word from its bytes gives the word back.
pub proof fn lemma_bytes16_roundtrip(v: int)
    requires
        0 <= v < 0x10000,
    ensures
        spec_bytes16(v)[0] + 256 * spec_bytes16(v)[1] == v,
        0 <= spec_bytes16(v)[0] < 256,
        0 <= spec_bytes16(v)[1] < 256,
{
    lemma_fundamental_div_mod(v, 256);
    vstd::arithmetic::div_mod::lemma_mod_bound(v, 256);
    vstd::arithmetic::div_mod::lemma_div_pos_is_pos(v, 256);
    crate::fixed::lemma_div_mono(v, 0xffff, 256);
}

/// Extracting a 6-bit field packed at the bottom of a word.
pub proof fn lemma_unpack(lo: int, base: int, hi: int)
    requires
        0 <= lo < base,
        0 <= hi,
        1 <= base,
    ensures
        (lo + base * hi) % base == lo,
        (lo + base * hi) / base == hi,
{
    assert(lo + base * hi == hi * base + lo) by (nonlinear_arith);
    lemma_fundamental_div_mod_converse(lo + base * hi, base, hi, lo);
}

/// Two 4-bit levels packed into each byte, low nibble first; a trailing
/// odd level occupies a byte of its own.
pub open spec fn pack_nibbles(nibs: Seq<u8>) -> Seq<u8>
    decreases nibs.len(),
{
    if nibs.len() == 0 {
        Seq::empty()
    } else if nibs.len() == 1 {
        seq![nibs[0]]
    } else {
        seq![(nibs[0] + 16 * nibs[1]) as u8] + pack_nibbles(nibs.skip(2))
    }
}

/// Packing emits one byte for every two levels, rounded up.
pub proof fn lemma_pack_len(nibs: Seq<u8>)
    ensures
        pack_nibbles(nibs).len() == (nibs.len() + 1) / 2,
    decreases nibs.len(),
{
    if nibs.len() >= 2 {
        lemma_pack_len(nibs.skip(2));
    }
}

/// Exec nibble packer; see `pack_nibbles`.
#[verifier::loop_isolation(false)]
pub fn pack_levels(nibs: &Vec<u8>) -> (out: Vec<u8>)
    requires
        forall|j: int| 0 <= j < nibs.len() ==> #[trigger] nibs@[j] < 16,
        nibs.len() <= 300,
    ensures
        out@ == pack_nibbles(nibs@),
        out.len() == (nibs.len() + 1) / 2,
{
    proof {
        lemma_pack_len(nibs@);
    }
    let mut out: Vec<u8> = Vec::new();
    let mut j: usize = 0;
    proof {
        assert(nibs@.skip(0) =~= nibs@);
        assert(Seq::<u8>::empty() + pack_nibbles(nibs@) =~= pack_nibbles(nibs@));
    }
    while j + 1 < nibs.len()
        invariant
            j % 2 == 0,
            j <= nibs.len(),
            pack_nibbles(nibs@) == out@ + pack_nibbles(nibs@.skip(j as int)),
            out.len() == j / 2,
        decreases nibs.len() - j,
    {
        let b: u8 = nibs[j] + 16 * nibs[j + 1];
        proof {
            let rest = nibs@.skip(j as int);
            assert(rest[0] == nibs@[j as int] && rest[1] == nibs@[j as int + 1]);
            assert(pack_nibbles(rest)
                == seq![(rest[0] + 16 * rest[1]) as u8] + pack_nibbles(rest.skip(2)));
            assert(rest.skip(2) =~= nibs@.skip(j as int + 2));
            assert(out@.push(b) + pack_nibbles(nibs@.skip(j as int + 2))
                =~= out@ + pack_nibbles(nibs@.skip(j as int)));
        }
        out.push(b);
        j = j + 2;
    }
    if j < nibs.len() {
        let b: u8 = nibs[j];
        proof {
            let rest = nibs@.skip(j as int);
            assert(rest.len() == 1);
            assert(rest[0] == nibs@[j as int]);
            assert(pack_nibbles(rest) == seq![rest[0]]);
            assert(out@.push(b) =~= out@ + pack_nibbles(nibs@.skip(j as int)));
        }
        out.push(b);
    } else {
        proof {
            assert(nibs@.skip(j as int) =~= Seq::<u8>::empty());
            assert(out@ + pack_nibbles(nibs@.skip(j as int)) =~= out@);
        }
    }
    out
}

} // verus!
