//! What the block formats of weights stand for: weights that were packed are read back.
//!
//! A weight is a scale times a quant, in exact numbers (see [`crate::rounding`]). The laws say so
//! for all scales and quants, with the bytes of a block written out from them.

use vstd::arithmetic::power2::*;
use vstd::prelude::*;

use crate::bytes::{signed8};
use crate::dequant::{
    dequantized, half_at, q4_k_in_block, q6_k_in_block, q8_0_element, quarter_unit, scale_min,
};
use crate::float::{times, widened};
use crate::rounding::{
    exact, exact_half, finite, finite_half, lemma_exact_multiple, lemma_minus, lemma_widened,
    rounds_to,
};

verus! {

/// The 16-bit number in two bytes, the low one first.
pub open spec fn half_in(data: Seq<u8>, at: int) -> u16 {
    (data[at] + 0x100 * data[at + 1]) as u16
}

/// The value of a 16-bit number, counted in `2^-149`.
pub open spec fn scale_of(bits: u16) -> int {
    exact_half(bits) * pow2(125)
}

/// Whether a byte is that of a number in two's complement.
pub open spec fn twos(byte: u8, q: int) -> bool {
    -0x80 <= q < 0x80 && (q == byte || q + 0x100 == byte)
}

proof fn lemma_scale(data: Seq<u8>, at: int)
    requires
        finite_half(half_in(data, at)),
    ensures
        finite(half_at(data, at)),
        exact(half_at(data, at)) == 1 * scale_of(half_in(data, at)),
{
    assert(half_at(data, at) == widened(half_in(data, at)));
    lemma_widened(half_in(data, at));
}

/// A weight in a block of signed bytes is exactly its block's scale times its byte in two's
/// complement. There are weights where they come in whole blocks and the data hold them.
pub proof fn lemma_q8_0(data: Seq<u8>, n: nat, i: int, q: int)
    requires
        0 <= i < n,
        n % 32 == 0,
        n / 32 * 34 <= data.len(),
        finite_half(half_in(data, i / 32 * 34)),
        twos(data[i / 32 * 34 + 2 + i % 32], q),
    ensures
        dequantized(8, data, n) is Ok,
        dequantized(8, data, n)->Ok_0.len() == n,
        ({
            let w = dequantized(8, data, n)->Ok_0[i];
            finite(w) && exact(w) == q * scale_of(half_in(data, i / 32 * 34))
        }),
{
    let base = i / 32 * 34;
    lemma_scale(data, base);
    lemma_exact_multiple(half_at(data, base), half_in(data, base), 1, q);
    assert(dequantized(8, data, n)->Ok_0[i] == q8_0_element(data, i));
}

/// Bytes whose numbers are opposite give weights that are opposite, and no weight is larger than
/// 128 times its scale.
pub proof fn lemma_q8_0_signs(data: Seq<u8>, other: Seq<u8>, n: nat, i: int)
    requires
        0 <= i < n,
        n % 32 == 0,
        n / 32 * 34 <= data.len(),
        n / 32 * 34 <= other.len(),
        finite_half(half_in(data, i / 32 * 34)),
        half_in(other, i / 32 * 34) == half_in(data, i / 32 * 34),
    ensures
        ({
            let at = i / 32 * 34 + 2 + i % 32;
            let (v, w) = (
                exact(dequantized(8, data, n)->Ok_0[i]),
                exact(dequantized(8, other, n)->Ok_0[i]),
            );
            let s = scale_of(half_in(data, i / 32 * 34));
            &&& data[at] + other[at] == 0x100 && data[at] != 0x80 ==> v == -w
            &&& v * v <= (0x80 * s) * (0x80 * s)
        }),
{
    let at = i / 32 * 34 + 2 + i % 32;
    let s = scale_of(half_in(data, i / 32 * 34));
    let p: int = if data[at] < 0x80 {
        data[at] as int
    } else {
        data[at] - 0x100
    };
    let q: int = if other[at] < 0x80 {
        other[at] as int
    } else {
        other[at] - 0x100
    };
    lemma_q8_0(data, n, i, p);
    lemma_q8_0(other, n, i, q);
    assert(p + q == 0 ==> p * s == -(q * s)) by (nonlinear_arith);
    assert((p * s) * (p * s) <= (0x80 * s) * (0x80 * s)) by (nonlinear_arith)
        requires
            -0x80 <= p <= 0x80,
    ;
}

/// The twelve bytes from `at` on hold eight scales and eight minimums of six bits: four of each in
/// the low bits of the first eight bytes, the low four bits of the others in the last four bytes,
/// and their high bits on top of the first eight.
pub open spec fn packs_scales(
    data: Seq<u8>,
    at: int,
    sc: spec_fn(int) -> int,
    mn: spec_fn(int) -> int,
) -> bool {
    &&& forall|j: int| 0 <= j < 8 ==> 0 <= #[trigger] sc(j) < 64 && 0 <= mn(j) < 64
    &&& forall|k: int|
        0 <= k < 4 ==> {
            &&& (#[trigger] data[at + k]) as int == sc(k) + 64 * (sc(k + 4) / 16)
            &&& data[at + 4 + k] as int == mn(k) + 64 * (mn(k + 4) / 16)
            &&& data[at + 8 + k] as int == sc(k + 4) % 16 + 16 * (mn(k + 4) % 16)
        }
}

/// Scales and minimums that were packed are read back.
pub proof fn lemma_scales_read_back(
    data: Seq<u8>,
    at: int,
    sc: spec_fn(int) -> int,
    mn: spec_fn(int) -> int,
    j: int,
)
    requires
        packs_scales(data, at, sc, mn),
        0 <= j < 8,
    ensures
        scale_min(j, data, at).0 == sc(j),
        scale_min(j, data, at).1 == mn(j),
{
    let k = if j < 4 {
        j
    } else {
        j - 4
    };
    assert(data[at + k] as int == sc(k) + 64 * (sc(k + 4) / 16));
    assert(0 <= sc(k) < 64 && 0 <= sc(k + 4) < 64);
}

/// The super-block at `base` holds 4-bit quants with these scales: the two numbers that all share,
/// the scales and minimums of the eight sub-blocks, then the quants of each two sub-blocks in the
/// low and the high halves of 32 bytes.
pub open spec fn packs_q4_k(
    data: Seq<u8>,
    base: int,
    sc: spec_fn(int) -> int,
    mn: spec_fn(int) -> int,
    q: spec_fn(int) -> int,
) -> bool {
    &&& packs_scales(data, base + 4, sc, mn)
    &&& forall|r: int| 0 <= r < 256 ==> 0 <= #[trigger] q(r) < 16
    &&& forall|p: int, l: int|
        0 <= p < 4 && 0 <= l < 32 ==> (#[trigger] data[base + 16 + 32 * p + l]) as int == q(
            64 * p + l,
        ) + 16 * q(64 * p + 32 + l)
}

/// A weight in a super-block of 4-bit quants is its scale times its quant less its minimum,
/// correctly rounded.
pub proof fn lemma_q4_k(
    data: Seq<u8>,
    n: nat,
    i: int,
    sc: spec_fn(int) -> int,
    mn: spec_fn(int) -> int,
    q: spec_fn(int) -> int,
)
    requires
        0 <= i < n,
        n % 256 == 0,
        n / 256 * 144 <= data.len(),
        finite_half(half_in(data, i / 256 * 144)),
        finite_half(half_in(data, i / 256 * 144 + 2)),
        packs_q4_k(data, i / 256 * 144, sc, mn, q),
    ensures
        dequantized(12, data, n) is Ok,
        dequantized(12, data, n)->Ok_0.len() == n,
        ({
            let base = i / 256 * 144;
            let r = i % 256;
            rounds_to(
                (sc(r / 32) * q(r)) * scale_of(half_in(data, base)) - mn(r / 32) * scale_of(
                    half_in(data, base + 2),
                ),
                0,
                dequantized(12, data, n)->Ok_0[i],
            )
        }),
{
    let base = i / 256 * 144;
    let r = i % 256;
    let j = r / 32;
    let (p, l) = (j / 2, r % 32);
    let (d, dmin) = (half_in(data, base), half_in(data, base + 2));
    lemma_scales_read_back(data, base + 4, sc, mn, j);
    lemma_scale(data, base);
    lemma_scale(data, base + 2);
    let packed = data[base + 16 + 32 * p + l];
    assert(packed as int == q(64 * p + l) + 16 * q(64 * p + 32 + l));
    assert(0 <= q(64 * p + l) < 16 && 0 <= q(64 * p + 32 + l) < 16);
    let got: int = if j % 2 == 0 {
        packed as int % 16
    } else {
        packed as int / 16
    };
    assert(got == q(r));
    assert(0 <= sc(j) < 64 && 0 <= mn(j) < 64);
    let (s, m, k) = (sc(j), mn(j), q(r));
    lemma_exact_multiple(half_at(data, base), d, 1, s);
    let ds = times(half_at(data, base), s);
    assert(0 <= k * s <= 0x1000) by (nonlinear_arith)
        requires
            0 <= k < 16,
            0 <= s < 64,
    ;
    lemma_exact_multiple(ds, d, s, k);
    lemma_exact_multiple(half_at(data, base + 2), dmin, 1, m);
    assert(k * s == s * k) by (nonlinear_arith);
    lemma_minus(times(ds, k), times(half_at(data, base + 2), m));
    assert(dequantized(12, data, n)->Ok_0[i] == q4_k_in_block(data, base, r));
}

/// The super-block at `base` holds 6-bit quants, less 32, with these scales. In each half of the
/// block the low four bits of the quants lie in 64 bytes, those of the second 64 quants on top of
/// those of the first; their high two bits lie in 32 bytes, four quants that are 32 apart to a
/// byte. Then come sixteen scales in two's complement and the number that all share.
pub open spec fn packs_q6_k(
    data: Seq<u8>,
    base: int,
    sc: spec_fn(int) -> int,
    q: spec_fn(int) -> int,
) -> bool {
    &&& forall|r: int| 0 <= r < 256 ==> 0 <= #[trigger] q(r) < 64
    &&& forall|h: int, l: int|
        0 <= h < 2 && 0 <= l < 64 ==> (#[trigger] data[base + 64 * h + l]) as int == q(
            128 * h + l,
        ) % 16 + 16 * (q(128 * h + 64 + l) % 16)
    &&& forall|h: int, l: int|
        0 <= h < 2 && 0 <= l < 32 ==> (#[trigger] data[base + 128 + 32 * h + l]) as int == q(
            128 * h + l,
        ) / 16 + 4 * (q(128 * h + 32 + l) / 16) + 16 * (q(128 * h + 64 + l) / 16) + 64 * (q(
            128 * h + 96 + l,
        ) / 16)
    &&& forall|k: int| 0 <= k < 16 ==> twos(#[trigger] data[base + 192 + k], sc(k))
}

proof fn lemma_quarters(a: int, b: int, c: int, d: int)
    requires
        0 <= a < 4,
        0 <= b < 4,
        0 <= c < 4,
        0 <= d < 4,
    ensures
        ({
            let packed = a + 4 * b + 16 * c + 64 * d;
            &&& packed / quarter_unit(0) % 4 == a
            &&& packed / quarter_unit(1) % 4 == b
            &&& packed / quarter_unit(2) % 4 == c
            &&& packed / quarter_unit(3) % 4 == d
        }),
{
}

/// The quant and the scale that a block holds for a weight.
proof fn lemma_six_bits(
    data: Seq<u8>,
    base: int,
    sc: spec_fn(int) -> int,
    q: spec_fn(int) -> int,
    r: int,
)
    requires
        packs_q6_k(data, base, sc, q),
        0 <= r < 256,
    ensures
        q6_k_in_block(data, base, r) == times(
            times(half_at(data, base + 208), sc(r / 16)),
            q(r) - 32,
        ),
        0 <= q(r) < 64,
        -0x80 <= sc(r / 16) < 0x80,
{
    let (h, g, l) = (r / 128, r % 128 / 32, r % 32);
    let t = 32 * (g % 2) + l;
    let (x, y) = (q(128 * h + t), q(128 * h + 64 + t));
    let (a, b, c, d) = (
        q(128 * h + l),
        q(128 * h + 32 + l),
        q(128 * h + 64 + l),
        q(128 * h + 96 + l),
    );
    let packed = data[base + 64 * h + t] as int;
    let tops = data[base + 128 + 32 * h + l] as int;
    assert(packed == x % 16 + 16 * (y % 16));
    assert(tops == a / 16 + 4 * (b / 16) + 16 * (c / 16) + 64 * (d / 16));
    assert(0 <= a < 64 && 0 <= b < 64 && 0 <= c < 64 && 0 <= d < 64);
    assert(0 <= x < 64 && 0 <= y < 64);
    lemma_quarters(a / 16, b / 16, c / 16, d / 16);
    assert(twos(data[base + 192 + r / 16], sc(r / 16)));
    assert(8 * h + 2 * g + l / 16 == r / 16);
    assert(base + 192 + 8 * h + 2 * g + l / 16 == base + 192 + r / 16);
    assert(signed8(data[base + 192 + r / 16]) == sc(r / 16));
    assert(base + 64 * h + 32 * (g % 2) + l == base + 64 * h + t);
    let low = if g < 2 {
        packed % 16
    } else {
        packed / 16
    };
    let high = tops / quarter_unit(g) % 4;
    assert(r == 128 * h + 32 * g + l);
    if g == 0 {
        assert(q(r) == a && q(r) == x);
    } else if g == 1 {
        assert(q(r) == b && q(r) == x);
    } else if g == 2 {
        assert(q(r) == c && q(r) == y);
    } else {
        assert(g == 3);
        assert(q(r) == d && q(r) == y);
    }
    assert(low + 16 * high == q(r));
}

/// A weight in a super-block of 6-bit quants is exactly the number that all share times its scale
/// times its quant less 32.
pub proof fn lemma_q6_k(
    data: Seq<u8>,
    n: nat,
    i: int,
    sc: spec_fn(int) -> int,
    q: spec_fn(int) -> int,
)
    requires
        0 <= i < n,
        n % 256 == 0,
        n / 256 * 210 <= data.len(),
        finite_half(half_in(data, i / 256 * 210 + 208)),
        packs_q6_k(data, i / 256 * 210, sc, q),
    ensures
        dequantized(14, data, n) is Ok,
        dequantized(14, data, n)->Ok_0.len() == n,
        ({
            let base = i / 256 * 210;
            let r = i % 256;
            let w = dequantized(14, data, n)->Ok_0[i];
            finite(w) && exact(w) == ((q(r) - 32) * sc(r / 16)) * scale_of(
                half_in(data, base + 208),
            )
        }),
{
    let base = i / 256 * 210;
    let r = i % 256;
    let d = half_in(data, base + 208);
    lemma_scale(data, base + 208);
    let (s, k) = (sc(r / 16), q(r) - 32);
    lemma_six_bits(data, base, sc, q, r);
    lemma_exact_multiple(half_at(data, base + 208), d, 1, s);
    let ds = times(half_at(data, base + 208), s);
    assert(-0x1000 <= k * s <= 0x1000) by (nonlinear_arith)
        requires
            -32 <= k < 32,
            -0x80 <= s < 0x80,
    ;
    lemma_exact_multiple(ds, d, s, k);
    assert(dequantized(14, data, n)->Ok_0[i] == q6_k_in_block(data, base, r));
}

/// Plain numbers are read as they are, 32-bit ones by their four bytes and 16-bit ones by their
/// value, whatever follows them.
pub proof fn lemma_plain(data: Seq<u8>, n: nat, i: int)
    requires
        0 <= i < n,
    ensures
        4 * n <= data.len() ==> dequantized(0, data, n) is Ok && dequantized(0, data, n)->Ok_0.len()
            == n && dequantized(0, data, n)->Ok_0[i] == data[4 * i] + 0x100 * data[4 * i + 1]
            + 0x1_0000 * data[4 * i + 2] + 0x100_0000 * data[4 * i + 3],
        2 * n <= data.len() ==> dequantized(1, data, n) is Ok && dequantized(1, data, n)->Ok_0.len()
            == n && (finite_half(half_in(data, 2 * i)) ==> exact(
            dequantized(1, data, n)->Ok_0[i],
        ) == scale_of(half_in(data, 2 * i))),
{
    if 2 * n <= data.len() && finite_half(half_in(data, 2 * i)) {
        lemma_scale(data, 2 * i);
    }
}

} // verus!
