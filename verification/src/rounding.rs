//! What the arithmetic on bit patterns computes, in exact numbers.
//!
//! The value of a pattern is counted in the least magnitude of its format, so that every finite
//! value is an integer. The laws compare results with exact sums and products: no number of the
//! format lies closer, and of two that lie as close the one with the even last digit is taken.

use vstd::arithmetic::div_mod::*;
use vstd::arithmetic::power2::*;
use vstd::prelude::*;

use crate::float::{
    bit_length, decode, double, half, halved, in_units, lemma_bit_length_bounds,
    lemma_half_even_of, lemma_pow2_monotone, minus, narrowed, nearest, of_int, single, times,
    unit_exponent, widened, Format,
};

verus! {

/// The magnitude of a code of a format with significands of `digits` digits, counted in the least
/// magnitude of the format.
pub open spec fn units(digits: nat, code: nat) -> nat {
    let hidden = pow2((digits - 1) as nat);
    if code < hidden {
        code
    } else {
        (code % hidden + hidden) * pow2((code / hidden - 1) as nat)
    }
}

/// `n` with a sign.
pub open spec fn with(neg: bool, n: nat) -> int {
    if neg {
        -(n as int)
    } else {
        n as int
    }
}

/// Whether a 32-bit pattern stands for a finite number.
pub open spec fn finite(bits: u32) -> bool {
    bits % 0x8000_0000 < 0x7F80_0000
}

/// The value of a 32-bit number, counted in `2^-149`.
pub open spec fn exact(bits: u32) -> int {
    with(bits >= 0x8000_0000, units(24, (bits % 0x8000_0000) as nat))
}

/// Whether a 16-bit pattern stands for a finite number.
pub open spec fn finite_half(bits: u16) -> bool {
    bits % 0x8000 < 0x7C00
}

/// The value of a 16-bit number, counted in `2^-24`.
pub open spec fn exact_half(bits: u16) -> int {
    with(bits >= 0x8000, units(11, (bits % 0x8000) as nat))
}

/// Whether a 64-bit pattern stands for a finite number.
pub open spec fn finite_double(bits: u64) -> bool {
    bits % 0x8000_0000_0000_0000 < 0x7FF0_0000_0000_0000
}

/// The value of a 64-bit number, counted in `2^-1074`.
pub open spec fn exact_double(bits: u64) -> int {
    with(
        bits >= 0x8000_0000_0000_0000,
        units(53, (bits % 0x8000_0000_0000_0000) as nat),
    )
}

/// How far two numbers are apart.
pub open spec fn apart(a: int, b: int) -> int {
    if a < b {
        b - a
    } else {
        a - b
    }
}

/// The value of the code whose last digit counts `2^e` and whose significand is `q`, a carry into
/// the next digit included.
proof fn lemma_units_of(digits: nat, e: nat, q: nat)
    requires
        digits >= 1,
        q <= 2 * pow2((digits - 1) as nat),
        e > 0 ==> q >= pow2((digits - 1) as nat),
    ensures
        units(digits, e * pow2((digits - 1) as nat) + q) == q * pow2(e),
{
    let h = pow2((digits - 1) as nat);
    lemma_pow2_pos((digits - 1) as nat);
    lemma2_to64();
    let code = e * h + q;
    if q < h {
        assert(e * h == 0) by (nonlinear_arith)
            requires
                e == 0,
        ;
        assert(q * pow2(0) == q);
    } else if q < 2 * h {
        assert(code == (e + 1) * h + (q - h) && code >= h) by (nonlinear_arith)
            requires
                code == e * h + q,
                q >= h,
                e >= 0,
                h >= 0,
        ;
        lemma_fundamental_div_mod_converse(code as int, h as int, e as int + 1, q - h);
    } else {
        assert(code == (e + 2) * h + 0 && code >= h) by (nonlinear_arith)
            requires
                code == e * h + q,
                q == 2 * h,
                e >= 0,
                h >= 0,
        ;
        lemma_fundamental_div_mod_converse(code as int, h as int, e as int + 2, 0);
        lemma_pow2_unfold(e + 1);
        assert(h * pow2(e + 1) == q * pow2(e)) by (nonlinear_arith)
            requires
                q == 2 * h,
                pow2(e + 1) == 2 * pow2(e),
        ;
    }
}

/// The significand that a number is rounded to has the digits of the format, or one carry more.
proof fn lemma_significand(f: Format, mag: nat, exp: int)
    requires
        f.digits >= 1,
        mag > 0,
    ensures
        ({
            let u = unit_exponent(f, mag, exp);
            let q = in_units(mag, exp, u);
            let h = pow2((f.digits - 1) as nat);
            &&& q <= 2 * h
            &&& u > f.least ==> q >= h
            &&& u > f.least ==> (exp >= u ==> mag * pow2((exp - u) as nat) >= h) && (exp < u
                ==> mag >= h * pow2((u - exp) as nat))
        }),
{
    let u = unit_exponent(f, mag, exp);
    let d = f.digits;
    let h = pow2((d - 1) as nat);
    let b = bit_length(mag);
    lemma_bit_length_bounds(mag);
    lemma_pow2_unfold(d);
    lemma_pow2_pos((d - 1) as nat);
    if u >= exp {
        let t = (u - exp) as nat;
        lemma_pow2_pos(t);
        lemma_fundamental_div_mod(mag as int, pow2(t) as int);
        lemma_mod_bound(mag as int, pow2(t) as int);
        let (q, r) = (mag / pow2(t), mag % pow2(t));
        lemma_pow2_adds(d, t);
        lemma_pow2_monotone(b, d + t);
        assert(q < pow2(d)) by (nonlinear_arith)
            requires
                mag == pow2(t) * q + r,
                r >= 0,
                mag < pow2(d) * pow2(t),
                pow2(t) > 0,
        ;
        if u > f.least {
            lemma_pow2_adds((d - 1) as nat, t);
            assert(b - 1 == d - 1 + t);
            assert(q >= h) by (nonlinear_arith)
                requires
                    mag == pow2(t) * q + r,
                    r < pow2(t),
                    mag >= h * pow2(t),
                    pow2(t) > 0,
            ;
            if exp == u {
                lemma2_to64();
                assert(mag * pow2(0) == mag && h * pow2(0) == h) by (nonlinear_arith)
                    requires
                        pow2(0) == 1,
                ;
            }
        }
    } else {
        let k = (exp - u) as nat;
        let q = mag * pow2(k);
        lemma_pow2_pos(k);
        lemma_pow2_adds(b, k);
        lemma_pow2_adds((b - 1) as nat, k);
        lemma_pow2_monotone(b + k, d);
        assert(q < pow2(b) * pow2(k) && q >= pow2((b - 1) as nat) * pow2(k)) by (nonlinear_arith)
            requires
                q == mag * pow2(k),
                pow2((b - 1) as nat) <= mag < pow2(b),
                pow2(k) > 0,
        ;
        if u > f.least {
            assert(b - 1 + k == d - 1);
        }
    }
}

/// The value of what a number is rounded to.
proof fn lemma_nearest_units(f: Format, mag: nat, exp: int)
    requires
        f.digits >= 1,
        mag > 0,
        nearest(f, mag, exp) < f.infinity,
    ensures
        ({
            let u = unit_exponent(f, mag, exp);
            &&& u >= f.least
            &&& nearest(f, mag, exp) == (u - f.least) * pow2((f.digits - 1) as nat) + in_units(
                mag,
                exp,
                u,
            )
            &&& units(f.digits, nearest(f, mag, exp)) == in_units(mag, exp, u) * pow2(
                (u - f.least) as nat,
            )
        }),
{
    let u = unit_exponent(f, mag, exp);
    lemma_significand(f, mag, exp);
    let (e, h) = ((u - f.least) as nat, pow2((f.digits - 1) as nat));
    assert(e * h >= 0) by (nonlinear_arith)
        requires
            e >= 0,
            h >= 0,
    ;
    lemma_units_of(f.digits, e, in_units(mag, exp, u));
}

/// A multiple of the unit that is not the one rounded to is at least as far away, and as far only
/// where the one rounded to is even.
proof fn lemma_multiples(p: int, x: int, q: int, m: int, tie: bool)
    requires
        p > 0,
        2 * apart(q * p, x) <= p,
        2 * apart(q * p, x) == p ==> tie,
        m != q,
    ensures
        apart(q * p, x) <= apart(m * p, x),
        apart(q * p, x) == apart(m * p, x) ==> tie,
{
    assert((m >= q + 1 ==> m * p >= q * p + p) && (m <= q - 1 ==> m * p <= q * p - p))
        by (nonlinear_arith)
        requires
            p > 0,
    ;
}

/// How the exact number lies to what it is rounded to, in units of which both are multiples.
proof fn lemma_rounded(f: Format, mag: nat, exp: int, s: nat)
    requires
        f.digits >= 1,
        mag > 0,
        exp - f.least + s >= 0,
    ensures
        ({
            let u = unit_exponent(f, mag, exp);
            let q = in_units(mag, exp, u);
            let p = pow2((u - f.least) as nat) * pow2(s);
            let x = mag * pow2((exp - f.least + s) as nat);
            &&& p > 0
            &&& 2 * apart((q * p) as int, x as int) <= p
            &&& 2 * apart((q * p) as int, x as int) == p ==> q % 2 == 0
            &&& u > f.least ==> x >= pow2((f.digits - 1) as nat) * p
        }),
{
    let u = unit_exponent(f, mag, exp);
    let q = in_units(mag, exp, u);
    let e = (u - f.least) as nat;
    let p = pow2(e) * pow2(s);
    let w = (exp - f.least + s) as nat;
    let x = mag * pow2(w);
    let h = pow2((f.digits - 1) as nat);
    lemma_significand(f, mag, exp);
    lemma_pow2_adds(e, s);
    lemma_pow2_pos(e + s);
    lemma_pow2_pos(w);
    if u >= exp {
        let t = (u - exp) as nat;
        lemma_pow2_adds(t, w);
        lemma_pow2_pos(t);
        lemma_fundamental_div_mod(mag as int, pow2(t) as int);
        lemma_mod_bound(mag as int, pow2(t) as int);
        let (d, r) = (mag / pow2(t), mag % pow2(t));
        let (pt, pw) = (pow2(t), pow2(w));
        assert(p == pt * pw);
        assert(x == d * p + r * pw && 2 * (r * pw) < 2 * p && (d + 1) * p == d * p + p
            && r * pw >= 0) by (nonlinear_arith)
            requires
                mag == pt * d + r,
                p == pt * pw,
                x == mag * pw,
                0 <= r < pt,
                pw > 0,
        ;
        assert((2 * r > pt) == (2 * (r * pw) > p) && (2 * r == pt) == (2 * (r * pw) == p))
            by (nonlinear_arith)
            requires
                p == pt * pw,
                pw > 0,
        ;
        assert(q == d || q == d + 1);
        if u > f.least {
            if exp == u {
                lemma2_to64();
                assert(mag * pow2(0) == mag && h * pow2(0) == h) by (nonlinear_arith)
                    requires
                        pow2(0) == 1,
                ;
            }
            assert(x >= h * p) by (nonlinear_arith)
                requires
                    mag >= h * pt,
                    p == pt * pw,
                    x == mag * pw,
                    pw > 0,
            ;
        }
    } else {
        let k = (exp - u) as nat;
        lemma_pow2_adds(k, e + s);
        assert(x == q * p && (q >= h ==> x >= h * p)) by (nonlinear_arith)
            requires
                x == mag * pow2(w),
                pow2(w) == pow2(k) * p,
                q == mag * pow2(k),
                p >= 0,
        ;
    }
}

/// No number of a format lies closer to `mag * 2^exp` than the one that it is rounded to, and of
/// two that lie as close the one with the even last digit is taken. Both are counted in `2^-s` of
/// the least magnitude of the format.
pub proof fn lemma_nearest(f: Format, mag: nat, exp: int, s: nat, c: nat)
    requires
        f.digits >= 2,
        exp - f.least + s >= 0,
        nearest(f, mag, exp) < f.infinity,
    ensures
        ({
            let x = (mag * pow2((exp - f.least + s) as nat)) as int;
            let got = (units(f.digits, nearest(f, mag, exp)) * pow2(s)) as int;
            let other = (units(f.digits, c) * pow2(s)) as int;
            &&& apart(got, x) <= apart(other, x)
            &&& got != other && apart(got, x) == apart(other, x) ==> nearest(f, mag, exp) % 2 == 0
        }),
{
    let code = nearest(f, mag, exp);
    let h = pow2((f.digits - 1) as nat);
    let w = (exp - f.least + s) as nat;
    let x = mag * pow2(w);
    lemma_pow2_pos((f.digits - 1) as nat);
    lemma_pow2_unfold((f.digits - 1) as nat);
    lemma_pow2_pos(s);
    if mag == 0 {
        assert(x == 0) by (nonlinear_arith)
            requires
                mag == 0,
                x == mag * pow2(w),
        ;
        assert(0 * pow2(s) == 0);
        assert(units(f.digits, c) * pow2(s) >= 0) by (nonlinear_arith)
            requires
                units(f.digits, c) >= 0,
                pow2(s) > 0,
        ;
    } else {
        let u = unit_exponent(f, mag, exp);
        let e = (u - f.least) as nat;
        let q = in_units(mag, exp, u);
        let p = pow2(e) * pow2(s);
        lemma_nearest_units(f, mag, exp);
        lemma_rounded(f, mag, exp, s);
        lemma_significand(f, mag, exp);
        let got = units(f.digits, code) * pow2(s);
        assert(got == q * p) by (nonlinear_arith)
            requires
                got == q * pow2(e) * pow2(s),
                p == pow2(e) * pow2(s),
        ;
        // The significand and the exponent of the other code.
        let (mc, ec): (nat, nat) = if c < h {
            (c, 0)
        } else {
            (c % h + h, (c / h - 1) as nat)
        };
        if c >= h {
            lemma_fundamental_div_mod(c as int, h as int);
            lemma_mod_bound(c as int, h as int);
            assert(c / h >= 1) by (nonlinear_arith)
                requires
                    c == h * (c / h) + c % h,
                    c % h < h,
                    c >= h,
                    h > 0,
            ;
        } else {
            lemma2_to64();
            assert(c * pow2(0) == c) by (nonlinear_arith)
                requires
                    pow2(0) == 1,
            ;
        }
        let other = units(f.digits, c) * pow2(s);
        assert(units(f.digits, c) == mc * pow2(ec) && mc < 2 * h);
        assert(code % 2 == q % 2) by {
            let half_hidden = pow2((f.digits - 2) as nat);
            assert(code == 2 * (e * half_hidden) + q) by (nonlinear_arith)
                requires
                    code == e * h + q,
                    h == 2 * half_hidden,
            ;
        }
        if ec >= e {
            let k = (ec - e) as nat;
            let m = mc * pow2(k);
            lemma_pow2_adds(k, e);
            assert(other == m * p) by (nonlinear_arith)
                requires
                    other == mc * pow2(ec) * pow2(s),
                    pow2(ec) == pow2(k) * pow2(e),
                    m == mc * pow2(k),
                    p == pow2(e) * pow2(s),
            ;
            if m != q {
                lemma_multiples(p as int, x as int, q as int, m as int, q % 2 == 0);
            }
        } else {
            lemma_pow2_monotone(ec + 1, e);
            lemma_pow2_unfold(ec + 1);
            lemma_pow2_pos(ec);
            assert(other < h * p) by (nonlinear_arith)
                requires
                    other == mc * pow2(ec) * pow2(s),
                    mc < 2 * h,
                    2 * pow2(ec) <= pow2(e),
                    p == pow2(e) * pow2(s),
                    pow2(s) > 0,
                    pow2(ec) > 0,
                    mc >= 0,
            ;
            if h != q {
                lemma_multiples(p as int, x as int, q as int, h as int, q % 2 == 0);
            }
        }
    }
}

/// Larger codes have larger values.
pub proof fn lemma_units_grow(digits: nat, a: nat, b: nat)
    requires
        digits >= 1,
        a < b,
    ensures
        units(digits, a) < units(digits, b),
{
    let h = pow2((digits - 1) as nat);
    lemma_pow2_pos((digits - 1) as nat);
    lemma_fundamental_div_mod(a as int, h as int);
    lemma_fundamental_div_mod(b as int, h as int);
    lemma_mod_bound(a as int, h as int);
    lemma_mod_bound(b as int, h as int);
    let (fa, ra, fb, rb) = (a / h, a % h, b / h, b % h);
    assert(fa <= fb) by (nonlinear_arith)
        requires
            h * fa + ra < h * fb + rb,
            0 <= ra,
            rb < h,
            h > 0,
    ;
    assert((b >= h) == (fb >= 1) && (a >= h) == (fa >= 1)) by (nonlinear_arith)
        requires
            a == h * fa + ra,
            b == h * fb + rb,
            0 <= ra < h,
            0 <= rb < h,
    ;
    if b >= h {
        let pb = pow2((fb - 1) as nat);
        lemma_pow2_pos((fb - 1) as nat);
        let ub = (rb + h) * pb;
        if a < h {
            assert(ub >= h) by (nonlinear_arith)
                requires
                    ub == (rb + h) * pb,
                    pb >= 1,
                    rb >= 0,
                    h >= 0,
            ;
        } else if fa == fb {
            assert(ra < rb);
            assert((ra + h) * pb < (rb + h) * pb) by (nonlinear_arith)
                requires
                    ra < rb,
                    pb >= 1,
            ;
        } else {
            let pa = pow2((fa - 1) as nat);
            lemma_pow2_pos((fa - 1) as nat);
            lemma_pow2_unfold(fa);
            lemma_pow2_monotone(fa, (fb - 1) as nat);
            assert((ra + h) * pa < ub) by (nonlinear_arith)
                requires
                    ra < h,
                    ub == (rb + h) * pb,
                    2 * pa <= pb,
                    rb >= 0,
                    pa > 0,
                    h > 0,
            ;
        }
    }
}

/// A number is rounded to infinity only where it lies beyond the largest number of the format.
pub proof fn lemma_overflow(f: Format, mag: nat, exp: int, s: nat)
    requires
        f.digits >= 2,
        f.infinity > 0,
        exp - f.least + s >= 0,
        nearest(f, mag, exp) >= f.infinity,
    ensures
        mag * pow2((exp - f.least + s) as nat) > units(f.digits, (f.infinity - 1) as nat) * pow2(s),
{
    let u = unit_exponent(f, mag, exp);
    let code = ((u - f.least) * pow2((f.digits - 1) as nat) + in_units(mag, exp, u)) as nat;
    let wide = Format { infinity: code + 1, ..f };
    assert(unit_exponent(wide, mag, exp) == u);
    assert(nearest(wide, mag, exp) == code);
    let top = (f.infinity - 1) as nat;
    lemma_nearest(wide, mag, exp, s, top);
    lemma_units_grow(f.digits, top, code);
    lemma_pow2_pos(s);
    assert(units(f.digits, code) * pow2(s) > units(f.digits, top) * pow2(s)) by (nonlinear_arith)
        requires
            units(f.digits, code) > units(f.digits, top),
            pow2(s) > 0,
    ;
}

/// What a code stands for has the value of the code.
proof fn lemma_decode_units(f: Format, code: nat)
    requires
        f.digits >= 1,
    ensures
        ({
            let (mag, exp) = decode(f, code);
            &&& exp >= f.least
            &&& mag * pow2((exp - f.least) as nat) == units(f.digits, code)
        }),
{
    let h = pow2((f.digits - 1) as nat);
    lemma_pow2_pos((f.digits - 1) as nat);
    lemma_fundamental_div_mod(code as int, h as int);
    lemma_mod_bound(code as int, h as int);
    let (q, r) = (code / h, code % h);
    assert((code < h) == (q == 0) && (q == 0 ==> r == code)) by (nonlinear_arith)
        requires
            code == h * q + r,
            0 <= r < h,
    ;
    lemma2_to64();
    if q == 0 {
        assert(code * pow2(0) == code) by (nonlinear_arith)
            requires
                pow2(0) == 1,
        ;
    }
}

/// A product with a power of two keeps the sign.
proof fn lemma_with_scaled(neg: bool, n: nat, p: nat)
    ensures
        with(neg, n) * p == with(neg, n * p),
{
    assert((-(n as int)) * p == -((n * p) as int)) by (nonlinear_arith);
}

/// With a sign before both, distances are the same.
proof fn lemma_signed_apart(neg: bool, got: nat, x: nat, other_neg: bool, other: nat)
    requires
        apart(got as int, x as int) <= apart(other as int, x as int),
        apart(got as int, x as int) <= x,
    ensures
        apart(with(neg, got), with(neg, x)) == apart(got as int, x as int),
        apart(with(neg, got), with(neg, x)) <= apart(with(other_neg, other), with(neg, x)),
        other_neg == neg ==> apart(with(other_neg, other), with(neg, x)) == apart(
            other as int,
            x as int,
        ),
        other_neg != neg ==> apart(with(other_neg, other), with(neg, x)) == other + x,
{
}

/// Whether `r` is `x`, counted in `2^-s` of the least magnitude, correctly rounded to 32 bits: no
/// other number lies closer, and of two as close the even one is taken; infinite only where `x`
/// lies beyond all numbers.
#[verifier::opaque]
pub open spec fn rounds_to(x: int, s: nat, r: u32) -> bool {
    &&& r % 0x8000_0000 <= 0x7F80_0000
    &&& x > 0 ==> r < 0x8000_0000
    &&& x < 0 ==> r >= 0x8000_0000
    &&& finite(r) ==> forall|c: u32| #[trigger] finite(c) ==> {
        &&& apart(exact(r) * pow2(s), x) <= apart(exact(c) * pow2(s), x)
        &&& exact(r) != exact(c) && apart(exact(r) * pow2(s), x) == apart(
            exact(c) * pow2(s),
            x,
        ) ==> r % 2 == 0
    }
    &&& !finite(r) ==> forall|c: u32| #[trigger] finite(c) ==> apart(exact(c) * pow2(s), 0) < apart(
        x,
        0,
    )
}

/// Rounding to 32 bits is correct.
proof fn lemma_single(neg: bool, mag: nat, exp: int, s: nat, r: u32)
    requires
        exp + 149 + s >= 0,
        r as nat == nearest(single(), mag, exp) + if neg {
            0x8000_0000nat
        } else {
            0nat
        },
    ensures
        rounds_to(with(neg, mag * pow2((exp + 149 + s) as nat)), s, r),
{
    reveal(rounds_to);
    let f = single();
    let code = nearest(f, mag, exp);
    let w = (exp + 149 + s) as nat;
    let n = mag * pow2(w);
    let x = with(neg, n);
    assert(code <= 0x7F80_0000);
    assert(r % 0x8000_0000 == code);
    lemma_pow2_pos(s);
    lemma_pow2_pos(w);
    if finite(r) {
        assert forall|c: u32| #[trigger] finite(c) implies {
            &&& apart(exact(r) * pow2(s), x) <= apart(exact(c) * pow2(s), x)
            &&& exact(r) != exact(c) && apart(exact(r) * pow2(s), x) == apart(
                exact(c) * pow2(s),
                x,
            ) ==> r % 2 == 0
        } by {
            let (cn, cc) = (c >= 0x8000_0000, (c % 0x8000_0000) as nat);
            lemma_nearest(f, mag, exp, s, cc);
            lemma_nearest(f, mag, exp, s, 0);
            let (u, v) = (units(24, code), units(24, cc));
            lemma_pow2_pos(23);
            assert(units(24, 0) == 0);
            assert(0 * pow2(s) == 0);
            lemma_with_scaled(neg, u, pow2(s));
            lemma_with_scaled(cn, v, pow2(s));
            lemma_signed_apart(neg, u * pow2(s), n, cn, v * pow2(s));
            assert((u == v) == (u * pow2(s) == v * pow2(s)) && (v * pow2(s) == 0) == (v == 0) && (u
                * pow2(s) == 0) == (u == 0)) by (nonlinear_arith)
                requires
                    pow2(s) > 0,
            ;
        }
    } else {
        lemma_overflow(f, mag, exp, s);
        assert forall|c: u32| #[trigger] finite(c) implies apart(exact(c) * pow2(s), 0) < apart(
            x,
            0,
        ) by {
            let (cn, cc) = (c >= 0x8000_0000, (c % 0x8000_0000) as nat);
            let top = 0x7F7F_FFFFnat;
            if cc < top {
                lemma_units_grow(24, cc, top);
            }
            lemma_with_scaled(cn, units(24, cc), pow2(s));
            assert(units(24, cc) * pow2(s) <= units(24, top) * pow2(s)) by (nonlinear_arith)
                requires
                    units(24, cc) <= units(24, top),
                    pow2(s) > 0,
            ;
        }
    }
}

/// The product of a number and an integer is the exact product, correctly rounded. Its sign is that
/// of the product of the signs, of a zero too.
pub proof fn lemma_times(a: u32, k: int)
    requires
        finite(a),
    ensures
        rounds_to(k * exact(a), 0, times(a, k)),
        (times(a, k) >= 0x8000_0000) == ((a >= 0x8000_0000) != (k < 0)),
{
    let neg = (a >= 0x8000_0000) != (k < 0);
    let size = if k < 0 {
        -k
    } else {
        k
    } as nat;
    let code = (a % 0x8000_0000) as nat;
    lemma_decode_units(single(), code);
    let (mag, exp) = decode(single(), code);
    let u = units(24, code);
    let p = pow2((exp + 149) as nat);
    lemma2_to64();
    assert(mag * size * p == size * u) by (nonlinear_arith)
        requires
            mag * p == u,
    ;
    assert(with(neg, size * u) == k * exact(a)) by (nonlinear_arith)
        requires
            exact(a) == (if a >= 0x8000_0000 {
                -(u as int)
            } else {
                u as int
            }),
            size == (if k < 0 {
                -k
            } else {
                k
            }),
            neg == ((a >= 0x8000_0000) != (k < 0)),
            with(neg, size * u) == (if neg {
                -((size * u) as int)
            } else {
                (size * u) as int
            }),
    ;
    lemma_single(neg, mag * size, exp, 0, times(a, k));
}

/// The difference of two numbers is the exact difference, correctly rounded.
pub proof fn lemma_minus(a: u32, b: u32)
    requires
        finite(a),
        finite(b),
    ensures
        rounds_to(exact(a) - exact(b), 0, minus(a, b)),
{
    let (ca, cb) = ((a % 0x8000_0000) as nat, (b % 0x8000_0000) as nat);
    lemma_decode_units(single(), ca);
    lemma_decode_units(single(), cb);
    lemma2_to64();
    let (ma, ea) = decode(single(), ca);
    let (mb, eb) = decode(single(), cb);
    let unit = if ea < eb {
        ea
    } else {
        eb
    };
    let p = pow2((unit + 149) as nat);
    let (na, nb) = (ma * pow2((ea - unit) as nat), mb * pow2((eb - unit) as nat));
    lemma_pow2_adds((ea - unit) as nat, (unit + 149) as nat);
    lemma_pow2_adds((eb - unit) as nat, (unit + 149) as nat);
    assert(na * p == units(24, ca)) by (nonlinear_arith)
        requires
            na == ma * pow2((ea - unit) as nat),
            pow2((ea - unit) as nat) * p == pow2((ea + 149) as nat),
            ma * pow2((ea + 149) as nat) == units(24, ca),
    ;
    assert(nb * p == units(24, cb)) by (nonlinear_arith)
        requires
            nb == mb * pow2((eb - unit) as nat),
            pow2((eb - unit) as nat) * p == pow2((eb + 149) as nat),
            mb * pow2((eb + 149) as nat) == units(24, cb),
    ;
    let (sa, sb) = (with(a >= 0x8000_0000, na), with(b >= 0x8000_0000, nb));
    lemma_with_scaled(a >= 0x8000_0000, na, p);
    lemma_with_scaled(b >= 0x8000_0000, nb, p);
    let d = sa - sb;
    assert(d * p == exact(a) - exact(b)) by (nonlinear_arith)
        requires
            sa * p == exact(a),
            sb * p == exact(b),
            d == sa - sb,
    ;
    let neg = if d == 0 {
        minus(a, b) >= 0x8000_0000
    } else {
        d < 0
    };
    let size = apart(d, 0) as nat;
    lemma_with_scaled(neg, size, p);
    if d == 0 {
        assert(size * p == 0) by (nonlinear_arith)
            requires
                size == 0,
        ;
        assert(d * p == 0) by (nonlinear_arith)
            requires
                d == 0,
        ;
    }
    assert(with(neg, size) == d);
    lemma_single(neg, size, unit, 0, minus(a, b));
}

/// The number of an integer is the integer, correctly rounded.
pub proof fn lemma_of_int(n: int)
    ensures
        rounds_to(n * pow2(149), 0, of_int(n)),
{
    lemma2_to64();
    let size = apart(n, 0) as nat;
    lemma_with_scaled(n < 0, size, pow2(149));
    assert(with(n < 0, size) == n);
    lemma_single(n < 0, size, 0, 0, of_int(n));
}

/// The 32-bit number of a 64-bit one is its value, correctly rounded.
pub proof fn lemma_narrowed(bits: u64)
    requires
        finite_double(bits),
    ensures
        rounds_to(exact_double(bits), 925, narrowed(bits)),
{
    let code = (bits % 0x8000_0000_0000_0000) as nat;
    lemma_decode_units(double(), code);
    lemma2_to64();
    let (mag, exp) = decode(double(), code);
    lemma_single(bits >= 0x8000_0000_0000_0000, mag, exp, 925, narrowed(bits));
}

/// A correctly rounded number that the format has is that number.
proof fn lemma_rounds_exactly(x: int, s: nat, r: u32, c: u32)
    requires
        rounds_to(x, s, r),
        finite(c),
        exact(c) * pow2(s) == x,
    ensures
        finite(r),
        exact(r) * pow2(s) == x,
{
    reveal(rounds_to);
}

/// The 32-bit number of a magnitude of up to 24 digits.
proof fn lemma_short(neg: bool, mag: nat, exp: int) -> (c: u32)
    requires
        mag < 0x100_0000,
        -149 <= exp <= 100,
    ensures
        finite(c),
        exact(c) == with(neg, mag * pow2((exp + 149) as nat)),
        c as nat == nearest(single(), mag, exp) + if neg {
            0x8000_0000nat
        } else {
            0nat
        },
{
    lemma2_to64();
    let code = nearest(single(), mag, exp);
    let w = (exp + 149) as nat;
    if mag == 0 {
        assert(0 * pow2(w) == 0);
    } else {
        let u = unit_exponent(single(), mag, exp);
        let b = bit_length(mag);
        lemma_bit_length_bounds(mag);
        if b > 24 {
            lemma_pow2_monotone(24, (b - 1) as nat);
        }
        let q = in_units(mag, exp, u);
        lemma_significand(single(), mag, exp);
        if u == exp {
            lemma_half_even_of(mag, 0, mag, 0);
            assert(mag * pow2(0) == mag) by (nonlinear_arith)
                requires
                    pow2(0) == 1,
            ;
        }
        assert((u + 149) * 0x80_0000 + q < 0x7F80_0000);
        lemma_nearest_units(single(), mag, exp);
        lemma_pow2_adds((exp - u) as nat, (u + 149) as nat);
        assert(q * pow2((u + 149) as nat) == mag * pow2(w)) by (nonlinear_arith)
            requires
                q == mag * pow2((exp - u) as nat),
                pow2((exp - u) as nat) * pow2((u + 149) as nat) == pow2(w),
        ;
    }
    let c = (code + if neg {
        0x8000_0000nat
    } else {
        0nat
    }) as u32;
    c
}

/// The magnitude of a finite 16-bit number, taken apart.
proof fn lemma_half_parts(bits: u16) -> (r: (nat, int))
    requires
        finite_half(bits),
    ensures
        r == decode(half(), (bits % 0x8000) as nat),
        r.0 < 0x800,
        -24 <= r.1 <= 5,
        exact_half(bits) == with(bits >= 0x8000, r.0 * pow2((r.1 + 24) as nat)),
{
    lemma2_to64();
    let code = (bits % 0x8000) as nat;
    lemma_decode_units(half(), code);
    assert(code / 0x400 <= 30);
    decode(half(), code)
}

/// A number of the 16-bit format keeps its value in the 32-bit format.
pub proof fn lemma_widened(bits: u16)
    requires
        finite_half(bits),
    ensures
        finite(widened(bits)),
        exact(widened(bits)) == exact_half(bits) * pow2(125),
{
    lemma2_to64();
    let neg = bits >= 0x8000;
    let (mag, exp) = lemma_half_parts(bits);
    let c = lemma_short(neg, mag, exp);
    assert(c == widened(bits));
    lemma_pow2_adds((exp + 24) as nat, 125);
    lemma_with_scaled(neg, mag * pow2((exp + 24) as nat), pow2(125));
    assert(mag * pow2((exp + 24) as nat) * pow2(125) == mag * pow2((exp + 149) as nat))
        by (nonlinear_arith)
        requires
            pow2((exp + 24) as nat) * pow2(125) == pow2((exp + 149) as nat),
    ;
}

/// The product of a 16-bit number and a small integer is a 32-bit number.
proof fn lemma_half_multiple(bits: u16, k: int) -> (c: u32)
    requires
        finite_half(bits),
        -0x1000 <= k <= 0x1000,
    ensures
        finite(c),
        exact(c) == k * (exact_half(bits) * pow2(125)),
{
    let (mag, exp) = lemma_half_parts(bits);
    let size = apart(k, 0) as nat;
    let neg = (bits >= 0x8000) != (k < 0);
    assert(mag * size < 0x100_0000) by (nonlinear_arith)
        requires
            mag < 0x800,
            size <= 0x1000,
    ;
    let c = lemma_short(neg, mag * size, exp);
    let (p, q, t) = (pow2((exp + 24) as nat), pow2(125), pow2((exp + 149) as nat));
    lemma_pow2_adds((exp + 24) as nat, 125);
    let n = mag * size * t;
    assert(n == size * (mag * p * q)) by (nonlinear_arith)
        requires
            n == mag * size * t,
            p * q == t,
    ;
    lemma_with_scaled(bits >= 0x8000, mag * p, q);
    let v = mag * p * q;
    assert(with(neg, n) == k * with(bits >= 0x8000, v)) by (nonlinear_arith)
        requires
            n == size * v,
            size == (if k < 0 {
                -k
            } else {
                k
            }),
            neg == ((bits >= 0x8000) != (k < 0)),
            with(neg, n) == (if neg {
                -(n as int)
            } else {
                n as int
            }),
            with(bits >= 0x8000, v) == (if bits >= 0x8000 {
                -(v as int)
            } else {
                v as int
            }),
    ;
    c
}

/// A 32-bit number that is a small multiple of a 16-bit one, times an integer, is exact as long as
/// the multiple stays small.
pub proof fn lemma_exact_multiple(a: u32, bits: u16, j: int, k: int)
    requires
        finite_half(bits),
        finite(a),
        exact(a) == j * (exact_half(bits) * pow2(125)),
        -0x1000 <= k * j <= 0x1000,
    ensures
        finite(times(a, k)),
        exact(times(a, k)) == (k * j) * (exact_half(bits) * pow2(125)),
{
    let v = exact_half(bits) * pow2(125);
    let c = lemma_half_multiple(bits, k * j);
    lemma2_to64();
    assert(k * (j * v) == (k * j) * v) by (nonlinear_arith);
    lemma_times(a, k);
    assert(exact(c) * pow2(0) == exact(c)) by (nonlinear_arith)
        requires
            pow2(0) == 1,
    ;
    lemma_rounds_exactly(k * exact(a), 0, times(a, k), c);
    let r = exact(times(a, k));
    assert(r * pow2(0) == r) by (nonlinear_arith)
        requires
            pow2(0) == 1,
    ;
}

/// The 16-bit number of a 32-bit one is its value, correctly rounded: no other number lies closer,
/// of two as close the even one is taken, and it is infinite only where the value lies beyond all
/// numbers. The sign is kept.
pub proof fn lemma_halved(bits: u32, c: u16)
    requires
        finite(bits),
        finite_half(c),
    ensures
        ({
            let r = halved(bits);
            let (x, got, other) = (
                exact(bits),
                exact_half(r) * pow2(125),
                exact_half(c) * pow2(125),
            );
            &&& r % 0x8000 <= 0x7C00
            &&& (r >= 0x8000) == (bits >= 0x8000_0000)
            &&& finite_half(r) ==> apart(got, x) <= apart(other, x)
            &&& finite_half(r) && exact_half(r) != exact_half(c) && apart(got, x) == apart(other, x)
                ==> r % 2 == 0
            &&& !finite_half(r) ==> apart(other, 0) < apart(x, 0)
        }),
{
    lemma2_to64();
    let neg = bits >= 0x8000_0000;
    let code32 = (bits % 0x8000_0000) as nat;
    lemma_decode_units(single(), code32);
    let (mag, exp) = decode(single(), code32);
    let f = half();
    let code = nearest(f, mag, exp);
    let r = halved(bits);
    assert(code <= 0x7C00);
    assert(r % 0x8000 == code);
    let (cn, cc) = (c >= 0x8000, (c % 0x8000) as nat);
    lemma_pow2_pos(125);
    let n = units(24, code32);
    let p = pow2(125);
    if finite_half(r) {
        lemma_nearest(f, mag, exp, 125, cc);
        lemma_nearest(f, mag, exp, 125, 0);
        let (u, v) = (units(11, code), units(11, cc));
        assert(units(11, 0) == 0);
        assert(0 * p == 0);
        lemma_with_scaled(neg, u, p);
        lemma_with_scaled(cn, v, p);
        lemma_signed_apart(neg, u * p, n, cn, v * p);
        assert((u == v) == (u * p == v * p) && (v * p == 0) == (v == 0) && (u * p == 0) == (u == 0))
            by (nonlinear_arith)
            requires
                p > 0,
        ;
    } else {
        lemma_overflow(f, mag, exp, 125);
        let top = 0x7BFFnat;
        if cc < top {
            lemma_units_grow(11, cc, top);
        }
        lemma_with_scaled(cn, units(11, cc), p);
        assert(units(11, cc) * p <= units(11, top) * p) by (nonlinear_arith)
            requires
                units(11, cc) <= units(11, top),
                p > 0,
        ;
    }
}

/// Whether a 32-bit pattern stands for what is not a number.
pub open spec fn not_a_number(bits: u32) -> bool {
    bits % 0x8000_0000 > 0x7F80_0000
}

/// Whether a 32-bit pattern stands for infinity, of either sign.
pub open spec fn infinite(bits: u32) -> bool {
    bits % 0x8000_0000 == 0x7F80_0000
}

/// What is not a number stays so in every operation; infinity stays infinite with its sign, but for
/// zero times infinity and the difference of equal infinities, which are not numbers.
pub proof fn lemma_specials(a: u32, b: u32, k: int, h: u16, d: u64)
    ensures
        not_a_number(a) ==> not_a_number(times(a, k)) && not_a_number(minus(a, b)) && not_a_number(
            minus(b, a),
        ),
        infinite(a) && k == 0 ==> not_a_number(times(a, k)),
        infinite(a) && k != 0 ==> infinite(times(a, k)) && (times(a, k) >= 0x8000_0000) == ((a
            >= 0x8000_0000) != (k < 0)),
        infinite(a) && finite(b) ==> minus(a, b) == a,
        finite(a) && infinite(b) ==> infinite(minus(a, b)) && (minus(a, b) >= 0x8000_0000) == (b
            < 0x8000_0000),
        infinite(a) && a == b ==> not_a_number(minus(a, b)),
        infinite(a) && infinite(b) && a != b ==> minus(a, b) == a,
        h % 0x8000 > 0x7C00 ==> not_a_number(widened(h)),
        h % 0x8000 == 0x7C00 ==> infinite(widened(h)) && (widened(h) >= 0x8000_0000) == (h
            >= 0x8000),
        not_a_number(a) ==> halved(a) % 0x8000 > 0x7C00,
        infinite(a) ==> halved(a) % 0x8000 == 0x7C00 && (halved(a) >= 0x8000) == (a >= 0x8000_0000),
        d % 0x8000_0000_0000_0000 > 0x7FF0_0000_0000_0000 ==> not_a_number(narrowed(d)),
        d % 0x8000_0000_0000_0000 == 0x7FF0_0000_0000_0000 ==> infinite(narrowed(d)) && (narrowed(d)
            >= 0x8000_0000) == (d >= 0x8000_0000_0000_0000),
{
}

} // verus!
