//! Arithmetic on the bit patterns of IEEE 754 binary numbers.
//!
//! A number in a binary format is a sign and a code: the bit pattern without its sign bit. Codes
//! below the format's infinity stand for the magnitudes `mag * 2^exp` of [`decode`], the code of
//! infinity for infinity, and codes above it for what is not a number. Results are rounded to
//! nearest, ties to even, by [`nearest`].

use vstd::arithmetic::div_mod::*;
use vstd::arithmetic::power2::*;
use vstd::bits::*;
use vstd::prelude::*;

verus! {

/// The number of binary digits of `n`.
pub open spec fn bit_length(n: nat) -> nat
    decreases n,
{
    if n == 0 {
        0
    } else {
        1 + bit_length(n / 2)
    }
}

/// `n / 2^s` rounded to the nearest integer, ties to the even one.
pub open spec fn half_even(n: nat, s: nat) -> nat {
    let unit = pow2(s);
    let q = n / unit;
    let r = n % unit;
    if 2 * r > unit || (2 * r == unit && q % 2 == 1) {
        q + 1
    } else {
        q
    }
}

/// A binary interchange format: the digits of its significand, the exponent of its least
/// magnitude, and the code of its infinity.
pub struct Format {
    pub digits: nat,
    pub least: int,
    pub infinity: nat,
}

/// The 16-bit format.
pub open spec fn half() -> Format {
    Format { digits: 11, least: -24, infinity: 0x7C00 }
}

/// The 32-bit format.
pub open spec fn single() -> Format {
    Format { digits: 24, least: -149, infinity: 0x7F80_0000 }
}

/// The 64-bit format.
pub open spec fn double() -> Format {
    Format { digits: 53, least: -1074, infinity: 0x7FF0_0000_0000_0000 }
}

/// The magnitude of a code below infinity, as `(mag, exp)` for `mag * 2^exp`.
pub open spec fn decode(f: Format, code: nat) -> (nat, int) {
    let hidden = pow2((f.digits - 1) as nat);
    let field = code / hidden;
    if field == 0 {
        (code % hidden, f.least)
    } else {
        (code % hidden + hidden, f.least + field - 1)
    }
}

/// The exponent of the last digit that the format keeps of `mag * 2^exp`.
pub open spec fn unit_exponent(f: Format, mag: nat, exp: int) -> int {
    let top = bit_length(mag) + exp - f.digits;
    if top > f.least {
        top
    } else {
        f.least
    }
}

/// `mag * 2^exp` counted in `2^unit`, rounded where the unit is the larger.
pub open spec fn in_units(mag: nat, exp: int, unit: int) -> nat {
    if unit >= exp {
        half_even(mag, (unit - exp) as nat)
    } else {
        mag * pow2((exp - unit) as nat)
    }
}

/// The code of the number of the format nearest to `mag * 2^exp`, ties to even, with what lies
/// beyond the largest number rounded to infinity.
pub open spec fn nearest(f: Format, mag: nat, exp: int) -> nat {
    if mag == 0 {
        0
    } else {
        let unit = unit_exponent(f, mag, exp);
        let code = ((unit - f.least) * pow2((f.digits - 1) as nat) + in_units(mag, exp, unit)) as nat;
        if code < f.infinity {
            code
        } else {
            f.infinity
        }
    }
}

/// The sign bit of a 32-bit pattern.
pub open spec fn negative(bits: u32) -> bool {
    bits >= 0x8000_0000
}

/// A 32-bit pattern without its sign bit.
pub open spec fn code_of(bits: u32) -> nat {
    (bits as nat) % 0x8000_0000
}

/// The 32-bit pattern of a sign and a code.
pub open spec fn signed(neg: bool, code: nat) -> u32 {
    (if neg {
        code + 0x8000_0000
    } else {
        code
    }) as u32
}

/// The pattern that stands for "not a number" wherever an operation has no numeric result.
pub const NOT_A_NUMBER: u32 = 0x7FC0_0000;

/// The pattern of infinity.
pub const INFINITY: u32 = 0x7F80_0000;

/// The 32-bit product of `a` and the integer `k`.
pub open spec fn times(a: u32, k: int) -> u32 {
    let neg = negative(a) != (k < 0);
    let size = if k < 0 {
        -k
    } else {
        k
    };
    if code_of(a) > single().infinity {
        NOT_A_NUMBER
    } else if code_of(a) == single().infinity {
        if k == 0 {
            NOT_A_NUMBER
        } else {
            signed(neg, single().infinity)
        }
    } else {
        let (mag, exp) = decode(single(), code_of(a));
        signed(neg, nearest(single(), mag * size as nat, exp))
    }
}

/// The signed significand of a 32-bit number, counted in `2^unit`.
pub open spec fn scaled(bits: u32, unit: int) -> int {
    let (mag, exp) = decode(single(), code_of(bits));
    let n = mag * pow2((exp - unit) as nat);
    if negative(bits) {
        -(n as int)
    } else {
        n as int
    }
}

/// The 32-bit difference of `a` and `b`.
pub open spec fn minus(a: u32, b: u32) -> u32 {
    let inf = single().infinity;
    if code_of(a) > inf || code_of(b) > inf {
        NOT_A_NUMBER
    } else if code_of(a) == inf {
        if code_of(b) == inf && negative(a) == negative(b) {
            NOT_A_NUMBER
        } else {
            a
        }
    } else if code_of(b) == inf {
        signed(!negative(b), inf)
    } else {
        let ea = decode(single(), code_of(a)).1;
        let eb = decode(single(), code_of(b)).1;
        let unit = if ea < eb {
            ea
        } else {
            eb
        };
        let d = scaled(a, unit) - scaled(b, unit);
        if d == 0 {
            signed(negative(a) && !negative(b) && code_of(a) == 0, 0)
        } else if d < 0 {
            signed(true, nearest(single(), (-d) as nat, unit))
        } else {
            signed(false, nearest(single(), d as nat, unit))
        }
    }
}

/// The 32-bit number nearest to the 64-bit number `bits`.
pub open spec fn narrowed(bits: u64) -> u32 {
    let neg = bits >= 0x8000_0000_0000_0000;
    let code = (bits as nat) % 0x8000_0000_0000_0000;
    if code > double().infinity {
        NOT_A_NUMBER
    } else if code == double().infinity {
        signed(neg, single().infinity)
    } else {
        let (mag, exp) = decode(double(), code);
        signed(neg, nearest(single(), mag, exp))
    }
}

/// The 32-bit number nearest to the integer `n`.
pub open spec fn of_int(n: int) -> u32 {
    if n < 0 {
        signed(true, nearest(single(), (-n) as nat, 0))
    } else {
        signed(false, nearest(single(), n as nat, 0))
    }
}

/// The 32-bit number equal to the 16-bit number `bits`.
pub open spec fn widened(bits: u16) -> u32 {
    let neg = bits >= 0x8000;
    let code = (bits as nat) % 0x8000;
    if code > half().infinity {
        signed(neg, 0x7FC0_0000 + code % 0x200 * 0x2000)
    } else if code == half().infinity {
        signed(neg, single().infinity)
    } else {
        let (mag, exp) = decode(half(), code);
        signed(neg, nearest(single(), mag, exp))
    }
}

/// The 16-bit number nearest to the 32-bit number `bits`.
pub open spec fn halved(bits: u32) -> u16 {
    let code = code_of(bits);
    let kept = if code > single().infinity {
        0x7E00 + code / 0x2000 % 0x200
    } else if code == single().infinity {
        half().infinity
    } else {
        let (mag, exp) = decode(single(), code);
        nearest(half(), mag, exp)
    };
    (if negative(bits) {
        kept + 0x8000
    } else {
        kept
    }) as u16
}

/// The 32-bit number whose upper half is the brain-float pattern `bits`, with the quiet bit set
/// where that is not a number.
pub open spec fn brain_widened(bits: u16) -> u32 {
    if (bits as nat) % 0x8000 > 0x7F80 {
        ((bits | 0x40) as nat * 0x1_0000) as u32
    } else {
        (bits as nat * 0x1_0000) as u32
    }
}

/// `half::bf16::to_f32`, on bit patterns. Trusted: the pattern becomes the upper half of the
/// result; what is not a number becomes quiet.
#[verifier::external_body]
pub(crate) fn brain_to_single(bits: u16) -> (r: u32)
    ensures
        r == brain_widened(bits),
{
    ::half::bf16::from_bits(bits).to_f32().to_bits()
}

pub(crate) proof fn lemma_bit_length_bounds(n: nat)
    requires
        n > 0,
    ensures
        bit_length(n) >= 1,
        pow2((bit_length(n) - 1) as nat) <= n < pow2(bit_length(n)),
    decreases n,
{
    reveal_with_fuel(bit_length, 2);
    lemma2_to64();
    if n >= 2 {
        lemma_bit_length_bounds(n / 2);
        lemma_pow2_unfold(bit_length(n));
        lemma_pow2_unfold((bit_length(n) - 1) as nat);
    }
}

pub(crate) proof fn lemma_pow2_monotone(a: nat, b: nat)
    requires
        a <= b,
    ensures
        pow2(a) <= pow2(b),
{
    if a < b {
        lemma_pow2_strictly_increases(a, b);
    }
}

pub(crate) proof fn lemma_bit_length_unique(n: nat, k: nat)
    requires
        pow2(k) <= n < pow2(k + 1),
    ensures
        bit_length(n) == k + 1,
{
    lemma_pow2_pos(k);
    lemma_bit_length_bounds(n);
    let b = bit_length(n);
    if b > k + 1 {
        lemma_pow2_monotone(k + 1, (b - 1) as nat);
    }
    if b < k + 1 {
        lemma_pow2_monotone(b, k);
    }
}

/// `n / 2^s` for `n` written as `q * 2^s + r`.
pub(crate) proof fn lemma_half_even_of(n: nat, s: nat, q: nat, r: nat)
    requires
        n == q * pow2(s) + r,
        r < pow2(s),
    ensures
        n / pow2(s) == q,
        n % pow2(s) == r,
{
    lemma_pow2_pos(s);
    lemma_fundamental_div_mod_converse(n as int, pow2(s) as int, q as int, r as int);
}

/// `2^k`.
fn power(k: u32) -> (r: u64)
    requires
        k < 64,
    ensures
        r == pow2(k as nat),
{
    proof {
        lemma_u64_pow2_no_overflow(k as nat);
        lemma_u64_shl_is_mul(1, k as u64);
    }
    1u64 << k
}

fn digits_of(n: u64) -> (r: u32)
    ensures
        r == bit_length(n as nat),
        r <= 64,
    decreases n,
{
    if n == 0 {
        0
    } else {
        let rest = digits_of(n / 2);
        proof {
            if n / 2 > 0 {
                lemma_bit_length_bounds((n / 2) as nat);
                lemma2_to64();
                lemma2_to64_rest();
                if rest == 64 {
                    assert(pow2(63) == 0x8000_0000_0000_0000);
                }
            }
        }
        rest + 1
    }
}

/// Rounds `n / 2^s` to the nearest integer, ties to even.
fn round_shift(n: u64, s: u32) -> (r: u64)
    ensures
        r == half_even(n as nat, s as nat),
        s > 0 ==> r <= n / 2 + 1,
        s == 0 ==> r == n,
{
    if s == 0 {
        proof {
            lemma2_to64();
            lemma_half_even_of(n as nat, 0, n as nat, 0);
        }
        n
    } else if s >= 65 {
        proof {
            lemma2_to64_rest();
            lemma_pow2_monotone(65, s as nat);
            lemma_pow2_unfold(65);
            lemma_half_even_of(n as nat, s as nat, 0, n as nat);
        }
        0
    } else if s == 64 {
        proof {
            lemma2_to64_rest();
            lemma_half_even_of(n as nat, 64, 0, n as nat);
        }
        if n > 0x8000_0000_0000_0000 {
            1
        } else {
            0
        }
    } else {
        let unit = power(s);
        proof {
            lemma_pow2_pos(s as nat);
        }
        let q = n / unit;
        let r = n % unit;
        proof {
            lemma_pow2_monotone(1, s as nat);
            lemma2_to64();
            lemma_div_is_ordered_by_denominator(n as int, 2, unit as int);
        }
        if r > unit - r || (r == unit - r && q % 2 == 1) {
            q + 1
        } else {
            q
        }
    }
}

/// The code of the number nearest to `mag * 2^exp`, in a format of at most 24 digits.
fn round_to(mag: u64, exp: i32, digits: i32, least: i32, infinity: u32) -> (r: u32)
    requires
        -5000 <= exp <= 5000,
        1 <= digits <= 24,
        -149 <= least <= 0,
    ensures
        r == nearest(
            (Format { digits: digits as nat, least: least as int, infinity: infinity as nat }),
            mag as nat,
            exp as int,
        ),
        r <= infinity,
{
    if mag == 0 {
        return 0;
    }
    let len = digits_of(mag) as i32;
    let top: i32 = len + exp - digits;
    let unit: i32 = if top > least {
        top
    } else {
        least
    };
    proof {
        lemma_bit_length_bounds(mag as nat);
        lemma2_to64();
    }
    let sig: u64 = if unit >= exp {
        round_shift(mag, (unit - exp) as u32)
    } else {
        let k = (exp - unit) as u32;
        proof {
            lemma_pow2_monotone((len + k) as nat, 24);
            lemma_pow2_adds(len as nat, k as nat);
            assert(mag * pow2(k as nat) <= pow2(len as nat) * pow2(k as nat)) by (nonlinear_arith)
                requires
                    mag <= pow2(len as nat),
            ;
        }
        mag * power(k)
    };
    let hidden = power((digits - 1) as u32);
    proof {
        lemma_pow2_monotone((digits - 1) as nat, 23);
        if unit == exp {
            lemma_pow2_monotone(len as nat, 24);
        }
        assert(0 <= (unit - least) * hidden <= 6000 * 0x80_0000) by (nonlinear_arith)
            requires
                0 <= unit - least <= 6000,
                0 <= hidden <= 0x80_0000,
        ;
    }
    let code: u64 = ((unit - least) as u64) * hidden + sig;
    if code < infinity as u64 {
        code as u32
    } else {
        infinity
    }
}

/// The code of the 32-bit number nearest to `mag * 2^exp`.
fn round_single(mag: u64, exp: i32) -> (r: u32)
    requires
        -5000 <= exp <= 5000,
    ensures
        r == nearest(single(), mag as nat, exp as int),
        r <= 0x7F80_0000,
{
    round_to(mag, exp, 24, -149, INFINITY)
}

/// Reads the significand and the exponent of a code below infinity.
fn decode_single(code: u32) -> (r: (u64, i32))
    requires
        code < 0x7F80_0000,
    ensures
        (r.0 as nat, r.1 as int) == decode(single(), code as nat),
        r.0 < 0x100_0000,
        -149 <= r.1 <= 104,
        r.1 > -149 ==> r.0 >= 0x80_0000,
        code == (r.1 + 149) * 0x80_0000 + r.0,
{
    proof {
        lemma2_to64();
    }
    let field = code / 0x80_0000;
    let rest = code % 0x80_0000;
    if field == 0 {
        (rest as u64, -149)
    } else {
        (rest as u64 + 0x80_0000, field as i32 - 150)
    }
}

/// Puts the sign bit before a code.
fn with_sign(neg: bool, code: u32) -> (r: u32)
    requires
        code < 0x8000_0000,
    ensures
        r == signed(neg, code as nat),
{
    if neg {
        code + 0x8000_0000
    } else {
        code
    }
}

/// Multiplies a 32-bit number by a small integer, rounding once.
pub fn times_int(a: u32, k: i32) -> (r: u32)
    requires
        -0x100_0000 < k < 0x100_0000,
    ensures
        r == times(a, k as int),
{
    let code = a % 0x8000_0000;
    let neg = (a >= 0x8000_0000) != (k < 0);
    if code > INFINITY {
        NOT_A_NUMBER
    } else if code == INFINITY {
        if k == 0 {
            NOT_A_NUMBER
        } else {
            with_sign(neg, INFINITY)
        }
    } else {
        let (mag, exp) = decode_single(code);
        let size: u64 = if k < 0 {
            (-k) as u64
        } else {
            k as u64
        };
        proof {
            assert(mag * size < 0x100_0000 * 0x100_0000) by (nonlinear_arith)
                requires
                    mag < 0x100_0000,
                    size < 0x100_0000,
            ;
        }
        with_sign(neg, round_single(mag * size, exp))
    }
}

/// The 32-bit number equal to a 16-bit one; what is not a number keeps its payload and becomes
/// quiet.
pub fn widen(bits: u16) -> (r: u32)
    ensures
        r == widened(bits),
{
    let neg = bits >= 0x8000;
    let code = bits % 0x8000;
    if code > 0x7C00 {
        with_sign(neg, 0x7FC0_0000 + (code % 0x200) as u32 * 0x2000)
    } else if code == 0x7C00 {
        with_sign(neg, INFINITY)
    } else {
        proof {
            lemma2_to64();
        }
        let field = code / 0x400;
        let rest = code % 0x400;
        if field == 0 {
            with_sign(neg, round_single(rest as u64, -24))
        } else {
            with_sign(neg, round_single(rest as u64 + 0x400, field as i32 - 25))
        }
    }
}

/// The 16-bit number nearest to a 32-bit one, ties to even; what is not a number keeps the upper
/// digits of its payload and becomes quiet.
pub fn to_half(bits: u32) -> (r: u16)
    ensures
        r == halved(bits),
{
    let code = bits % 0x8000_0000;
    let kept: u32 = if code > INFINITY {
        0x7E00 + code / 0x2000 % 0x200
    } else if code == INFINITY {
        0x7C00
    } else {
        let (mag, exp) = decode_single(code);
        round_to(mag, exp, 11, -24, 0x7C00)
    };
    if bits >= 0x8000_0000 {
        (kept + 0x8000) as u16
    } else {
        kept as u16
    }
}

/// The 32-bit number nearest to an unsigned integer.
pub fn from_unsigned(n: u64) -> (r: u32)
    ensures
        r == of_int(n as int),
{
    round_single(n, 0)
}

/// The 32-bit number nearest to a signed integer.
pub fn from_signed(n: i64) -> (r: u32)
    ensures
        r == of_int(n as int),
{
    if n < 0 {
        let size: u64 = (-(n as i128)) as u64;
        with_sign(true, round_single(size, 0))
    } else {
        round_single(n as u64, 0)
    }
}

/// The 32-bit number nearest to a 64-bit one.
pub fn narrow(bits: u64) -> (r: u32)
    ensures
        r == narrowed(bits),
{
    let neg = bits >= 0x8000_0000_0000_0000;
    let code = bits % 0x8000_0000_0000_0000;
    if code > 0x7FF0_0000_0000_0000 {
        NOT_A_NUMBER
    } else if code == 0x7FF0_0000_0000_0000 {
        with_sign(neg, INFINITY)
    } else {
        proof {
            lemma2_to64_rest();
        }
        let field = code / 0x10_0000_0000_0000;
        let rest = code % 0x10_0000_0000_0000;
        if field == 0 {
            with_sign(neg, round_single(rest, -1074))
        } else {
            with_sign(neg, round_single(rest + 0x10_0000_0000_0000, field as i32 - 1075))
        }
    }
}

/// The code of a number from its count in the unit of its last digit.
proof fn lemma_nearest_of_units(mag: nat, exp: int, unit: int, count: nat)
    requires
        mag > 0,
        unit_exponent(single(), mag, exp) == unit,
        in_units(mag, exp, unit) == count,
        0 <= (unit + 149) * 0x80_0000 + count < single().infinity,
    ensures
        nearest(single(), mag, exp) == (unit + 149) * 0x80_0000 + count,
{
    lemma2_to64();
    assert((unit - single().least) * pow2(23) == (unit + 149) * 0x80_0000);
}

/// A number rounded to the digits that it has is that number.
proof fn lemma_nearest_of_scaled(mag: nat, exp: int, k: nat)
    requires
        0x80_0000 <= mag < 0x100_0000,
        exp - k >= -149,
        (exp + 149) * 0x80_0000 + mag < single().infinity,
    ensures
        nearest(single(), mag * pow2(k), exp - k) == (exp + 149) * 0x80_0000 + mag,
{
    lemma2_to64();
    lemma_pow2_pos(k);
    lemma_pow2_adds(23, k);
    lemma_pow2_adds(24, k);
    let n = mag * pow2(k);
    assert(pow2(23 + k) <= n < pow2(24 + k)) by (nonlinear_arith)
        requires
            pow2(23) <= mag < pow2(24),
            pow2(23) * pow2(k) == pow2(23 + k),
            pow2(24) * pow2(k) == pow2(24 + k),
            n == mag * pow2(k),
            pow2(k) > 0,
    ;
    lemma_bit_length_unique(n, 23 + k);
    assert(unit_exponent(single(), n, exp - k) == exp);
    lemma_half_even_of(n, k, mag, 0);
    lemma_pow2_pos(23 + k);
    lemma_nearest_of_units(n, exp - k, exp, mag);
}

/// A tiny addend below a normal number does not change what it rounds to.
proof fn lemma_far_sum(mag: nat, exp: int, k: nat, tiny: nat)
    requires
        0x80_0000 <= mag < 0x100_0000,
        exp - k >= -149,
        (exp + 149) * 0x80_0000 + mag < single().infinity,
        k >= 27,
        tiny < 0x100_0000,
    ensures
        nearest(single(), mag * pow2(k) + tiny, exp - k) == (exp + 149) * 0x80_0000 + mag,
{
    lemma2_to64();
    lemma_pow2_monotone(27, k);
    lemma_pow2_adds(23, k);
    lemma_pow2_adds(24, k);
    let n = mag * pow2(k) + tiny;
    assert(pow2(23 + k) <= n < pow2(24 + k)) by (nonlinear_arith)
        requires
            pow2(23) <= mag,
            mag + 1 <= pow2(24),
            pow2(23) * pow2(k) == pow2(23 + k),
            pow2(24) * pow2(k) == pow2(24 + k),
            n == mag * pow2(k) + tiny,
            tiny < pow2(k),
    ;
    lemma_bit_length_unique(n, 23 + k);
    assert(unit_exponent(single(), n, exp - k) == exp);
    lemma_half_even_of(n, k, mag, tiny);
    lemma_pow2_pos(23 + k);
    lemma_nearest_of_units(n, exp - k, exp, mag);
}

/// Nor does a tiny subtrahend.
proof fn lemma_far_difference(mag: nat, exp: int, k: nat, tiny: nat)
    requires
        0x80_0000 <= mag < 0x100_0000,
        exp - k >= -149,
        (exp + 149) * 0x80_0000 + mag < single().infinity,
        k >= 27,
        0 < tiny < 0x100_0000,
    ensures
        mag * pow2(k) > tiny,
        nearest(single(), (mag * pow2(k) - tiny) as nat, exp - k) == (exp + 149) * 0x80_0000 + mag,
{
    lemma2_to64();
    lemma_pow2_monotone(27, k);
    lemma_pow2_adds(23, k);
    lemma_pow2_adds(24, k);
    assert(mag * pow2(k) >= pow2(k)) by (nonlinear_arith)
        requires
            mag >= 1,
    ;
    let n = (mag * pow2(k) - tiny) as nat;
    if mag > 0x80_0000 {
        assert(pow2(23 + k) <= n < pow2(24 + k)) by (nonlinear_arith)
            requires
                pow2(23) + 1 <= mag <= pow2(24),
                pow2(23) * pow2(k) == pow2(23 + k),
                pow2(24) * pow2(k) == pow2(24 + k),
                n == mag * pow2(k) - tiny,
                0 < tiny < pow2(k),
        ;
        lemma_bit_length_unique(n, 23 + k);
        assert(unit_exponent(single(), n, exp - k) == exp);
        assert(n == (mag - 1) * pow2(k) + (pow2(k) - tiny)) by (nonlinear_arith)
            requires
                n == mag * pow2(k) - tiny,
        ;
        lemma_half_even_of(n, k, (mag - 1) as nat, (pow2(k) - tiny) as nat);
        assert(half_even(n, k) == mag);
        lemma_pow2_pos(23 + k);
        lemma_nearest_of_units(n, exp - k, exp, mag);
    } else {
        let j = (k - 1) as nat;
        lemma_pow2_unfold(k);
        lemma_pow2_monotone(26, j);
        lemma_pow2_adds(23, j);
        lemma_pow2_adds(24, j);
        assert(pow2(23 + j) <= n < pow2(24 + j)) by (nonlinear_arith)
            requires
                mag == pow2(23),
                pow2(24) == 2 * pow2(23),
                pow2(23) >= 1,
                pow2(k) == 2 * pow2(j),
                pow2(23) * pow2(j) == pow2(23 + j),
                pow2(24) * pow2(j) == pow2(24 + j),
                n == mag * pow2(k) - tiny,
                0 < tiny < pow2(j),
        ;
        lemma_bit_length_unique(n, 23 + j);
        assert(unit_exponent(single(), n, exp - k) == exp - 1);
        assert(n == (0x100_0000 - 1) * pow2(j) + (pow2(j) - tiny)) by (nonlinear_arith)
            requires
                n == 0x80_0000 * pow2(k) - tiny,
                pow2(k) == 2 * pow2(j),
        ;
        lemma_half_even_of(n, j, (0x100_0000 - 1) as nat, (pow2(j) - tiny) as nat);
        assert(half_even(n, j) == 0x100_0000);
        assert(in_units(n, exp - k, exp - 1) == 0x100_0000);
        lemma_pow2_pos(23 + j);
        lemma_nearest_of_units(n, exp - k, exp - 1, 0x100_0000);
    }
}

/// The code of `mag * 2^(exp)` with `tiny` added or taken away, `2^k` units below.
proof fn lemma_far(mag: nat, exp: int, k: nat, tiny: nat)
    requires
        0x80_0000 <= mag < 0x100_0000,
        exp - k >= -149,
        (exp + 149) * 0x80_0000 + mag < single().infinity,
        k >= 27,
        tiny < 0x100_0000,
    ensures
        mag * pow2(k) > tiny,
        nearest(single(), mag * pow2(k) + tiny, exp - k) == (exp + 149) * 0x80_0000 + mag,
        nearest(single(), (mag * pow2(k) - tiny) as nat, exp - k) == (exp + 149) * 0x80_0000 + mag,
{
    lemma_far_sum(mag, exp, k, tiny);
    if tiny == 0 {
        lemma_nearest_of_scaled(mag, exp, k);
        lemma_pow2_pos(k);
        assert(mag * pow2(k) > 0) by (nonlinear_arith)
            requires
                mag > 0,
                pow2(k) > 0,
        ;
    } else {
        lemma_far_difference(mag, exp, k, tiny);
    }
}

/// Shifts a significand to a smaller unit and gives it its sign.
fn shifted(neg: bool, mag: u64, k: u32) -> (r: i64)
    requires
        mag < 0x100_0000,
        k < 27,
    ensures
        r == (if neg {
            -(mag * pow2(k as nat))
        } else {
            mag * pow2(k as nat)
        }),
        -0x10_0000_0000_0000 < r < 0x10_0000_0000_0000,
{
    proof {
        lemma2_to64();
        lemma_pow2_monotone(k as nat, 27);
        assert(mag * pow2(k as nat) <= 0x100_0000 * 0x800_0000) by (nonlinear_arith)
            requires
                mag < 0x100_0000,
                pow2(k as nat) <= 0x800_0000,
        ;
    }
    let n = (mag * power(k)) as i64;
    if neg {
        -n
    } else {
        n
    }
}

/// What a difference is where the first operand outweighs the second.
proof fn lemma_minus_far_left(a: u32, b: u32, ma: nat, ea: int, mb: nat, eb: int)
    requires
        code_of(a) < single().infinity,
        code_of(b) < single().infinity,
        decode(single(), code_of(a)) == (ma, ea),
        decode(single(), code_of(b)) == (mb, eb),
        code_of(a) == (ea + 149) * 0x80_0000 + ma,
        0x80_0000 <= ma < 0x100_0000,
        mb < 0x100_0000,
        eb >= -149,
        ea - eb >= 27,
    ensures
        minus(a, b) == a,
{
    let k = (ea - eb) as nat;
    lemma_far(ma, ea, k, mb);
    lemma2_to64();
    let big = ma * pow2(k);
    assert(mb * pow2(0) == mb);
    assert(scaled(a, eb) == if negative(a) { -big } else { big as int });
    assert(scaled(b, eb) == if negative(b) { -(mb as int) } else { mb as int });
}

/// What a difference is where the second operand outweighs the first.
proof fn lemma_minus_far_right(a: u32, b: u32, ma: nat, ea: int, mb: nat, eb: int)
    requires
        code_of(a) < single().infinity,
        code_of(b) < single().infinity,
        decode(single(), code_of(a)) == (ma, ea),
        decode(single(), code_of(b)) == (mb, eb),
        code_of(b) == (eb + 149) * 0x80_0000 + mb,
        0x80_0000 <= mb < 0x100_0000,
        ma < 0x100_0000,
        ea >= -149,
        eb - ea >= 27,
    ensures
        minus(a, b) == signed(!negative(b), code_of(b)),
{
    let k = (eb - ea) as nat;
    lemma_far(mb, eb, k, ma);
    lemma2_to64();
    let big = mb * pow2(k);
    assert(ma * pow2(0) == ma);
    assert(scaled(b, ea) == if negative(b) { -big } else { big as int });
    assert(scaled(a, ea) == if negative(a) { -(ma as int) } else { ma as int });
}

/// Subtracts one 32-bit number from another, rounding once.
pub fn subtract(a: u32, b: u32) -> (r: u32)
    ensures
        r == minus(a, b),
{
    let ca = a % 0x8000_0000;
    let cb = b % 0x8000_0000;
    let na = a >= 0x8000_0000;
    let nb = b >= 0x8000_0000;
    if ca > INFINITY || cb > INFINITY {
        return NOT_A_NUMBER;
    }
    if ca == INFINITY {
        if cb == INFINITY && na == nb {
            return NOT_A_NUMBER;
        }
        return a;
    }
    if cb == INFINITY {
        return with_sign(!nb, INFINITY);
    }
    let (ma, ea) = decode_single(ca);
    let (mb, eb) = decode_single(cb);
    if ea - eb >= 27 {
        proof {
            lemma_minus_far_left(a, b, ma as nat, ea as int, mb as nat, eb as int);
        }
        a
    } else if eb - ea >= 27 {
        proof {
            lemma_minus_far_right(a, b, ma as nat, ea as int, mb as nat, eb as int);
        }
        with_sign(!nb, cb)
    } else {
        let unit = if ea < eb {
            ea
        } else {
            eb
        };
        let x = shifted(na, ma, (ea - unit) as u32);
        let y = shifted(nb, mb, (eb - unit) as u32);
        assert(x == scaled(a, unit as int));
        assert(y == scaled(b, unit as int));
        let d: i64 = x - y;
        if d == 0 {
            with_sign(na && !nb && ca == 0, 0)
        } else if d < 0 {
            with_sign(true, round_single((-d) as u64, unit))
        } else {
            with_sign(false, round_single(d as u64, unit))
        }
    }
}

proof fn lemma_bit_length_shifted(mag: nat, k: nat)
    requires
        mag > 0,
    ensures
        mag * pow2(k) > 0,
        bit_length(mag * pow2(k)) == bit_length(mag) + k,
{
    let b = bit_length(mag);
    lemma_bit_length_bounds(mag);
    lemma_pow2_pos(k);
    lemma_pow2_adds((b - 1) as nat, k);
    lemma_pow2_adds(b, k);
    let n = mag * pow2(k);
    assert(pow2((b - 1 + k) as nat) <= n < pow2(b + k) && n > 0) by (nonlinear_arith)
        requires
            pow2((b - 1) as nat) <= mag < pow2(b),
            pow2((b - 1) as nat) * pow2(k) == pow2((b - 1 + k) as nat),
            pow2(b) * pow2(k) == pow2(b + k),
            n == mag * pow2(k),
            pow2(k) > 0,
            mag > 0,
    ;
    lemma_bit_length_unique(n, (b - 1 + k) as nat);
}

proof fn lemma_half_even_shifted(mag: nat, s: nat, k: nat)
    ensures
        half_even(mag * pow2(k), s + k) == half_even(mag, s),
{
    lemma_pow2_pos(s);
    lemma_pow2_pos(k);
    lemma_pow2_adds(s, k);
    let (q, r) = (mag / pow2(s), mag % pow2(s));
    lemma_fundamental_div_mod(mag as int, pow2(s) as int);
    assert(r < pow2(s));
    assert(mag * pow2(k) == q * pow2(s + k) + r * pow2(k) && r * pow2(k) < pow2(s + k)) by (nonlinear_arith)
        requires
            mag == pow2(s) * q + r,
            r < pow2(s),
            pow2(s) * pow2(k) == pow2(s + k),
            pow2(k) > 0,
    ;
    lemma_half_even_of(mag * pow2(k), s + k, q, r * pow2(k));
    assert((2 * (r * pow2(k)) > pow2(s + k)) == (2 * r > pow2(s)) && (2 * (r * pow2(k)) == pow2(
        s + k,
    )) == (2 * r == pow2(s))) by (nonlinear_arith)
        requires
            pow2(s) * pow2(k) == pow2(s + k),
            pow2(k) > 0,
    ;
}

/// What a number rounds to depends on the number alone, not on how it is split into a magnitude
/// and an exponent.
pub proof fn lemma_nearest_shifted(f: Format, mag: nat, exp: int, k: nat)
    ensures
        nearest(f, mag * pow2(k), exp - k) == nearest(f, mag, exp),
{
    let n = mag * pow2(k);
    if mag == 0 {
        assert(n == 0) by (nonlinear_arith)
            requires
                mag == 0,
                n == mag * pow2(k),
        ;
    } else {
        lemma_bit_length_shifted(mag, k);
        let unit = unit_exponent(f, mag, exp);
        assert(unit_exponent(f, n, exp - k) == unit);
        if unit >= exp {
            lemma_half_even_shifted(mag, (unit - exp) as nat, k);
        } else if unit >= exp - k {
            let t = (unit - exp + k) as nat;
            let d = (exp - unit) as nat;
            lemma_pow2_adds(d, t);
            assert(n == (mag * pow2(d)) * pow2(t) + 0) by (nonlinear_arith)
                requires
                    n == mag * pow2(k),
                    pow2(d) * pow2(t) == pow2(k),
            ;
            lemma_pow2_pos(t);
            lemma_half_even_of(n, t, mag * pow2(d), 0);
        } else {
            let d = (exp - k - unit) as nat;
            lemma_pow2_adds(k, d);
            assert(n * pow2(d) == mag * pow2((exp - unit) as nat)) by (nonlinear_arith)
                requires
                    n == mag * pow2(k),
                    pow2(k) * pow2(d) == pow2((exp - unit) as nat),
            ;
        }
        assert(in_units(n, exp - k, unit) == in_units(mag, exp, unit));
    }
}

/// A number that the format has rounds to itself.
pub proof fn lemma_exact(f: Format, code: nat)
    requires
        f.digits >= 1,
        code < f.infinity,
    ensures
        ({
            let (mag, exp) = decode(f, code);
            nearest(f, mag, exp) == code
        }),
{
    let d = (f.digits - 1) as nat;
    let hidden = pow2(d);
    lemma_pow2_pos(d);
    lemma_pow2_unfold(f.digits);
    lemma_pow2_pos(0);
    lemma2_to64();
    lemma_fundamental_div_mod(code as int, hidden as int);
    let field = code / hidden;
    let (mag, exp) = decode(f, code);
    lemma_half_even_of(mag, 0, mag, 0);
    if field == 0 {
        assert(code == mag) by (nonlinear_arith)
            requires
                code == hidden * field + mag,
                field == 0,
        ;
        if mag > 0 {
            lemma_bit_length_bounds(mag);
            let b = bit_length(mag);
            if b > d {
                lemma_pow2_monotone(d, (b - 1) as nat);
            }
            assert(unit_exponent(f, mag, exp) == f.least);
            assert((f.least - f.least) * hidden == 0) by (nonlinear_arith);
        }
    } else {
        lemma_bit_length_unique(mag, d);
        assert(unit_exponent(f, mag, exp) == exp);
        assert((exp - f.least) * hidden + mag == code) by (nonlinear_arith)
            requires
                exp == f.least + field - 1,
                code == hidden * field + (mag - hidden),
        ;
    }
}

/// A quotient rounded to the nearest integer is off by half a unit at most.
pub proof fn lemma_half_even_close(n: nat, s: nat)
    ensures
        -(pow2(s) as int) <= 2 * (half_even(n, s) * pow2(s) - n) <= pow2(s),
{
    lemma_pow2_pos(s);
    let (q, r) = (n / pow2(s), n % pow2(s));
    lemma_fundamental_div_mod(n as int, pow2(s) as int);
    assert(q * pow2(s) == pow2(s) * q && (q + 1) * pow2(s) == pow2(s) * q + pow2(s)) by (nonlinear_arith);
}

/// A number of the 16-bit format keeps its value in the 32-bit format, and comes back from it
/// unchanged.
#[verifier::rlimit(40)]
pub proof fn lemma_half_round_trip(bits: u16)
    requires
        (bits as nat) % 0x8000 <= half().infinity,
    ensures
        halved(widened(bits)) == bits,
{
    let code = (bits as nat) % 0x8000;
    lemma2_to64();
    if code < half().infinity {
        let (mag, exp) = decode(half(), code);
        lemma_exact(half(), code);
        let wide = nearest(single(), mag, exp);
        if mag > 0 {
            let b = bit_length(mag);
            lemma_bit_length_bounds(mag);
            assert(mag < 0x800);
            if b > 11 {
                lemma_pow2_monotone(11, (b - 1) as nat);
            }
            let k = (24 - b) as nat;
            let m = mag * pow2(k);
            lemma_bit_length_shifted(mag, k);
            lemma_bit_length_bounds(m);
            lemma_nearest_shifted(single(), mag, exp, k);
            lemma_nearest_shifted(half(), mag, exp, k);
            let unit = exp - k;
            assert(unit_exponent(single(), m, unit) == unit);
            lemma_half_even_of(m, 0, m, 0);
            assert(-47 <= unit <= 5);
            lemma_nearest_of_units(m, unit, unit, m);
            assert(wide == (unit + 149) * 0x80_0000 + m);
            lemma_fundamental_div_mod_converse(
                wide as int,
                0x80_0000,
                unit + 150,
                m - 0x80_0000,
            );
            assert(decode(single(), wide) == (m, unit));
        }
    }
}

} // verus!
