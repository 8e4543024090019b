//! Single-precision samples as IEEE 754 binary32 bit patterns, and the
//! arithmetic on them.
//!
//! A finite sample is `(-1)^sign * significand * 2^exponent` with a
//! significand below `2^24` and an exponent from `-149` on. The result of an
//! operation is the exact result rounded to the nearest sample, ties going to
//! the even significand; it is an infinity where the rounded result is
//! `2^128` or more. Every result that is not a number is the one quiet
//! pattern [`QUIET_NAN`].
//!
//! Everything is computed on integers.

use crate::rounding::{
    bit_length,
    bit_length_of,
    lemma_bit_length_below,
    lemma_bit_length_bounds,
    lemma_bit_length_unique,
    lemma_pow2_128,
    lemma_round_dropping,
    lemma_round_dropping_small,
    lemma_round_to_precision,
    power_of_two,
    round_dropping,
    round_off,
    round_to_digits,
    round_to_precision,
};
use vstd::arithmetic::div_mod::lemma_fundamental_div_mod_converse;
use vstd::arithmetic::power2::{
    lemma2_to64,
    lemma2_to64_rest,
    lemma_pow2_adds,
    lemma_pow2_pos,
    lemma_pow2_strictly_increases,
    lemma_pow2_unfold,
    pow2,
};
use vstd::prelude::*;

verus! {

/// The bit pattern of positive zero.
pub const POSITIVE_ZERO: u32 = 0;

/// The bit pattern of positive infinity.
pub const POSITIVE_INFINITY: u32 = 0x7f80_0000;

/// The bit pattern of every result that is not a number.
pub const QUIET_NAN: u32 = 0x7fc0_0000;

/// The sign bit of a binary32 bit pattern.
pub open spec fn sign_bit(bits: u32) -> bool {
    bits >= 0x8000_0000
}

/// The 8-bit exponent field of a binary32 bit pattern.
pub open spec fn exponent_field(bits: u32) -> nat {
    ((bits / 0x80_0000) % 0x100) as nat
}

/// The 23-bit fraction field of a binary32 bit pattern.
pub open spec fn fraction_field(bits: u32) -> nat {
    (bits % 0x80_0000) as nat
}

/// The sample is not a number.
pub open spec fn is_nan(bits: u32) -> bool {
    exponent_field(bits) == 0xff && fraction_field(bits) != 0
}

/// The sample is positive or negative infinity.
pub open spec fn is_infinite(bits: u32) -> bool {
    exponent_field(bits) == 0xff && fraction_field(bits) == 0
}

/// The sample is a number, not an infinity and not not-a-number.
pub open spec fn is_finite(bits: u32) -> bool {
    exponent_field(bits) != 0xff
}

/// The sample is positive or negative zero.
pub open spec fn is_zero(bits: u32) -> bool {
    bits % 0x8000_0000 == 0
}

/// The significand of a finite sample: its magnitude is
/// `significand * 2^exponent`.
pub open spec fn significand(bits: u32) -> nat {
    if exponent_field(bits) == 0 {
        fraction_field(bits)
    } else {
        0x80_0000 + fraction_field(bits)
    }
}

/// The exponent of a finite sample: its magnitude is
/// `significand * 2^exponent`.
pub open spec fn exponent(bits: u32) -> int {
    if exponent_field(bits) == 0 {
        -149
    } else {
        exponent_field(bits) - 150
    }
}

/// The bit pattern of the positive sample `significand * 2^exponent`, for a
/// significand of at most `2^24` and an exponent from `-149` on; positive
/// infinity where that number is `2^128` or more.
///
/// The highest digit of the number is at position
/// `top = exponent + bit_length(significand) - 1`. Below `-126` the sample is
/// subnormal: its exponent field is zero and its fraction field holds the
/// number in units of `2^-149`. Otherwise the exponent field is `top + 127`
/// and the fraction field holds the 23 digits below the highest one.
pub open spec fn magnitude_bits(significand: nat, exponent: int) -> u32 {
    if significand == 0 {
        POSITIVE_ZERO
    } else {
        let digits = bit_length(significand);
        let top = exponent + digits - 1;
        if top >= 128 {
            POSITIVE_INFINITY
        } else if top < -126 {
            (significand * pow2((exponent + 149) as nat)) as u32
        } else {
            let aligned = if digits <= 24 {
                significand * pow2((24 - digits) as nat)
            } else {
                significand / 2
            };
            ((top + 127) * 0x80_0000 + (aligned - 0x80_0000)) as u32
        }
    }
}

/// A magnitude with its sign bit.
pub open spec fn with_sign(negative: bool, magnitude: u32) -> u32 {
    if negative {
        (magnitude + 0x8000_0000) as u32
    } else {
        magnitude
    }
}

/// The number of low digits of `n * 2^exponent` that no sample can hold: a
/// sample keeps 24 significant digits, and none below `2^-149`.
pub open spec fn dropped_digits(n: nat, exponent: int) -> nat {
    let beyond_precision = bit_length(n) - 24;
    let below_range = -149 - exponent;
    if beyond_precision <= 0 && below_range <= 0 {
        0
    } else if beyond_precision >= below_range {
        beyond_precision as nat
    } else {
        below_range as nat
    }
}

/// The bit pattern of the sample nearest to `(-1)^negative * n * 2^exponent`,
/// ties going to the even significand, and an infinity where the rounded
/// number is `2^128` or more.
pub open spec fn rounded_to_single(negative: bool, n: nat, exponent: int) -> u32 {
    let shift = dropped_digits(n, exponent);
    with_sign(negative, magnitude_bits(round_dropping(n, shift), exponent + shift))
}

/// The bit pattern of the sample nearest to `n`.
pub open spec fn nearest_single(n: nat) -> u32 {
    rounded_to_single(false, n, 0)
}

/// What the bit pattern of a positive number means: it is infinite exactly
/// when the highest digit of the number is at position 128 or above, and
/// otherwise it is a positive finite sample, not zero, that denotes
/// `significand * 2^exponent`.
pub proof fn lemma_magnitude_bits(significand: nat, exponent: int)
    requires
        0 < significand <= 0x100_0000,
        exponent >= -149,
    ensures
        ({
            let bits = magnitude_bits(significand, exponent);
            let top = exponent + bit_length(significand) - 1;
            &&& bits <= POSITIVE_INFINITY
            &&& top >= 128 <==> bits == POSITIVE_INFINITY
            &&& top < 128 ==> {
                &&& is_finite(bits)
                &&& !is_zero(bits)
                &&& top >= -126 ==> exponent_field(bits) == top + 127
                &&& top < -126 ==> exponent_field(bits) == 0
                &&& self::exponent(bits) <= exponent ==> self::significand(bits) == significand
                    * pow2((exponent - self::exponent(bits)) as nat)
                &&& self::exponent(bits) > exponent ==> self::exponent(bits) == exponent + 1
                    && self::significand(bits) * 2 == significand
            }
        }),
{
    let bits = magnitude_bits(significand, exponent);
    let digits = bit_length(significand);
    let top = exponent + digits - 1;
    lemma2_to64();
    lemma_bit_length_below(significand, 25);
    lemma_bit_length_bounds(significand);
    if top >= 128 {
    } else if top < -126 {
        let scale = pow2((exponent + 149) as nat);
        lemma_pow2_adds(digits, (exponent + 149) as nat);
        lemma_pow2_adds((digits - 1) as nat, (exponent + 149) as nat);
        lemma_pow2_pos((exponent + 149) as nat);
        if digits + exponent + 149 < 23 {
            lemma_pow2_strictly_increases((digits + exponent + 149) as nat, 23);
        }
        let below = pow2((digits - 1) as nat);
        let above = pow2(digits);
        assert(below * scale <= significand * scale < above * scale) by (nonlinear_arith)
            requires
                below <= significand < above,
                scale > 0,
        ;
        lemma_pow2_pos((digits - 1 + exponent + 149) as nat);
        assert(0 < significand * scale < 0x80_0000);
        assert(bits == significand * scale);
    } else {
        let aligned = if digits <= 24 {
            significand * pow2((24 - digits) as nat)
        } else {
            significand / 2
        };
        if digits <= 24 {
            let scale = pow2((24 - digits) as nat);
            lemma_pow2_adds(digits, (24 - digits) as nat);
            lemma_pow2_adds((digits - 1) as nat, (24 - digits) as nat);
            lemma_pow2_pos((24 - digits) as nat);
            let below = pow2((digits - 1) as nat);
            let above = pow2(digits);
            assert(below * scale <= significand * scale < above * scale) by (nonlinear_arith)
                requires
                    below <= significand < above,
                    scale > 0,
            ;
        } else {
            if significand < 0x100_0000 {
                lemma_bit_length_below(significand, 24);
            }
        }
        assert(0x80_0000 <= aligned < 0x100_0000);
        assert(bits == (top + 127) * 0x80_0000 + (aligned - 0x80_0000));
        assert(exponent_field(bits) == top + 127);
        assert(fraction_field(bits) == aligned - 0x80_0000);
    }
}

/// Every finite sample is the bit pattern of its own significand and
/// exponent.
pub proof fn lemma_finite_sample_is_its_own_pattern(bits: u32)
    requires
        is_finite(bits),
    ensures
        with_sign(sign_bit(bits), magnitude_bits(significand(bits), exponent(bits))) == bits,
        significand(bits) < 0x100_0000,
        exponent_field(bits) != 0 ==> significand(bits) >= 0x80_0000,
        -149 <= exponent(bits) <= 104,
{
    let m = significand(bits);
    let x = exponent(bits);
    let field = exponent_field(bits);
    let magnitude = if bits >= 0x8000_0000 {
        (bits - 0x8000_0000) as u32
    } else {
        bits
    };
    lemma2_to64();
    assert(magnitude == field * 0x80_0000 + fraction_field(bits));
    if m > 0 {
        lemma_bit_length_bounds(m);
        if field == 0 {
            lemma_bit_length_below(m, 23);
            assert(m * 1 == m);
        } else {
            lemma_bit_length_unique(m, 24);
            assert(m * 1 == m);
        }
    }
}

/// The sample nearest to a positive `n` is infinite exactly when rounding
/// carries `n` to `2^128` or beyond. Otherwise it is a positive finite
/// sample that denotes `n` rounded to 24 significant digits, and `n` itself
/// if `n` has no more digits than that.
pub proof fn lemma_nearest_single_denotes_rounded(n: nat)
    requires
        n > 0,
    ensures
        ({
            let bits = nearest_single(n);
            let (kept, shift) = round_to_precision(n, 24);
            let top = shift + bit_length(kept) - 1;
            &&& top >= 128 <==> bits == POSITIVE_INFINITY
            &&& top < 128 ==> {
                &&& bits < POSITIVE_INFINITY
                &&& is_finite(bits)
                &&& !is_zero(bits)
                &&& exponent(bits) >= 0 ==> significand(bits) * pow2(exponent(bits) as nat)
                    == kept * pow2(shift)
                &&& exponent(bits) < 0 ==> shift == 0 && significand(bits) == n * pow2(
                    (-exponent(bits)) as nat,
                )
            }
        }),
{
    let bits = nearest_single(n);
    let (kept, shift) = round_to_precision(n, 24);
    lemma2_to64();
    lemma_round_to_precision(n, 24);
    assert(dropped_digits(n, 0) == shift);
    lemma_magnitude_bits(kept, shift as int);
    lemma_bit_length_below(kept, 25);
    lemma_bit_length_bounds(kept);
    let top = shift + bit_length(kept) - 1;
    if top < 128 {
        let x = exponent(bits);
        if x > shift {
            lemma_pow2_unfold((shift + 1) as nat);
            assert(significand(bits) * (2 * pow2(shift)) == kept * pow2(shift))
                by (nonlinear_arith)
                requires
                    significand(bits) * 2 == kept,
            ;
        } else if x >= 0 {
            lemma_pow2_adds((shift - x) as nat, x as nat);
            let low = pow2((shift - x) as nat);
            let high = pow2(x as nat);
            assert((kept * low) * high == kept * (low * high)) by (nonlinear_arith);
        } else {
            if shift > 0 {
                lemma_pow2_strictly_increases(23, 24);
            }
        }
    }
}

/// The double-precision number nearest to `n`, ties going to the even
/// significand: `n` rounded to 53 significant digits.
pub open spec fn nearest_double(n: nat) -> nat {
    let (kept, shift) = round_to_precision(n, 53);
    kept * pow2(shift)
}

/// The fourth power of a kernel scale as double arithmetic computes it: the
/// square of the scale, rounded to a double, times itself, rounded to a
/// double again.
pub open spec fn fourth_power(sigma_size: u32) -> nat {
    let square = nearest_double((sigma_size * sigma_size) as nat);
    nearest_double(square * square)
}

/// The normalization factor of a level: the fourth power of its kernel
/// scale, computed in double precision and rounded to a sample.
pub open spec fn normalization_of(sigma_size: u32) -> u32 {
    nearest_single(fourth_power(sigma_size))
}

/// Up to `9741` the fourth power of a kernel scale is exact.
pub proof fn lemma_fourth_power_is_exact(sigma_size: u32)
    requires
        sigma_size <= 9741,
    ensures
        fourth_power(sigma_size) == sigma_size * sigma_size * sigma_size * sigma_size,
{
    let s = sigma_size as int;
    lemma2_to64();
    lemma2_to64_rest();
    assert(0 <= s * s <= 9741 * 9741) by (nonlinear_arith)
        requires
            0 <= s <= 9741,
    ;
    lemma_bit_length_below((s * s) as nat, 53);
    assert((s * s) * 1 == s * s);
    let square = s * s;
    assert(0 <= square * square <= (9741 * 9741) * (9741 * 9741)) by (nonlinear_arith)
        requires
            0 <= square <= 9741 * 9741,
    ;
    lemma_bit_length_below((square * square) as nat, 53);
    assert((square * square) * 1 == square * square);
    assert(square * square == s * s * s * s) by (nonlinear_arith)
        requires
            square == s * s,
    ;
}

/// Rounding to a double raises a number of `u128` by at most `2^74`, and a
/// number of `u64` by at most `2^10`.
proof fn lemma_nearest_double_is_near(n: nat)
    requires
        n < pow2(128),
    ensures
        nearest_double(n) <= n + pow2(74),
        n < pow2(64) ==> nearest_double(n) <= n + pow2(10),
{
    let (kept, shift) = round_to_precision(n, 53);
    lemma_round_to_precision(n, 53);
    lemma_bit_length_below(n, 128);
    if shift > 0 {
        lemma_pow2_unfold(shift);
        if shift < 75 {
            lemma_pow2_strictly_increases((shift - 1) as nat, 74);
        }
        if n < pow2(64) {
            lemma_bit_length_below(n, 64);
            if shift < 11 {
                lemma_pow2_strictly_increases((shift - 1) as nat, 10);
            }
        }
    } else {
        lemma_pow2_pos(74);
        lemma_pow2_pos(10);
        lemma2_to64();
        assert(kept * pow2(0) == n) by (nonlinear_arith)
            requires
                kept == n,
                pow2(0) == 1,
        ;
    }
}

/// Kernel scales below `2^31` have a finite normalization factor.
pub proof fn lemma_normalization_is_finite(sigma_size: u32)
    requires
        sigma_size < 0x8000_0000,
    ensures
        is_finite(normalization_of(sigma_size)),
{
    let s = sigma_size as int;
    let bound = 0x8000_0000int;
    lemma2_to64();
    lemma2_to64_rest();
    lemma_pow2_128();
    lemma_pow2_adds(62, 62);
    lemma_pow2_adds(63, 63);
    lemma_pow2_strictly_increases(74, 124);
    lemma_pow2_strictly_increases(126, 128);
    lemma_pow2_unfold(125);
    lemma_pow2_unfold(126);
    assert(0 <= s * s <= (bound - 1) * (bound - 1)) by (nonlinear_arith)
        requires
            0 <= s < bound,
    ;
    lemma_nearest_double_is_near((s * s) as nat);
    let square = nearest_double((s * s) as nat);
    assert(square < pow2(62));
    assert(square * square < pow2(62) * pow2(62)) by (nonlinear_arith)
        requires
            0 <= square < pow2(62),
    ;
    lemma_nearest_double_is_near(square * square);
    let n = fourth_power(sigma_size);
    assert(n < pow2(125));
    if n > 0 {
        lemma_bit_length_below(n, 125);
        let (kept, shift) = round_to_precision(n, 24);
        lemma_round_to_precision(n, 24);
        lemma_bit_length_below(kept, 25);
        lemma_bit_length_bounds(kept);
        lemma_nearest_single_denotes_rounded(n);
    }
}

/// Computes the bit pattern of the positive sample
/// `significand * 2^exponent`.
fn magnitude(significand: u128, exponent: i32) -> (bits: u32)
    requires
        significand <= 0x100_0000,
        -149 <= exponent <= 1000,
    ensures
        bits == magnitude_bits(significand as nat, exponent as int),
        bits <= POSITIVE_INFINITY,
{
    if significand == 0 {
        return POSITIVE_ZERO;
    }
    proof {
        lemma2_to64();
        lemma_magnitude_bits(significand as nat, exponent as int);
        lemma_bit_length_below(significand as nat, 25);
        lemma_bit_length_bounds(significand as nat);
    }
    let digits = bit_length_of(significand);
    let top: i32 = exponent + digits as i32 - 1;
    if top >= 128 {
        POSITIVE_INFINITY
    } else if top < -126 {
        let scale = power_of_two((exponent + 149) as u32);
        proof {
            let d = digits as nat;
            let k = significand as nat;
            let e = (exponent + 149) as nat;
            lemma_pow2_adds(d, e);
            lemma_pow2_pos(e);
            if d + e < 23 {
                lemma_pow2_strictly_increases(d + e, 23);
            }
            let above = pow2(d);
            assert(k * scale < above * scale) by (nonlinear_arith)
                requires
                    k < above,
                    scale > 0,
            ;
        }
        (significand * scale) as u32
    } else {
        let aligned: u128 = if digits <= 24 {
            let scale = power_of_two(24 - digits);
            proof {
                let d = digits as nat;
                let k = significand as nat;
                lemma_pow2_adds(d, (24 - d) as nat);
                lemma_pow2_adds((d - 1) as nat, (24 - d) as nat);
                lemma_pow2_pos((24 - d) as nat);
                let below = pow2((d - 1) as nat);
                let above = pow2(d);
                assert(below * scale <= k * scale < above * scale) by (nonlinear_arith)
                    requires
                        below <= k < above,
                        scale > 0,
                ;
            }
            significand * scale
        } else {
            proof {
                if significand < 0x100_0000 {
                    lemma_bit_length_below(significand as nat, 24);
                }
            }
            significand / 2
        };
        ((top + 127) as u128 * 0x80_0000 + (aligned - 0x80_0000)) as u32
    }
}

/// Computes the bit pattern of the sample nearest to
/// `(-1)^negative * n * 2^exponent`.
fn round_to_single(negative: bool, n: u128, exponent: i32) -> (bits: u32)
    requires
        -1000 <= exponent <= 800,
        exponent >= -149 || n < 0x8000_0000_0000_0000_0000_0000_0000_0000,
    ensures
        bits == rounded_to_single(negative, n as nat, exponent as int),
{
    let length = bit_length_of(n);
    let beyond_precision: i32 = length as i32 - 24;
    let below_range: i32 = -149 - exponent;
    let shift: i32 = if beyond_precision <= 0 && below_range <= 0 {
        0
    } else if beyond_precision >= below_range {
        beyond_precision
    } else {
        below_range
    };
    proof {
        lemma2_to64();
        lemma_pow2_128();
        lemma_pow2_unfold(128);
        lemma_round_dropping(n as nat, shift as nat, 24);
        if n > 0 {
            lemma_bit_length_bounds(n as nat);
            if length < shift + 24 {
                lemma_pow2_strictly_increases(length as nat, (shift + 24) as nat);
            }
        } else {
            lemma_pow2_pos((shift + 24) as nat);
        }
    }
    let kept: u128 = if shift >= 128 {
        proof {
            if shift - 1 > 127 {
                lemma_pow2_strictly_increases(127, (shift - 1) as nat);
            }
            lemma_round_dropping_small(n as nat, shift as nat);
        }
        0
    } else {
        round_off(n, shift as u32)
    };
    let bits = magnitude(kept, exponent + shift);
    if negative {
        bits + 0x8000_0000
    } else {
        bits
    }
}

/// Computes the bit pattern of the single-precision number nearest to `n`.
pub fn single_nearest_to(n: u128) -> (bits: u32)
    ensures
        bits == nearest_single(n as nat),
{
    round_to_single(false, n, 0)
}

/// Computes the double-precision number nearest to `n`.
fn double_nearest_to(n: u128) -> (rounded: u128)
    requires
        nearest_double(n as nat) <= u128::MAX,
    ensures
        rounded == nearest_double(n as nat),
{
    let (kept, shift) = round_to_digits(n, 53);
    let unit = power_of_two(shift);
    kept * unit
}

/// Computes the normalization factor of a level: the fourth power of its
/// kernel scale, computed in double precision and rounded to a sample.
pub fn normalization(sigma_size: u32) -> (bits: u32)
    ensures
        bits == normalization_of(sigma_size),
{
    proof {
        lemma2_to64();
        lemma2_to64_rest();
        lemma_pow2_128();
        lemma_pow2_adds(64, 64);
        lemma_pow2_strictly_increases(64, 128);
        lemma_pow2_strictly_increases(74, 96);
        lemma_pow2_adds(32, 64);
    }
    assert(sigma_size * sigma_size <= 0xffff_ffff * 0xffff_ffff) by (nonlinear_arith)
        requires
            sigma_size <= 0xffff_ffff,
    ;
    let exact: u64 = sigma_size as u64 * sigma_size as u64;
    proof {
        lemma_nearest_double_is_near(exact as nat);
    }
    let square = double_nearest_to(exact as u128);
    proof {
        let limit = 0xffff_ffff_0000_0000int;
        assert(square * square <= limit * limit) by (nonlinear_arith)
            requires
                0 <= square <= limit,
        ;
        assert(limit * limit + pow2(74) < pow2(128)) by {
            assert(limit * limit == pow2(128) - 2 * pow2(96) + pow2(64)) by (nonlinear_arith)
                requires
                    limit == 0x1_0000_0000_0000_0000 - 0x1_0000_0000,
                    pow2(64) == 0x1_0000_0000_0000_0000,
                    pow2(96) == 0x1_0000_0000 * 0x1_0000_0000_0000_0000,
                    pow2(128) == 0x1_0000_0000_0000_0000 * 0x1_0000_0000_0000_0000,
            ;
        }
        lemma_nearest_double_is_near((square * square) as nat);
    }
    let fourth = double_nearest_to(square * square);
    single_nearest_to(fourth)
}

/// The product of two samples: the exact product of two finite samples
/// rounded to the nearest sample, an infinity for an infinity times anything
/// but zero, and not-a-number for zero times an infinity and for
/// not-a-number times anything. The sign is negative where exactly one
/// factor is negative.
pub open spec fn product_of(left: u32, right: u32) -> u32 {
    if is_nan(left) || is_nan(right) {
        QUIET_NAN
    } else if is_infinite(left) || is_infinite(right) {
        if is_zero(left) || is_zero(right) {
            QUIET_NAN
        } else {
            with_sign(sign_bit(left) != sign_bit(right), POSITIVE_INFINITY)
        }
    } else {
        rounded_to_single(
            sign_bit(left) != sign_bit(right),
            significand(left) * significand(right),
            exponent(left) + exponent(right),
        )
    }
}

/// The sum of two finite numbers `(-1)^negative * significand * 2^exponent`,
/// rounded to the nearest sample. Both are written over the lower of the
/// two exponents, where their sum is an integer. A sum of zero is positive
/// unless both numbers are negative.
pub open spec fn sum_of_finite(
    left_negative: bool,
    left_significand: nat,
    left_exponent: int,
    right_negative: bool,
    right_significand: nat,
    right_exponent: int,
) -> u32 {
    let low = if left_exponent <= right_exponent {
        left_exponent
    } else {
        right_exponent
    };
    let left = left_significand * pow2((left_exponent - low) as nat);
    let right = right_significand * pow2((right_exponent - low) as nat);
    if left_negative == right_negative {
        rounded_to_single(left_negative, left + right, low)
    } else if left > right {
        rounded_to_single(left_negative, (left - right) as nat, low)
    } else if right > left {
        rounded_to_single(right_negative, (right - left) as nat, low)
    } else {
        POSITIVE_ZERO
    }
}

/// The sum of two samples: the exact sum of two finite samples rounded to
/// the nearest sample, the infinity where one is infinite, and not-a-number
/// for the sum of the two infinities and for not-a-number plus anything.
pub open spec fn sum_of(left: u32, right: u32) -> u32 {
    if is_nan(left) || is_nan(right) {
        QUIET_NAN
    } else if is_infinite(left) {
        if is_infinite(right) && sign_bit(left) != sign_bit(right) {
            QUIET_NAN
        } else {
            left
        }
    } else if is_infinite(right) {
        right
    } else {
        sum_of_finite(
            sign_bit(left),
            significand(left),
            exponent(left),
            sign_bit(right),
            significand(right),
            exponent(right),
        )
    }
}

/// The sample with the other sign.
pub open spec fn negated(bits: u32) -> u32 {
    if bits >= 0x8000_0000 {
        (bits - 0x8000_0000) as u32
    } else {
        (bits + 0x8000_0000) as u32
    }
}

/// The difference of two samples: the sum of the first and the negated
/// second.
pub open spec fn difference_of(left: u32, right: u32) -> u32 {
    sum_of(left, negated(right))
}

/// The product of a zero and a finite sample is a zero.
pub proof fn lemma_product_of_zero(left: u32, right: u32)
    requires
        is_zero(left),
        is_finite(right),
    ensures
        is_zero(product_of(left, right)),
{
    let low = exponent(left) + exponent(right);
    let shift = dropped_digits(0, low);
    assert(significand(left) == 0);
    assert(significand(left) * significand(right) == 0) by (nonlinear_arith)
        requires
            significand(left) == 0,
    ;
    assert(bit_length(0) == 0);
    if shift > 0 {
        lemma_pow2_pos((shift - 1) as nat);
        lemma_round_dropping_small(0, shift);
    }
}

/// The difference of two zeros is a zero.
pub proof fn lemma_difference_of_zeros(left: u32, right: u32)
    requires
        is_zero(left),
        is_zero(right),
    ensures
        is_zero(difference_of(left, right)),
{
    let other = negated(right);
    assert(is_zero(other));
    assert(significand(left) == 0 && significand(other) == 0);
    assert(exponent(left) == -149 && exponent(other) == -149);
    lemma2_to64();
    assert(0 * pow2(0) == 0);
    assert(bit_length(0) == 0);
    assert(dropped_digits(0, -149) == 0);
}

/// Where two finite numbers lie at least 26 binary places apart, their sum
/// rounds to the larger one: the smaller one is less than a quarter of a
/// unit in the last place of the larger.
proof fn lemma_sum_far_apart(negative: bool, big: nat, small: nat, gap: nat, low: int, adding: bool)
    requires
        0x80_0000 <= big < 0x100_0000,
        small < 0x100_0000,
        gap >= 26,
        low >= -149,
    ensures
        big * pow2(gap) > small,
        rounded_to_single(
            negative,
            if adding {
                big * pow2(gap) + small
            } else {
                (big * pow2(gap) - small) as nat
            },
            low,
        ) == with_sign(negative, magnitude_bits(big, low + gap)),
{
    let unit = pow2(gap);
    let half = pow2((gap - 1) as nat);
    let quarter = pow2((gap - 2) as nat);
    lemma2_to64();
    lemma_pow2_unfold(gap);
    lemma_pow2_unfold((gap - 1) as nat);
    if gap > 26 {
        lemma_pow2_strictly_increases(24, (gap - 2) as nat);
    }
    assert(quarter >= 0x100_0000);
    lemma_pow2_adds(23, gap);
    lemma_pow2_adds(24, gap);
    lemma_pow2_adds(23, (gap - 1) as nat);
    lemma_pow2_adds(24, (gap - 1) as nat);
    assert(0x80_0000 * unit <= big * unit && (big + 1) * unit <= 0x100_0000 * unit
        && (big - 1) * unit == big * unit - unit && (big + 1) * unit == big * unit + unit)
        by (nonlinear_arith)
        requires
            0x80_0000 <= big < 0x100_0000,
            unit > 0,
    ;
    let total: nat = if adding {
        big * unit + small
    } else {
        (big * unit - small) as nat
    };
    if adding || small == 0 {
        lemma_bit_length_unique(total, 24 + gap);
        assert(dropped_digits(total, low) == gap);
        lemma_fundamental_div_mod_converse(total as int, unit as int, big as int, small as int);
    } else if big > 0x80_0000 {
        assert(0x80_0000 * unit <= (big - 1) * unit) by (nonlinear_arith)
            requires
                0x80_0000 <= big - 1,
                unit > 0,
        ;
        lemma_bit_length_unique(total, 24 + gap);
        assert(dropped_digits(total, low) == gap);
        lemma_fundamental_div_mod_converse(
            total as int,
            unit as int,
            big - 1,
            unit - small,
        );
    } else {
        assert(0xff_ffff * half + (half - small) == total && 0x80_0000 * half <= 0xff_ffff * half)
            by (nonlinear_arith)
            requires
                total == 0x80_0000 * unit - small,
                unit == 2 * half,
                half > 0,
        ;
        assert(0x100_0000 * half == 0x80_0000 * unit) by (nonlinear_arith)
            requires
                unit == 2 * half,
        ;
        lemma_bit_length_unique(total, 23 + gap);
        assert(dropped_digits(total, low) == gap - 1);
        lemma_fundamental_div_mod_converse(
            total as int,
            half as int,
            0xff_ffff,
            half - small,
        );
        assert(round_dropping(total, (gap - 1) as nat) == 0x100_0000);
        lemma_bit_length_unique(0x100_0000, 25);
        lemma_bit_length_unique(0x80_0000, 24);
        assert(0x80_0000 * pow2(0) == 0x80_0000);
    }
}

/// Whether a sample is not a number.
fn sample_is_nan(bits: u32) -> (nan: bool)
    ensures
        nan == is_nan(bits),
{
    (bits / 0x80_0000) % 0x100 == 0xff && bits % 0x80_0000 != 0
}

/// Whether a sample is an infinity.
fn sample_is_infinite(bits: u32) -> (infinite: bool)
    ensures
        infinite == is_infinite(bits),
{
    (bits / 0x80_0000) % 0x100 == 0xff && bits % 0x80_0000 == 0
}

/// The significand and the exponent of a finite sample.
fn parts(bits: u32) -> (parts: (u32, i32))
    requires
        is_finite(bits),
    ensures
        parts.0 == significand(bits),
        parts.1 == exponent(bits),
        parts.0 < 0x100_0000,
        -149 <= parts.1 <= 104,
        parts.1 > -149 ==> parts.0 >= 0x80_0000,
{
    let field = (bits / 0x80_0000) % 0x100;
    let fraction = bits % 0x80_0000;
    if field == 0 {
        (fraction, -149)
    } else {
        (0x80_0000 + fraction, field as i32 - 150)
    }
}

/// Computes the product of two samples.
pub fn multiply(left: u32, right: u32) -> (product: u32)
    ensures
        product == product_of(left, right),
{
    if sample_is_nan(left) || sample_is_nan(right) {
        return QUIET_NAN;
    }
    let negative = (left >= 0x8000_0000) != (right >= 0x8000_0000);
    if sample_is_infinite(left) || sample_is_infinite(right) {
        return if left % 0x8000_0000 == 0 || right % 0x8000_0000 == 0 {
            QUIET_NAN
        } else if negative {
            0xff80_0000
        } else {
            POSITIVE_INFINITY
        };
    }
    let (left_significand, left_exponent) = parts(left);
    let (right_significand, right_exponent) = parts(right);
    assert(left_significand * right_significand < 0x100_0000 * 0x100_0000) by (nonlinear_arith)
        requires
            left_significand < 0x100_0000,
            right_significand < 0x100_0000,
    ;
    let exact: u128 = left_significand as u128 * right_significand as u128;
    round_to_single(negative, exact, left_exponent + right_exponent)
}

/// Computes the sum of two finite numbers of which the first has the higher
/// exponent, and is the sample `big_bits`.
fn add_finite(
    big_bits: u32,
    big: u32,
    big_exponent: i32,
    small_negative: bool,
    small: u32,
    small_exponent: i32,
) -> (total: u32)
    requires
        is_finite(big_bits),
        big == significand(big_bits),
        big_exponent == exponent(big_bits),
        small < 0x100_0000,
        -149 <= small_exponent <= big_exponent,
    ensures
        total == sum_of_finite(
            sign_bit(big_bits),
            big as nat,
            big_exponent as int,
            small_negative,
            small as nat,
            small_exponent as int,
        ),
{
    let big_negative = big_bits >= 0x8000_0000;
    let gap = (big_exponent - small_exponent) as u32;
    proof {
        lemma2_to64();
        lemma_finite_sample_is_its_own_pattern(big_bits);
        assert(small * pow2(0) == small) by (nonlinear_arith)
            requires
                pow2(0) == 1,
        ;
    }
    if gap > 100 {
        proof {
            lemma_sum_far_apart(
                big_negative,
                big as nat,
                small as nat,
                gap as nat,
                small_exponent as int,
                big_negative == small_negative,
            );
        }
        big_bits
    } else {
        let scale = power_of_two(gap);
        proof {
            lemma_pow2_adds(24, 100);
            lemma_pow2_strictly_increases(124, 126);
            lemma_pow2_unfold(127);
            lemma_pow2_unfold(126);
            lemma_pow2_unfold(128);
            lemma_pow2_128();
            lemma_pow2_pos(gap as nat);
            if gap < 100 {
                lemma_pow2_strictly_increases(gap as nat, 100);
            }
            assert(big * scale < 0x100_0000 * pow2(100)) by (nonlinear_arith)
                requires
                    big < 0x100_0000,
                    0 < scale <= pow2(100),
            ;
        }
        let left: u128 = big as u128 * scale;
        let right: u128 = small as u128;
        if big_negative == small_negative {
            round_to_single(big_negative, left + right, small_exponent)
        } else if left > right {
            round_to_single(big_negative, left - right, small_exponent)
        } else if right > left {
            round_to_single(small_negative, right - left, small_exponent)
        } else {
            POSITIVE_ZERO
        }
    }
}

/// Computes the sum of two samples.
fn add_samples(left: u32, right: u32) -> (total: u32)
    ensures
        total == sum_of(left, right),
{
    if sample_is_nan(left) || sample_is_nan(right) {
        return QUIET_NAN;
    }
    if sample_is_infinite(left) {
        return if sample_is_infinite(right) && (left >= 0x8000_0000) != (right >= 0x8000_0000) {
            QUIET_NAN
        } else {
            left
        };
    }
    if sample_is_infinite(right) {
        return right;
    }
    let (left_significand, left_exponent) = parts(left);
    let (right_significand, right_exponent) = parts(right);
    if left_exponent >= right_exponent {
        add_finite(
            left,
            left_significand,
            left_exponent,
            right >= 0x8000_0000,
            right_significand,
            right_exponent,
        )
    } else {
        add_finite(
            right,
            right_significand,
            right_exponent,
            left >= 0x8000_0000,
            left_significand,
            left_exponent,
        )
    }
}

/// Computes the difference of two samples.
pub fn subtract(left: u32, right: u32) -> (difference: u32)
    ensures
        difference == difference_of(left, right),
{
    let other = if right >= 0x8000_0000 {
        right - 0x8000_0000
    } else {
        right + 0x8000_0000
    };
    add_samples(left, other)
}

} // verus!
