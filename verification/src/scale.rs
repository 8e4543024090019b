//! The kernel scale of a pyramid level.
//!
//! A level's accumulated smoothing scale and the configured derivative factor
//! are double-precision numbers, carried here as their IEEE 754 binary64 bit
//! patterns. The kernel scale is
//! `round(esigma * derivative_factor / 2^octave)`, evaluated as double
//! arithmetic evaluates it: the product is rounded to 53 significant digits
//! (ties to even), the division by a power of two is exact, the quotient is
//! rounded to the nearest integer (ties away from zero) and the conversion to
//! an unsigned 32-bit integer saturates, sending negative numbers and
//! not-a-number to zero.
//!
//! Everything is computed on integers. Results below the smallest normal
//! double are kept exact instead of being rounded to a subnormal: they are far
//! below one half in either case and the kernel scale is zero.

use crate::rounding::{
    bit_length,
    bit_length_of,
    lemma_bit_length_bounds,
    power_of_two,
    round_to_digits,
    round_to_precision,
};
use vstd::arithmetic::div_mod::{
    lemma_basic_div,
    lemma_div_denominator,
    lemma_div_is_ordered,
    lemma_div_pos_is_pos,
};
use vstd::arithmetic::power2::{
    lemma2_to64,
    lemma2_to64_rest,
    lemma_pow2_adds,
    lemma_pow2_pos,
    lemma_pow2_strictly_increases,
    lemma_pow2_unfold,
    pow2,
};
use vstd::prelude::*;

verus! {

/// Octaves from this one on have a ratio `2^octave` that no finite double
/// holds: the ratio is infinite.
pub const INFINITE_RATIO_OCTAVE: u32 = 1024;

/// A value of double arithmetic: not-a-number, an infinity, or the finite
/// number `(-1)^negative * significand * 2^exponent`.
pub enum Extended {
    NotANumber,
    Infinite { negative: bool },
    Finite { negative: bool, significand: nat, exponent: int },
}

/// The sign bit of a binary64 bit pattern.
pub open spec fn sign_bit(bits: u64) -> bool {
    bits >= 0x8000_0000_0000_0000
}

/// The 11-bit exponent field of a binary64 bit pattern.
pub open spec fn exponent_field(bits: u64) -> nat {
    ((bits / 0x10_0000_0000_0000) % 0x800) as nat
}

/// The 52-bit fraction field of a binary64 bit pattern.
pub open spec fn fraction_field(bits: u64) -> nat {
    (bits % 0x10_0000_0000_0000) as nat
}

/// The value that a binary64 bit pattern denotes.
///
/// An all-ones exponent field is an infinity (fraction zero) or
/// not-a-number. An all-zeros exponent field is a subnormal number
/// `fraction * 2^-1074`. Any other is `(2^52 + fraction) * 2^(field - 1075)`.
pub open spec fn double_value(bits: u64) -> Extended {
    let field = exponent_field(bits);
    let fraction = fraction_field(bits);
    if field == 0x7ff {
        if fraction == 0 {
            Extended::Infinite { negative: sign_bit(bits) }
        } else {
            Extended::NotANumber
        }
    } else if field == 0 {
        Extended::Finite { negative: sign_bit(bits), significand: fraction, exponent: -1074 }
    } else {
        Extended::Finite {
            negative: sign_bit(bits),
            significand: 0x10_0000_0000_0000 + fraction,
            exponent: field - 1075,
        }
    }
}

/// Whether `significand * 2^exponent` is `2^1024` or more, which is beyond
/// the largest finite double.
pub open spec fn overflows(significand: nat, exponent: int) -> bool {
    exponent >= 0 && significand * pow2(exponent as nat) >= pow2(1024)
}

/// The product of two values as double multiplication returns it: the exact
/// product rounded to 53 significant digits, infinite when the rounded
/// product overflows, not-a-number for zero times infinity.
pub open spec fn product(a: Extended, b: Extended) -> Extended {
    match a {
        Extended::NotANumber => Extended::NotANumber,
        Extended::Infinite { negative: na } => match b {
            Extended::NotANumber => Extended::NotANumber,
            Extended::Infinite { negative: nb } => Extended::Infinite { negative: na != nb },
            Extended::Finite { negative: nb, significand, exponent } => if significand == 0 {
                Extended::NotANumber
            } else {
                Extended::Infinite { negative: na != nb }
            },
        },
        Extended::Finite { negative: na, significand: ma, exponent: xa } => match b {
            Extended::NotANumber => Extended::NotANumber,
            Extended::Infinite { negative: nb } => if ma == 0 {
                Extended::NotANumber
            } else {
                Extended::Infinite { negative: na != nb }
            },
            Extended::Finite { negative: nb, significand: mb, exponent: xb } => {
                let (significand, shift) = round_to_precision(ma * mb, 53);
                let exponent = xa + xb + shift;
                if overflows(significand, exponent) {
                    Extended::Infinite { negative: na != nb }
                } else {
                    Extended::Finite { negative: na != nb, significand, exponent }
                }
            },
        },
    }
}

/// A value divided by the ratio `2^octave` of a level.
///
/// Below [`INFINITE_RATIO_OCTAVE`] the division only lowers the exponent.
/// From there on the ratio is infinite: a finite value gives zero, and an
/// infinite one gives not-a-number.
pub open spec fn quotient_by_ratio(x: Extended, octave: u32) -> Extended {
    if octave >= INFINITE_RATIO_OCTAVE {
        match x {
            Extended::Finite { negative, significand, exponent } => Extended::Finite {
                negative,
                significand: 0,
                exponent: 0,
            },
            _ => Extended::NotANumber,
        }
    } else {
        match x {
            Extended::Finite { negative, significand, exponent } => Extended::Finite {
                negative,
                significand,
                exponent: exponent - octave,
            },
            _ => x,
        }
    }
}

/// The integer nearest to `significand * 2^exponent`, halves going up.
pub open spec fn nearest_integer(significand: nat, exponent: int) -> nat {
    if exponent >= 0 {
        significand * pow2(exponent as nat)
    } else {
        (significand + pow2((-exponent - 1) as nat)) / pow2((-exponent) as nat)
    }
}

/// A value rounded to the nearest integer, ties away from zero, and
/// converted to `u32` with saturation: not-a-number and everything negative
/// give zero, everything from `2^32` on gives `u32::MAX`.
pub open spec fn rounded_saturating(x: Extended) -> u32 {
    match x {
        Extended::NotANumber => 0,
        Extended::Infinite { negative } => if negative {
            0
        } else {
            u32::MAX
        },
        Extended::Finite { negative, significand, exponent } => if negative {
            0
        } else if nearest_integer(significand, exponent) >= u32::MAX {
            u32::MAX
        } else {
            nearest_integer(significand, exponent) as u32
        },
    }
}

/// The kernel scale `round(esigma * derivative_factor / 2^octave)` of a
/// level, from the bit patterns of the two doubles and the octave.
pub open spec fn kernel_scale_of(esigma: u64, derivative_factor: u64, octave: u32) -> u32 {
    rounded_saturating(
        quotient_by_ratio(product(double_value(esigma), double_value(derivative_factor)), octave),
    )
}

/// Lowering the exponent by one does not raise the nearest integer.
proof fn lemma_nearest_integer_step(significand: nat, exponent: int)
    ensures
        nearest_integer(significand, exponent - 1) <= nearest_integer(significand, exponent),
{
    lemma2_to64();
    if exponent >= 1 {
        let low = pow2((exponent - 1) as nat);
        lemma_pow2_unfold(exponent as nat);
        assert(significand * low <= significand * (2 * low)) by (nonlinear_arith);
        assert(nearest_integer(significand, exponent - 1) == significand * low);
        assert(nearest_integer(significand, exponent) == significand * (2 * low));
    } else if exponent == 0 {
        assert(significand * 1 == significand);
        assert(nearest_integer(significand, exponent) == significand);
        assert(nearest_integer(significand, exponent - 1) == (significand + 1) / 2);
    } else {
        let k = (-exponent) as nat;
        let h = pow2((k - 1) as nat);
        lemma_pow2_pos((k - 1) as nat);
        lemma_pow2_unfold(k);
        lemma_pow2_unfold(k + 1);
        assert(pow2(k) == 2 * h);
        assert(pow2(k + 1) == 2 * (2 * h));
        assert(nearest_integer(significand, exponent) == (significand + h) / (2 * h));
        assert((-(exponent - 1) - 1) as nat == k);
        assert((-(exponent - 1)) as nat == k + 1);
        assert(nearest_integer(significand, exponent - 1) == (significand + 2 * h) / (2 * (2
            * h)));
        lemma_div_denominator((significand + 2 * h) as int, 2, (2 * h) as int);
        lemma_div_is_ordered(
            ((significand + 2 * h) / 2) as int,
            (significand + h) as int,
            (2 * h) as int,
        );
    }
}

/// The nearest integer grows with the exponent.
pub proof fn lemma_nearest_integer_monotonic(significand: nat, low: int, high: int)
    requires
        low <= high,
    ensures
        nearest_integer(significand, low) <= nearest_integer(significand, high),
    decreases high - low,
{
    if low < high {
        lemma_nearest_integer_step(significand, high);
        lemma_nearest_integer_monotonic(significand, low, high - 1);
    }
}

/// At octave zero the ratio is one: the kernel scale is the rounded product
/// of the smoothing scale and the derivative factor.
pub proof fn lemma_kernel_scale_at_octave_zero(esigma: u64, derivative_factor: u64)
    ensures
        quotient_by_ratio(product(double_value(esigma), double_value(derivative_factor)), 0)
            == product(double_value(esigma), double_value(derivative_factor)),
        kernel_scale_of(esigma, derivative_factor, 0) == rounded_saturating(
            product(double_value(esigma), double_value(derivative_factor)),
        ),
{
}

/// With the smoothing scale and the derivative factor fixed, a higher octave
/// never gives a larger kernel scale.
pub proof fn lemma_kernel_scale_monotonic(
    esigma: u64,
    derivative_factor: u64,
    lower: u32,
    higher: u32,
)
    requires
        lower <= higher,
    ensures
        kernel_scale_of(esigma, derivative_factor, higher) <= kernel_scale_of(
            esigma,
            derivative_factor,
            lower,
        ),
{
    let p = product(double_value(esigma), double_value(derivative_factor));
    match p {
        Extended::Finite { negative, significand, exponent } => {
            if higher >= INFINITE_RATIO_OCTAVE {
                lemma2_to64();
                assert(0 * pow2(0) == 0);
            } else {
                lemma_nearest_integer_monotonic(significand, exponent - higher, exponent - lower);
            }
        },
        _ => {},
    }
}

/// A decoded double: the executable form of [`Extended`].
enum Decoded {
    NotANumber,
    Infinite { negative: bool },
    Finite { negative: bool, significand: u64, exponent: i32 },
}

impl Decoded {
    spec fn value(self) -> Extended {
        match self {
            Decoded::NotANumber => Extended::NotANumber,
            Decoded::Infinite { negative } => Extended::Infinite { negative },
            Decoded::Finite { negative, significand, exponent } => Extended::Finite {
                negative,
                significand: significand as nat,
                exponent: exponent as int,
            },
        }
    }

    /// A finite value has a significand of at most `2^53` and an exponent
    /// between the two bounds.
    spec fn bounded(self, lowest: int, highest: int) -> bool {
        self matches Decoded::Finite { significand, exponent, .. } ==> {
            &&& significand <= 0x20_0000_0000_0000
            &&& lowest <= exponent <= highest
        }
    }
}

fn decode(bits: u64) -> (d: Decoded)
    ensures
        d.value() == double_value(bits),
        d.bounded(-1074, 971),
{
    let negative = bits >= 0x8000_0000_0000_0000;
    let field = (bits / 0x10_0000_0000_0000) % 0x800;
    let fraction = bits % 0x10_0000_0000_0000;
    if field == 0x7ff {
        if fraction == 0 {
            Decoded::Infinite { negative }
        } else {
            Decoded::NotANumber
        }
    } else if field == 0 {
        Decoded::Finite { negative, significand: fraction, exponent: -1074 }
    } else {
        Decoded::Finite {
            negative,
            significand: 0x10_0000_0000_0000 + fraction,
            exponent: field as i32 - 1075,
        }
    }
}

/// `significand * 2^exponent` reaches `2^1024` exactly when the digits of
/// the significand and the exponent together pass 1024.
proof fn lemma_overflows_by_length(significand: nat, exponent: int)
    requires
        significand > 0,
        significand <= pow2(53),
        exponent >= -4000,
    ensures
        overflows(significand, exponent) <==> bit_length(significand) + exponent > 1024,
{
    let len = bit_length(significand);
    lemma_bit_length_bounds(significand);
    lemma2_to64();
    if len > 54 {
        lemma_pow2_strictly_increases(53, (len - 1) as nat);
    }
    if exponent >= 0 {
        let e = exponent as nat;
        let scale = pow2(e);
        lemma_pow2_pos(e);
        lemma_pow2_adds((len - 1) as nat, e);
        lemma_pow2_adds(len, e);
        let below = pow2((len - 1) as nat);
        let above = pow2(len);
        assert(below * scale <= significand * scale < above * scale) by (nonlinear_arith)
            requires
                below <= significand < above,
                scale > 0,
        ;
        if len + e > 1024 {
            if len - 1 + e > 1024 {
                lemma_pow2_strictly_increases(1024, (len - 1 + e) as nat);
            }
        } else {
            if len + e < 1024 {
                lemma_pow2_strictly_increases((len + e) as nat, 1024);
            }
        }
    }
}

fn multiply(a: Decoded, b: Decoded) -> (p: Decoded)
    requires
        a.bounded(-1074, 971),
        b.bounded(-1074, 971),
    ensures
        p.value() == product(a.value(), b.value()),
        p.bounded(-2148, 2017),
{
    match a {
        Decoded::NotANumber => Decoded::NotANumber,
        Decoded::Infinite { negative: na } => match b {
            Decoded::NotANumber => Decoded::NotANumber,
            Decoded::Infinite { negative: nb } => Decoded::Infinite { negative: na != nb },
            Decoded::Finite { negative: nb, significand, exponent } => if significand == 0 {
                Decoded::NotANumber
            } else {
                Decoded::Infinite { negative: na != nb }
            },
        },
        Decoded::Finite { negative: na, significand: ma, exponent: xa } => match b {
            Decoded::NotANumber => Decoded::NotANumber,
            Decoded::Infinite { negative: nb } => if ma == 0 {
                Decoded::NotANumber
            } else {
                Decoded::Infinite { negative: na != nb }
            },
            Decoded::Finite { negative: nb, significand: mb, exponent: xb } => {
                assert(ma * mb <= 0x20_0000_0000_0000 * 0x20_0000_0000_0000) by (nonlinear_arith)
                    requires
                        ma <= 0x20_0000_0000_0000,
                        mb <= 0x20_0000_0000_0000,
                ;
                let wide: u128 = ma as u128 * mb as u128;
                let (significand, shift) = round_to_digits(wide, 53);
                proof {
                    lemma2_to64();
                    lemma_pow2_adds(32, 21);
                    assert(pow2(53) == 0x20_0000_0000_0000) by {
                        assert(0x1_0000_0000int * 0x20_0000int == 0x20_0000_0000_0000int)
                            by (nonlinear_arith);
                    }
                }
                let exponent: i32 = xa + xb + shift as i32;
                let length = bit_length_of(significand);
                proof {
                    if significand > 0 {
                        lemma_overflows_by_length(significand as nat, exponent as int);
                    } else if exponent >= 0 {
                        assert(0 * pow2(exponent as nat) == 0);
                        lemma_pow2_pos(1024);
                    }
                }
                if significand > 0 && length as i32 + exponent > 1024 {
                    Decoded::Infinite { negative: na != nb }
                } else {
                    Decoded::Finite {
                        negative: na != nb,
                        significand: significand as u64,
                        exponent,
                    }
                }
            },
        },
    }
}

fn divide_by_ratio(x: Decoded, octave: u32) -> (q: Decoded)
    requires
        x.bounded(-2148, 2017),
    ensures
        q.value() == quotient_by_ratio(x.value(), octave),
        q.bounded(-3171, 2017),
{
    if octave >= INFINITE_RATIO_OCTAVE {
        match x {
            Decoded::Finite { negative, significand, exponent } => Decoded::Finite {
                negative,
                significand: 0,
                exponent: 0,
            },
            _ => Decoded::NotANumber,
        }
    } else {
        match x {
            Decoded::Finite { negative, significand, exponent } => Decoded::Finite {
                negative,
                significand,
                exponent: exponent - octave as i32,
            },
            _ => x,
        }
    }
}

fn round_saturating(x: Decoded) -> (r: u32)
    requires
        x.bounded(-3171, 2017),
    ensures
        r == rounded_saturating(x.value()),
{
    match x {
        Decoded::NotANumber => 0,
        Decoded::Infinite { negative } => if negative {
            0
        } else {
            u32::MAX
        },
        Decoded::Finite { negative, significand, exponent } => {
            proof {
                lemma2_to64();
                lemma2_to64_rest();
            }
            if negative {
                0
            } else if exponent >= 0 {
                if significand == 0 {
                    assert(0 * pow2(exponent as nat) == 0);
                    0
                } else if exponent >= 32 {
                    proof {
                        let scale = pow2(exponent as nat);
                        if exponent > 32 {
                            lemma_pow2_strictly_increases(32, exponent as nat);
                        }
                        assert(significand * scale >= scale) by (nonlinear_arith)
                            requires
                                significand >= 1,
                                scale >= 0,
                        ;
                    }
                    u32::MAX
                } else {
                    let scale = power_of_two(exponent as u32);
                    proof {
                        if exponent < 31 {
                            lemma_pow2_strictly_increases(exponent as nat, 31);
                        }
                        assert(significand * scale <= 0x20_0000_0000_0000 * 0x8000_0000)
                            by (nonlinear_arith)
                            requires
                                significand <= 0x20_0000_0000_0000,
                                scale <= 0x8000_0000,
                        ;
                    }
                    let whole: u128 = significand as u128 * scale;
                    if whole >= u32::MAX as u128 {
                        u32::MAX
                    } else {
                        whole as u32
                    }
                }
            } else {
                let k: i32 = -exponent;
                if k >= 64 {
                    proof {
                        let half = pow2((k - 1) as nat);
                        lemma_pow2_unfold(k as nat);
                        if k - 1 > 63 {
                            lemma_pow2_strictly_increases(63, (k - 1) as nat);
                        }
                        lemma_basic_div((significand + half) as int, pow2(k as nat) as int);
                    }
                    0
                } else {
                    let unit = power_of_two(k as u32);
                    let half = power_of_two((k - 1) as u32);
                    proof {
                        lemma_pow2_pos(k as nat);
                        if k < 63 {
                            lemma_pow2_strictly_increases(k as nat, 63);
                        }
                        if k - 1 < 62 {
                            lemma_pow2_strictly_increases((k - 1) as nat, 62);
                        }
                        lemma_pow2_unfold(63);
                        lemma_div_pos_is_pos((significand + half) as int, unit as int);
                    }
                    let whole: u128 = (significand as u128 + half) / unit;
                    if whole >= u32::MAX as u128 {
                        u32::MAX
                    } else {
                        whole as u32
                    }
                }
            }
        },
    }
}

/// Computes the kernel scale `round(esigma * derivative_factor / 2^octave)`
/// of a level from the bit patterns of the two doubles.
pub fn kernel_scale(esigma: u64, derivative_factor: u64, octave: u32) -> (sigma_size: u32)
    ensures
        sigma_size == kernel_scale_of(esigma, derivative_factor, octave),
{
    let scale = decode(esigma);
    let factor = decode(derivative_factor);
    let scaled = multiply(scale, factor);
    let reduced = divide_by_ratio(scaled, octave);
    round_saturating(reduced)
}

} // verus!
