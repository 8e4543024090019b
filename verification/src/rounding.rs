//! Rounding of natural numbers to a fixed number of significant binary digits.
//!
//! Binary floating-point formats keep a fixed number of significant digits and
//! round to the nearest representable value, ties going to the even
//! significand. This module states that rule over the natural numbers and
//! provides an executable version on `u128`.

use vstd::arithmetic::div_mod::{
    lemma_basic_div,
    lemma_fundamental_div_mod,
    lemma_mod_bound,
    lemma_small_mod,
};
use vstd::arithmetic::power2::{
    lemma2_to64,
    lemma_pow2_adds,
    lemma_pow2_pos,
    lemma_pow2_strictly_increases,
    lemma_pow2_unfold,
    pow2,
};
use vstd::prelude::*;

verus! {

/// The number of binary digits of `n`: zero for zero, otherwise one more than
/// the position of the highest set bit.
pub open spec fn bit_length(n: nat) -> nat
    decreases n,
{
    if n == 0 {
        0
    } else {
        1 + bit_length(n / 2)
    }
}

/// A positive number lies between the two powers of two that its bit length
/// names.
pub proof fn lemma_bit_length_bounds(n: nat)
    requires
        n > 0,
    ensures
        bit_length(n) >= 1,
        pow2((bit_length(n) - 1) as nat) <= n < pow2(bit_length(n)),
    decreases n,
{
    if n == 1 {
        assert(bit_length(1) == 1) by {
            reveal_with_fuel(bit_length, 3);
        }
        lemma2_to64();
    } else {
        lemma_bit_length_bounds(n / 2);
        let len = bit_length(n / 2);
        assert(bit_length(n) == len + 1);
        lemma_pow2_unfold(len);
        lemma_pow2_unfold(len + 1);
    }
}

/// The bit length is the only exponent whose power of two bounds `n` that way.
pub proof fn lemma_bit_length_unique(n: nat, len: nat)
    requires
        len >= 1,
        pow2((len - 1) as nat) <= n < pow2(len),
    ensures
        bit_length(n) == len,
{
    lemma_pow2_pos((len - 1) as nat);
    lemma_bit_length_bounds(n);
    let actual = bit_length(n);
    if actual < len {
        if actual < len - 1 {
            lemma_pow2_strictly_increases(actual, (len - 1) as nat);
        }
    } else if actual > len {
        if actual - 1 > len {
            lemma_pow2_strictly_increases(len, (actual - 1) as nat);
        }
    }
}

/// Numbers below `2^k` have at most `k` binary digits.
pub proof fn lemma_bit_length_below(n: nat, k: nat)
    requires
        n < pow2(k),
    ensures
        bit_length(n) <= k,
{
    if n > 0 {
        lemma_bit_length_bounds(n);
        if bit_length(n) > k {
            if bit_length(n) - 1 > k {
                lemma_pow2_strictly_increases(k, (bit_length(n) - 1) as nat);
            }
        }
    }
}

/// `2^128` is one more than the largest `u128`.
pub proof fn lemma_pow2_128()
    ensures
        pow2(128) == 0x1_0000_0000_0000_0000_0000_0000_0000_0000,
{
    lemma2_to64();
    lemma_pow2_adds(64, 64);
    assert(0x1_0000_0000_0000_0000int * 0x1_0000_0000_0000_0000int
        == 0x1_0000_0000_0000_0000_0000_0000_0000_0000int) by (nonlinear_arith);
}

/// Computes `2^k`.
pub fn power_of_two(k: u32) -> (p: u128)
    requires
        k < 128,
    ensures
        p == pow2(k as nat),
{
    let mut p: u128 = 1;
    let mut i: u32 = 0;
    proof {
        lemma2_to64();
    }
    while i < k
        invariant
            i <= k,
            k < 128,
            p == pow2(i as nat),
        decreases k - i,
    {
        proof {
            lemma_pow2_unfold((i + 1) as nat);
            lemma_pow2_128();
            if i + 1 < 127 {
                lemma_pow2_strictly_increases((i + 1) as nat, 127);
            }
            lemma_pow2_unfold(128);
        }
        p = p * 2;
        i = i + 1;
    }
    p
}

/// Computes the bit length of `n`.
pub fn bit_length_of(n: u128) -> (len: u32)
    ensures
        len == bit_length(n as nat),
        len <= 128,
{
    let mut rest = n;
    let mut len: u32 = 0;
    proof {
        lemma_pow2_128();
        lemma_bit_length_below(n as nat, 128);
    }
    while rest > 0
        invariant
            bit_length(n as nat) == len + bit_length(rest as nat),
            bit_length(n as nat) <= 128,
        decreases rest,
    {
        rest = rest / 2;
        len = len + 1;
    }
    len
}

/// `n / 2^shift` rounded to the nearest integer, ties going to the even
/// one: the low `shift` digits of `n` are dropped and the rest goes up by one
/// if the dropped digits are more than half a unit, or exactly half a unit
/// below an odd rest.
pub open spec fn round_dropping(n: nat, shift: nat) -> nat {
    if shift == 0 {
        n
    } else {
        let kept = n / pow2(shift);
        let dropped = n % pow2(shift);
        let half = pow2((shift - 1) as nat);
        if dropped > half || (dropped == half && kept % 2 == 1) {
            kept + 1
        } else {
            kept
        }
    }
}

/// What dropping digits guarantees: the result times `2^shift` is within
/// half a unit of `n`, and it lies between the same powers of two as
/// `n / 2^shift` does.
pub proof fn lemma_round_dropping(n: nat, shift: nat, digits: nat)
    ensures
        2 * (round_dropping(n, shift) * pow2(shift) - n) <= pow2(shift),
        2 * (n - round_dropping(n, shift) * pow2(shift)) <= pow2(shift),
        n < pow2(shift + digits) ==> round_dropping(n, shift) <= pow2(digits),
        n >= pow2(shift + digits) ==> round_dropping(n, shift) >= pow2(digits),
{
    let unit = pow2(shift);
    let rounded = round_dropping(n, shift);
    lemma2_to64();
    lemma_pow2_pos(shift);
    lemma_pow2_adds(shift, digits);
    let bound = pow2(digits);
    if shift == 0 {
        assert(n * 1 == n);
        assert(1 * bound == bound);
    } else {
        let kept = n / unit;
        let dropped = n % unit;
        lemma_pow2_unfold(shift);
        lemma_fundamental_div_mod(n as int, unit as int);
        lemma_mod_bound(n as int, unit as int);
        assert(n < unit * bound ==> kept < bound) by (nonlinear_arith)
            requires
                unit > 0,
                n == unit * kept + dropped,
                0 <= dropped < unit,
        ;
        assert(n >= unit * bound ==> kept >= bound) by (nonlinear_arith)
            requires
                unit > 0,
                n == unit * kept + dropped,
                0 <= dropped < unit,
        ;
        assert(rounded * unit == kept * unit + (rounded - kept) * unit) by (nonlinear_arith);
        assert(kept * unit == unit * kept) by (nonlinear_arith);
        assert(1 * unit == unit);
        assert(0 * unit == 0);
    }
}

/// A number below half a unit rounds to zero.
pub proof fn lemma_round_dropping_small(n: nat, shift: nat)
    requires
        shift >= 1,
        n < pow2((shift - 1) as nat),
    ensures
        round_dropping(n, shift) == 0,
{
    lemma_pow2_unfold(shift);
    lemma_basic_div(n as int, pow2(shift) as int);
    lemma_small_mod(n, pow2(shift));
}

/// Computes `n / 2^shift` rounded to the nearest integer, ties going to the
/// even one.
pub fn round_off(n: u128, shift: u32) -> (rounded: u128)
    requires
        shift < 128,
    ensures
        rounded == round_dropping(n as nat, shift as nat),
{
    if shift == 0 {
        return n;
    }
    let unit = power_of_two(shift);
    let half = power_of_two(shift - 1);
    proof {
        lemma_pow2_pos(shift as nat);
        lemma_pow2_unfold(shift as nat);
        lemma_fundamental_div_mod(n as int, unit as int);
        assert(n / unit <= n) by (nonlinear_arith)
            requires
                unit >= 2,
                n >= 0,
                n == unit * (n / unit) + (n % unit),
                n % unit >= 0,
        ;
        assert(unit >= 2 && n > 0 ==> n / unit < n) by (nonlinear_arith)
            requires
                n == unit * (n / unit) + (n % unit),
                n % unit >= 0,
                n / unit >= 0,
        ;
    }
    let kept = n / unit;
    let dropped = n % unit;
    if dropped > half || (dropped == half && kept % 2 == 1) {
        kept + 1
    } else {
        kept
    }
}

/// `n` rounded to `precision` significant binary digits, as a significand and
/// the number of low digits that were dropped: the rounded value is
/// `significand * 2^shift`.
///
/// A number that already fits is returned unchanged with shift zero.
/// Otherwise the low `shift = bit_length(n) - precision` digits are dropped
/// and the significand goes to the nearer neighbour, to the even one when
/// `n` lies exactly between two. Rounding up may carry the significand to
/// `2^precision`.
pub open spec fn round_to_precision(n: nat, precision: nat) -> (nat, nat) {
    let shift = if bit_length(n) <= precision {
        0nat
    } else {
        (bit_length(n) - precision) as nat
    };
    (round_dropping(n, shift), shift)
}

/// What rounding guarantees: the significand has at most `precision` digits
/// or is exactly `2^precision`, it has exactly that many digits once
/// something was dropped, and the rounded value is within half a unit of the
/// last kept digit of `n`.
pub proof fn lemma_round_to_precision(n: nat, precision: nat)
    requires
        precision >= 1,
    ensures
        ({
            let (significand, shift) = round_to_precision(n, precision);
            &&& significand <= pow2(precision)
            &&& shift > 0 ==> significand >= pow2((precision - 1) as nat)
            &&& shift == 0 ==> significand == n
            &&& shift + precision == bit_length(n) || (shift == 0 && bit_length(n) <= precision)
            &&& 2 * (significand * pow2(shift) - n) <= pow2(shift)
            &&& 2 * (n - significand * pow2(shift)) <= pow2(shift)
        }),
{
    let (significand, shift) = round_to_precision(n, precision);
    lemma_round_dropping(n, shift, precision);
    lemma_round_dropping(n, shift, (precision - 1) as nat);
    if n > 0 {
        lemma_bit_length_bounds(n);
        if bit_length(n) < precision {
            lemma_pow2_strictly_increases(bit_length(n), precision);
        }
    } else {
        lemma_pow2_pos(precision);
    }
}

/// Rounds `n` to `precision` significant binary digits.
pub fn round_to_digits(n: u128, precision: u32) -> (rounded: (u128, u32))
    requires
        1 <= precision <= 64,
    ensures
        rounded.0 == round_to_precision(n as nat, precision as nat).0,
        rounded.1 == round_to_precision(n as nat, precision as nat).1,
        rounded.0 <= pow2(precision as nat),
        rounded.1 + precision <= 128,
{
    let len = bit_length_of(n);
    proof {
        lemma_round_to_precision(n as nat, precision as nat);
    }
    if len <= precision {
        (n, 0)
    } else {
        let shift = len - precision;
        (round_off(n, shift), shift)
    }
}

} // verus!
