//! Classification and order of 32-bit floating-point values by their bit
//! patterns.

use vstd::prelude::*;

verus! {

/// Bit pattern of positive infinity: patterns above it, sign aside, are not
/// numbers.
pub const INFINITY_BITS: u32 = 0x7f80_0000;

/// The sign bit is set.
pub open spec fn is_negative(bits: u32) -> bool {
    bits >= 0x8000_0000
}

/// The pattern without its sign bit.
pub open spec fn magnitude(bits: u32) -> int {
    if is_negative(bits) {
        bits - 0x8000_0000
    } else {
        bits as int
    }
}

pub open spec fn is_nan(bits: u32) -> bool {
    magnitude(bits) > INFINITY_BITS
}

pub open spec fn is_infinite(bits: u32) -> bool {
    magnitude(bits) == INFINITY_BITS
}

pub open spec fn is_finite(bits: u32) -> bool {
    magnitude(bits) < INFINITY_BITS
}

/// Zero of either sign.
pub open spec fn is_zero(bits: u32) -> bool {
    magnitude(bits) == 0
}

/// A number that orders values as they compare. Both zeros have the same key.
pub open spec fn order_key(bits: u32) -> int {
    if is_negative(bits) {
        -magnitude(bits)
    } else {
        magnitude(bits)
    }
}

/// `a < b`. A comparison with a value that is not a number is false.
pub open spec fn is_less(a: u32, b: u32) -> bool {
    !is_nan(a) && !is_nan(b) && order_key(a) < order_key(b)
}

fn magnitude_of(bits: u32) -> (m: u32)
    ensures
        m == magnitude(bits),
{
    if bits >= 0x8000_0000 {
        bits - 0x8000_0000
    } else {
        bits
    }
}

/// Whether a pattern is not a number.
pub fn nan(bits: u32) -> (r: bool)
    ensures
        r == is_nan(bits),
{
    magnitude_of(bits) > INFINITY_BITS
}

/// Whether a pattern is an infinity of either sign.
pub fn infinite(bits: u32) -> (r: bool)
    ensures
        r == is_infinite(bits),
{
    magnitude_of(bits) == INFINITY_BITS
}

/// Whether a pattern is a zero of either sign.
pub fn zero(bits: u32) -> (r: bool)
    ensures
        r == is_zero(bits),
{
    magnitude_of(bits) == 0
}

/// The number that orders a pattern.
pub fn key(bits: u32) -> (k: i64)
    ensures
        k == order_key(bits),
{
    let m: i64 = magnitude_of(bits) as i64;
    if bits >= 0x8000_0000 {
        -m
    } else {
        m
    }
}

/// `a < b` as floating-point values.
pub fn less(a: u32, b: u32) -> (r: bool)
    ensures
        r == is_less(a, b),
{
    !nan(a) && !nan(b) && key(a) < key(b)
}

/// Every pattern is finite, infinite or not a number, and only one of these.
pub proof fn classes_are_exclusive(bits: u32)
    ensures
        is_finite(bits) ==> !is_infinite(bits) && !is_nan(bits),
        is_infinite(bits) ==> !is_nan(bits),
        is_finite(bits) || is_infinite(bits) || is_nan(bits),
{
}

/// Numbers are ordered: of two that are neither of them not a number, one is
/// less or they are equal, and equality holds of the two zeros.
pub proof fn numbers_are_ordered(a: u32, b: u32)
    requires
        !is_nan(a),
        !is_nan(b),
    ensures
        is_less(a, b) || is_less(b, a) || order_key(a) == order_key(b),
        !(is_less(a, b) && is_less(b, a)),
        is_zero(a) && is_zero(b) ==> order_key(a) == order_key(b),
        order_key(a) == order_key(b) && !is_zero(a) ==> a == b,
{
}

/// How many of the least steps, of which 2^149 make one, a pattern without a
/// sign stands for: below the first power of two it counts them, and from there
/// on its upper bits are the exponent of the power that the lower ones divide.
pub open spec fn least_steps(m: int) -> int {
    if m < 0x80_0000 {
        m
    } else {
        (0x80_0000 + m % 0x80_0000) * vstd::arithmetic::power2::pow2((m / 0x80_0000 - 1) as nat)
    }
}

/// The number that a finite pattern stands for, in least steps.
pub open spec fn steps(bits: u32) -> int {
    if bits >= 0x8000_0000 {
        -least_steps(bits - 0x8000_0000)
    } else {
        least_steps(bits as int)
    }
}

proof fn lemma_next_step(m: int)
    requires
        0 <= m,
    ensures
        least_steps(m) < least_steps(m + 1),
{
    let e = (m / 0x80_0000 - 1) as nat;
    if m >= 0x80_0000 {
        vstd::arithmetic::power2::lemma_pow2_pos(e);
        let p = vstd::arithmetic::power2::pow2(e) as int;
        let low = m % 0x80_0000;
        if low + 1 < 0x80_0000 {
            assert((m + 1) % 0x80_0000 == low + 1 && (m + 1) / 0x80_0000 == m / 0x80_0000);
            assert((0x80_0000 + low + 1) * p == (0x80_0000 + low) * p + p) by (nonlinear_arith);
            assert(least_steps(m + 1) == (0x80_0000 + (low + 1)) * p);
        } else {
            assert((m + 1) % 0x80_0000 == 0 && (m + 1) / 0x80_0000 == m / 0x80_0000 + 1);
            vstd::arithmetic::power2::lemma_pow2_unfold(e + 1);
            assert(((m + 1) / 0x80_0000 - 1) as nat == e + 1);
            assert(least_steps(m + 1) == 0x80_0000 * (2 * p));
            assert(0x80_0000 * (2 * p) > (0x80_0000 + low) * p) by (nonlinear_arith)
                requires
                    low < 0x80_0000,
                    p > 0,
            ;
        }
    } else if m == 0x7f_ffff {
        vstd::arithmetic::power2::lemma2_to64();
        assert((m + 1) / 0x80_0000 == 1 && (m + 1) % 0x80_0000 == 0);
        assert(least_steps(m + 1) == 0x80_0000 * vstd::arithmetic::power2::pow2(0));
    }
}

proof fn lemma_steps_grow(a: int, b: int)
    requires
        0 <= a < b,
    ensures
        least_steps(a) < least_steps(b),
    decreases b - a,
{
    lemma_next_step(b - 1);
    if a < b - 1 {
        lemma_steps_grow(a, b - 1);
    }
}

/// Finite values compare as the numbers that they stand for, every finite value
/// lies between the infinities, and what is not a number compares with nothing.
pub proof fn values_compare_as_numbers(a: u32, b: u32)
    ensures
        is_finite(a) && is_finite(b) ==> (is_less(a, b) <==> steps(a) < steps(b)),
        is_finite(a) && b == 0x7f80_0000 ==> is_less(a, b) && !is_less(b, a),
        is_finite(a) && b == 0xff80_0000 ==> is_less(b, a) && !is_less(a, b),
        is_nan(a) || is_nan(b) ==> !is_less(a, b),
{
    let (m, n) = (magnitude(a), magnitude(b));
    if 0 <= m < n {
        lemma_steps_grow(m, n);
    } else if 0 <= n < m {
        lemma_steps_grow(n, m);
    }
    if m > 0 {
        lemma_steps_grow(0, m);
    }
    if n > 0 {
        lemma_steps_grow(0, n);
    }
}

/// The patterns that are finite are those below the upper bits of an infinity,
/// and what is not a number has more.
pub proof fn upper_bits_tell_the_class(bits: u32)
    ensures
        is_finite(bits) <==> (bits / 0x80_0000) % 0x100 < 0xff,
        is_infinite(bits) <==> (bits / 0x80_0000) % 0x100 == 0xff && bits % 0x80_0000 == 0,
        is_nan(bits) <==> (bits / 0x80_0000) % 0x100 == 0xff && bits % 0x80_0000 != 0,
        is_zero(bits) <==> steps(bits) == 0,
{
    let m = magnitude(bits);
    if m > 0 {
        lemma_steps_grow(0, m);
    }
    assert(bits / 0x80_0000 == m / 0x80_0000 + if is_negative(bits) {
        0x100int
    } else {
        0
    });
    assert(bits % 0x80_0000 == m % 0x80_0000);
}

/// A pattern from the first power of two on, below 2^24, is the nearest there is
/// to the fraction `n / d`: at most half of one of its own steps away.
pub open spec fn is_nearest(bits: u32, n: int, d: int) -> bool {
    let exponent = (bits / 0x80_0000) as int;
    let lead = 0x80_0000 + (bits % 0x80_0000) as int;
    let away = d * lead - n * vstd::arithmetic::power2::pow2((150 - exponent) as nat);
    &&& 1 <= exponent <= 150
    &&& -d <= 2 * away <= d
}

} // verus!
