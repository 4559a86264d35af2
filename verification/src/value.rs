//! Results as bit patterns: an IEEE-754 binary64 number is carried as the
//! 64 bits that encode it, sign first, then eleven bits of exponent, then
//! fifty-two bits of fraction. This module reads from a pattern what the
//! ordering and the output need, in integer arithmetic alone.

use vstd::arithmetic::mul::{lemma_mul_inequality, lemma_mul_strict_inequality};
use vstd::arithmetic::power2::{
    lemma_pow2_pos, lemma_pow2_strictly_increases, lemma_pow2_unfold, pow2,
};
use vstd::prelude::*;

verus! {

/// The pattern of the largest finite number. It marks an expression that
/// has no usable result.
pub const SENTINEL: u64 = 0x7FEF_FFFF_FFFF_FFFF;

/// The pattern with the sign bit alone: negative zero.
pub const SIGN_BIT: u64 = 0x8000_0000_0000_0000;

/// The pattern of positive infinity. Every larger magnitude is not a number.
pub const INFINITY: u64 = 0x7FF0_0000_0000_0000;

/// The pattern of negative infinity.
pub const NEGATIVE_INFINITY: u64 = 0xFFF0_0000_0000_0000;

/// The weight of the bit that a normal number has in front of its fraction:
/// two to the power fifty-two.
pub const HIDDEN_BIT: u64 = 0x0010_0000_0000_0000;

/// The key of what is ordered behind every number.
pub const LAST: i64 = 0x7FFF_FFFF_FFFF_FFFF;

/// The sign bit of a pattern is set.
pub open spec fn is_negative(bits: u64) -> bool {
    bits >= SIGN_BIT
}

/// A pattern without its sign bit.
pub open spec fn magnitude(bits: u64) -> int {
    if bits >= SIGN_BIT {
        bits - SIGN_BIT
    } else {
        bits as int
    }
}

/// The pattern encodes no number.
pub open spec fn is_nan(bits: u64) -> bool {
    magnitude(bits) > INFINITY
}

/// The pattern encodes a number that is not infinite.
pub open spec fn is_finite(bits: u64) -> bool {
    magnitude(bits) < INFINITY
}

/// The key by which results are ordered. The key of a number grows with the
/// number, and both zeros have the key zero. What is not a number, and the
/// sentinel, have the key `LAST`, above the key of positive infinity.
pub open spec fn sort_key(bits: u64) -> int {
    if is_nan(bits) || bits == SENTINEL {
        LAST as int
    } else if is_negative(bits) {
        -magnitude(bits)
    } else {
        magnitude(bits)
    }
}

/// The exponent field of a pattern.
pub open spec fn exponent(bits: u64) -> int {
    magnitude(bits) / (HIDDEN_BIT as int)
}

/// The fraction field of a pattern.
pub open spec fn fraction(bits: u64) -> int {
    magnitude(bits) % (HIDDEN_BIT as int)
}

/// The absolute value of the number that a finite pattern encodes, in units
/// of two to the power -1074, the smallest step between two numbers. In
/// these units every finite number is an integer.
pub open spec fn scaled_magnitude(bits: u64) -> int {
    if exponent(bits) == 0 {
        fraction(bits)
    } else {
        (HIDDEN_BIT + fraction(bits)) * pow2((exponent(bits) - 1) as nat)
    }
}

/// The number that a finite pattern encodes, in units of two to the
/// power -1074.
pub open spec fn scaled(bits: u64) -> int {
    if is_negative(bits) {
        -scaled_magnitude(bits)
    } else {
        scaled_magnitude(bits)
    }
}

/// The absolute value grows with the magnitude of the pattern.
pub proof fn lemma_magnitude_grows(a: u64, b: u64)
    requires
        magnitude(a) < magnitude(b),
    ensures
        scaled_magnitude(a) < scaled_magnitude(b),
{
    let h = HIDDEN_BIT as int;
    let (ea, fa) = (exponent(a), fraction(a));
    let (eb, fb) = (exponent(b), fraction(b));
    assert(magnitude(a) == h * ea + fa && 0 <= fa < h);
    assert(magnitude(b) == h * eb + fb && 0 <= fb < h);
    assert(ea <= eb) by (nonlinear_arith)
        requires
            h * ea + fa < h * eb + fb,
            0 <= fa < h,
            0 <= fb < h,
    ;
    if ea == eb {
        assert(fa < fb);
        if ea > 0 {
            let p = pow2((ea - 1) as nat) as int;
            lemma_pow2_pos((ea - 1) as nat);
            lemma_mul_strict_inequality(h + fa, h + fb, p);
        }
    } else {
        let pb = pow2((eb - 1) as nat) as int;
        lemma_pow2_pos((eb - 1) as nat);
        lemma_mul_inequality(1, pb, h);
        lemma_mul_inequality(h, h + fb, pb);
        assert(h <= (h + fb) * pb) by {
            assert(1 * h <= pb * h);
            assert(pb * h == h * pb) by (nonlinear_arith);
        }
        if ea > 0 {
            let pa = pow2((ea - 1) as nat) as int;
            lemma_pow2_pos((ea - 1) as nat);
            lemma_pow2_unfold(ea as nat);
            if ea < eb - 1 {
                lemma_pow2_strictly_increases(ea as nat, (eb - 1) as nat);
            }
            assert(2 * pa <= pb);
            lemma_mul_strict_inequality(h + fa, 2 * h, pa);
            assert((2 * h) * pa == h * (2 * pa)) by (nonlinear_arith);
            lemma_mul_inequality(2 * pa, pb, h);
            assert((2 * pa) * h == h * (2 * pa)) by (nonlinear_arith);
            assert(pb * h == h * pb) by (nonlinear_arith);
        }
    }
}

/// Among numbers, the order of the keys is the order of the numbers: a
/// number has the smaller key exactly when it is the smaller number, and
/// the same key exactly when it is the same number.
pub proof fn lemma_keys_order_numbers(a: u64, b: u64)
    requires
        is_finite(a),
        is_finite(b),
        a != SENTINEL,
        b != SENTINEL,
    ensures
        sort_key(a) < sort_key(b) <==> scaled(a) < scaled(b),
        sort_key(a) == sort_key(b) <==> scaled(a) == scaled(b),
{
    let zero: u64 = 0;
    if magnitude(a) < magnitude(b) {
        lemma_magnitude_grows(a, b);
    }
    if magnitude(b) < magnitude(a) {
        lemma_magnitude_grows(b, a);
    }
    if magnitude(a) > 0 {
        lemma_magnitude_grows(zero, a);
    }
    if magnitude(b) > 0 {
        lemma_magnitude_grows(zero, b);
    }
    assert(scaled_magnitude(zero) == 0);
    if magnitude(a) == 0 {
        assert(scaled_magnitude(a) == 0);
    }
    if magnitude(b) == 0 {
        assert(scaled_magnitude(b) == 0);
    }
    if magnitude(a) == magnitude(b) {
        assert(scaled_magnitude(a) == scaled_magnitude(b));
    }
}

/// Negative infinity has a smaller key than every finite number, positive
/// infinity a greater one, and only what is not a number, and the
/// sentinel, have the key `LAST`.
pub proof fn lemma_keys_of_the_rest(bits: u64)
    ensures
        sort_key(bits) == LAST <==> is_nan(bits) || bits == SENTINEL,
        is_finite(bits) && bits != SENTINEL ==> sort_key(NEGATIVE_INFINITY) < sort_key(bits)
            < sort_key(INFINITY),
        sort_key(INFINITY) < LAST,
{
}

/// Computes the key by which a result is ordered.
pub fn key_of(bits: u64) -> (key: i64)
    ensures
        key == sort_key(bits),
{
    let negative = bits >= SIGN_BIT;
    let magnitude: u64 = if negative {
        bits - SIGN_BIT
    } else {
        bits
    };
    if magnitude > INFINITY || bits == SENTINEL {
        LAST
    } else if negative {
        -(magnitude as i64)
    } else {
        magnitude as i64
    }
}

} // verus!
