//! Ordering and classification of IEEE-754 binary32 values represented by
//! their bit patterns.
//!
//! Continuous dimensions carry their bounds and values as the raw `u32` bit
//! pattern of a single-precision number. This module gives those patterns
//! their numeric meaning: a sign/magnitude comparison that agrees with the
//! usual `<=` on the represented numbers (`+0` and `-0` compare equal, and
//! any comparison involving a NaN is false).

use vstd::prelude::*;

verus! {

/// Exponent field (bits 23..31) of a binary32 pattern.
pub open spec fn f32_exponent(bits: u32) -> u32 {
    (bits >> 23) & 0xff
}

/// Mantissa field (bits 0..23) of a binary32 pattern.
pub open spec fn f32_mantissa(bits: u32) -> u32 {
    bits & 0x7f_ffff
}

/// Sign bit of a binary32 pattern (true means negative).
pub open spec fn f32_is_sign_negative(bits: u32) -> bool {
    (bits >> 31) == 1
}

/// The pattern encodes a NaN: exponent all ones, mantissa non-zero.
pub open spec fn f32_is_nan(bits: u32) -> bool {
    f32_exponent(bits) == 0xff && f32_mantissa(bits) != 0
}

/// The pattern encodes a finite number: exponent not all ones.
pub open spec fn f32_is_finite(bits: u32) -> bool {
    f32_exponent(bits) != 0xff
}

/// Order key of a non-NaN pattern: the magnitude bits, negated for negative
/// numbers. Non-negative binary32 values sort exactly as their patterns do,
/// negative ones in reverse, and both zeros map to key 0.
pub open spec fn f32_key(bits: u32) -> int {
    if f32_is_sign_negative(bits) {
        -((bits & 0x7fff_ffff) as int)
    } else {
        bits as int
    }
}

/// `a <= b` on the represented numbers: false as soon as either is NaN.
pub open spec fn f32_le(a: u32, b: u32) -> bool {
    !f32_is_nan(a) && !f32_is_nan(b) && f32_key(a) <= f32_key(b)
}

/// Patterns are NaN exactly when their magnitude bits lie beyond the
/// infinity pattern, and finite exactly when they stay below it.
proof fn lemma_magnitude_classes(x: u32)
    ensures
        f32_is_nan(x) <==> (x & 0x7fff_ffff) > 0x7f80_0000,
        f32_is_finite(x) <==> (x & 0x7fff_ffff) < 0x7f80_0000,
{
    assert((((x >> 23) & 0xff) == 0xff && (x & 0x7f_ffff) != 0) <==> (x & 0x7fff_ffff)
        > 0x7f80_0000) by (bit_vector);
    assert((((x >> 23) & 0xff) != 0xff) <==> (x & 0x7fff_ffff) < 0x7f80_0000) by (bit_vector);
}

/// Executable NaN test on a bit pattern.
pub fn is_nan_bits(bits: u32) -> (r: bool)
    ensures
        r == f32_is_nan(bits),
{
    let e: u32 = (bits >> 23) & 0xff;
    let m: u32 = bits & 0x7f_ffff;
    e == 0xff && m != 0
}

/// Executable finiteness test on a bit pattern.
pub fn is_finite_bits(bits: u32) -> (r: bool)
    ensures
        r == f32_is_finite(bits),
{
    let e: u32 = (bits >> 23) & 0xff;
    e != 0xff
}

/// Executable `<=` on two bit patterns, per the binary32 ordering.
pub fn le_bits(a: u32, b: u32) -> (r: bool)
    ensures
        r == f32_le(a, b),
{
    if is_nan_bits(a) || is_nan_bits(b) {
        return false;
    }
    let a_neg: bool = (a >> 31) == 1;
    let b_neg: bool = (b >> 31) == 1;
    let a_mag: u32 = a & 0x7fff_ffff;
    let b_mag: u32 = b & 0x7fff_ffff;
    proof {
        lemma_magnitude(a);
        lemma_magnitude(b);
    }
    if a_neg {
        if b_neg {
            b_mag <= a_mag
        } else {
            true
        }
    } else {
        if b_neg {
            a_mag == 0 && b_mag == 0
        } else {
            a <= b
        }
    }
}

/// For a non-negative pattern the key is the pattern itself and the magnitude
/// bits; for a negative one the key is the negated magnitude.
proof fn lemma_magnitude(x: u32)
    ensures
        !f32_is_sign_negative(x) ==> (x & 0x7fff_ffff) == x,
        f32_is_sign_negative(x) ==> (x & 0x7fff_ffff) <= 0x7fff_ffff,
{
    assert((x >> 31) != 1 ==> (x & 0x7fff_ffff) == x) by (bit_vector);
    assert((x & 0x7fff_ffff) <= 0x7fff_ffff) by (bit_vector);
}

/// The order key of a pattern, as a machine integer.
pub fn key_of_bits(bits: u32) -> (k: i64)
    ensures
        k == f32_key(bits),
{
    proof {
        lemma_magnitude(bits);
    }
    let mag: u32 = bits & 0x7fff_ffff;
    if (bits >> 31) == 1 {
        -(mag as i64)
    } else {
        bits as i64
    }
}

/// The finite, non-NaN pattern with the given order key.
pub fn bits_of_key(k: i64) -> (r: u32)
    requires
        -0x7f80_0000 < k < 0x7f80_0000,
    ensures
        f32_key(r) == k,
        f32_is_finite(r),
{
    if k >= 0 {
        let bits = k as u32;
        proof {
            lemma_magnitude_classes(bits);
            assert(bits & 0x7fff_ffff == bits) by (bit_vector)
                requires
                    bits < 0x7f80_0000,
            ;
            assert(bits >> 31 == 0) by (bit_vector)
                requires
                    bits < 0x7f80_0000,
            ;
        }
        bits
    } else {
        let mag = (-k) as u32;
        let bits = mag | 0x8000_0000;
        proof {
            lemma_magnitude_classes(bits);
            assert((mag | 0x8000_0000) & 0x7fff_ffff == mag) by (bit_vector)
                requires
                    mag < 0x7f80_0000,
            ;
            assert((mag | 0x8000_0000) >> 31 == 1) by (bit_vector);
        }
        bits
    }
}

/// A finite pattern's key stays strictly between the keys of the two
/// infinities.
pub proof fn lemma_finite_key_range(x: u32)
    requires
        f32_is_finite(x),
    ensures
        -0x7f80_0000 < f32_key(x) < 0x7f80_0000,
{
    lemma_magnitude(x);
    lemma_magnitude_classes(x);
}

} // verus!
