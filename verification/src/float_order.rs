//! IEEE-754 single-precision comparison, carried out on bit patterns.
//!
//! A value of type `u32` here is the bit pattern of an `f32` (as given by
//! `f32::to_bits`). The comparisons below are those of `<`, `<=`, `>`, `>=`,
//! `==` on `f32`: every comparison with a NaN is false, and the two zeros are
//! equal.
use vstd::prelude::*;

verus! {

/// Bit pattern of `0.0`.
pub const ZERO_BITS: u32 = 0;

/// Bit pattern of `1.0`.
pub const ONE_BITS: u32 = 0x3f80_0000;

/// Bit pattern of `f32::MAX`.
pub const F32_MAX_BITS: u32 = 0x7f7f_ffff;

/// Bit pattern of `f32::INFINITY`.
pub const INFINITY_BITS: u32 = 0x7f80_0000;

/// The sign bit.
pub const SIGN_BIT: u32 = 0x8000_0000;

/// The pattern with its sign bit cleared: the absolute value's bits.
pub open spec fn magnitude(b: u32) -> int {
    if b >= SIGN_BIT {
        b - SIGN_BIT
    } else {
        b as int
    }
}

/// Whether the pattern encodes a NaN: all exponent bits set and a
/// non-zero fraction.
pub open spec fn is_nan(b: u32) -> bool {
    magnitude(b) > INFINITY_BITS
}

/// Position of a non-NaN value on the number line: for patterns of the same
/// sign, a larger magnitude pattern is a larger absolute value, and both
/// zeros sit at 0.
pub open spec fn ordinal(b: u32) -> int {
    if b >= SIGN_BIT {
        -magnitude(b)
    } else {
        magnitude(b)
    }
}

/// `a < b` on `f32`.
pub open spec fn lt_spec(a: u32, b: u32) -> bool {
    !is_nan(a) && !is_nan(b) && ordinal(a) < ordinal(b)
}

/// `a <= b` on `f32`.
pub open spec fn le_spec(a: u32, b: u32) -> bool {
    !is_nan(a) && !is_nan(b) && ordinal(a) <= ordinal(b)
}

/// `a > b` on `f32`.
pub open spec fn gt_spec(a: u32, b: u32) -> bool {
    lt_spec(b, a)
}

/// `a >= b` on `f32`.
pub open spec fn ge_spec(a: u32, b: u32) -> bool {
    le_spec(b, a)
}

/// `a == b` on `f32`.
pub open spec fn eq_spec(a: u32, b: u32) -> bool {
    !is_nan(a) && !is_nan(b) && ordinal(a) == ordinal(b)
}

fn ordinal_of(b: u32) -> (r: i64)
    ensures
        r == ordinal(b),
{
    if b >= SIGN_BIT {
        let m: u32 = b - SIGN_BIT;
        -(m as i64)
    } else {
        b as i64
    }
}

/// Whether `b` is the pattern of a NaN.
pub fn f32_is_nan(b: u32) -> (r: bool)
    ensures
        r == is_nan(b),
{
    let m: u32 = if b >= SIGN_BIT { b - SIGN_BIT } else { b };
    m > INFINITY_BITS
}

/// `a < b` on the values whose patterns are `a` and `b`.
pub fn f32_lt(a: u32, b: u32) -> (r: bool)
    ensures
        r == lt_spec(a, b),
{
    !f32_is_nan(a) && !f32_is_nan(b) && ordinal_of(a) < ordinal_of(b)
}

/// `a <= b` on the values whose patterns are `a` and `b`.
pub fn f32_le(a: u32, b: u32) -> (r: bool)
    ensures
        r == le_spec(a, b),
{
    !f32_is_nan(a) && !f32_is_nan(b) && ordinal_of(a) <= ordinal_of(b)
}

/// `a > b` on the values whose patterns are `a` and `b`.
pub fn f32_gt(a: u32, b: u32) -> (r: bool)
    ensures
        r == gt_spec(a, b),
{
    f32_lt(b, a)
}

/// `a >= b` on the values whose patterns are `a` and `b`.
pub fn f32_ge(a: u32, b: u32) -> (r: bool)
    ensures
        r == ge_spec(a, b),
{
    f32_le(b, a)
}

/// `a == b` on the values whose patterns are `a` and `b`.
pub fn f32_eq(a: u32, b: u32) -> (r: bool)
    ensures
        r == eq_spec(a, b),
{
    !f32_is_nan(a) && !f32_is_nan(b) && ordinal_of(a) == ordinal_of(b)
}

/// `<` is a strict order: irreflexive, asymmetric and transitive; and `>=`
/// is exactly "not `<`" once neither side is a NaN.
pub proof fn lemma_lt_strict_order(a: u32, b: u32, c: u32)
    ensures
        !lt_spec(a, a),
        lt_spec(a, b) ==> !lt_spec(b, a),
        lt_spec(a, b) && lt_spec(b, c) ==> lt_spec(a, c),
        !is_nan(a) && !is_nan(b) ==> (ge_spec(a, b) <==> !lt_spec(a, b)),
        le_spec(a, b) <==> (lt_spec(a, b) || eq_spec(a, b)),
{
}

/// The two zeros compare equal, and `0.0 < 1.0`.
pub proof fn lemma_zeros_equal()
    ensures
        eq_spec(0, SIGN_BIT),
        lt_spec(ZERO_BITS, ONE_BITS),
        lt_spec(ONE_BITS, F32_MAX_BITS),
{
}

} // verus!
