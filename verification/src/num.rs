//! Arithmetic on 64-bit values.
use vstd::prelude::*;

verus! {

pub open spec fn is_i64(x: int) -> bool {
    i64::MIN <= x <= i64::MAX
}

/// `x` as a 64-bit number, the nearest one where it does not fit.
pub open spec fn clamped(x: int) -> i64 {
    if x < i64::MIN {
        i64::MIN
    } else if x > i64::MAX {
        i64::MAX
    } else {
        x as i64
    }
}

/// The nearest 64-bit number.
pub fn clamp(x: i128) -> (r: i64)
    ensures
        r == clamped(x as int),
{
    if x < i64::MIN as i128 {
        i64::MIN
    } else if x > i64::MAX as i128 {
        i64::MAX
    } else {
        x as i64
    }
}

/// Whether `x` fits in 64 bits.
pub fn fits_i64(x: i128) -> (r: bool)
    ensures
        r == is_i64(x as int),
{
    i64::MIN as i128 <= x && x <= i64::MAX as i128
}

/// `a * b` as a 64-bit number, the nearest one where it does not fit.
pub fn saturating_product(a: i64, b: i64) -> (r: i64)
    ensures
        r == clamped(a * b),
{
    assert(-0x4000_0000_0000_0000_0000_0000_0000_0000 <= a * b <= 0x4000_0000_0000_0000_0000_0000_0000_0000)
        by (nonlinear_arith)
        requires
            -0x8000_0000_0000_0000 <= a <= 0x7fff_ffff_ffff_ffff,
            -0x8000_0000_0000_0000 <= b <= 0x7fff_ffff_ffff_ffff,
    ;
    clamp(a as i128 * b as i128)
}

} // verus!
