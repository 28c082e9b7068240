//! Double precision numbers by their bit patterns. Only what rounding to an integer
//! needs is read off them.
use vstd::prelude::*;
use vstd::arithmetic::power2::{
    lemma2_to64, lemma2_to64_rest, lemma_pow2_adds, lemma_pow2_pos, lemma_pow2_strictly_increases,
    lemma_pow2_unfold, pow2,
};
use walrus::ir::Value;
use crate::num::clamped;
use crate::text::digits_value;

verus! {

/// The bit pattern of the double that `str::parse` makes of a decimal number. `None`
/// where the text is no number.
pub uninterp spec fn parsed_bits(text: Seq<char>) -> Option<u64>;

/// The value of a whole number, written in decimal digits, that a double holds exactly.
pub open spec fn exact_digits(text: Seq<char>) -> Option<nat> {
    if text.len() > 0 && digits_value(text) is Some && digits_value(text).unwrap() <= 0x20_0000_0000_0000 {
        digits_value(text)
    } else {
        None
    }
}

/// Whether a bit pattern is that of a whole number.
pub open spec fn is_number(bits: Option<u64>, n: nat) -> bool {
    bits matches Some(b) && is_finite(b) && !is_negative(b) && rounded_magnitude(b) == n
}

/// `str::parse` to a double, which is handed out by its bit pattern. It gives the nearest
/// double, so a whole number that a double holds exactly is read as that number. The variant
/// of `walrus::ir::Value` only says that the number is a double.
#[verifier::external_body]
pub(crate) fn parse_bits(text: &str) -> (r: Option<u64>)
    ensures
        r == parsed_bits(text@),
        exact_digits(text@) is Some ==> is_number(r, exact_digits(text@).unwrap()),
{
    match Value::F64(text.parse().ok()?) {
        Value::F64(x) => Some(x.to_bits()),
        _ => None,
    }
}

/// The exponent field.
pub open spec fn exponent_field(bits: u64) -> int {
    (bits as int / 0x10_0000_0000_0000) % 0x800
}

/// Neither infinite nor not a number.
pub open spec fn is_finite(bits: u64) -> bool {
    exponent_field(bits) != 0x7ff
}

/// The significand of a finite number, as an integer.
pub open spec fn significand(bits: u64) -> nat {
    let fraction = bits as int % 0x10_0000_0000_0000;
    if exponent_field(bits) == 0 {
        fraction as nat
    } else {
        (fraction + 0x10_0000_0000_0000) as nat
    }
}

/// The power of two that the significand is multiplied by.
pub open spec fn exponent(bits: u64) -> int {
    if exponent_field(bits) == 0 {
        -1074
    } else {
        exponent_field(bits) - 1075
    }
}

/// Below zero. The negative zero is not.
pub open spec fn is_negative(bits: u64) -> bool {
    bits >= 0x8000_0000_0000_0000 && significand(bits) != 0
}

/// A whole number times a power of two, rounded to the nearest integer, halves up.
pub open spec fn nearest_of(m: nat, e: int) -> nat {
    if e >= 0 {
        m * pow2(e as nat)
    } else {
        (m + pow2((-e - 1) as nat)) / pow2((-e) as nat)
    }
}

/// A whole number times a power of two, without its fraction.
pub open spec fn whole_of(m: nat, e: int) -> nat {
    if e >= 0 {
        m * pow2(e as nat)
    } else {
        m / pow2((-e) as nat)
    }
}

/// The absolute value of a finite number, rounded to the nearest integer, halves up.
pub open spec fn rounded_magnitude(bits: u64) -> nat {
    nearest_of(significand(bits), exponent(bits))
}

/// A finite number rounded to the nearest integer, halves away from zero.
pub open spec fn rounded(bits: u64) -> int {
    if bits >= 0x8000_0000_0000_0000 {
        -(rounded_magnitude(bits) as int)
    } else {
        rounded_magnitude(bits) as int
    }
}

pub(crate) fn power_of_two(k: u64) -> (r: u128)
    requires
        k <= 126,
    ensures
        r == pow2(k as nat),
        r <= 0x4000_0000_0000_0000_0000_0000_0000_0000,
{
    let mut r: u128 = 1;
    let mut i: u64 = 0;
    proof {
        lemma2_to64();
        lemma2_to64_rest();
        lemma_pow2_adds(64, 62);
    }
    while i < k
        invariant
            i <= k <= 126,
            r == pow2(i as nat),
            pow2(126) == 0x4000_0000_0000_0000_0000_0000_0000_0000,
        decreases k - i,
    {
        proof {
            lemma_pow2_unfold((i + 1) as nat);
            lemma_pow2_strictly_increases(i as nat, 126);
        }
        r = r * 2;
        i += 1;
    }
    proof {
        if k < 126 {
            lemma_pow2_strictly_increases(k as nat, 126);
        }
    }
    r
}

pub(crate) fn finite(bits: u64) -> (r: bool)
    ensures
        r == is_finite(bits),
{
    (bits / 0x10_0000_0000_0000) % 0x800 != 0x7ff
}

pub(crate) fn significand_of(bits: u64) -> (m: u64)
    ensures
        m == significand(bits),
        m < 0x20_0000_0000_0000,
{
    let fraction: u64 = bits % 0x10_0000_0000_0000;
    if (bits / 0x10_0000_0000_0000) % 0x800 == 0 {
        fraction
    } else {
        fraction + 0x10_0000_0000_0000
    }
}

pub(crate) fn negative(bits: u64) -> (r: bool)
    ensures
        r == is_negative(bits),
{
    bits >= 0x8000_0000_0000_0000 && significand_of(bits) != 0
}

pub(crate) fn exponent_of(bits: u64) -> (e: i64)
    ensures
        e == exponent(bits),
        -1074 <= e <= 972,
{
    let field: u64 = (bits / 0x10_0000_0000_0000) % 0x800;
    if field == 0 {
        -1074
    } else {
        field as i64 - 1075
    }
}

/// A product with a power of two, unless it takes more than 64 bits.
fn scale_up(m: u128, e: u64) -> (r: Option<u64>)
    ensures
        match r {
            Some(v) => m * pow2(e as nat) == v,
            None => m * pow2(e as nat) > u64::MAX,
        },
{
    proof {
        lemma2_to64();
        lemma2_to64_rest();
        lemma_pow2_pos(e as nat);
        assert(m * pow2(e as nat) >= m) by (nonlinear_arith)
            requires
                pow2(e as nat) >= 1,
                m >= 0,
        ;
    }
    if m == 0 {
        assert(0 * pow2(e as nat) == 0);
        return Some(0);
    }
    if m > 0xffff_ffff_ffff_ffff {
        return None;
    }
    if e >= 64 {
        proof {
            if e > 64 {
                lemma_pow2_strictly_increases(64, e as nat);
            }
            assert(m * pow2(e as nat) >= pow2(e as nat)) by (nonlinear_arith)
                requires
                    m >= 1,
                    pow2(e as nat) >= 1,
            ;
        }
        return None;
    }
    let p: u128 = power_of_two(e);
    proof {
        lemma_pow2_strictly_increases(e as nat, 64);
        assert(m * p <= 0xffff_ffff_ffff_ffff * 0xffff_ffff_ffff_ffff) by (nonlinear_arith)
            requires
                m <= 0xffff_ffff_ffff_ffff,
                p <= 0xffff_ffff_ffff_ffff,
        ;
    }
    let x: u128 = m * p;
    if x > 0xffff_ffff_ffff_ffff {
        None
    } else {
        Some(x as u64)
    }
}

/// A whole number times a power of two, rounded, unless it takes more than 64 bits.
pub(crate) fn round_scaled(m: u128, e: i64) -> (r: Option<u64>)
    requires
        m <= 0x40_0000_0000_0000_0000_0000_0000_0000,
        -2000 <= e <= 2000,
    ensures
        match r {
            Some(v) => nearest_of(m as nat, e as int) == v,
            None => nearest_of(m as nat, e as int) > u64::MAX,
        },
{
    if e >= 0 {
        return scale_up(m, e as u64);
    }
    let k: u64 = (-e) as u64;
    proof {
        lemma2_to64();
        lemma2_to64_rest();
        lemma_pow2_adds(64, 61);
        lemma_pow2_unfold(k as nat);
        lemma_pow2_pos((k - 1) as nat);
    }
    if k > 126 {
        proof {
            lemma_pow2_strictly_increases(125, (k - 1) as nat);
            let h = pow2((k - 1) as nat) as int;
            assert((m + h) / (2 * h) == 0) by (nonlinear_arith)
                requires
                    0 <= m < h,
            ;
        }
        return Some(0);
    }
    let h: u128 = power_of_two(k - 1);
    let p: u128 = power_of_two(k);
    let x: u128 = (m + h) / p;
    if x > 0xffff_ffff_ffff_ffff {
        None
    } else {
        Some(x as u64)
    }
}

/// A whole number times a power of two, without its fraction, unless it takes more than 64
/// bits.
pub(crate) fn cut_scaled(m: u128, e: i64) -> (r: Option<u64>)
    requires
        m <= 0x40_0000_0000_0000_0000_0000_0000_0000,
        -2000 <= e <= 2000,
    ensures
        match r {
            Some(v) => whole_of(m as nat, e as int) == v,
            None => whole_of(m as nat, e as int) > u64::MAX,
        },
{
    if e >= 0 {
        return scale_up(m, e as u64);
    }
    let k: u64 = (-e) as u64;
    proof {
        lemma2_to64();
        lemma2_to64_rest();
        lemma_pow2_adds(64, 62);
        lemma_pow2_pos(k as nat);
    }
    if k > 126 {
        proof {
            lemma_pow2_strictly_increases(126, k as nat);
            let p = pow2(k as nat) as int;
            assert(m as int / p == 0) by (nonlinear_arith)
                requires
                    0 <= m < p,
            ;
        }
        return Some(0);
    }
    let p: u128 = power_of_two(k);
    let x: u128 = m / p;
    if x > 0xffff_ffff_ffff_ffff {
        None
    } else {
        Some(x as u64)
    }
}

/// A magnitude with a sign, as the nearest 64-bit integer. `None` stands for one that takes
/// more than 64 bits.
pub(crate) fn clamp_magnitude(negative: bool, v: Option<u64>, m: Ghost<nat>) -> (r: i64)
    requires
        match v {
            Some(x) => x == m@,
            None => m@ > u64::MAX,
        },
    ensures
        r == clamped(
            if negative {
                -(m@ as int)
            } else {
                m@ as int
            },
        ),
{
    match v {
        Some(v) => {
            if negative {
                if v >= 0x8000_0000_0000_0000 {
                    i64::MIN
                } else {
                    -(v as i64)
                }
            } else if v > 0x7fff_ffff_ffff_ffff {
                i64::MAX
            } else {
                v as i64
            }
        },
        None => if negative {
            i64::MIN
        } else {
            i64::MAX
        },
    }
}

/// The rounded absolute value, unless it takes more than 64 bits.
pub(crate) fn round_magnitude(bits: u64) -> (r: Option<u64>)
    ensures
        match r {
            Some(v) => rounded_magnitude(bits) == v,
            None => rounded_magnitude(bits) > u64::MAX,
        },
{
    let m: u64 = significand_of(bits);
    round_scaled(m as u128, exponent_of(bits))
}

/// Any number rounded to the nearest 64-bit integer. What is not a number counts as 0.
pub open spec fn nearest_i64(bits: u64) -> i64 {
    if is_finite(bits) {
        clamped(rounded(bits))
    } else if bits as int % 0x10_0000_0000_0000 != 0 {
        0
    } else if bits >= 0x8000_0000_0000_0000 {
        i64::MIN
    } else {
        i64::MAX
    }
}

/// Any number rounded to the nearest 64-bit integer. What is not a number counts as 0.
pub fn round_nearest(bits: u64) -> (r: i64)
    ensures
        r == nearest_i64(bits),
{
    if finite(bits) {
        clamp_magnitude(
            bits >= 0x8000_0000_0000_0000,
            round_magnitude(bits),
            Ghost(rounded_magnitude(bits)),
        )
    } else if bits % 0x10_0000_0000_0000 != 0 {
        0
    } else if bits >= 0x8000_0000_0000_0000 {
        i64::MIN
    } else {
        i64::MAX
    }
}

/// Above zero.
pub open spec fn is_positive(bits: u64) -> bool {
    0 < bits <= 0x7ff0_0000_0000_0000
}

/// One or more.
pub open spec fn is_one_or_more(bits: u64) -> bool {
    0x3ff0_0000_0000_0000 <= bits <= 0x7ff0_0000_0000_0000
}

} // verus!
