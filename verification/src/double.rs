//! Products and differences of doubles, rounded to integers. A double is a whole
//! significand times a power of two. The result of an operation is the exact one rounded to
//! 53 bits, a tie to the even neighbour, and is then rounded to an integer.
use vstd::prelude::*;
use vstd::arithmetic::div_mod::{
    lemma_div_denominator, lemma_fundamental_div_mod, lemma_fundamental_div_mod_converse,
};
use vstd::arithmetic::power2::{
    lemma2_to64, lemma2_to64_rest, lemma_pow2_adds, lemma_pow2_pos, lemma_pow2_strictly_increases,
    lemma_pow2_unfold, pow2,
};
use crate::float::{
    clamp_magnitude, cut_scaled, exponent, exponent_of, finite, is_finite, nearest_i64, nearest_of,
    power_of_two, round_nearest, round_scaled, significand, significand_of, whole_of,
};
use crate::num::clamped;

verus! {

/// How many of the low bits of a number are beyond the first 53.
pub open spec fn excess(n: nat) -> nat
    decreases n,
{
    if n < 0x20_0000_0000_0000 {
        0
    } else {
        1 + excess(n / 2)
    }
}

/// A number rounded to 53 bits. A tie goes to the even neighbour.
pub open spec fn to_53(n: nat) -> nat {
    let p = pow2(excess(n));
    let q = n / p;
    let r = n % p;
    if 2 * r > p || (2 * r == p && q % 2 == 1) {
        (q + 1) * p
    } else {
        q * p
    }
}

proof fn lemma_excess_at_most(n: nat, k: nat)
    requires
        n / pow2(k) < 0x20_0000_0000_0000,
    ensures
        excess(n) <= k,
    decreases k,
{
    if k == 0 {
        lemma2_to64();
    } else if n >= 0x20_0000_0000_0000 {
        lemma_pow2_unfold(k);
        lemma_pow2_pos((k - 1) as nat);
        lemma_div_denominator(n as int, 2, pow2((k - 1) as nat) as int);
        lemma_excess_at_most(n / 2, (k - 1) as nat);
    }
}

pub(crate) proof fn lemma_excess(n: nat, k: nat)
    requires
        n / pow2(k) < 0x20_0000_0000_0000,
        k > 0 ==> n / pow2(k) >= 0x10_0000_0000_0000,
    ensures
        excess(n) == k,
    decreases k,
{
    lemma2_to64();
    if k > 0 {
        let h = pow2((k - 1) as nat) as int;
        lemma_pow2_unfold(k);
        lemma_pow2_pos((k - 1) as nat);
        lemma_div_denominator(n as int, 2, h);
        lemma_fundamental_div_mod(n as int, 2 * h);
        assert(n >= 0x20_0000_0000_0000) by (nonlinear_arith)
            requires
                n as int == (2 * h) * (n as int / (2 * h)) + n as int % (2 * h),
                n as int / (2 * h) >= 0x10_0000_0000_0000,
                n as int % (2 * h) >= 0,
                h >= 1,
        ;
        lemma_excess(n / 2, (k - 1) as nat);
        assert(excess(n) == 1 + excess(n / 2));
    } else {
        assert(n / 1 == n);
    }
}

/// A number that 53 bits hold is not rounded.
pub(crate) proof fn lemma_53_exact(m: nat, j: nat)
    requires
        m < 0x20_0000_0000_0000,
    ensures
        to_53(m * pow2(j)) == m * pow2(j),
{
    let n = m * pow2(j);
    lemma_pow2_pos(j);
    assert(n as int == m as int * pow2(j) as int + 0);
    lemma_fundamental_div_mod_converse(n as int, pow2(j) as int, m as int, 0);
    lemma_excess_at_most(n, j);
    let k = excess(n);
    let i = (j - k) as nat;
    lemma_pow2_adds(i, k);
    lemma_pow2_pos(k);
    let q = m * pow2(i);
    assert(n == q * pow2(k)) by (nonlinear_arith)
        requires
            n == m * pow2(j),
            pow2(j) == pow2(i) * pow2(k),
            q == m * pow2(i),
    ;
    lemma_fundamental_div_mod_converse(n as int, pow2(k) as int, q as int, 0);
}

/// A number that is far below the last of the 53 bits makes no difference.
proof fn lemma_53_absorbs(m: nat, j: nat, t: int)
    requires
        0x10_0000_0000_0000 <= m < 0x20_0000_0000_0000,
        j > 64,
        -0x20_0000_0000_0000 < t < 0x20_0000_0000_0000,
    ensures
        m * pow2(j) + t > 0,
        to_53((m * pow2(j) + t) as nat) == m * pow2(j),
{
    lemma2_to64();
    lemma2_to64_rest();
    lemma_pow2_strictly_increases(64, j);
    let p = pow2(j) as int;
    let h = pow2((j - 1) as nat) as int;
    lemma_pow2_unfold(j);
    if j > 65 {
        lemma_pow2_strictly_increases(64, (j - 1) as nat);
    }
    assert(h >= 0x1_0000_0000_0000_0000);
    assert(m * p >= 0x10_0000_0000_0000 * p) by (nonlinear_arith)
        requires
            m >= 0x10_0000_0000_0000,
            p > 0,
    ;
    let n = (m * pow2(j) + t) as nat;
    if t >= 0 {
        lemma_fundamental_div_mod_converse(n as int, p, m as int, t);
        lemma_excess(n, j);
    } else if m > 0x10_0000_0000_0000 {
        assert(n as int == (m - 1) * p + (p + t)) by (nonlinear_arith)
            requires
                n as int == m * p + t,
        ;
        lemma_fundamental_div_mod_converse(n as int, p, m - 1, p + t);
        lemma_excess(n, j);
        assert((m - 1 + 1) * p == m * p);
    } else {
        let q = 0x1f_ffff_ffff_ffffint;
        assert(n as int == q * h + (h + t)) by (nonlinear_arith)
            requires
                n as int == 0x10_0000_0000_0000 * p + t,
                p == 2 * h,
                q == 0x1f_ffff_ffff_ffff,
        ;
        lemma_fundamental_div_mod_converse(n as int, h, q, h + t);
        lemma_excess(n, (j - 1) as nat);
        assert((q + 1) * h == m * p) by (nonlinear_arith)
            requires
                p == 2 * h,
                q == 0x1f_ffff_ffff_ffff,
                m == 0x10_0000_0000_0000,
        ;
    }
}

/// A power of two may stand in the number or in the exponent.
pub(crate) proof fn lemma_nearest_shift(m: nat, j: nat, e: int)
    ensures
        nearest_of(m * pow2(j), e) == nearest_of(m, e + j),
{
    lemma_pow2_pos(j);
    if e >= 0 {
        lemma_pow2_adds(j, e as nat);
        assert(m * pow2(j) * pow2(e as nat) == m * (pow2(j) * pow2(e as nat))) by (nonlinear_arith);
    } else {
        let k = (-e) as nat;
        let h = pow2((k - 1) as nat) as int;
        lemma_pow2_unfold(k);
        lemma_pow2_pos((k - 1) as nat);
        if e + j >= 0 {
            let i = (e + j) as nat;
            lemma_pow2_adds(i, k);
            let q = m * pow2(i);
            let n = (m * pow2(j)) as int;
            assert(n + h == q * (2 * h) + h) by (nonlinear_arith)
                requires
                    n == m * pow2(j),
                    pow2(j) == pow2(i) * pow2(k),
                    pow2(k) == 2 * h,
                    q == m * pow2(i),
            ;
            lemma_fundamental_div_mod_converse(n + h, 2 * h, q as int, h);
        } else {
            let i = (k - j) as nat;
            let g = pow2((i - 1) as nat) as int;
            let d = pow2(j) as int;
            lemma_pow2_unfold(i);
            lemma_pow2_pos((i - 1) as nat);
            lemma_pow2_adds((i - 1) as nat, j);
            assert(h == g * d);
            let x = m + g;
            let q = x / (2 * g);
            let r = x % (2 * g);
            lemma_fundamental_div_mod(x, 2 * g);
            assert(m * d + h == q * (2 * h) + r * d) by (nonlinear_arith)
                requires
                    h == g * d,
                    m + g == (2 * g) * q + r,
            ;
            assert(0 <= r * d < 2 * h) by (nonlinear_arith)
                requires
                    0 <= r < 2 * g,
                    h == g * d,
                    d >= 1,
            ;
            lemma_fundamental_div_mod_converse(m * d + h, 2 * h, q, r * d);
        }
    }
}

/// Rounds a number to 53 bits.
pub(crate) fn round_53(n: u128) -> (r: u128)
    requires
        n < 0x40_0000_0000_0000_0000_0000_0000_0000,
    ensures
        r == to_53(n as nat),
        r <= 0x40_0000_0000_0000_0000_0000_0000_0000,
{
    let mut q: u128 = n;
    let mut k: u64 = 0;
    let mut p: u128 = 1;
    proof {
        lemma2_to64();
        assert(n as int / 1 == n);
    }
    while q >= 0x20_0000_0000_0000
        invariant
            n < 0x40_0000_0000_0000_0000_0000_0000_0000,
            p == pow2(k as nat),
            p >= 1,
            q == n as int / p as int,
            p as int * q as int <= n,
            k + excess(q as nat) == excess(n as nat),
            k <= 66,
            k > 0 ==> q >= 0x10_0000_0000_0000,
        decreases q,
    {
        proof {
            lemma_pow2_unfold((k + 1) as nat);
            lemma_div_denominator(n as int, p as int, 2);
            lemma_power_bound(k as nat, q as int, n as int);
            lemma_fundamental_div_mod(q as int, 2);
            let half = q as int / 2;
            assert((p * 2) * half <= n) by (nonlinear_arith)
                requires
                    p * q <= n,
                    2 * half <= q,
                    p >= 1,
            ;
        }
        q = q / 2;
        k = k + 1;
        p = p * 2;
    }
    proof {
        lemma_fundamental_div_mod(n as int, p as int);
        if k > 0 {
            lemma_power_bound(k as nat, q as int, n as int);
        }
    }
    round_rest(n, p, q, n % p)
}

proof fn lemma_power_bound(k: nat, q: int, n: int)
    requires
        pow2(k) * q <= n,
        q >= 0x10_0000_0000_0000,
        n < 0x40_0000_0000_0000_0000_0000_0000_0000,
    ensures
        k <= 65,
        pow2(k) <= 0x2_0000_0000_0000_0000,
{
    lemma2_to64();
    lemma2_to64_rest();
    lemma_pow2_adds(64, 1);
    lemma_pow2_adds(64, 2);
    if k > 65 {
        if k > 66 {
            lemma_pow2_strictly_increases(66, k);
        }
        assert(pow2(k) * q >= 0x4_0000_0000_0000_0000 * 0x10_0000_0000_0000) by (nonlinear_arith)
            requires
                pow2(k) >= 0x4_0000_0000_0000_0000,
                q >= 0x10_0000_0000_0000,
        ;
    }
    if k < 65 {
        lemma_pow2_strictly_increases(k, 65);
    }
}

/// The last step of rounding: up or down by what is cut off.
fn round_rest(n: u128, p: u128, q: u128, r: u128) -> (x: u128)
    requires
        1 <= p <= 0x2_0000_0000_0000_0000,
        p == pow2(excess(n as nat)),
        q == n as int / p as int,
        r == n as int % p as int,
        r < p,
        q < 0x20_0000_0000_0000,
    ensures
        x == to_53(n as nat),
        x <= 0x40_0000_0000_0000_0000_0000_0000_0000,
{
    proof {
        assert((q + 1) * p == q * p + p) by (nonlinear_arith);
        assert((q + 1) * p <= 0x20_0000_0000_0000 * 0x2_0000_0000_0000_0000) by (nonlinear_arith)
            requires
                0 <= q + 1 <= 0x20_0000_0000_0000,
                0 <= p <= 0x2_0000_0000_0000_0000,
        ;
        assert(q * p >= 0) by (nonlinear_arith);
    }
    if 2 * r > p || (2 * r == p && q % 2 == 1) {
        (q + 1) * p
    } else {
        q * p
    }
}

/// The absolute value of a million times a finite number, rounded to an integer.
pub open spec fn nanos_magnitude(bits: u64) -> nat {
    nearest_of(to_53(significand(bits) * 1_000_000), exponent(bits))
}

/// The same without its fraction.
pub open spec fn nanos_whole_magnitude(bits: u64) -> nat {
    whole_of(to_53(significand(bits) * 1_000_000), exponent(bits))
}

/// Milliseconds in nanoseconds, rounded to the nearest 64-bit integer. What is not a number
/// counts as 0.
pub open spec fn nearest_nanos(bits: u64) -> i64 {
    if !is_finite(bits) {
        nearest_i64(bits)
    } else if bits >= 0x8000_0000_0000_0000 {
        clamped(-(nanos_magnitude(bits) as int))
    } else {
        clamped(nanos_magnitude(bits) as int)
    }
}

/// Milliseconds in nanoseconds without a fraction, as the nearest 64-bit integer.
pub open spec fn whole_nanos(bits: u64) -> i64 {
    if !is_finite(bits) {
        nearest_i64(bits)
    } else if bits >= 0x8000_0000_0000_0000 {
        clamped(-(nanos_whole_magnitude(bits) as int))
    } else {
        clamped(nanos_whole_magnitude(bits) as int)
    }
}

fn million_significand(bits: u64) -> (r: u128)
    ensures
        r == to_53(significand(bits) * 1_000_000),
        r <= 0x40_0000_0000_0000_0000_0000_0000_0000,
{
    let m: u64 = significand_of(bits);
    round_53(m as u128 * 1_000_000)
}

/// Milliseconds in nanoseconds, rounded to the nearest 64-bit integer.
pub fn round_nanos(bits: u64) -> (r: i64)
    ensures
        r == nearest_nanos(bits),
{
    if !finite(bits) {
        return round_nearest(bits);
    }
    clamp_magnitude(
        bits >= 0x8000_0000_0000_0000,
        round_scaled(million_significand(bits), exponent_of(bits)),
        Ghost(nanos_magnitude(bits)),
    )
}

/// Milliseconds in nanoseconds without a fraction, as the nearest 64-bit integer.
pub fn cut_nanos(bits: u64) -> (r: i64)
    ensures
        r == whole_nanos(bits),
{
    if !finite(bits) {
        return round_nearest(bits);
    }
    clamp_magnitude(
        bits >= 0x8000_0000_0000_0000,
        cut_scaled(million_significand(bits), exponent_of(bits)),
        Ghost(nanos_whole_magnitude(bits)),
    )
}

/// The significand with its sign.
pub open spec fn signed_significand(bits: u64) -> int {
    if bits >= 0x8000_0000_0000_0000 {
        -(significand(bits) as int)
    } else {
        significand(bits) as int
    }
}

/// The smaller of the exponents of two numbers.
pub open spec fn common_exponent(a: u64, b: u64) -> int {
    if exponent(a) <= exponent(b) {
        exponent(a)
    } else {
        exponent(b)
    }
}

/// The difference of two finite numbers as a whole number. It is to be multiplied by two to
/// the power of their smaller exponent.
pub open spec fn exact_difference(a: u64, b: u64) -> int {
    let e = common_exponent(a, b);
    signed_significand(a) * pow2((exponent(a) - e) as nat) - signed_significand(b) * pow2((exponent(b) - e) as nat)
}

/// The difference of two numbers, rounded to the nearest 64-bit integer, and 0 where it is
/// below zero or not a number.
pub open spec fn difference_i64(a: u64, b: u64) -> i64 {
    if is_finite(a) && is_finite(b) {
        let d = exact_difference(a, b);
        if d <= 0 {
            0
        } else {
            clamped(nearest_of(to_53(d as nat), common_exponent(a, b)) as int)
        }
    } else {
        let up = a == 0x7ff0_0000_0000_0000 && (is_finite(b) || b == 0xfff0_0000_0000_0000);
        let down = b == 0xfff0_0000_0000_0000 && is_finite(a);
        if up || down {
            i64::MAX
        } else {
            0
        }
    }
}

fn signed_of(bits: u64) -> (r: i128)
    ensures
        r == signed_significand(bits),
        -0x20_0000_0000_0000 < r < 0x20_0000_0000_0000,
{
    let m: u64 = significand_of(bits);
    if bits >= 0x8000_0000_0000_0000 {
        -(m as i128)
    } else {
        m as i128
    }
}

/// A number whose exponent is not the smallest has all 53 bits.
proof fn lemma_full(bits: u64)
    requires
        exponent(bits) > -1074,
    ensures
        significand(bits) >= 0x10_0000_0000_0000,
{
}

/// The difference where one number is far above the other.
proof fn lemma_far(m: nat, t: int, j: nat, e: int)
    requires
        0x10_0000_0000_0000 <= m < 0x20_0000_0000_0000,
        j > 64,
        -0x20_0000_0000_0000 < t < 0x20_0000_0000_0000,
    ensures
        m * pow2(j) + t > 0,
        nearest_of(to_53((m * pow2(j) + t) as nat), e) == nearest_of(m, e + j),
{
    lemma_53_absorbs(m, j, t);
    lemma_nearest_shift(m, j, e);
}

/// The sign of a number far above another is that of their sum.
proof fn lemma_far_below(s: int, t: int, j: nat)
    requires
        s <= -0x10_0000_0000_0000,
        j > 64,
        -0x20_0000_0000_0000 < t < 0x20_0000_0000_0000,
    ensures
        s * pow2(j) + t < 0,
{
    lemma2_to64();
    lemma2_to64_rest();
    lemma_pow2_strictly_increases(64, j);
    assert(s * pow2(j) <= -0x10_0000_0000_0000 * pow2(j)) by (nonlinear_arith)
        requires
            s <= -0x10_0000_0000_0000,
            pow2(j) > 0,
    ;
}

fn as_positive(r: Option<u64>, m: Ghost<nat>) -> (x: i64)
    requires
        match r {
            Some(v) => v == m@,
            None => m@ > u64::MAX,
        },
    ensures
        x == clamped(m@ as int),
{
    clamp_magnitude(false, r, m)
}

proof fn lemma_product_bound(s: int, p: int)
    requires
        -0x20_0000_0000_0000 < s < 0x20_0000_0000_0000,
        0 < p <= 0x1_0000_0000_0000_0000,
    ensures
        -0x20_0000_0000_0000_0000_0000_0000_0000 < s * p < 0x20_0000_0000_0000_0000_0000_0000_0000,
{
    assert(s * p < 0x20_0000_0000_0000 * p) by (nonlinear_arith)
        requires
            s < 0x20_0000_0000_0000,
            p > 0,
    ;
    assert(s * p > -0x20_0000_0000_0000 * p) by (nonlinear_arith)
        requires
            s > -0x20_0000_0000_0000,
            p > 0,
    ;
}

/// The difference of two numbers, rounded to the nearest 64-bit integer, and 0 where it is
/// below zero or not a number.
pub fn round_difference(a: u64, b: u64) -> (r: i64)
    ensures
        r == difference_i64(a, b),
{
    if !finite(a) || !finite(b) {
        let up: bool = a == 0x7ff0_0000_0000_0000 && (finite(b) || b == 0xfff0_0000_0000_0000);
        let down: bool = b == 0xfff0_0000_0000_0000 && finite(a);
        return if up || down {
            i64::MAX
        } else {
            0
        };
    }
    let sa: i128 = signed_of(a);
    let sb: i128 = signed_of(b);
    let ea: i64 = exponent_of(a);
    let eb: i64 = exponent_of(b);
    proof {
        lemma2_to64();
        lemma2_to64_rest();
        assert(sb * 1 == sb && sa * 1 == sa);
    }
    if ea > eb + 64 {
        proof {
            lemma_full(a);
            let j = (ea - eb) as nat;
            if sa > 0 {
                lemma_far(sa as nat, -sb, j, eb as int);
            } else {
                lemma_far_below(sa as int, -sb, j);
            }
        }
        if sa < 0 {
            return 0;
        }
        return as_positive(round_scaled(sa as u128, ea), Ghost(nearest_of(sa as nat, ea as int)));
    }
    if eb > ea + 64 {
        proof {
            lemma_full(b);
            let j = (eb - ea) as nat;
            assert((-sb) * pow2(j) == -(sb * pow2(j))) by (nonlinear_arith);
            if sb < 0 {
                lemma_far((-sb) as nat, sa as int, j, ea as int);
            } else {
                lemma_far_below(-sb, sa as int, j);
            }
        }
        if sb > 0 {
            return 0;
        }
        return as_positive(round_scaled((-sb) as u128, eb), Ghost(nearest_of((-sb) as nat, eb as int)));
    }
    let e: i64 = if ea <= eb {
        ea
    } else {
        eb
    };
    let pa: u128 = power_of_two((ea - e) as u64);
    let pb: u128 = power_of_two((eb - e) as u64);
    proof {
        lemma_pow2_pos((ea - e) as nat);
        lemma_pow2_pos((eb - e) as nat);
        assert(pa <= 0x1_0000_0000_0000_0000) by {
            if ea - e < 64 {
                lemma_pow2_strictly_increases((ea - e) as nat, 64);
            }
        }
        assert(pb <= 0x1_0000_0000_0000_0000) by {
            if eb - e < 64 {
                lemma_pow2_strictly_increases((eb - e) as nat, 64);
            }
        }
        lemma_product_bound(sa as int, pa as int);
        lemma_product_bound(sb as int, pb as int);
    }
    let d: i128 = sa * pa as i128 - sb * pb as i128;
    if d <= 0 {
        return 0;
    }
    let m: u128 = round_53(d as u128);
    as_positive(round_scaled(m, e), Ghost(nearest_of(m as nat, e as int)))
}

/// Whether a double is exactly this integer.
pub open spec fn is_exactly(bits: u64, n: int) -> bool {
    is_finite(bits) && if exponent(bits) >= 0 {
        signed_significand(bits) * pow2(exponent(bits) as nat) == n
    } else {
        signed_significand(bits) == n * pow2((-exponent(bits)) as nat)
    }
}

proof fn lemma_exact_nearest(bits: u64, n: nat)
    requires
        is_exactly(bits, n as int),
    ensures
        nearest_of(significand(bits), exponent(bits)) == n,
        signed_significand(bits) == significand(bits),
{
    let e = exponent(bits);
    let s = signed_significand(bits);
    if e >= 0 {
        lemma_pow2_pos(e as nat);
        assert(s >= 0) by (nonlinear_arith)
            requires
                s * pow2(e as nat) == n,
                n >= 0,
                pow2(e as nat) > 0,
        ;
    } else {
        let k = (-e) as nat;
        let h = pow2((k - 1) as nat) as int;
        lemma_pow2_unfold(k);
        lemma_pow2_pos((k - 1) as nat);
        assert(n * pow2(k) >= 0) by (nonlinear_arith);
        lemma_fundamental_div_mod_converse(n * (2 * h) + h, 2 * h, n as int, h);
    }
}

/// A double that is an integer is rounded to it, and so is its difference to zero.
pub proof fn law_exact(a: u64, zero: u64, n: nat)
    requires
        is_exactly(a, n as int),
        is_exactly(zero, 0),
        n <= i64::MAX,
    ensures
        nearest_i64(a) == n,
        difference_i64(a, zero) == n,
{
    lemma_exact_nearest(a, n);
    lemma_exact_nearest(zero, 0);
    let ez = exponent(zero);
    let ea = exponent(a);
    let e = common_exponent(a, zero);
    let m = significand(a);
    let j = (ea - e) as nat;
    assert(significand(zero) == 0) by {
        if ez >= 0 {
            lemma_pow2_pos(ez as nat);
            assert(signed_significand(zero) == 0) by (nonlinear_arith)
                requires
                    signed_significand(zero) * pow2(ez as nat) == 0,
                    pow2(ez as nat) > 0,
            ;
        } else {
            assert(0 * pow2((-ez) as nat) == 0);
        }
    }
    assert(0 * pow2((ez - e) as nat) == 0);
    let d = exact_difference(a, zero);
    assert(d == m * pow2(j));
    lemma_pow2_pos(j);
    assert(m < 0x20_0000_0000_0000);
    lemma_53_exact(m, j);
    lemma_nearest_shift(m, j, e);
    if d <= 0 {
        assert(m == 0) by (nonlinear_arith)
            requires
                m * pow2(j) <= 0,
                pow2(j) > 0,
                m >= 0,
        ;
        assert(n == 0) by {
            if ea >= 0 {
                assert(0 * pow2(ea as nat) == 0);
            } else {
                lemma_pow2_pos((-ea) as nat);
                assert(n == 0) by (nonlinear_arith)
                    requires
                        n * pow2((-ea) as nat) == 0,
                        pow2((-ea) as nat) > 0,
                ;
            }
        }
    }
}

} // verus!
