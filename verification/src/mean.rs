//! The mean of integers as doubles give it: the sum and the number are rounded to 53 bits, so
//! is their quotient, and that is rounded to an integer.
use vstd::prelude::*;
use vstd::arithmetic::div_mod::{
    lemma_div_denominator, lemma_fundamental_div_mod, lemma_fundamental_div_mod_converse,
};
use vstd::arithmetic::power2::{
    lemma2_to64, lemma2_to64_rest, lemma_pow2_adds, lemma_pow2_pos, lemma_pow2_strictly_increases,
    lemma_pow2_unfold, pow2,
};
use crate::double::{excess, lemma_excess, lemma_nearest_shift, round_53, to_53};
use crate::float::{clamp_magnitude, nearest_of, round_scaled};
use crate::num::clamped;

verus! {

/// A quotient with 118 binary places, and a last digit that says whether anything is cut off.
/// For numbers of up to 64 bits that are not zero it has more than 53 digits, so rounding it
/// to 53 is rounding the exact quotient.
pub open spec fn quotient_digits(t: nat, n: nat) -> nat {
    let x = t * pow2(118);
    2 * (x / n) + if x % n == 0 {
        0nat
    } else {
        1
    }
}

/// The quotient of two doubles, rounded to an integer, halves up.
pub open spec fn nearest_quotient(t: nat, n: nat) -> nat {
    nearest_of(to_53(quotient_digits(t, n)), -119)
}

/// The mean of `n` integers with this sum, halves away from zero.
pub open spec fn mean_i64(sum: int, n: nat) -> i64 {
    clamped(
        if sum < 0 {
            -(nearest_quotient(to_53((-sum) as nat), to_53(n)) as int)
        } else {
            nearest_quotient(to_53(sum as nat), to_53(n)) as int
        },
    )
}

/// The first 53 bits of a number.
proof fn lemma_excess_range(n: nat)
    ensures
        n / pow2(excess(n)) < 0x20_0000_0000_0000,
        excess(n) > 0 ==> n / pow2(excess(n)) >= 0x10_0000_0000_0000,
    decreases n,
{
    lemma2_to64();
    if n >= 0x20_0000_0000_0000 {
        let k = excess(n / 2);
        lemma_excess_range(n / 2);
        assert(excess(n) == k + 1);
        lemma_pow2_unfold((k + 1) as nat);
        lemma_pow2_pos(k);
        lemma_div_denominator(n as int, 2, pow2(k) as int);
    } else {
        assert(n / 1 == n);
    }
}

/// What is far behind the first 53 bits counts only as something or nothing.
proof fn lemma_last_digit(a: nat, j: nat, b: nat)
    requires
        a >= 0x20_0000_0000_0000,
        j >= 1,
        b < pow2(j),
    ensures
        ({
            let d = (2 * a + if b == 0 {
                0int
            } else {
                1
            }) as nat;
            to_53(a * pow2(j) + b) == to_53(d) * pow2((j - 1) as nat)
        }),
{
    let s = if b == 0 {
        0int
    } else {
        1
    };
    let d = (2 * a + s) as nat;
    let k = excess(d);
    let full = a * pow2(j) + b;
    lemma2_to64();
    lemma_excess_range(d);
    if k == 1 {
        assert(pow2(1) == 2);
    }
    assert(k >= 2);
    let h = pow2((j - 1) as nat) as int;
    let p = pow2(k) as int;
    let p2 = pow2((k - 1) as nat) as int;
    let p4 = pow2((k - 2) as nat) as int;
    lemma_pow2_unfold(j);
    lemma_pow2_unfold(k);
    lemma_pow2_unfold((k - 1) as nat);
    lemma_pow2_pos((j - 1) as nat);
    lemma_pow2_pos((k - 2) as nat);
    lemma_pow2_adds(k, (j - 1) as nat);
    let q = d as int / p;
    let r = d as int % p;
    lemma_fundamental_div_mod(d as int, p);
    let m = p * h;
    let rest = r * h - s * h + b;
    assert(full == q * m + rest) by (nonlinear_arith)
        requires
            full == a * (2 * h) + b,
            2 * a == d - s,
            d == p * q + r,
            m == p * h,
            rest == r * h - s * h + b,
    ;
    if s == 1 {
        let z = p2 * q;
        assert(p * q == 2 * z) by (nonlinear_arith)
            requires
                p == 2 * p2,
                z == p2 * q,
        ;
        assert(r == 2 * (a - z) + 1);
        assert(r >= 1 && r + 1 <= p);
        assert(0 <= rest < m) by (nonlinear_arith)
            requires
                rest == r * h - h + b,
                0 < b < 2 * h,
                1 <= r,
                r + 1 <= p,
                m == p * h,
                h > 0,
        ;
        if r > p2 {
            assert(2 * rest > m) by (nonlinear_arith)
                requires
                    rest == r * h - h + b,
                    b > 0,
                    r >= p2 + 1,
                    m == 2 * p2 * h,
                    h > 0,
            ;
        } else {
            assert(r != p2);
            assert(2 * rest < m) by (nonlinear_arith)
                requires
                    rest == r * h - h + b,
                    b < 2 * h,
                    r + 1 <= p2,
                    m == 2 * p2 * h,
                    h > 0,
            ;
        }
    } else {
        assert(rest == r * h);
        assert(0 <= rest < m && (2 * rest > m <==> 2 * r > p) && (2 * rest == m <==> 2 * r == p)) by (nonlinear_arith)
            requires
                rest == r * h,
                0 <= r < p,
                m == p * h,
                h > 0,
        ;
    }
    lemma_fundamental_div_mod_converse(full as int, m, q, rest);
    lemma_excess(full, (k + j - 1) as nat);
    assert(q * m == (q * p) * h) by (nonlinear_arith)
        requires
            m == p * h,
    ;
    assert((q + 1) * m == ((q + 1) * p) * h) by (nonlinear_arith)
        requires
            m == p * h,
    ;
}

/// The digits of a quotient of which the first ones are known.
proof fn lemma_digits(t: nat, n: nat, k: nat, a: nat, r: nat)
    requires
        t * pow2(k) == a * n + r,
        r < n,
        k <= 118,
        a >= 0x20_0000_0000_0000,
    ensures
        ({
            let d = (2 * a + if r == 0 {
                0int
            } else {
                1
            }) as nat;
            nearest_quotient(t, n) == nearest_of(to_53(d), -(k + 1))
        }),
{
    let m = (118 - k) as nat;
    let h = pow2(m) as int;
    let x = t * pow2(118);
    lemma_pow2_adds(k, m);
    lemma_pow2_pos(m);
    lemma_pow2_unfold(m + 1);
    let y = r * h;
    let b = y / n as int;
    let c = y % n as int;
    assert(y >= 0) by (nonlinear_arith)
        requires
            y == r * h,
            h > 0,
    ;
    lemma_fundamental_div_mod(y, n as int);
    assert(x == (a * h + b) * n + c) by (nonlinear_arith)
        requires
            x == t * (pow2(k) * h),
            t * pow2(k) == a * n + r,
            y == r * h,
            y == n * b + c,
    ;
    lemma_fundamental_div_mod_converse(x as int, n as int, a * h + b, c);
    assert(0 <= b < h) by (nonlinear_arith)
        requires
            y == r * h,
            0 <= r < n,
            y == n * b + c,
            0 <= c < n,
            h > 0,
            y >= 0,
    ;
    let last = (2 * b + if c == 0 {
        0int
    } else {
        1
    }) as nat;
    assert(last < pow2(m + 1));
    assert(quotient_digits(t, n) == a * pow2(m + 1) + last) by (nonlinear_arith)
        requires
            quotient_digits(t, n) == 2 * (a * h + b) + (last - 2 * b),
            pow2(m + 1) == 2 * h,
    ;
    if r == 0 {
        assert(y == 0) by (nonlinear_arith)
            requires
                y == r * h,
                r == 0,
        ;
        assert(0int / (n as int) == 0 && 0int % (n as int) == 0) by (nonlinear_arith)
            requires
                n > 0,
        ;
    } else {
        assert(y > 0) by (nonlinear_arith)
            requires
                y == r * h,
                r > 0,
                h > 0,
        ;
        if last == 0 {
            assert(n * b == 0) by (nonlinear_arith)
                requires
                    b == 0,
            ;
        }
    }
    lemma_last_digit(a, m + 1, last);
    let d = (2 * a + if r == 0 {
        0int
    } else {
        1
    }) as nat;
    lemma_nearest_shift(to_53(d), m, -119);
}

/// The quotient of two doubles, rounded to an integer, unless it takes more than 64 bits.
fn round_quotient(t: u128, n: u128) -> (r: Option<u64>)
    requires
        t <= 0x1_0000_0000_0000_0000,
        1 <= n <= 0x1_0000_0000_0000_0000,
    ensures
        match r {
            Some(v) => nearest_quotient(t as nat, n as nat) == v,
            None => nearest_quotient(t as nat, n as nat) > u64::MAX,
        },
{
    proof {
        lemma2_to64();
        lemma2_to64_rest();
        lemma_pow2_adds(64, 54);
        lemma_fundamental_div_mod(t as int, n as int);
    }
    if t == 0 {
        proof {
            assert(0 * pow2(118) == 0);
            assert(0int / (n as int) == 0 && 0int % (n as int) == 0) by (nonlinear_arith)
                requires
                    n > 0,
            ;
            assert(quotient_digits(0, n as nat) == 0);
            assert(excess(0) == 0);
            assert(to_53(0) == 0);
            lemma_pow2_unfold(119);
            lemma_pow2_pos(118);
            lemma_fundamental_div_mod_converse(pow2(118) as int, pow2(119) as int, 0, pow2(118) as int);
        }
        return Some(0);
    }
    let mut a: u128 = t / n;
    let mut r: u128 = t % n;
    let mut k: u64 = 0;
    proof {
        assert(t * 1 == a * n + r) by (nonlinear_arith)
            requires
                t == n * a + r,
        ;
        assert(a <= t) by (nonlinear_arith)
            requires
                t == n * a + r,
                n >= 1,
                a >= 0,
                r >= 0,
        ;
    }
    while a < 0x40_0000_0000_0000
        invariant
            1 <= t,
            1 <= n <= 0x1_0000_0000_0000_0000,
            a <= 0x1_0000_0000_0000_0000,
            r < n,
            k <= 118,
            t as nat * pow2(k as nat) == a as nat * n as nat + r as nat,
            pow2(118) == 0x40_0000_0000_0000 * 0x1_0000_0000_0000_0000,
        decreases 118 - k,
    {
        proof {
            let p = pow2(k as nat) as int;
            assert(p < 0x40_0000_0000_0000 * 0x1_0000_0000_0000_0000) by (nonlinear_arith)
                requires
                    t * p == a * n + r,
                    t >= 1,
                    p >= 0,
                    0 <= a < 0x40_0000_0000_0000,
                    0 <= r < n,
                    n <= 0x1_0000_0000_0000_0000,
            ;
            lemma_pow2_unfold((k + 1) as nat);
            assert(t * (2 * p) == 2 * (a * n + r)) by (nonlinear_arith)
                requires
                    t * p == a * n + r,
            ;
            assert((2 * a) * n == 2 * (a * n)) by (nonlinear_arith);
            assert((2 * a + 1) * n == 2 * (a * n) + n) by (nonlinear_arith);
        }
        let r2: u128 = 2 * r;
        if r2 >= n {
            a = 2 * a + 1;
            r = r2 - n;
        } else {
            a = 2 * a;
            r = r2;
        }
        k = k + 1;
    }
    let d: u128 = 2 * a + if r == 0 {
        0
    } else {
        1
    };
    proof {
        lemma_digits(t as nat, n as nat, k as nat, a as nat, r as nat);
    }
    round_scaled(round_53(d), -(k as i64 + 1))
}

/// The mean of `n` integers with this sum.
pub fn round_mean(sum: i64, n: u64) -> (r: i64)
    requires
        n > 0,
    ensures
        r == mean_i64(sum as int, n as nat),
{
    let magnitude: u128 = if sum < 0 {
        (-(sum as i128)) as u128
    } else {
        sum as u128
    };
    proof {
        lemma_53_bounds(magnitude as nat);
        lemma_53_bounds(n as nat);
    }
    let t: u128 = round_53(magnitude);
    let m: u128 = round_53(n as u128);
    clamp_magnitude(sum < 0, round_quotient(t, m), Ghost(nearest_quotient(t as nat, m as nat)))
}

/// Rounding to 53 bits keeps a number within a power of two, and above zero.
proof fn lemma_53_bounds(n: nat)
    requires
        n <= 0x1_0000_0000_0000_0000,
    ensures
        to_53(n) <= 0x1_0000_0000_0000_0000,
        n > 0 ==> to_53(n) > 0,
{
    let k = excess(n);
    let p = pow2(k) as int;
    lemma_excess_range(n);
    lemma_pow2_pos(k);
    lemma_fundamental_div_mod(n as int, p);
    let q = n as int / p;
    let r = n as int % p;
    lemma2_to64();
    if k == 0 {
        assert(p == 1);
        assert(n == q && r == 0) by (nonlinear_arith)
            requires
                n == p * q + r,
                p == 1,
                0 <= r < p,
        ;
    } else {
        assert(q * p >= 1) by (nonlinear_arith)
            requires
                q >= 0x10_0000_0000_0000,
                p >= 1,
        ;
        assert((q + 1) * p >= 1) by (nonlinear_arith)
            requires
                q >= 0x10_0000_0000_0000,
                p >= 1,
        ;
        lemma_53_upper(n, k, p, q, r);
    }
}

proof fn lemma_53_upper(n: nat, k: nat, p: int, q: int, r: int)
    requires
        n <= 0x1_0000_0000_0000_0000,
        k > 0,
        p == pow2(k),
        n == p * q + r,
        0 <= r < p,
        0x10_0000_0000_0000 <= q < 0x20_0000_0000_0000,
    ensures
        q * p <= 0x1_0000_0000_0000_0000,
        2 * r >= p ==> (q + 1) * p <= 0x1_0000_0000_0000_0000,
{
    lemma2_to64();
    lemma2_to64_rest();
    assert(q * p <= n) by (nonlinear_arith)
        requires
            n == p * q + r,
            r >= 0,
    ;
    if 2 * r >= p {
        assert(p <= 0x800) by {
            if k > 11 {
                if k > 12 {
                    lemma_pow2_strictly_increases(12, k);
                }
                assert(n > 0x1_0000_0000_0000_0000) by (nonlinear_arith)
                    requires
                        n == p * q + r,
                        p >= 0x1000,
                        q >= 0x10_0000_0000_0000,
                        2 * r >= p,
                ;
            } else if k < 11 {
                lemma_pow2_strictly_increases(k, 11);
            }
        }
        assert((q + 1) * p <= 0x1_0000_0000_0000_0000) by (nonlinear_arith)
            requires
                0 <= q + 1 <= 0x20_0000_0000_0000,
                0 <= p <= 0x800,
        ;
    }
}

} // verus!
