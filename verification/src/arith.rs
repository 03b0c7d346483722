//! Integer arithmetic helpers: rounded division, saturation, and the
//! greatest-common-divisor facts behind the fractional position sequencer.

use vstd::prelude::*;
use vstd::arithmetic::div_mod::*;

verus! {

/// Quotient of `a / d` rounded to the nearest integer, halves up.
pub open spec fn spec_round_div(a: int, d: int) -> int {
    (2 * a + d) / (2 * d)
}

/// Clamp a mathematical integer into the `i32` range.
pub open spec fn spec_sat32(x: int) -> i32 {
    if x > i32::MAX {
        i32::MAX
    } else if x < i32::MIN {
        i32::MIN
    } else {
        x as i32
    }
}

/// Division with the quotient rounded to the nearest integer, halves up.
pub fn round_div128(a: i128, d: i128) -> (r: i128)
    requires
        0 < d <= 0x10_0000_0000_0000_0000_0000_0000,
        -0x1000_0000_0000_0000_0000_0000_0000_0000 <= a
            <= 0x1000_0000_0000_0000_0000_0000_0000_0000,
    ensures
        r == spec_round_div(a as int, d as int),
{
    let t: i128 = 2 * a + d;
    let dd: i128 = 2 * d;
    if t >= 0 {
        t / dd
    } else {
        let q: i128 = (-t + dd - 1) / dd;
        proof {
            let ti = t as int;
            let ddi = dd as int;
            lemma_fundamental_div_mod(ti, ddi);
            lemma_mod_bound(ti, ddi);
            let q0 = ti / ddi;
            let r0 = ti % ddi;
            assert((-ti + ddi - 1) == (-q0) * ddi + (ddi - 1 - r0)) by (nonlinear_arith)
                requires
                    ti == ddi * q0 + r0,
            ;
            lemma_fundamental_div_mod_converse(-ti + ddi - 1, ddi, -q0, ddi - 1 - r0);
            assert(q0 >= -0x4000_0000_0000_0000_0000_0000_0000_0000) by (nonlinear_arith)
                requires
                    ti == ddi * q0 + r0,
                    0 <= r0 < ddi,
                    0 < ddi,
                    ti >= -0x4000_0000_0000_0000_0000_0000_0000_0000,
            ;
        }
        -q
    }
}

/// Clamp into the `i32` range.
pub fn sat32(x: i128) -> (r: i32)
    ensures
        r == spec_sat32(x as int),
{
    if x > i32::MAX as i128 {
        i32::MAX
    } else if x < i32::MIN as i128 {
        i32::MIN
    } else {
        x as i32
    }
}

/// `|a * b| <= aa * bb` whenever `|a| <= aa` and `|b| <= bb`.
pub proof fn lemma_abs_mul_le(a: int, b: int, aa: int, bb: int)
    by (nonlinear_arith)
    requires
        -aa <= a <= aa,
        -bb <= b <= bb,
    ensures
        -(aa * bb) <= a * b <= aa * bb,
{
}

/// Bounding the rounded quotient: if `|a| <= m * d` then `|round(a / d)| <= m`.
pub proof fn lemma_round_div_bound(a: int, d: int, m: int)
    requires
        d > 0,
        m >= 0,
        -(m * d) <= a <= m * d,
    ensures
        -m <= spec_round_div(a, d) <= m,
{
    assert(2 * a + d <= (2 * d) * m + (2 * d - 1)) by (nonlinear_arith)
        requires
            a <= m * d,
            d > 0,
    ;
    assert(2 * a + d >= (2 * d) * (-m)) by (nonlinear_arith)
        requires
            a >= -(m * d),
            d > 0,
    ;
    lemma_fundamental_div_mod(2 * a + d, 2 * d);
    lemma_mod_bound(2 * a + d, 2 * d);
    let q = (2 * a + d) / (2 * d);
    let r = (2 * a + d) % (2 * d);
    assert(q <= m && q >= -m) by (nonlinear_arith)
        requires
            2 * a + d == (2 * d) * q + r,
            0 <= r < 2 * d,
            d > 0,
            m >= 0,
            2 * a + d <= (2 * d) * m + (2 * d - 1),
            2 * a + d >= (2 * d) * (-m),
    ;
}

/// Euclid's greatest common divisor.
pub open spec fn spec_gcd(a: nat, b: nat) -> nat
    decreases b,
{
    if b == 0 {
        a
    } else {
        spec_gcd(b, a % b)
    }
}

/// The gcd of two numbers, at least one positive, is positive.
pub proof fn lemma_gcd_pos(a: nat, b: nat)
    requires
        a > 0 || b > 0,
    ensures
        spec_gcd(a, b) > 0,
    decreases b,
{
    if b > 0 {
        lemma_mod_bound(a as int, b as int);
        if a % b == 0 {
            assert(spec_gcd(b, 0) == b);
        } else {
            lemma_gcd_pos(b, a % b);
        }
    }
}

/// The gcd divides both of its arguments.
pub proof fn lemma_gcd_divides(a: nat, b: nat)
    requires
        a > 0 || b > 0,
    ensures
        a % spec_gcd(a, b) == 0,
        b % spec_gcd(a, b) == 0,
    decreases b,
{
    lemma_gcd_pos(a, b);
    let g = spec_gcd(a, b);
    if b == 0 {
        lemma_mod_self_0(a as int);
        assert(0int % a as int == 0) by {
            lemma_small_mod(0, a);
        }
    } else {
        lemma_mod_bound(a as int, b as int);
        if a % b == 0 && b % b == 0 {
        }
        lemma_gcd_divides(b, a % b);
        // g divides b and a % b; a == b * (a / b) + a % b, so g divides a.
        lemma_fundamental_div_mod(a as int, b as int);
        let q = a as int / b as int;
        assert(b as int % g as int == 0);
        let k = b as int / g as int;
        lemma_fundamental_div_mod(b as int, g as int);
        assert(b as int == g as int * k);
        assert((b as int * q) == g as int * (k * q)) by (nonlinear_arith)
            requires
                b as int == g as int * k,
        ;
        lemma_mod_multiples_basic(k * q, g as int);
        assert((g as int * (k * q)) % g as int == 0);
        lemma_add_mod_noop(b as int * q, a as int % b as int, g as int);
        assert((a as int) % g as int == 0) by {
            assert(a as int == b as int * q + a as int % b as int);
            assert(((a as int % b as int) % g as int) == 0);
            assert(((b as int * q) % g as int) == 0);
            lemma_mod_twice(0, g as int);
            lemma_small_mod(0, g);
        }
    }
}

/// Bezout coefficients: the gcd is an integer combination of its arguments.
pub proof fn lemma_bezout(a: nat, b: nat) -> (c: (int, int))
    ensures
        a * c.0 + b * c.1 == spec_gcd(a, b),
    decreases b,
{
    if b == 0 {
        (1int, 0int)
    } else {
        lemma_mod_bound(a as int, b as int);
        let (x, y) = lemma_bezout(b, a % b);
        lemma_fundamental_div_mod(a as int, b as int);
        let q = a as int / b as int;
        let c = (y, x - q * y);
        assert(a * c.0 + b * c.1 == b as int * x + (a % b) * y) by (nonlinear_arith)
            requires
                a as int == b as int * q + (a % b) as int,
                c == (y, x - q * y),
        ;
        c
    }
}

/// Every common divisor divides the gcd.
pub proof fn lemma_common_divisor_divides_gcd(a: nat, b: nat, c: nat)
    requires
        c > 0,
        a % c == 0,
        b % c == 0,
    ensures
        spec_gcd(a, b) % c == 0,
{
    let (x, y) = lemma_bezout(a, b);
    lemma_fundamental_div_mod(a as int, c as int);
    lemma_fundamental_div_mod(b as int, c as int);
    let ka = a as int / c as int;
    let kb = b as int / c as int;
    assert(spec_gcd(a, b) as int == c as int * (ka * x + kb * y)) by (nonlinear_arith)
        requires
            a as int == c as int * ka,
            b as int == c as int * kb,
            a * x + b * y == spec_gcd(a, b),
    ;
    lemma_mod_multiples_basic(ka * x + kb * y, c as int);
}

/// If `n` and `d` are coprime and `d` divides `k * n`, then `d` divides `k`.
pub proof fn lemma_coprime_cancel(n: nat, d: nat, k: nat)
    requires
        d > 0,
        spec_gcd(n, d) == 1,
        (k * n) % d == 0,
    ensures
        k % d == 0,
{
    let (x, y) = lemma_bezout(n, d);
    lemma_fundamental_div_mod((k * n) as int, d as int);
    let m = (k * n) as int / d as int;
    assert(k as int == d as int * (m * x + k * y)) by (nonlinear_arith)
        requires
            n * x + d * y == 1,
            (k * n) as int == d as int * m,
    ;
    lemma_mod_multiples_basic(m * x + k * y, d as int);
}

/// Dividing both arguments by their gcd leaves coprime numbers.
pub proof fn lemma_gcd_reduced_coprime(n: nat, d: nat)
    requires
        d > 0,
    ensures
        spec_gcd(n / spec_gcd(n, d), d / spec_gcd(n, d)) == 1,
{
    lemma_gcd_pos(n, d);
    lemma_gcd_divides(n, d);
    let g = spec_gcd(n, d);
    let n1 = n / g;
    let d1 = d / g;
    lemma_fundamental_div_mod(n as int, g as int);
    lemma_fundamental_div_mod(d as int, g as int);
    assert(n as int == g as int * n1 as int);
    assert(d as int == g as int * d1 as int);
    assert(d1 > 0) by (nonlinear_arith)
        requires
            d as int == g as int * d1 as int,
            d > 0,
            g > 0,
    ;
    let g2 = spec_gcd(n1, d1);
    lemma_gcd_pos(n1, d1);
    lemma_gcd_divides(n1, d1);
    lemma_fundamental_div_mod(n1 as int, g2 as int);
    lemma_fundamental_div_mod(d1 as int, g2 as int);
    let a2 = n1 as int / g2 as int;
    let b2 = d1 as int / g2 as int;
    assert(n as int == (g * g2) as int * a2 && d as int == (g * g2) as int * b2)
        by (nonlinear_arith)
        requires
            n as int == g as int * n1 as int,
            d as int == g as int * d1 as int,
            n1 as int == g2 as int * a2,
            d1 as int == g2 as int * b2,
    ;
    assert((g * g2) > 0) by (nonlinear_arith)
        requires
            g > 0,
            g2 > 0,
    ;
    lemma_mod_multiples_basic(a2, (g * g2) as int);
    lemma_mod_multiples_basic(b2, (g * g2) as int);
    assert(n as int == a2 * (g * g2) as int && d as int == b2 * (g * g2) as int)
        by (nonlinear_arith)
        requires
            n as int == (g * g2) as int * a2,
            d as int == (g * g2) as int * b2,
    ;
    lemma_common_divisor_divides_gcd(n, d, g * g2);
    if g2 > 1 {
        assert(g < g * g2) by (nonlinear_arith)
            requires
                g > 0,
                g2 > 1,
        ;
        lemma_small_mod(g, g * g2);
        assert(false);
    }
}

} // verus!
