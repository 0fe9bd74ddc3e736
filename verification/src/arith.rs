//! Elementary number theory used by the exact-time arithmetic: the greatest
//! common divisor, Bezout coefficients, and the uniqueness of reduced fractions.
use vstd::arithmetic::div_mod::{
    lemma_fundamental_div_mod, lemma_mod_multiples_basic, lemma_small_mod,
};
use vstd::prelude::*;

verus! {

/// Absolute value of an integer, as a natural number.
pub open spec fn abs(x: int) -> nat {
    if x < 0 {
        (-x) as nat
    } else {
        x as nat
    }
}

/// Euclid's greatest common divisor.
pub open spec fn gcd(a: nat, b: nat) -> nat
    decreases b,
{
    if b == 0 {
        a
    } else {
        gcd(b, a % b)
    }
}

/// Bezout coefficients `(x, y)` with `x * a + y * b == gcd(a, b)`.
pub open spec fn bezout(a: nat, b: nat) -> (int, int)
    decreases b,
{
    if b == 0 {
        (1, 0)
    } else {
        let (x, y) = bezout(b, a % b);
        (y, x - (a / b) as int * y)
    }
}

/// `d` divides `x` (for a positive `d`).
pub open spec fn dvd(d: int, x: int) -> bool {
    d > 0 && x % d == 0
}

/// A fraction `n / d` in lowest terms with a positive denominator.
pub open spec fn reduced(n: int, d: int) -> bool {
    d > 0 && gcd(abs(n), d as nat) == 1
}

pub proof fn lemma_dvd_mul(d: int, k: int)
    requires
        d > 0,
    ensures
        dvd(d, k * d),
{
    lemma_mod_multiples_basic(k, d);
}

pub proof fn lemma_dvd_witness(d: int, x: int)
    requires
        dvd(d, x),
    ensures
        x == (x / d) * d,
{
    lemma_fundamental_div_mod(x, d);
    assert(d * (x / d) == (x / d) * d) by (nonlinear_arith);
}

pub proof fn lemma_dvd_lin(d: int, a: int, b: int, p: int, q: int)
    requires
        dvd(d, a),
        dvd(d, b),
    ensures
        dvd(d, p * a + q * b),
{
    lemma_dvd_witness(d, a);
    lemma_dvd_witness(d, b);
    let ka = a / d;
    let kb = b / d;
    assert(p * a + q * b == (p * ka + q * kb) * d) by (nonlinear_arith)
        requires
            a == ka * d,
            b == kb * d,
    ;
    lemma_dvd_mul(d, p * ka + q * kb);
}

pub proof fn lemma_dvd_le(d: int, x: int)
    requires
        dvd(d, x),
        x > 0,
    ensures
        d <= x,
{
    lemma_dvd_witness(d, x);
    let k = x / d;
    assert(k >= 1) by (nonlinear_arith)
        requires
            x == k * d,
            x > 0,
            d > 0,
    ;
    assert(d <= x) by (nonlinear_arith)
        requires
            x == k * d,
            k >= 1,
            d > 0,
    ;
}

pub proof fn lemma_dvd_neg(d: int, x: int)
    requires
        dvd(d, x),
    ensures
        dvd(d, -x),
        dvd(d, abs(x) as int),
{
    lemma_dvd_lin(d, x, x, -1, 0);
    assert(-1 * x + 0 * x == -x);
}

pub proof fn lemma_dvd_abs(d: int, x: int)
    requires
        dvd(d, abs(x) as int),
    ensures
        dvd(d, x),
{
    lemma_dvd_neg(d, abs(x) as int);
}

/// The gcd divides both arguments and is positive unless both are zero.
pub proof fn lemma_gcd_divides(a: nat, b: nat)
    ensures
        (a > 0 || b > 0) ==> gcd(a, b) > 0,
        gcd(a, b) > 0 ==> dvd(gcd(a, b) as int, a as int) && dvd(gcd(a, b) as int, b as int),
    decreases b,
{
    if b == 0 {
        if a > 0 {
            lemma_dvd_mul(a as int, 1);
            lemma_dvd_mul(a as int, 0);
        }
    } else {
        let r = a % b;
        lemma_gcd_divides(b, r);
        let g = gcd(b, r);
        assert(g > 0);
        lemma_fundamental_div_mod(a as int, b as int);
        lemma_dvd_lin(g as int, b as int, r as int, (a / b) as int, 1);
        assert((a / b) as int * b + 1 * r == a) by (nonlinear_arith)
            requires
                a == b * (a / b) + r,
        ;
    }
}

/// Bezout's identity.
pub proof fn lemma_bezout(a: nat, b: nat)
    ensures
        bezout(a, b).0 * a + bezout(a, b).1 * b == gcd(a, b),
    decreases b,
{
    if b != 0 {
        let r = a % b;
        lemma_bezout(b, r);
        let (x, y) = bezout(b, r);
        let q = (a / b) as int;
        lemma_fundamental_div_mod(a as int, b as int);
        assert(y * a + (x - q * y) * b == x * b + y * r) by (nonlinear_arith)
            requires
                a == b * q + r,
        ;
    }
}

/// A common divisor of `a` and `b` divides their gcd.
pub proof fn lemma_common_divides_gcd(d: int, a: nat, b: nat)
    requires
        dvd(d, a as int),
        dvd(d, b as int),
    ensures
        gcd(a, b) == 0 || dvd(d, gcd(a, b) as int),
{
    lemma_bezout(a, b);
    let (x, y) = bezout(a, b);
    lemma_dvd_lin(d, a as int, b as int, x, y);
}

/// If some integer combination of `a` and `b` is 1, they are coprime.
pub proof fn lemma_coprime_from_combination(a: nat, b: nat, x: int, y: int)
    requires
        x * a + y * b == 1,
    ensures
        gcd(a, b) == 1,
{
    lemma_gcd_divides(a, b);
    let g = gcd(a, b);
    assert(a > 0 || b > 0) by (nonlinear_arith)
        requires
            x * a + y * b == 1,
            a >= 0,
            b >= 0,
    ;
    lemma_dvd_lin(g as int, a as int, b as int, x, y);
    lemma_dvd_le(g as int, 1);
}

/// Dividing both arguments by their gcd leaves a coprime pair.
pub proof fn lemma_div_gcd_coprime(a: nat, b: nat)
    requires
        b > 0,
    ensures
        gcd(a, b) > 0,
        gcd((a / gcd(a, b)) as nat, (b / gcd(a, b)) as nat) == 1,
        a == (a / gcd(a, b)) * gcd(a, b),
        b == (b / gcd(a, b)) * gcd(a, b),
{
    lemma_gcd_divides(a, b);
    let g = gcd(a, b) as int;
    lemma_dvd_witness(g, a as int);
    lemma_dvd_witness(g, b as int);
    lemma_bezout(a, b);
    let (x, y) = bezout(a, b);
    let a1 = a as int / g;
    let b1 = b as int / g;
    assert(a1 >= 0 && b1 >= 0) by (nonlinear_arith)
        requires
            g > 0,
            a >= 0,
            b >= 0,
            a1 == a as int / g,
            b1 == b as int / g,
    ;
    assert(x * a1 + y * b1 == 1) by (nonlinear_arith)
        requires
            x * a + y * b == g,
            a == a1 * g,
            b == b1 * g,
            g > 0,
    ;
    lemma_coprime_from_combination(a1 as nat, b1 as nat, x, y);
}

/// Reduced fractions denote equal values only if they are the same pair.
pub proof fn lemma_reduced_unique(a: int, b: int, c: int, d: int)
    requires
        reduced(a, b),
        reduced(c, d),
        a * d == c * b,
    ensures
        a == c,
        b == d,
{
    lemma_reduced_den_divides(a, b, c, d);
    lemma_reduced_den_divides(c, d, a, b);
    lemma_dvd_le(b, d);
    lemma_dvd_le(d, b);
    assert(a == c) by (nonlinear_arith)
        requires
            a * d == c * b,
            b == d,
            b > 0,
    ;
}

/// If `a/b` is reduced and `a * d == c * b` then `b` divides `d`.
pub proof fn lemma_reduced_den_divides(a: int, b: int, c: int, d: int)
    requires
        reduced(a, b),
        d > 0,
        a * d == c * b,
    ensures
        dvd(b, d),
{
    lemma_bezout(abs(a), b as nat);
    let (x, y) = bezout(abs(a), b as nat);
    let s = if a < 0 {
        -x
    } else {
        x
    };
    assert(s * a + y * b == 1) by (nonlinear_arith)
        requires
            x * abs(a) + y * b == 1,
            s == (if a < 0 {
                -x
            } else {
                x
            }),
            abs(a) == (if a < 0 {
                -a
            } else {
                a
            }),
    ;
    assert(d == (s * c + y * d) * b) by (nonlinear_arith)
        requires
            s * a + y * b == 1,
            a * d == c * b,
    ;
    lemma_dvd_mul(b, s * c + y * d);
}

/// A value that is a fraction over `m` has a reduced denominator dividing `m`.
pub proof fn lemma_reduced_den_divides_axis(a: int, b: int, k: int, m: int)
    requires
        reduced(a, b),
        m > 0,
        a * m == k * b,
    ensures
        dvd(b, m),
{
    lemma_reduced_den_divides(a, b, k, m);
}

pub proof fn lemma_gcd_zero_left(b: nat)
    ensures
        gcd(0, b) == b,
{
    if b > 0 {
        lemma_small_mod(0, b);
        assert(gcd(0, b) == gcd(b, 0));
    }
}

pub proof fn lemma_gcd_one_right(a: nat)
    ensures
        gcd(a, 1) == 1,
{
    assert(a % 1 == 0) by (nonlinear_arith);
    assert(gcd(a, 1) == gcd(1, 0));
}

} // verus!
