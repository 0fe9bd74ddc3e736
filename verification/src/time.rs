//! Exact rational time: `i64` numerator over a positive `i64` denominator,
//! always stored in lowest terms. Arithmetic runs through `i128`
//! intermediates; the contracts state the exact reduced result, and the
//! `requires` clauses exclude the inputs whose result would not fit `i64`.
use crate::arith::{
    abs, bezout, dvd, gcd, lemma_bezout, lemma_coprime_from_combination, lemma_div_gcd_coprime,
    lemma_dvd_witness, lemma_gcd_divides, lemma_reduced_unique, reduced,
};
use crate::text::{decimal_of, push_decimal};
use vstd::prelude::*;

verus! {

/// The display text of a value: `num/den` in lowest terms.
pub open spec fn rational_text(r: Rational) -> Seq<char> {
    decimal_of(r.n()) + seq!['/'] + decimal_of(r.d())
}

/// Exact rational time value. Invariant (`wf`): `den > 0`,
/// `gcd(|num|, den) == 1`, and `num > i64::MIN`.
#[derive(Clone, Copy, Debug, PartialEq, Eq, Structural)]
pub struct Rational {
    num: i64,
    den: i64,
}

/// Numerator of the reduced form of `n / d` (for `d > 0`).
pub open spec fn red_num(n: int, d: int) -> int {
    n / (gcd(abs(n), d as nat) as int)
}

/// Denominator of the reduced form of `n / d` (for `d > 0`).
pub open spec fn red_den(n: int, d: int) -> int {
    d / (gcd(abs(n), d as nat) as int)
}

/// The reduced form of `n / d` is representable as a `Rational`.
pub open spec fn red_fits(n: int, d: int) -> bool {
    &&& i64::MIN < red_num(n, d) <= i64::MAX
    &&& red_den(n, d) <= i64::MAX
}

/// Exact division of an integer by a positive divisor of it.
proof fn lemma_exact_div_neg(m: int, g: int)
    requires
        g > 0,
        m >= 0,
        dvd(g, m),
    ensures
        (-m) / g == -(m / g),
        dvd(g, -m),
{
    lemma_dvd_witness(g, m);
    let k = m / g;
    vstd::arithmetic::div_mod::lemma_div_multiples_vanish(-k, g);
    assert((-k) * g == -m) by (nonlinear_arith)
        requires
            m == k * g,
    ;
    assert(g * (-k) == (-k) * g) by (nonlinear_arith);
    crate::arith::lemma_dvd_mul(g, -k);
}

/// Facts about the reduced form of `n / d`.
pub proof fn lemma_red(n: int, d: int)
    requires
        d > 0,
    ensures
        reduced(red_num(n, d), red_den(n, d)),
        red_num(n, d) * d == n * red_den(n, d),
        abs(red_num(n, d)) <= abs(n),
        0 < red_den(n, d) <= d,
        n >= 0 ==> red_num(n, d) >= 0,
        n < 0 ==> red_num(n, d) < 0,
{
    let a = abs(n);
    let g = gcd(a, d as nat) as int;
    lemma_div_gcd_coprime(a, d as nat);
    let a1 = a as int / g;
    let d1 = d / g;
    assert(a1 >= 0);
    assert(d1 > 0 && d1 <= d && a1 <= a) by (nonlinear_arith)
        requires
            d == d1 * g,
            a == a1 * g,
            g > 0,
            d > 0,
            a1 >= 0,
    ;
    lemma_gcd_divides(a, d as nat);
    if n >= 0 {
        assert(red_num(n, d) == a1);
        assert(abs(a1) == a1);
        assert(a1 * d == n * d1) by (nonlinear_arith)
            requires
                d == d1 * g,
                n == a1 * g,
        ;
    } else {
        lemma_exact_div_neg(a as int, g);
        assert(n == -(a as int));
        assert(red_num(n, d) == -a1);
        assert(abs(-a1) == a1);
        assert(a1 > 0) by (nonlinear_arith)
            requires
                a == a1 * g,
                a > 0,
                g > 0,
        ;
        assert((-a1) * d == n * d1) by (nonlinear_arith)
            requires
                d == d1 * g,
                n == -(a1 * g),
        ;
    }
}

/// The reduced form of a value is determined by the value alone.
pub proof fn lemma_red_value(n: int, d: int, m: int, e: int)
    requires
        d > 0,
        e > 0,
        n * e == m * d,
    ensures
        red_num(n, d) == red_num(m, e),
        red_den(n, d) == red_den(m, e),
{
    lemma_red(n, d);
    lemma_red(m, e);
    let (a, b) = (red_num(n, d), red_den(n, d));
    let (c, f) = (red_num(m, e), red_den(m, e));
    assert(a * f == c * b) by (nonlinear_arith)
        requires
            a * d == n * b,
            c * e == m * f,
            n * e == m * d,
            d > 0,
            e > 0,
            b > 0,
            f > 0,
    ;
    lemma_reduced_unique(a, b, c, f);
}

/// A reduced pair is its own reduced form.
pub proof fn lemma_red_of_reduced(n: int, d: int)
    requires
        reduced(n, d),
    ensures
        red_num(n, d) == n,
        red_den(n, d) == d,
{
    lemma_red(n, d);
    lemma_reduced_unique(red_num(n, d), red_den(n, d), n, d);
}

impl Rational {
    /// The numerator.
    pub closed spec fn n(self) -> int {
        self.num as int
    }

    /// The denominator.
    pub closed spec fn d(self) -> int {
        self.den as int
    }

    /// Well-formed: positive denominator, lowest terms, negatable numerator.
    pub open spec fn wf(self) -> bool {
        &&& reduced(self.n(), self.d())
        &&& self.n() > i64::MIN
        &&& self.d() <= i64::MAX
        &&& self.n() <= i64::MAX
    }

    /// `self` is the reduced form of the fraction `n / d`.
    pub open spec fn is_red(self, n: int, d: int) -> bool {
        self.n() == red_num(n, d) && self.d() == red_den(n, d)
    }

    /// Value equality (cross-multiplication).
    pub open spec fn same_value(self, o: Rational) -> bool {
        self.n() * o.d() == o.n() * self.d()
    }

    /// Strictly smaller value.
    pub open spec fn is_lt(self, o: Rational) -> bool {
        self.n() * o.d() < o.n() * self.d()
    }

    /// Smaller or equal value.
    pub open spec fn is_le(self, o: Rational) -> bool {
        self.n() * o.d() <= o.n() * self.d()
    }

    /// The sum `self + o` is representable.
    pub open spec fn add_fits(self, o: Rational) -> bool {
        red_fits(self.n() * o.d() + o.n() * self.d(), self.d() * o.d())
    }

    /// The difference `self - o` is representable.
    pub open spec fn sub_fits(self, o: Rational) -> bool {
        red_fits(self.n() * o.d() - o.n() * self.d(), self.d() * o.d())
    }

    /// The product `self * o` is representable.
    pub open spec fn mul_fits(self, o: Rational) -> bool {
        red_fits(self.n() * o.n(), self.d() * o.d())
    }

    /// `floor(self * rate_num / rate_den)` fits in `i64`.
    pub open spec fn floor_fits(self, rate_num: int, rate_den: int) -> bool {
        i64::MIN <= (self.n() * rate_num) / (self.d() * rate_den) <= i64::MAX
    }

    /// The reduced fraction `n / d` as a value (meaningful when `d > 0` and
    /// the reduced form fits).
    pub closed spec fn from_red(n: int, d: int) -> Rational {
        Rational { num: red_num(n, d) as i64, den: red_den(n, d) as i64 }
    }

    pub proof fn lemma_from_red(n: int, d: int)
        requires
            d > 0,
            red_fits(n, d),
        ensures
            Rational::from_red(n, d).wf(),
            Rational::from_red(n, d).is_red(n, d),
    {
        lemma_red(n, d);
    }

    /// Exact sum.
    pub open spec fn add_spec(self, o: Rational) -> Rational {
        Rational::from_red(self.n() * o.d() + o.n() * self.d(), self.d() * o.d())
    }

    /// Exact difference.
    pub open spec fn sub_spec(self, o: Rational) -> Rational {
        Rational::from_red(self.n() * o.d() - o.n() * self.d(), self.d() * o.d())
    }

    /// Exact product.
    pub open spec fn mul_spec(self, o: Rational) -> Rational {
        Rational::from_red(self.n() * o.n(), self.d() * o.d())
    }

    /// Exact negation.
    pub open spec fn neg_spec(self) -> Rational {
        Rational::from_red(-self.n(), self.d())
    }

    /// Floor-halved numerator over the same denominator.
    pub open spec fn half_spec(self) -> Rational {
        Rational::from_red(self.n() / 2, self.d())
    }

    /// A value is its numerator and denominator: two values whose parts
    /// agree as `i64` are identical.
    pub proof fn lemma_eq_parts(self, o: Rational)
        requires
            self.n() as i64 == o.n() as i64,
            self.d() as i64 == o.d() as i64,
        ensures
            self == o,
    {
    }

    /// Well-formed values with equal value are identical.
    pub proof fn lemma_same_value_eq(self, o: Rational)
        requires
            self.wf(),
            o.wf(),
            self.same_value(o),
        ensures
            self == o,
    {
        lemma_reduced_unique(self.n(), self.d(), o.n(), o.d());
    }

    /// A well-formed value is the reduced form of any fraction of equal value.
    pub proof fn lemma_is_red_of_value(self, n: int, d: int)
        requires
            self.wf(),
            d > 0,
            self.n() * d == n * self.d(),
        ensures
            self.is_red(n, d),
    {
        lemma_red_of_reduced(self.n(), self.d());
        lemma_red_value(self.n(), self.d(), n, d);
    }

    /// Construct the reduced form of `num / den`. A denominator that is not
    /// positive is a caller error, as is a numerator of `i64::MIN`, whose
    /// absolute value does not fit.
    pub fn new(num: i64, den: i64) -> (r: Rational)
        requires
            den > 0,
            num > i64::MIN,
        ensures
            r.wf(),
            r.is_red(num as int, den as int),
            r == Rational::from_red(num as int, den as int),
    {
        let g = gcd64(num, den);
        proof {
            lemma_red(num as int, den as int);
            lemma_div_gcd_coprime(abs(num as int), den as nat);
            lemma_gcd_divides(abs(num as int), den as nat);
            crate::arith::lemma_dvd_abs(g as int, num as int);
        }
        if g > 1 {
            let n = div_exact_i64(num, g);
            let d = div_exact_i64(den, g);
            Rational { num: n, den: d }
        } else {
            proof {
                vstd::arithmetic::div_mod::lemma_div_basics(num as int);
                vstd::arithmetic::div_mod::lemma_div_basics(den as int);
            }
            Rational { num, den }
        }
    }

    /// Zero, written over the given denominator (which normalizes away).
    pub fn zero(den: i64) -> (r: Rational)
        requires
            den > 0,
        ensures
            r.wf(),
            r.n() == 0,
            r.d() == 1,
    {
        let r = Rational::new(0, den);
        proof {
            crate::arith::lemma_gcd_zero_left(den as nat);
            vstd::arithmetic::div_mod::lemma_div_basics(den as int);
        }
        r
    }

    pub fn num(&self) -> (r: i64)
        ensures
            r == self.n(),
    {
        self.num
    }

    pub fn den(&self) -> (r: i64)
        ensures
            r == self.d(),
    {
        self.den
    }

    /// Append the display text `num/den`.
    pub fn push_text(&self, s: &mut String)
        ensures
            final(s)@ == old(s)@ + rational_text(*self),
    {
        push_decimal(s, self.num);
        proof {
            reveal_strlit("/");
        }
        s.append("/");
        push_decimal(s, self.den);
        proof {
            assert(old(s)@ + decimal_of(self.n()) + seq!['/'] + decimal_of(self.d()) =~= old(s)@
                + rational_text(*self));
        }
    }

    /// The display text `num/den`.
    pub fn text(&self) -> (r: String)
        ensures
            r@ == rational_text(*self),
    {
        let mut s = String::new();
        self.push_text(&mut s);
        proof {
            assert(Seq::<char>::empty() + rational_text(*self) =~= rational_text(*self));
        }
        s
    }

    /// Exact addition.
    pub fn add(self, o: Rational) -> (r: Rational)
        requires
            self.wf(),
            o.wf(),
            self.add_fits(o),
        ensures
            r.wf(),
            r.is_red(self.n() * o.d() + o.n() * self.d(), self.d() * o.d()),
            r == self.add_spec(o),
    {
        let d1 = self.den as i128;
        let d2 = o.den as i128;
        let n1 = self.num as i128;
        let n2 = o.num as i128;
        let g = gcd128(d1, d2);
        proof {
            lemma_gcd_divides(d1 as nat, d2 as nat);
            lemma_dvd_witness(g as int, d1 as int);
            lemma_dvd_witness(g as int, d2 as int);
        }
        let a1 = d1 / g;
        let b1 = d2 / g;
        proof {
            assert(1 <= a1 <= d1 && 1 <= b1 <= d2) by (nonlinear_arith)
                requires
                    d1 == a1 * g,
                    d2 == b1 * g,
                    g > 0,
                    d1 > 0,
                    d2 > 0,
            ;
            assert(a1 * d2 <= d1 * d2) by (nonlinear_arith)
                requires
                    a1 <= d1,
                    d2 > 0,
            ;
            assert(d1 * d2 < 0x4000_0000_0000_0000_0000_0000_0000_0000) by (nonlinear_arith)
                requires
                    0 < d1 < 0x8000_0000_0000_0000,
                    0 < d2 < 0x8000_0000_0000_0000,
            ;
        }
        let lcm = a1 * d2;
        proof {
            assert(lcm == a1 * b1 * g && lcm == d1 * b1 && lcm == d2 * a1) by (nonlinear_arith)
                requires
                    lcm == a1 * d2,
                    d1 == a1 * g,
                    d2 == b1 * g,
            ;
            vstd::arithmetic::div_mod::lemma_div_multiples_vanish(b1 as int, d1 as int);
            vstd::arithmetic::div_mod::lemma_div_multiples_vanish(a1 as int, d2 as int);
            assert(d1 * b1 == b1 * d1) by (nonlinear_arith);
            assert(d2 * a1 == a1 * d2) by (nonlinear_arith);
            assert(-0x4000_0000_0000_0000_0000_0000_0000_0000 < n1 * b1
                < 0x4000_0000_0000_0000_0000_0000_0000_0000) by (nonlinear_arith)
                requires
                    -0x8000_0000_0000_0000 < n1 < 0x8000_0000_0000_0000,
                    1 <= b1 < 0x8000_0000_0000_0000,
            ;
            assert(-0x4000_0000_0000_0000_0000_0000_0000_0000 < n2 * a1
                < 0x4000_0000_0000_0000_0000_0000_0000_0000) by (nonlinear_arith)
                requires
                    -0x8000_0000_0000_0000 < n2 < 0x8000_0000_0000_0000,
                    1 <= a1 < 0x8000_0000_0000_0000,
            ;
        }
        let n = n1 * (lcm / d1) + n2 * (lcm / d2);
        proof {
            // n / lcm has the value of the exact sum
            assert(n1 * d2 + n2 * d1 == g * n) by (nonlinear_arith)
                requires
                    n == n1 * b1 + n2 * a1,
                    d1 == a1 * g,
                    d2 == b1 * g,
            ;
            assert(d1 * d2 == g * lcm) by (nonlinear_arith)
                requires
                    lcm == a1 * d2,
                    d1 == a1 * g,
            ;
            assert(n * (g * lcm) == (g * n) * lcm) by (nonlinear_arith);
            assert(n * (d1 * d2) == (n1 * d2 + n2 * d1) * lcm);
            assert(lcm > 0) by (nonlinear_arith)
                requires
                    lcm == a1 * d2,
                    a1 >= 1,
                    d2 >= 1,
            ;
            lemma_red_value(n as int, lcm as int, n1 * d2 + n2 * d1, d1 * d2);
        }
        let r = reduce_i128(n, lcm);
        r
    }

    /// Exact negation.
    pub fn neg(self) -> (r: Rational)
        requires
            self.wf(),
        ensures
            r.wf(),
            r.n() == -self.n(),
            r.d() == self.d(),
            r == self.neg_spec(),
    {
        proof {
            assert(abs(-self.n()) == abs(self.n()));
            lemma_red_of_reduced(-self.n(), self.d());
        }
        Rational { num: -self.num, den: self.den }
    }

    /// Exact subtraction.
    pub fn sub(self, o: Rational) -> (r: Rational)
        requires
            self.wf(),
            o.wf(),
            self.sub_fits(o),
        ensures
            r.wf(),
            r.is_red(self.n() * o.d() - o.n() * self.d(), self.d() * o.d()),
            r == self.sub_spec(o),
    {
        let m = o.neg();
        proof {
            assert(self.n() * m.d() + m.n() * self.d() == self.n() * o.d() - o.n() * self.d())
                by (nonlinear_arith)
                requires
                    m.n() == -o.n(),
                    m.d() == o.d(),
            ;
        }
        self.add(m)
    }

    /// Exact multiplication.
    pub fn mul(self, o: Rational) -> (r: Rational)
        requires
            self.wf(),
            o.wf(),
            self.mul_fits(o),
        ensures
            r.wf(),
            r.is_red(self.n() * o.n(), self.d() * o.d()),
            r == self.mul_spec(o),
    {
        let n1 = self.num as i128;
        let n2 = o.num as i128;
        let d1 = self.den as i128;
        let d2 = o.den as i128;
        proof {
            assert(-0x4000_0000_0000_0000_0000_0000_0000_0000 < n1 * n2
                <= 0x4000_0000_0000_0000_0000_0000_0000_0000) by (nonlinear_arith)
                requires
                    -0x8000_0000_0000_0000 < n1 < 0x8000_0000_0000_0000,
                    -0x8000_0000_0000_0000 < n2 < 0x8000_0000_0000_0000,
            ;
            assert(0 < d1 * d2 < 0x4000_0000_0000_0000_0000_0000_0000_0000) by (nonlinear_arith)
                requires
                    0 < d1 < 0x8000_0000_0000_0000,
                    0 < d2 < 0x8000_0000_0000_0000,
            ;
        }
        let n = n1 * n2;
        let d = d1 * d2;
        reduce_i128(n, d)
    }

    /// Floor-halving of the numerator over the same denominator: the left
    /// half of a split; the right half is `self.sub(self.half())`.
    pub fn half(self) -> (r: Rational)
        requires
            self.wf(),
        ensures
            r.wf(),
            r.is_red(self.n() / 2, self.d()),
            r == self.half_spec(),
    {
        let x = self.num;
        let h = x >> 1;
        proof {
            assert(x >> 1 == x / 2) by (bit_vector);
            assert(h > i64::MIN);
        }
        Rational::new(h, self.den)
    }

    /// `floor(self * rate_num / rate_den)`, computed exactly in `i128`: the
    /// frame index of a time (in seconds) at a frame rate. A rate that is not
    /// positive, or a result beyond `i64`, is a caller error.
    pub fn floor_div_rate(self, rate_num: i64, rate_den: i64) -> (r: i64)
        requires
            self.wf(),
            rate_num > 0,
            rate_den > 0,
            self.floor_fits(rate_num as int, rate_den as int),
        ensures
            r == (self.n() * rate_num) / (self.d() * rate_den),
    {
        let a = self.num as i128;
        let rn = rate_num as i128;
        let b = self.den as i128;
        let rd = rate_den as i128;
        proof {
            assert(-0x4000_0000_0000_0000_0000_0000_0000_0000 < a * rn
                < 0x4000_0000_0000_0000_0000_0000_0000_0000) by (nonlinear_arith)
                requires
                    -0x8000_0000_0000_0000 < a < 0x8000_0000_0000_0000,
                    0 < rn < 0x8000_0000_0000_0000,
            ;
            assert(0 < b * rd < 0x4000_0000_0000_0000_0000_0000_0000_0000) by (nonlinear_arith)
                requires
                    0 < b < 0x8000_0000_0000_0000,
                    0 < rd < 0x8000_0000_0000_0000,
            ;
        }
        let n = a * rn;
        let d = b * rd;
        let q = floor_div_i128(n, d);
        q as i64
    }

    /// Ticks at the given rate: `floor(self * rate_num / rate_den)`.
    pub fn ticks_at(self, rate_num: i64, rate_den: i64) -> (r: i64)
        requires
            self.wf(),
            rate_num > 0,
            rate_den > 0,
            self.floor_fits(rate_num as int, rate_den as int),
        ensures
            r == (self.n() * rate_num) / (self.d() * rate_den),
    {
        self.floor_div_rate(rate_num, rate_den)
    }

    /// Strict value comparison (`i128` cross-multiplication).
    pub fn less_than(&self, o: &Rational) -> (r: bool)
        ensures
            r == self.is_lt(*o),
    {
        let a = self.num as i128;
        let b = o.den as i128;
        let c = o.num as i128;
        let d = self.den as i128;
        proof {
            lemma_cross_bounds(a as int, b as int);
            lemma_cross_bounds(c as int, d as int);
        }
        a * b < c * d
    }

    /// Value comparison, `self <= o`.
    pub fn less_eq(&self, o: &Rational) -> (r: bool)
        ensures
            r == self.is_le(*o),
    {
        let a = self.num as i128;
        let b = o.den as i128;
        let c = o.num as i128;
        let d = self.den as i128;
        proof {
            lemma_cross_bounds(a as int, b as int);
            lemma_cross_bounds(c as int, d as int);
        }
        a * b <= c * d
    }

    /// Field-wise equality; for well-formed values this is value equality.
    pub fn equals(&self, o: &Rational) -> (r: bool)
        ensures
            r == (*self == *o),
    {
        self.num == o.num && self.den == o.den
    }
}

proof fn lemma_cross_bounds(a: int, b: int)
    requires
        i64::MIN <= a <= i64::MAX,
        i64::MIN <= b <= i64::MAX,
    ensures
        -0x4000_0000_0000_0000_0000_0000_0000_0000 <= a * b <= 0x4000_0000_0000_0000_0000_0000_0000_0000,
{
    assert(-0x4000_0000_0000_0000_0000_0000_0000_0000 <= a * b <= 0x4000_0000_0000_0000_0000_0000_0000_0000)
        by (nonlinear_arith)
        requires
            -0x8000_0000_0000_0000 <= a <= 0x7fff_ffff_ffff_ffff,
            -0x8000_0000_0000_0000 <= b <= 0x7fff_ffff_ffff_ffff,
    ;
}

/// `gcd(|a|, |b|)` by Euclid's algorithm.
pub(crate) fn gcd64(a: i64, b: i64) -> (g: i64)
    requires
        a > i64::MIN,
        b > i64::MIN,
    ensures
        g == gcd(abs(a as int), abs(b as int)),
{
    let mut x: i64 = if a < 0 {
        -a
    } else {
        a
    };
    let mut y: i64 = if b < 0 {
        -b
    } else {
        b
    };
    while y != 0
        invariant
            x >= 0,
            y >= 0,
            gcd(x as nat, y as nat) == gcd(abs(a as int), abs(b as int)),
        decreases y,
    {
        let t = x % y;
        x = y;
        y = t;
    }
    x
}

/// `gcd(|a|, |b|)` by Euclid's algorithm, in `i128`.
fn gcd128(a: i128, b: i128) -> (g: i128)
    requires
        a > i128::MIN,
        b > i128::MIN,
    ensures
        g == gcd(abs(a as int), abs(b as int)),
{
    let mut x: i128 = if a < 0 {
        -a
    } else {
        a
    };
    let mut y: i128 = if b < 0 {
        -b
    } else {
        b
    };
    while y != 0
        invariant
            x >= 0,
            y >= 0,
            gcd(x as nat, y as nat) == gcd(abs(a as int), abs(b as int)),
        decreases y,
    {
        let t = x % y;
        x = y;
        y = t;
    }
    x
}

/// Exact quotient of `n` by a positive divisor `g` of it.
fn div_exact_i64(n: i64, g: i64) -> (q: i64)
    requires
        g > 0,
        n > i64::MIN,
        dvd(g as int, n as int),
    ensures
        q == n / g,
{
    if n >= 0 {
        n / g
    } else {
        proof {
            crate::arith::lemma_dvd_neg(g as int, n as int);
            lemma_exact_div_neg(-(n as int), g as int);
        }
        -((-n) / g)
    }
}

/// Exact quotient of `n` by a positive divisor `g` of it, in `i128`.
fn div_exact_i128(n: i128, g: i128) -> (q: i128)
    requires
        g > 0,
        n > i128::MIN,
        dvd(g as int, n as int),
    ensures
        q == n / g,
{
    if n >= 0 {
        n / g
    } else {
        proof {
            crate::arith::lemma_dvd_neg(g as int, n as int);
            lemma_exact_div_neg(-(n as int), g as int);
        }
        -((-n) / g)
    }
}

/// `floor(n / d)` for a positive `d` (Rust's `/` truncates toward zero, so a
/// negative inexact quotient is corrected downward).
fn floor_div_i128(n: i128, d: i128) -> (q: i128)
    requires
        d > 0,
        n > i128::MIN,
    ensures
        q == n / d,
{
    if n >= 0 {
        n / d
    } else {
        let m = -n;
        let t = m / d;
        let r = m % d;
        proof {
            vstd::arithmetic::div_mod::lemma_fundamental_div_mod(m as int, d as int);
            vstd::arithmetic::div_mod::lemma_fundamental_div_mod(n as int, d as int);
            vstd::arithmetic::div_mod::lemma_div_pos_is_pos(m as int, d as int);
        }
        if r != 0 {
            proof {
                // n = -(t*d + r) = (-t-1)*d + (d - r), with 0 < d - r < d
                assert(n == (-t - 1) * d + (d - r)) by (nonlinear_arith)
                    requires
                        m == d * t + r,
                        n == -m,
                ;
                vstd::arithmetic::div_mod::lemma_fundamental_div_mod_converse(
                    n as int,
                    d as int,
                    -t - 1,
                    d - r,
                );
            }
            -t - 1
        } else {
            proof {
                assert(n == (-t) * d + 0) by (nonlinear_arith)
                    requires
                        m == d * t + r,
                        n == -m,
                        r == 0,
                ;
                vstd::arithmetic::div_mod::lemma_fundamental_div_mod_converse(
                    n as int,
                    d as int,
                    -t,
                    0,
                );
            }
            -t
        }
    }
}

/// The reduced form of `n / d` as a `Rational`, given that it fits.
fn reduce_i128(n: i128, d: i128) -> (r: Rational)
    requires
        d > 0,
        n > i128::MIN,
        red_fits(n as int, d as int),
    ensures
        r.wf(),
        r.is_red(n as int, d as int),
{
    let gg = gcd128(n, d);
    proof {
        lemma_gcd_divides(abs(n as int), d as nat);
        crate::arith::lemma_dvd_neg(gg as int, abs(n as int) as int);
        if n < 0 {
            lemma_exact_div_neg(-(n as int), gg as int);
            assert(-(-(n as int)) == n as int);
        }
        lemma_red(n as int, d as int);
    }
    let gg = if gg < 1 {
        1
    } else {
        gg
    };
    let nn = div_exact_i128(n, gg);
    let dd = div_exact_i128(d, gg);
    proof {
        lemma_red_of_reduced(nn as int, dd as int);
    }
    Rational::new(nn as i64, dd as i64)
}


/// If `p/q` and `P/Q` have equal value, so do `p/q + c/e` and `P/Q + c/e`.
proof fn lemma_add_congr(p: int, q: int, pp: int, qq: int, c: int, e: int)
    requires
        q > 0,
        qq > 0,
        e > 0,
        p * qq == pp * q,
    ensures
        red_num(p * e + c * q, q * e) == red_num(pp * e + c * qq, qq * e),
        red_den(p * e + c * q, q * e) == red_den(pp * e + c * qq, qq * e),
        red_num(c * q + p * e, e * q) == red_num(c * qq + pp * e, e * qq),
        red_den(c * q + p * e, e * q) == red_den(c * qq + pp * e, e * qq),
        red_num(p * e - c * q, q * e) == red_num(pp * e - c * qq, qq * e),
        red_den(p * e - c * q, q * e) == red_den(pp * e - c * qq, qq * e),
        red_num(c * q - p * e, e * q) == red_num(c * qq - pp * e, e * qq),
        red_den(c * q - p * e, e * q) == red_den(c * qq - pp * e, e * qq),
{
    assert(q * e > 0 && qq * e > 0) by (nonlinear_arith)
        requires
            q > 0,
            qq > 0,
            e > 0,
    ;
    assert((p * e) * (qq * e) == (p * qq) * (e * e)) by (nonlinear_arith);
    assert((pp * e) * (q * e) == (pp * q) * (e * e)) by (nonlinear_arith);
    assert((c * q) * (qq * e) == (c * qq) * (q * e)) by (nonlinear_arith);
    assert((p * e + c * q) * (qq * e) == (p * e) * (qq * e) + (c * q) * (qq * e))
        by (nonlinear_arith);
    assert((pp * e + c * qq) * (q * e) == (pp * e) * (q * e) + (c * qq) * (q * e))
        by (nonlinear_arith);
    assert((p * e - c * q) * (qq * e) == (p * e) * (qq * e) - (c * q) * (qq * e))
        by (nonlinear_arith);
    assert((pp * e - c * qq) * (q * e) == (pp * e) * (q * e) - (c * qq) * (q * e))
        by (nonlinear_arith);
    lemma_red_value(p * e + c * q, q * e, pp * e + c * qq, qq * e);
    lemma_red_value(p * e - c * q, q * e, pp * e - c * qq, qq * e);
    assert(c * q + p * e == p * e + c * q && e * q == q * e);
    assert(c * qq + pp * e == pp * e + c * qq && e * qq == qq * e);
    assert(e * q == q * e) by (nonlinear_arith);
    assert(e * qq == qq * e) by (nonlinear_arith);
    assert((c * q - p * e) * (e * qq) == (c * q) * (qq * e) - (p * e) * (qq * e))
        by (nonlinear_arith);
    assert((c * qq - pp * e) * (e * q) == (c * qq) * (q * e) - (pp * e) * (q * e))
        by (nonlinear_arith);
    assert(e * q > 0 && e * qq > 0) by (nonlinear_arith)
        requires
            q > 0,
            qq > 0,
            e > 0,
    ;
    lemma_red_value(c * q - p * e, e * q, c * qq - pp * e, e * qq);
}

impl Rational {
    /// Facts about a sum: it is well formed and has the exact value.
    pub proof fn lemma_add_value(self, o: Rational)
        requires
            self.wf(),
            o.wf(),
            self.add_fits(o),
        ensures
            self.add_spec(o).wf(),
            self.add_spec(o).is_red(self.n() * o.d() + o.n() * self.d(), self.d() * o.d()),
            self.add_spec(o).n() * (self.d() * o.d()) == (self.n() * o.d() + o.n() * self.d())
                * self.add_spec(o).d(),
    {
        assert(self.d() * o.d() > 0) by (nonlinear_arith)
            requires
                self.d() > 0,
                o.d() > 0,
        ;
        lemma_red(self.n() * o.d() + o.n() * self.d(), self.d() * o.d());
    }

    /// Facts about a difference: it is well formed and has the exact value.
    pub proof fn lemma_sub_value(self, o: Rational)
        requires
            self.wf(),
            o.wf(),
            self.sub_fits(o),
        ensures
            self.sub_spec(o).wf(),
            self.sub_spec(o).is_red(self.n() * o.d() - o.n() * self.d(), self.d() * o.d()),
            self.sub_spec(o).n() * (self.d() * o.d()) == (self.n() * o.d() - o.n() * self.d())
                * self.sub_spec(o).d(),
    {
        assert(self.d() * o.d() > 0) by (nonlinear_arith)
            requires
                self.d() > 0,
                o.d() > 0,
        ;
        lemma_red(self.n() * o.d() - o.n() * self.d(), self.d() * o.d());
    }

    /// Facts about a product: it is well formed and has the exact value.
    pub proof fn lemma_mul_value(self, o: Rational)
        requires
            self.wf(),
            o.wf(),
            self.mul_fits(o),
        ensures
            self.mul_spec(o).wf(),
            self.mul_spec(o).is_red(self.n() * o.n(), self.d() * o.d()),
            self.mul_spec(o).n() * (self.d() * o.d()) == (self.n() * o.n()) * self.mul_spec(o).d(),
    {
        assert(self.d() * o.d() > 0) by (nonlinear_arith)
            requires
                self.d() > 0,
                o.d() > 0,
        ;
        lemma_red(self.n() * o.n(), self.d() * o.d());
    }
}

/// Negation flips the numerator and keeps the denominator (so `-a` stays
/// normalized), `-(-a) == a`, `a + (-a)` is zero (`0/1`), and subtracting
/// `a` is adding `-a`.
pub proof fn lemma_neg_laws(a: Rational, b: Rational)
    requires
        a.wf(),
        b.wf(),
    ensures
        a.neg_spec().wf(),
        a.neg_spec().n() == -a.n(),
        a.neg_spec().d() == a.d(),
        a.neg_spec().neg_spec() == a,
        a.add_fits(a.neg_spec()),
        a.add_spec(a.neg_spec()).n() == 0,
        a.add_spec(a.neg_spec()).d() == 1,
        b.sub_spec(a) == b.add_spec(a.neg_spec()),
{
    let n = a.n();
    let d = a.d();
    assert(abs(-n) == abs(n));
    lemma_red_of_reduced(-n, d);
    lemma_red_of_reduced(n, d);
    let m = a.neg_spec();
    assert(m.n() == -n && m.d() == d);
    assert(m.neg_spec() == a);
    let dd = d * d;
    assert(dd > 0) by (nonlinear_arith)
        requires
            d > 0,
            dd == d * d,
    ;
    assert(n * m.d() + m.n() * d == 0) by (nonlinear_arith)
        requires
            m.n() == -n,
            m.d() == d,
    ;
    lemma_red(0, dd);
    let rn = red_num(0, dd);
    let rd = red_den(0, dd);
    assert(rn == 0) by (nonlinear_arith)
        requires
            rn * dd == 0 * rd,
            dd > 0,
    ;
    crate::arith::lemma_gcd_zero_left(rd as nat);
    assert(rd == 1);
    assert(b.n() * m.d() + m.n() * b.d() == b.n() * a.d() - a.n() * b.d()) by (nonlinear_arith)
        requires
            m.n() == -a.n(),
            m.d() == a.d(),
    ;
}

/// Addition is commutative.
pub proof fn lemma_add_comm(a: Rational, b: Rational)
    ensures
        a.add_spec(b) == b.add_spec(a),
{
    assert(a.n() * b.d() + b.n() * a.d() == b.n() * a.d() + a.n() * b.d());
    assert(a.d() * b.d() == b.d() * a.d()) by (nonlinear_arith);
}

/// Addition is associative (whenever the sums involved are representable).
pub proof fn lemma_add_assoc(a: Rational, b: Rational, c: Rational)
    requires
        a.wf(),
        b.wf(),
        c.wf(),
        a.add_fits(b),
        b.add_fits(c),
        a.add_spec(b).add_fits(c),
        a.add_fits(b.add_spec(c)),
    ensures
        a.add_spec(b.add_spec(c)) == a.add_spec(b).add_spec(c),
{
    let (na, da, nb, db, nc, dc) = (a.n(), a.d(), b.n(), b.d(), c.n(), c.d());
    a.lemma_add_value(b);
    b.lemma_add_value(c);
    let ab = a.add_spec(b);
    let bc = b.add_spec(c);
    assert(da * db > 0 && db * dc > 0) by (nonlinear_arith)
        requires
            da > 0,
            db > 0,
            dc > 0,
    ;
    // (a + b) + c, with a + b replaced by its unreduced fraction
    lemma_add_congr(ab.n(), ab.d(), na * db + nb * da, da * db, nc, dc);
    // a + (b + c), with b + c replaced by its unreduced fraction
    lemma_add_congr(bc.n(), bc.d(), nb * dc + nc * db, db * dc, na, da);
    let x1 = na * (db * dc) + (nb * dc + nc * db) * da;
    let y1 = da * (db * dc);
    let x2 = (na * db + nb * da) * dc + nc * (da * db);
    let y2 = (da * db) * dc;
    assert(na * (db * dc) == (na * db) * dc) by (nonlinear_arith);
    assert((nb * dc + nc * db) * da == (nb * dc) * da + (nc * db) * da) by (nonlinear_arith);
    assert((nb * dc) * da == (nb * da) * dc) by (nonlinear_arith);
    assert((nc * db) * da == nc * (da * db)) by (nonlinear_arith);
    assert((na * db + nb * da) * dc == (na * db) * dc + (nb * da) * dc) by (nonlinear_arith);
    assert(da * (db * dc) == (da * db) * dc) by (nonlinear_arith);
    assert(x1 == x2 && y1 == y2);
    assert(na * bc.d() + bc.n() * da == bc.n() * da + na * bc.d());
    assert(da * bc.d() == bc.d() * da) by (nonlinear_arith);
    assert(na * (db * dc) + (nb * dc + nc * db) * da == (nb * dc + nc * db) * da + na * (db * dc));
    assert(da * (db * dc) == (db * dc) * da) by (nonlinear_arith);
}

/// `(a + b) - b == a`: subtraction undoes addition; the difference is always
/// representable when the sum is.
pub proof fn lemma_add_sub_roundtrip(a: Rational, b: Rational)
    requires
        a.wf(),
        b.wf(),
        a.add_fits(b),
    ensures
        a.add_spec(b).sub_fits(b),
        a.add_spec(b).sub_spec(b) == a,
{
    let (na, da, nb, db) = (a.n(), a.d(), b.n(), b.d());
    a.lemma_add_value(b);
    let s = a.add_spec(b);
    assert(da * db > 0) by (nonlinear_arith)
        requires
            da > 0,
            db > 0,
    ;
    lemma_add_congr(s.n(), s.d(), na * db + nb * da, da * db, nb, db);
    let x = (na * db + nb * da) * db - nb * (da * db);
    let y = (da * db) * db;
    assert(x == na * (db * db) && y == da * (db * db)) by (nonlinear_arith)
        requires
            x == (na * db + nb * da) * db - nb * (da * db),
            y == (da * db) * db,
    ;
    assert(db * db > 0) by (nonlinear_arith)
        requires
            db > 0,
    ;
    assert(x * da == na * y) by (nonlinear_arith)
        requires
            x == na * (db * db),
            y == da * (db * db),
    ;
    assert(y > 0) by (nonlinear_arith)
        requires
            y == da * (db * db),
            da > 0,
            db * db > 0,
    ;
    lemma_red_value(x, y, na, da);
    lemma_red_of_reduced(na, da);
}

/// The split law: `h + (d - h) == d` for `h = d.half()`, with both parts
/// representable.
pub proof fn lemma_half_split(x: Rational)
    requires
        x.wf(),
    ensures
        x.half_spec().wf(),
        x.sub_fits(x.half_spec()),
        x.half_spec().add_fits(x.sub_spec(x.half_spec())),
        x.half_spec().add_spec(x.sub_spec(x.half_spec())) == x,
{
    let (n, d) = (x.n(), x.d());
    let h2 = n / 2;
    assert(i64::MIN < h2 <= i64::MAX);
    lemma_red(h2, d);
    Rational::lemma_from_red(h2, d);
    let h = x.half_spec();
    // d - h has the value (n - n/2) / d
    let rnum = n - h2;
    assert(i64::MIN < rnum <= i64::MAX);
    assert(n * h.d() - h.n() * d == rnum * h.d()) by (nonlinear_arith)
        requires
            h.n() * d == h2 * h.d(),
            rnum == n - h2,
    ;
    assert(d * h.d() > 0) by (nonlinear_arith)
        requires
            d > 0,
            h.d() > 0,
    ;
    assert((rnum * h.d()) * d == rnum * (d * h.d())) by (nonlinear_arith);
    lemma_red_value(rnum * h.d(), d * h.d(), rnum, d);
    lemma_red(rnum, d);
    assert(x.sub_fits(h));
    Rational::lemma_from_red(n * h.d() - h.n() * d, d * h.d());
    let r = x.sub_spec(h);
    assert(r.n() == red_num(rnum, d) && r.d() == red_den(rnum, d));
    // h + r has the value n / d
    let sn = h.n() * r.d() + r.n() * h.d();
    let sd = h.d() * r.d();
    assert(sn * d == (h.n() * r.d()) * d + (r.n() * h.d()) * d) by (nonlinear_arith)
        requires
            sn == h.n() * r.d() + r.n() * h.d(),
    ;
    assert((h.n() * r.d()) * d == (h.n() * d) * r.d()) by (nonlinear_arith);
    assert((r.n() * h.d()) * d == (r.n() * d) * h.d()) by (nonlinear_arith);
    assert((h2 * h.d()) * r.d() == h2 * sd) by (nonlinear_arith)
        requires
            sd == h.d() * r.d(),
    ;
    assert((rnum * r.d()) * h.d() == rnum * sd) by (nonlinear_arith)
        requires
            sd == h.d() * r.d(),
    ;
    assert(h2 * sd + rnum * sd == n * sd) by (nonlinear_arith)
        requires
            rnum == n - h2,
    ;
    assert(sn * d == n * sd);
    assert(sd > 0) by (nonlinear_arith)
        requires
            h.d() > 0,
            r.d() > 0,
            sd == h.d() * r.d(),
    ;
    lemma_red_value(sn, sd, n, d);
    lemma_red_of_reduced(n, d);
}

/// A time of exactly `k` frames at rate `rate_num / rate_den` floors to `k`.
pub proof fn lemma_floor_at_boundary(v: Rational, k: int, rate_num: int, rate_den: int)
    requires
        v.wf(),
        rate_num > 0,
        rate_den > 0,
        v.n() * rate_num == k * rate_den * v.d(),
    ensures
        (v.n() * rate_num) / (v.d() * rate_den) == k,
{
    assert(v.n() * rate_num == k * (v.d() * rate_den)) by (nonlinear_arith)
        requires
            v.n() * rate_num == k * rate_den * v.d(),
    ;
    assert(v.d() * rate_den > 0) by (nonlinear_arith)
        requires
            v.d() > 0,
            rate_den > 0,
    ;
    vstd::arithmetic::div_mod::lemma_fundamental_div_mod_converse(
        v.n() * rate_num,
        v.d() * rate_den,
        k,
        0,
    );
}

/// One tick (`1 / (rate_num * rate_den)`) below `k` frames floors to `k - 1`.
pub proof fn lemma_floor_below_boundary(w: Rational, k: int, rate_num: int, rate_den: int)
    requires
        w.wf(),
        rate_num > 0,
        rate_den > 0,
        w.n() * (rate_num * rate_den) == (k * rate_den * rate_den - 1) * w.d(),
    ensures
        (w.n() * rate_num) / (w.d() * rate_den) == k - 1,
{
    let x = w.n() * rate_num;
    let y = w.d() * rate_den;
    let q = rate_den * rate_den;
    assert(q > 0 && y > 0) by (nonlinear_arith)
        requires
            rate_den > 0,
            w.d() > 0,
            q == rate_den * rate_den,
            y == w.d() * rate_den,
    ;
    assert(x * q == (k * q - 1) * y) by (nonlinear_arith)
        requires
            w.n() * (rate_num * rate_den) == (k * rate_den * rate_den - 1) * w.d(),
            x == w.n() * rate_num,
            y == w.d() * rate_den,
            q == rate_den * rate_den,
    ;
    let r = x - (k - 1) * y;
    assert(r * q == q * y - y) by (nonlinear_arith)
        requires
            x * q == (k * q - 1) * y,
            r == x - (k - 1) * y,
    ;
    assert(0 <= r < y) by (nonlinear_arith)
        requires
            r * q == q * y - y,
            q > 0,
            y > 0,
    ;
    vstd::arithmetic::div_mod::lemma_fundamental_div_mod_converse(x, y, k - 1, r);
}


/// Value order: `<` then `<=` gives `<`.
pub proof fn lemma_lt_le_trans(a: Rational, b: Rational, c: Rational)
    requires
        a.wf(),
        b.wf(),
        c.wf(),
        a.is_lt(b),
        b.is_le(c),
    ensures
        a.is_lt(c),
{
    lemma_order_chain(a.n(), a.d(), b.n(), b.d(), c.n(), c.d(), true, false);
}

/// Value order: `<=` then `<` gives `<`.
pub proof fn lemma_le_lt_trans(a: Rational, b: Rational, c: Rational)
    requires
        a.wf(),
        b.wf(),
        c.wf(),
        a.is_le(b),
        b.is_lt(c),
    ensures
        a.is_lt(c),
{
    lemma_order_chain(a.n(), a.d(), b.n(), b.d(), c.n(), c.d(), false, true);
}

/// Value order: `<=` is transitive.
pub proof fn lemma_le_trans(a: Rational, b: Rational, c: Rational)
    requires
        a.wf(),
        b.wf(),
        c.wf(),
        a.is_le(b),
        b.is_le(c),
    ensures
        a.is_le(c),
{
    lemma_order_chain(a.n(), a.d(), b.n(), b.d(), c.n(), c.d(), false, false);
}

proof fn lemma_order_chain(an: int, ad: int, bn: int, bd: int, cn: int, cd: int, s1: bool, s2: bool)
    requires
        ad > 0,
        bd > 0,
        cd > 0,
        if s1 {
            an * bd < bn * ad
        } else {
            an * bd <= bn * ad
        },
        if s2 {
            bn * cd < cn * bd
        } else {
            bn * cd <= cn * bd
        },
    ensures
        if s1 || s2 {
            an * cd < cn * ad
        } else {
            an * cd <= cn * ad
        },
{
    if s1 {
        assert((an * bd) * cd < (bn * ad) * cd) by (nonlinear_arith)
            requires
                an * bd < bn * ad,
                cd > 0,
        ;
    } else {
        assert((an * bd) * cd <= (bn * ad) * cd) by (nonlinear_arith)
            requires
                an * bd <= bn * ad,
                cd > 0,
        ;
    }
    if s2 {
        assert((bn * cd) * ad < (cn * bd) * ad) by (nonlinear_arith)
            requires
                bn * cd < cn * bd,
                ad > 0,
        ;
    } else {
        assert((bn * cd) * ad <= (cn * bd) * ad) by (nonlinear_arith)
            requires
                bn * cd <= cn * bd,
                ad > 0,
        ;
    }
    assert((an * bd) * cd == (an * cd) * bd) by (nonlinear_arith);
    assert((bn * ad) * cd == (bn * cd) * ad) by (nonlinear_arith);
    assert((cn * bd) * ad == (cn * ad) * bd) by (nonlinear_arith);
    if s1 || s2 {
        assert((an * cd) * bd < (cn * ad) * bd);
        assert(an * cd < cn * ad) by (nonlinear_arith)
            requires
                (an * cd) * bd < (cn * ad) * bd,
                bd > 0,
        ;
    } else {
        assert((an * cd) * bd <= (cn * ad) * bd);
        assert(an * cd <= cn * ad) by (nonlinear_arith)
            requires
                (an * cd) * bd <= (cn * ad) * bd,
                bd > 0,
        ;
    }
}

/// A positive duration ends strictly after it starts.
pub proof fn lemma_start_lt_end(start: Rational, dur: Rational)
    requires
        start.wf(),
        dur.wf(),
        dur.n() > 0,
        start.add_fits(dur),
    ensures
        start.is_lt(start.add_spec(dur)),
        start.add_spec(dur).wf(),
{
    start.lemma_add_value(dur);
    let e = start.add_spec(dur);
    let (sn, sd, dn, dd) = (start.n(), start.d(), dur.n(), dur.d());
    // e.n * (sd*dd) == (sn*dd + dn*sd) * e.d, and dn*sd*e.d > 0
    assert(sn * e.d() * (sd * dd) < e.n() * sd * (sd * dd)) by (nonlinear_arith)
        requires
            e.n() * (sd * dd) == (sn * dd + dn * sd) * e.d(),
            dn > 0,
            sd > 0,
            dd > 0,
            e.d() > 0,
    ;
    assert(sn * e.d() < e.n() * sd) by (nonlinear_arith)
        requires
            sn * e.d() * (sd * dd) < e.n() * sd * (sd * dd),
            sd > 0,
            dd > 0,
    ;
}

/// Values are totally ordered.
pub proof fn lemma_not_lt(a: Rational, b: Rational)
    ensures
        !a.is_lt(b) <==> b.is_le(a),
        a.is_le(b) && b.is_le(a) ==> a.same_value(b),
{
}

impl Rational {
    /// A well-formed value is the reduced form of every fraction of equal value.
    pub proof fn lemma_from_red_of_value(self, n: int, d: int)
        requires
            self.wf(),
            d > 0,
            self.n() * d == n * self.d(),
        ensures
            red_fits(n, d),
            Rational::from_red(n, d) == self,
    {
        lemma_red_value(n, d, self.n(), self.d());
        lemma_red_of_reduced(self.n(), self.d());
    }

    /// The reciprocal of a positive value, `d / n`.
    pub open spec fn recip_spec(self) -> Rational {
        Rational::from_red(self.d(), self.n())
    }

    /// The reciprocal of a positive well-formed value swaps its fields.
    pub proof fn lemma_recip(self)
        requires
            self.wf(),
            self.n() > 0,
        ensures
            self.recip_spec().wf(),
            self.recip_spec().n() == self.d(),
            self.recip_spec().d() == self.n(),
    {
        lemma_bezout(abs(self.n()), self.d() as nat);
        let (x, y) = bezout(abs(self.n()), self.d() as nat);
        assert(y * (self.d() as nat) + x * abs(self.n()) == 1);
        lemma_coprime_from_combination(self.d() as nat, abs(self.n()), y, x);
        assert(abs(self.d()) == self.d() as nat);
        assert(abs(self.n()) == self.n() as nat);
        assert(reduced(self.d(), self.n()));
        lemma_red_of_reduced(self.d(), self.n());
    }
}

/// Order of two values given by fractions of equal value.
pub proof fn lemma_lt_of_fracs(x: Rational, p: int, q: int, y: Rational, r: int, t: int)
    requires
        x.wf(),
        y.wf(),
        q > 0,
        t > 0,
        x.n() * q == p * x.d(),
        y.n() * t == r * y.d(),
        p * t < r * q,
    ensures
        x.is_lt(y),
{
    let (xn, xd, yn, yd) = (x.n(), x.d(), y.n(), y.d());
    assert((p * t) * (xd * yd) < (r * q) * (xd * yd)) by (nonlinear_arith)
        requires
            p * t < r * q,
            xd > 0,
            yd > 0,
    ;
    assert((xn * yd) * (q * t) == (p * t) * (xd * yd)) by (nonlinear_arith)
        requires
            xn * q == p * xd,
    ;
    assert((yn * xd) * (q * t) == (r * q) * (xd * yd)) by (nonlinear_arith)
        requires
            yn * t == r * yd,
    ;
    assert(xn * yd < yn * xd) by (nonlinear_arith)
        requires
            (xn * yd) * (q * t) < (yn * xd) * (q * t),
            q > 0,
            t > 0,
    ;
}

/// Adding to a smaller value gives a smaller sum.
pub proof fn lemma_add_lt_mono(a: Rational, b: Rational, c: Rational)
    requires
        a.wf(),
        b.wf(),
        c.wf(),
        a.add_fits(b),
        a.add_fits(c),
        b.is_lt(c),
    ensures
        a.add_spec(b).is_lt(a.add_spec(c)),
{
    a.lemma_add_value(b);
    a.lemma_add_value(c);
    let (an, ad, bn, bd, cn, cd) = (a.n(), a.d(), b.n(), b.d(), c.n(), c.d());
    assert(ad * bd > 0 && ad * cd > 0) by (nonlinear_arith)
        requires
            ad > 0,
            bd > 0,
            cd > 0,
    ;
    assert((an * bd + bn * ad) * (ad * cd) == (an * bd) * (ad * cd) + (bn * cd) * (ad * ad))
        by (nonlinear_arith);
    assert((an * cd + cn * ad) * (ad * bd) == (an * cd) * (ad * bd) + (cn * bd) * (ad * ad))
        by (nonlinear_arith);
    assert((an * bd) * (ad * cd) == (an * cd) * (ad * bd)) by (nonlinear_arith);
    assert((bn * cd) * (ad * ad) < (cn * bd) * (ad * ad)) by (nonlinear_arith)
        requires
            bn * cd < cn * bd,
            ad > 0,
    ;
    lemma_lt_of_fracs(
        a.add_spec(b),
        an * bd + bn * ad,
        ad * bd,
        a.add_spec(c),
        an * cd + cn * ad,
        ad * cd,
    );
}

/// The reduced form of a positive fraction is positive.
proof fn lemma_red_pos(n: int, d: int)
    requires
        n > 0,
        d > 0,
    ensures
        red_num(n, d) > 0,
{
    lemma_red(n, d);
    assert(red_num(n, d) * d > 0) by (nonlinear_arith)
        requires
            red_num(n, d) * d == n * red_den(n, d),
            n > 0,
            red_den(n, d) > 0,
    ;
    assert(red_num(n, d) > 0) by (nonlinear_arith)
        requires
            red_num(n, d) * d > 0,
            d > 0,
    ;
}

/// A larger value minus a smaller one is positive.
pub proof fn lemma_sub_pos(a: Rational, b: Rational)
    requires
        a.wf(),
        b.wf(),
        b.is_lt(a),
        a.sub_fits(b),
    ensures
        a.sub_spec(b).n() > 0,
{
    assert(a.d() * b.d() > 0) by (nonlinear_arith)
        requires
            a.d() > 0,
            b.d() > 0,
    ;
    lemma_red_pos(a.n() * b.d() - b.n() * a.d(), a.d() * b.d());
    Rational::lemma_from_red_num(a.n() * b.d() - b.n() * a.d(), a.d() * b.d());
}

/// A product of positive values is positive.
pub proof fn lemma_mul_pos(a: Rational, b: Rational)
    requires
        a.wf(),
        b.wf(),
        a.n() > 0,
        b.n() > 0,
        a.mul_fits(b),
    ensures
        a.mul_spec(b).n() > 0,
{
    assert(a.d() * b.d() > 0 && a.n() * b.n() > 0) by (nonlinear_arith)
        requires
            a.d() > 0,
            b.d() > 0,
            a.n() > 0,
            b.n() > 0,
    ;
    lemma_red_pos(a.n() * b.n(), a.d() * b.d());
    Rational::lemma_from_red_num(a.n() * b.n(), a.d() * b.d());
}

impl Rational {
    /// The fields of a reduced fraction that fits.
    pub proof fn lemma_from_red_num(n: int, d: int)
        requires
            d > 0,
            red_fits(n, d),
        ensures
            Rational::from_red(n, d).n() == red_num(n, d),
            Rational::from_red(n, d).d() == red_den(n, d),
    {
        lemma_red(n, d);
    }
}

/// `(a + o) + (d - o) == a + d`, with every step representable.
pub proof fn lemma_add_sub_split(a: Rational, o: Rational, d: Rational)
    requires
        a.wf(),
        o.wf(),
        d.wf(),
        a.add_fits(o),
        d.sub_fits(o),
        a.add_fits(d),
    ensures
        a.add_spec(o).add_fits(d.sub_spec(o)),
        a.add_spec(o).add_spec(d.sub_spec(o)) == a.add_spec(d),
{
    a.lemma_add_value(o);
    d.lemma_sub_value(o);
    let x = a.add_spec(o);
    let y = d.sub_spec(o);
    let (an, ad, on, od, dn, dd) = (a.n(), a.d(), o.n(), o.d(), d.n(), d.d());
    let p = an * od + on * ad;
    let q = ad * od;
    let r = dn * od - on * dd;
    let t = dd * od;
    assert(q > 0 && t > 0 && ad * dd > 0) by (nonlinear_arith)
        requires
            ad > 0,
            od > 0,
            dd > 0,
            q == ad * od,
            t == dd * od,
    ;
    // x + y has the value of p/q + y, and then of p/q + r/t
    lemma_add_congr(x.n(), x.d(), p, q, y.n(), y.d());
    lemma_add_congr(y.n(), y.d(), r, t, p, q);
    assert(p * y.d() + y.n() * q == y.n() * q + p * y.d());
    assert(q * y.d() == y.d() * q) by (nonlinear_arith);
    let big_n = p * t + r * q;
    let big_d = q * t;
    assert(r * q + p * t == big_n);
    assert(t * q == big_d) by (nonlinear_arith)
        requires
            big_d == q * t,
    ;
    // p*t + r*q == od*od*(an*dd + dn*ad), q*t == od*od*(ad*dd)
    vstd::arithmetic::mul::lemma_mul_is_distributive_add_other_way(t, an * od, on * ad);
    vstd::arithmetic::mul::lemma_mul_is_distributive_sub_other_way(q, dn * od, on * dd);
    assert((an * od) * (dd * od) == (od * od) * (an * dd)) by (nonlinear_arith);
    assert((on * ad) * (dd * od) == (on * od) * (ad * dd)) by (nonlinear_arith);
    assert((dn * od) * (ad * od) == (od * od) * (dn * ad)) by (nonlinear_arith);
    assert((on * dd) * (ad * od) == (on * od) * (ad * dd)) by (nonlinear_arith);
    assert(p * t == (od * od) * (an * dd) + (on * od) * (ad * dd));
    assert(r * q == (od * od) * (dn * ad) - (on * od) * (ad * dd));
    assert((od * od) * (an * dd) + (od * od) * (dn * ad) == (od * od) * (an * dd + dn * ad))
        by (nonlinear_arith);
    assert(big_n == (od * od) * (an * dd + dn * ad));
    assert(big_d == (od * od) * (ad * dd)) by (nonlinear_arith)
        requires
            big_d == q * t,
            q == ad * od,
            t == dd * od,
    ;
    assert(od * od > 0) by (nonlinear_arith)
        requires
            od > 0,
    ;
    assert(big_n * (ad * dd) == (an * dd + dn * ad) * big_d) by (nonlinear_arith)
        requires
            big_n == (od * od) * (an * dd + dn * ad),
            big_d == (od * od) * (ad * dd),
    ;
    assert(big_d > 0) by (nonlinear_arith)
        requires
            big_d == (od * od) * (ad * dd),
            od * od > 0,
            ad * dd > 0,
    ;
    lemma_red_value(big_n, big_d, an * dd + dn * ad, ad * dd);
}

} // verus!
