//! The exact-time surface exported to other languages: plain records of an
//! `i64` numerator and a positive `i64` denominator, and the operations the
//! bindings call. The binding generator itself is not part of the library.
use crate::time::Rational;
use vstd::prelude::*;

verus! {

/// Exact rational time as a plain record (denominator positive, reduced).
#[derive(Clone, Copy, Debug, PartialEq, Eq, Structural)]
pub struct RationalTime {
    pub num: i64,
    pub den: i64,
}

/// The two representations of a time value.
#[derive(Clone, Copy, Debug, PartialEq, Eq, Structural)]
pub enum TimeValue {
    /// Integer ticks on a fixed rational axis (the accumulator form).
    TickAxis { ticks: i64, rate_num: i64, rate_den: i64 },
    /// A free rational (the ingest/boundary form; never accumulated).
    FreeRational { num: i64, den: i64 },
}

/// The value a record stands for.
pub open spec fn value_of(t: RationalTime) -> Rational {
    Rational::from_red(t.num as int, t.den as int)
}

/// A record is a valid input: positive denominator, negatable numerator.
pub open spec fn valid(t: RationalTime) -> bool {
    t.den > 0 && t.num > i64::MIN
}

fn from_rational(r: Rational) -> (t: RationalTime)
    requires
        r.wf(),
    ensures
        t.num == r.n(),
        t.den == r.d(),
        value_of(t) == r,
{
    proof {
        r.lemma_from_red_of_value(r.n(), r.d());
    }
    RationalTime { num: r.num(), den: r.den() }
}

fn to_rational(t: RationalTime) -> (r: Rational)
    requires
        valid(t),
    ensures
        r.wf(),
        r == value_of(t),
{
    Rational::new(t.num, t.den)
}

/// Exact sum.
pub fn ove_time_add(a: RationalTime, b: RationalTime) -> (r: RationalTime)
    requires
        valid(a),
        valid(b),
        value_of(a).add_fits(value_of(b)),
    ensures
        value_of(r) == value_of(a).add_spec(value_of(b)),
        r.den > 0,
{
    let x = to_rational(a);
    let y = to_rational(b);
    proof {
        x.lemma_add_value(y);
    }
    from_rational(x.add(y))
}

/// Exact difference.
pub fn ove_time_sub(a: RationalTime, b: RationalTime) -> (r: RationalTime)
    requires
        valid(a),
        valid(b),
        value_of(a).sub_fits(value_of(b)),
    ensures
        value_of(r) == value_of(a).sub_spec(value_of(b)),
        r.den > 0,
{
    let x = to_rational(a);
    let y = to_rational(b);
    proof {
        x.lemma_sub_value(y);
    }
    from_rational(x.sub(y))
}

/// Split helper: the left half (the right one is `value - left`, exact).
pub fn ove_time_half(a: RationalTime) -> (r: RationalTime)
    requires
        valid(a),
    ensures
        value_of(r) == value_of(a).half_spec(),
        r.den > 0,
{
    let x = to_rational(a);
    from_rational(x.half())
}

/// Exact frame index: floor(value * rate_num / rate_den).
pub fn ove_time_floor_frame(a: RationalTime, rate_num: i64, rate_den: i64) -> (r: i64)
    requires
        valid(a),
        rate_num > 0,
        rate_den > 0,
        value_of(a).floor_fits(rate_num as int, rate_den as int),
    ensures
        r == (value_of(a).n() * rate_num) / (value_of(a).d() * rate_den),
{
    to_rational(a).floor_div_rate(rate_num, rate_den)
}

/// A time value converted to whole ticks at the given rate (floor). A tick
/// value is first rescaled exactly from its own axis.
pub fn ove_time_to_ticks(v: TimeValue, rate_num: i64, rate_den: i64) -> (r: i64)
    requires
        rate_num > 0,
        rate_den > 0,
        match v {
            TimeValue::TickAxis { ticks, rate_num: rn, rate_den: rd } => {
                &&& rn > 0
                &&& i64::MIN < ticks * rd <= i64::MAX
                &&& Rational::from_red(ticks * rd, rn as int).floor_fits(rate_num as int, rate_den as int)
            },
            TimeValue::FreeRational { num, den } => {
                &&& den > 0
                &&& num > i64::MIN
                &&& Rational::from_red(num as int, den as int).floor_fits(rate_num as int, rate_den as int)
            },
        },
    ensures
        ({
            let x = match v {
                TimeValue::TickAxis { ticks, rate_num: rn, rate_den: rd } => Rational::from_red(
                    ticks * rd,
                    rn as int,
                ),
                TimeValue::FreeRational { num, den } => Rational::from_red(num as int, den as int),
            };
            r == (x.n() * rate_num) / (x.d() * rate_den)
        }),
{
    match v {
        TimeValue::TickAxis { ticks, rate_num: rn, rate_den: rd } => {
            Rational::new(ticks * rd, rn).floor_div_rate(rate_num, rate_den)
        },
        TimeValue::FreeRational { num, den } => {
            Rational::new(num, den).floor_div_rate(rate_num, rate_den)
        },
    }
}

/// Round-trip helper: the two halves of a split, which add back exactly.
pub fn ove_time_split_roundtrip(a: RationalTime) -> (r: Vec<RationalTime>)
    requires
        valid(a),
    ensures
        r@.len() == 2,
        value_of(r@[0]) == value_of(a).half_spec(),
        value_of(r@[1]) == value_of(a).sub_spec(value_of(a).half_spec()),
        value_of(r@[0]).add_spec(value_of(r@[1])) == value_of(a),
{
    let x = to_rational(a);
    let h = x.half();
    proof {
        crate::time::lemma_half_split(x);
    }
    let rest = x.sub(h);
    vec![from_rational(h), from_rational(rest)]
}

} // verus!
