//! The values that cross the C boundary: plain `num/den` times and clips,
//! and the decisions of the boundary's entry points on them.
use crate::arith::{abs, dvd, gcd, lemma_gcd_divides};
use crate::time::gcd64;
use vstd::prelude::*;

verus! {

/// A time as two integers (not necessarily reduced).
#[derive(Clone, Copy, Debug, PartialEq, Eq, Structural)]
pub struct OveTime {
    pub num: i64,
    pub den: i64,
}

/// A clip as the boundary sees it.
#[derive(Clone, Copy, Debug, PartialEq, Eq, Structural)]
pub struct OveClip {
    pub track: i32,
    pub start: OveTime,
    pub dur: OveTime,
}

/// A new clip; a zero denominator gives none.
pub fn clip_new(track: i32, sn: i64, sd: i64, dn: i64, dd: i64) -> (r: Option<OveClip>)
    ensures
        (sd == 0 || dd == 0) ==> r is None,
        (sd != 0 && dd != 0) ==> r == Some(
            OveClip {
                track,
                start: OveTime { num: sn, den: sd },
                dur: OveTime { num: dn, den: dd },
            },
        ),
{
    if sd == 0 || dd == 0 {
        return None;
    }
    Some(OveClip { track, start: OveTime { num: sn, den: sd }, dur: OveTime { num: dn, den: dd } })
}

/// The time standing for "no end" (`-1/1`).
pub open spec fn no_end() -> OveTime {
    OveTime { num: -1i64, den: 1i64 }
}

/// `start + dur` over the least common multiple of the denominators: with
/// `g = gcd(|sd|, |dd|)`, `(sn * dd/g + dn * sd/g) / (sd/g * dd)`; no end
/// when both denominators are zero.
pub open spec fn end_of(c: OveClip) -> (int, int) {
    let g = gcd(abs(c.start.den as int), abs(c.dur.den as int)) as int;
    let a = (c.start.den as int) / g;
    let b = (c.dur.den as int) / g;
    (c.start.num * b + c.dur.num * a, a * c.dur.den)
}

/// The end's parts fit `i64` (the boundary's arithmetic does not overflow).
pub open spec fn end_fits(c: OveClip) -> bool {
    let g = gcd(abs(c.start.den as int), abs(c.dur.den as int)) as int;
    let a = (c.start.den as int) / g;
    let b = (c.dur.den as int) / g;
    &&& i64::MIN <= c.start.num * b <= i64::MAX
    &&& i64::MIN <= c.dur.num * a <= i64::MAX
    &&& i64::MIN <= end_of(c).0 <= i64::MAX
    &&& i64::MIN <= end_of(c).1 <= i64::MAX
}

/// `x / g` for a positive `g` dividing `|x|`, exactly.
proof fn lemma_exact_div(x: int, g: int)
    requires
        g > 0,
        dvd(g, abs(x) as int),
    ensures
        x / g * g == x,
        (if x < 0 { -((-x) / g) } else { x / g }) == x / g,
{
    let q = abs(x) as int / g;
    vstd::arithmetic::div_mod::lemma_fundamental_div_mod(abs(x) as int, g);
    if x < 0 {
        assert(x == (-q) * g + 0) by (nonlinear_arith)
            requires
                -x == g * q + 0,
        ;
        vstd::arithmetic::div_mod::lemma_fundamental_div_mod_converse(x, g, -q, 0);
    } else {
        vstd::arithmetic::div_mod::lemma_fundamental_div_mod_converse(x, g, q, 0);
    }
}

/// The end of a clip (`ove_clip_end`'s arithmetic).
pub fn clip_end(c: &OveClip) -> (r: OveTime)
    requires
        c.start.den > i64::MIN,
        c.dur.den > i64::MIN,
        (c.start.den == 0) == (c.dur.den == 0),
        c.start.den != 0 ==> end_fits(*c),
    ensures
        c.start.den == 0 ==> r == no_end(),
        c.start.den != 0 ==> r.num == end_of(*c).0 && r.den == end_of(*c).1,
{
    let g = gcd64(c.start.den, c.dur.den);
    if g == 0 {
        proof {
            lemma_gcd_divides(abs(c.start.den as int), abs(c.dur.den as int));
        }
        return OveTime { num: -1, den: 1 };
    }
    proof {
        lemma_gcd_divides(abs(c.start.den as int), abs(c.dur.den as int));
        lemma_exact_div(c.start.den as int, g as int);
        lemma_exact_div(c.dur.den as int, g as int);
    }
    let sd = c.start.den;
    let dd = c.dur.den;
    let a: i64 = if sd < 0 {
        -((-sd) / g)
    } else {
        sd / g
    };
    let b: i64 = if dd < 0 {
        -((-dd) / g)
    } else {
        dd / g
    };
    let lcm: i64 = a * dd;
    let num: i64 = c.start.num * b + c.dur.num * a;
    OveTime { num, den: lcm }
}

} // verus!
