//! Deterministic property suite (seeded xorshift): each property runs over
//! thousands of generated cases.
use ove::time::Rational;

struct Rng(u64);
impl Rng {
    fn next(&mut self) -> u64 {
        self.0 ^= self.0 << 13;
        self.0 ^= self.0 >> 7;
        self.0 ^= self.0 << 17;
        self.0
    }
    fn gen_rational(&mut self, mag: i64) -> Rational {
        // random num in [-mag, mag], random den in [1, 24000]
        let num = ((self.next() % (2 * mag as u64 + 1)) as i64) - mag;
        let den = 1 + (self.next() % 24_000) as i64;
        Rational::new(num, den)
    }
}

const CASES: u64 = 20_000;

/// P1: addition is associative over normalized exact rationals.
#[test]
fn p1_add_associativity() {
    let mut rng = Rng(0xA1);
    for _ in 0..CASES {
        let (a, b, c) = (
            rng.gen_rational(1_000_000),
            rng.gen_rational(1_000_000),
            rng.gen_rational(1_000_000),
        );
        assert_eq!(a.add(b.add(c)), a.add(b).add(c), "associativity: {:?} {:?} {:?}", a, b, c);
    }
}

/// P2: normalization invariants hold after every operation.
#[test]
fn p2_normalization_invariants() {
    let mut rng = Rng(0xA2);
    for _ in 0..CASES {
        let (a, b) = (rng.gen_rational(1_000_000), rng.gen_rational(1_000_000));
        for r in [a.add(b), a.sub(b), a.mul(b)] {
            assert!(r.den() > 0, "den positive");
            let g = gcd(r.num().abs(), r.den());
            assert!(g == 1 || r.num() == 0, "normalized: {:?} gcd={}", r, g);
        }
    }
}

fn gcd(mut a: i64, mut b: i64) -> i64 {
    while b != 0 {
        let t = a % b;
        a = b;
        b = t;
    }
    a
}

/// P3: sums on a fixed tick axis are order-invariant.
#[test]
fn p3_order_invariant_sums() {
    let mut rng = Rng(0xA3);
    for case in 0..200 {
        let n = 50 + (rng.next() % 500) as usize;
        let mut clips: Vec<Rational> =
            (0..n).map(|_| Rational::new(1 + (rng.next() % 240_000) as i64, 24_000)).collect();
        let f = clips.iter().copied().fold(Rational::zero(24000), |a, x| a.add(x));
        let r = clips.iter().rev().copied().fold(Rational::zero(24000), |a, x| a.add(x));
        for i in (1..clips.len()).rev() {
            let j = (rng.next() % (i as u64 + 1)) as usize;
            clips.swap(i, j);
        }
        let s = clips.iter().copied().fold(Rational::zero(24000), |a, x| a.add(x));
        assert_eq!(f, r, "case {}: forward vs reverse", case);
        assert_eq!(f, s, "case {}: forward vs shuffled", case);
    }
}

/// P4: floor-to-frame is exact at frame boundaries.
#[test]
fn p4_boundary_floor_exact() {
    for rate in [(30, 1), (24000, 1001), (30000, 1001), (25, 1), (24, 1)] {
        let (rn, rd) = rate;
        for k in 0..5_000i64 {
            let v = Rational::new(k * rd, rn); // exactly k frames worth of time
            assert_eq!(v.floor_div_rate(rn, rd), k, "exact boundary k={} rate={}/{}", k, rn, rd);
            // one tick below k frames must floor to k-1
            let below = v.sub(Rational::new(1, rn * rd));
            assert_eq!(below.floor_div_rate(rn, rd), k - 1, "just-below k={}", k);
        }
    }
}

/// P5: the exact 24000/1001 rate does not drift over two hours.
#[test]
fn p5_no_drift_exact_rates() {
    let frame = Rational::new(1001, 24000);
    let mut t = Rational::zero(24000);
    let frames = 172_262u64; // floor(7200 * 24000/1001)
    for _ in 0..frames {
        t = t.add(frame);
    }
    assert_eq!(t, Rational::new(frames as i64 * 1001, 24000));
    assert_eq!(t.floor_div_rate(24000, 1001), frames as i64);
}

/// P6: (a + b) - b == a.
#[test]
fn p6_add_sub_roundtrip() {
    let mut rng = Rng(0xA6);
    for _ in 0..CASES {
        let (a, b) = (rng.gen_rational(1_000_000), rng.gen_rational(1_000_000));
        assert_eq!(a.add(b).sub(b), a, "roundtrip {:?} + {:?}", a, b);
    }
}

/// Half plus remainder gives the whole, both parities.
#[test]
fn p7_split_invariant() {
    let mut rng = Rng(0xA7);
    for _ in 0..CASES {
        let d = rng.gen_rational(240_000);
        let h = d.half();
        let rem = d.sub(h);
        assert_eq!(h.add(rem), d, "split {:?}", d);
        assert!(h.den() > 0 && rem.den() > 0);
    }
}

/// P8: comparison is a strict total order consistent with i128 evaluation.
#[test]
fn p8_total_order() {
    let mut rng = Rng(0xA8);
    for _ in 0..CASES {
        let (a, b) = (rng.gen_rational(10_000_000), rng.gen_rational(10_000_000));
        let cmp = a.cmp(&b);
        let l = a.num() as i128 * b.den() as i128;
        let r = b.num() as i128 * a.den() as i128;
        let expected = l.cmp(&r);
        assert_eq!(cmp, expected, "order {:?} vs {:?}", a, b);
        assert_eq!(b.cmp(&a), expected.reverse());
    }
}

/// P9: the decimal 23.976 alias drifts from 24000/1001 on cumulative frame
/// indices (floating point only shows the hazard the exact model avoids).
#[test]
fn p9_decimal_alias_drift_exists() {
    let mut diverged_at: Option<i64> = None;
    for s in 1..=7200i64 {
        let exact = (s as f64 * (24000.0 / 1001.0)).floor() as i64;
        let alias = (s as f64 * 23.976).floor() as i64;
        if exact != alias {
            diverged_at = Some(s);
            break;
        }
    }
    assert!(diverged_at.is_some(), "decimal 23.976 must diverge from 24000/1001 within 2h");
    let d24 = (86400.0_f64 * (24000.0 / 1001.0)) - (86400.0 * 23.976);
    assert!(d24.abs() > 1.0, "drift must exceed one frame over 24h");
}

/// P10: large-magnitude arithmetic stays exact.
#[test]
fn p10_large_magnitude_exact() {
    let mut rng = Rng(0xAA);
    for _ in 0..CASES {
        let a = rng.gen_rational(50_000_000);
        let b = rng.gen_rational(50_000_000);
        let s = a.add(b);
        let lhs = s.mul(Rational::new(a.den() * b.den(), 1));
        let rhs = Rational::new(a.num() * b.den() + b.num() * a.den(), 1);
        assert_eq!(lhs, rhs, "large-magnitude exactness: {:?} + {:?} = {:?}", a, b, s);
    }
}
