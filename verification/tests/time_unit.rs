use ove::time::Rational;

#[test]
fn normalization() {
    let r = Rational::new(24000, 48000);
    assert_eq!((r.num(), r.den()), (1, 2));
}

#[test]
fn exact_add_no_fp() {
    // 10 x 0.1 is not 1.0 in binary floating point; it is exact here
    let tenth = Rational::new(1, 10);
    let mut t = Rational::zero(10);
    for _ in 0..10 {
        t = t.add(tenth);
    }
    assert_eq!(t, Rational::new(1, 1));
}

#[test]
fn boundary_floor_exact() {
    // exactly 30 frames at 30fps must floor to 30, not 29
    let r = Rational::new(1, 1);
    assert_eq!(r.floor_div_rate(30, 1), 30);
    // one tick below must floor to 29
    assert_eq!(Rational::new(29_999, 30_000).floor_div_rate(30, 1), 29);
}

#[test]
fn half_roundtrip_odd() {
    let d = Rational::new(1001, 24000); // odd numerator
    let h = d.half();
    assert_eq!(h.add(d.sub(h)), d); // left + right == whole
}

#[test]
fn negative_values_normalize_with_positive_denominator() {
    let r = Rational::new(-6, 4);
    assert_eq!((r.num(), r.den()), (-3, 2));
    assert_eq!(Rational::zero(7).den(), 1);
    assert_eq!(Rational::new(3, 4).neg(), Rational::new(-3, 4));
}

#[test]
fn exact_mul_and_ticks() {
    assert_eq!(Rational::new(2, 3).mul(Rational::new(9, 4)), Rational::new(3, 2));
    // 1.5 s at 24000/1001 fps: floor(1.5 * 24000 / 1001) = 35
    assert_eq!(Rational::new(3, 2).ticks_at(24000, 1001), 35);
    // floor is toward negative infinity
    assert_eq!(Rational::new(-1, 2).floor_div_rate(1, 1), -1);
}

#[test]
fn comparisons_are_by_value() {
    let a = Rational::new(1, 3);
    let b = Rational::new(2, 5);
    assert!(a.less_than(&b));
    assert!(!b.less_than(&a));
    assert!(a.less_eq(&Rational::new(2, 6)));
    assert!(a.equals(&Rational::new(2, 6)));
    assert!(a < b);
}

#[test]
fn negation_laws_on_values() {
    let a = Rational::new(-6, 4); // -3/2
    let n = a.neg();
    assert_eq!((n.num(), n.den()), (3, 2));
    assert_eq!(n.neg(), a);
    let z = a.add(n);
    assert_eq!((z.num(), z.den()), (0, 1));
    let b = Rational::new(7, 3);
    assert_eq!(b.sub(a), b.add(a.neg()));
    assert_eq!(b.sub(a), Rational::new(23, 6));
}
