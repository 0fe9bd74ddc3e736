use ove::boundary::{clip_end, clip_new, OveClip, OveTime};

#[test]
fn clip_new_rejects_zero_denominators() {
    assert!(clip_new(1, 0, 0, 1, 24).is_none());
    assert!(clip_new(1, 0, 24, 1, 0).is_none());
    let c = clip_new(3, 1, 24, 5, 48).unwrap();
    assert_eq!(c, OveClip { track: 3, start: OveTime { num: 1, den: 24 }, dur: OveTime { num: 5, den: 48 } });
}

#[test]
fn clip_end_over_the_common_denominator() {
    let c = clip_new(0, 1, 24, 5, 48).unwrap();
    // 1/24 + 5/48 = 2/48 + 5/48
    assert_eq!(clip_end(&c), OveTime { num: 7, den: 48 });
    let c = clip_new(0, 1, 2, 1, 3).unwrap();
    assert_eq!(clip_end(&c), OveTime { num: 5, den: 6 });
    let c = OveClip { track: 0, start: OveTime { num: 1, den: 0 }, dur: OveTime { num: 1, den: 0 } };
    assert_eq!(clip_end(&c), OveTime { num: -1, den: 1 });
    let c = clip_new(0, 1, -2, 1, 4).unwrap();
    // gcd(2, 4) = 2: lcm = -2/2 * 4 = -4; num = 1*2 + 1*(-1) = 1
    assert_eq!(clip_end(&c), OveTime { num: 1, den: -4 });
}
