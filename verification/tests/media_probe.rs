use ove::media::probe::{KeyframeEntry, KeyframeIndex, VfrReport};
use ove::time::Rational;

#[test]
fn keyframe_index_floor_finds_landing_point() {
    let idx = KeyframeIndex {
        entries: vec![0, 24, 48, 72]
            .into_iter()
            .map(|n| KeyframeEntry { pts: Rational::new(n, 24), byte_pos: None })
            .collect(),
    };
    // floor(1.5s) = the 1.0s keyframe, not 2.0s
    assert_eq!(idx.floor(Rational::new(3, 2)).unwrap().pts, Rational::new(1, 1));
    assert_eq!(idx.floor(Rational::new(0, 1)).unwrap().pts, Rational::new(0, 1));
    assert!(idx.floor(Rational::new(-1, 24)).is_none());
}

#[test]
fn keyframe_index_floor_edges() {
    let idx = KeyframeIndex {
        entries: vec![
            KeyframeEntry { pts: Rational::new(0, 1), byte_pos: Some(0) },
            KeyframeEntry { pts: Rational::new(2, 1), byte_pos: Some(100) },
        ],
    };
    assert_eq!(idx.len(), 2);
    assert!(!idx.is_empty());
    assert_eq!(idx.floor(Rational::new(100, 1)).unwrap().byte_pos, Some(100));
    assert_eq!(idx.floor(Rational::new(2, 1)).unwrap().byte_pos, Some(100));
    assert_eq!(idx.floor(Rational::new(1999, 1000)).unwrap().byte_pos, Some(0));
    let empty = KeyframeIndex { entries: vec![] };
    assert!(empty.is_empty());
    assert!(empty.floor(Rational::new(5, 1)).is_none());
}

#[test]
fn vfr_report_constant_rate() {
    let pts: Vec<Rational> = (0..10).map(|i| Rational::new(i * 1001, 24000)).collect();
    let r = VfrReport::from_pts(&pts);
    assert!(!r.is_vfr);
    assert!(r.distinct_deltas.is_empty());
    assert_eq!(r.frame_count, 10);
}

#[test]
fn vfr_report_variable_rate() {
    let pts = vec![
        Rational::new(0, 1),
        Rational::new(1, 24),
        Rational::new(2, 24),
        Rational::new(3, 24),
        Rational::new(1, 6),
        Rational::new(13, 60),
    ];
    let r = VfrReport::from_pts(&pts);
    assert!(r.is_vfr);
    assert_eq!(r.distinct_deltas, vec![Rational::new(1, 24), Rational::new(1, 20)]);
    assert_eq!(r.frame_count, 6);
    let single = VfrReport::from_pts(&[Rational::new(0, 1)]);
    assert!(!single.is_vfr);
    assert_eq!(single.frame_count, 1);
    let none = VfrReport::from_pts(&[]);
    assert_eq!(none.frame_count, 0);
}

#[test]
fn vfr_report_caps_distinct_deltas_at_16() {
    let mut pts = vec![Rational::new(0, 1)];
    let mut t = Rational::new(0, 1);
    for k in 1..40i64 {
        t = t.add(Rational::new(k, 1000));
        pts.push(t);
    }
    let r = VfrReport::from_pts(&pts);
    assert!(r.is_vfr);
    assert_eq!(r.distinct_deltas.len(), 16);
    assert_eq!(r.distinct_deltas[15], Rational::new(16, 1000));
}
