use ove::time::Rational;
use ove::timeline::clip::ClipId;
use ove::timeline::engine::TimelineError;
use ove::timeline::avl::AvlTrack;
use ove::timeline::gap::GapTrack;
use ove::timeline::track::{Clip, OracleTrack, TrackOps, TICK_DEN};

fn ticks(n: i64) -> Rational {
    Rational::new(n, TICK_DEN)
}

fn clip(id: u64, d: i64) -> Clip {
    Clip { id: ClipId(id), duration: ticks(d), source_in: ticks(0) }
}

fn check_track<T: TrackOps>(t: &mut T) {
    // [1:1000][2:500][3:2000]
    t.insert_at(0, clip(1, 1000)).unwrap();
    t.insert_at(1, clip(3, 2000)).unwrap();
    t.insert_at(1, clip(2, 500)).unwrap();
    assert_eq!(t.len(), 3);
    assert_eq!(t.clip_at(1).unwrap().id, ClipId(2));
    assert!(t.clip_at(3).is_none());
    assert_eq!(t.index_of(ClipId(3)), Some(2));
    assert_eq!(t.index_of(ClipId(9)), None);
    assert_eq!(
        t.insert_at(5, clip(4, 1)),
        Err(TimelineError::IndexOutOfBounds { index: 5, len: 3 })
    );
    // exact boundaries: starts 0, 1000, 1500; end 3500
    assert_eq!(t.hit_test(ticks(0)), Some(0));
    assert_eq!(t.hit_test(ticks(999)), Some(0));
    assert_eq!(t.hit_test(ticks(1000)), Some(1));
    assert_eq!(t.hit_test(ticks(1499)), Some(1));
    assert_eq!(t.hit_test(ticks(1500)), Some(2));
    assert_eq!(t.hit_test(ticks(3499)), Some(2));
    assert_eq!(t.hit_test(ticks(3500)), None);
    assert_eq!(t.hit_test(ticks(-1)), None);
    assert_eq!(t.hit_test_mut(ticks(1200)), Some(1));
    assert_eq!(t.hit_test(ticks(1200)), Some(1));
    // resize the middle clip: later starts shift
    assert_eq!(t.set_duration_at(1, ticks(100)), Ok(ticks(500)));
    assert_eq!(t.hit_test_mut(ticks(1200)), Some(2));
    assert_eq!(t.hit_test(ticks(1099)), Some(1));
    let w = t.walk();
    assert_eq!(w.len(), 3);
    assert_eq!(w[2].0, 2);
    assert_eq!(w[2].1, ticks(1100));
    assert_eq!(w[2].2.id, ClipId(3));
    assert_eq!(t.remove_at(0), Ok(clip(1, 1000)));
    assert_eq!(t.remove_at(7), Err(TimelineError::IndexOutOfBounds { index: 7, len: 2 }));
    assert_eq!(t.set_duration_at(2, ticks(1)), Err(TimelineError::IndexOutOfBounds { index: 2, len: 2 }));
    assert_eq!(t.hit_test_mut(ticks(0)), Some(0));
    assert_eq!(t.hit_test(ticks(100)), Some(1));
    assert_eq!(t.len(), 2);
}

#[test]
fn oracle_track_sequence_and_hits() {
    check_track(&mut OracleTrack::new());
}

#[test]
fn gap_track_sequence_and_hits() {
    check_track(&mut GapTrack::new());
}

#[test]
fn avl_track_sequence_and_hits() {
    check_track(&mut AvlTrack::new());
}

#[test]
fn structures_agree_on_a_scripted_run() {
    let mut a = AvlTrack::new();
    let mut g = GapTrack::new();
    let mut o = OracleTrack::new();
    let mut seed: u64 = 0x9E37_79B9_7F4A_7C15;
    for step in 0..400u64 {
        seed ^= seed << 13;
        seed ^= seed >> 7;
        seed ^= seed << 17;
        let len = o.len();
        match seed % 4 {
            0 | 1 => {
                let pos = (seed as usize / 7) % (len + 1);
                let c = clip(step, 1 + (seed % 5000) as i64);
                g.insert_at(pos, c).unwrap();
                a.insert_at(pos, c).unwrap();
                o.insert_at(pos, c).unwrap();
            }
            2 if len > 0 => {
                let pos = (seed as usize / 11) % len;
                let e = o.remove_at(pos);
                assert_eq!(g.remove_at(pos), e);
                assert_eq!(a.remove_at(pos), e);
            }
            _ if len > 0 => {
                let pos = (seed as usize / 13) % len;
                let d = ticks(1 + (seed % 3000) as i64);
                let e = o.set_duration_at(pos, d);
                assert_eq!(g.set_duration_at(pos, d), e);
                assert_eq!(a.set_duration_at(pos, d), e);
            }
            _ => {}
        }
        let t = ticks((seed % 200_000) as i64);
        assert_eq!(g.hit_test(t), o.hit_test(t), "step {step}");
        assert_eq!(g.hit_test_mut(t), o.hit_test(t), "step {step}");
        assert_eq!(a.hit_test(t), o.hit_test(t), "step {step}");
        assert_eq!(g.len(), o.len());
        assert_eq!(a.len(), o.len());
        if step % 50 == 0 && o.len() > 0 {
            let c = o.clip_at(o.len() / 2).unwrap();
            assert_eq!(a.index_of(c.id), o.index_of(c.id));
            assert_eq!(a.clip_at(o.len() / 2), Some(c));
        }
    }
    assert_eq!(g.walk(), o.walk());
    assert_eq!(a.walk(), o.walk());
}

#[test]
fn from_clips_keeps_order() {
    let clips = vec![clip(1, 10), clip(2, 20), clip(3, 30)];
    let g = GapTrack::from_clips(clips.clone());
    let a = AvlTrack::from_clips(clips.clone());
    let o = OracleTrack::from_clips(clips);
    assert_eq!(g.walk(), o.walk());
    assert_eq!(a.walk(), o.walk());
    assert_eq!(a.hit_test(ticks(35)), Some(2));
    assert_eq!(g.hit_test(ticks(35)), Some(2));
}
