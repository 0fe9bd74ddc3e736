//! Timeline property tests: the three track structures agree, splits
//! conserve exactly, hit tests cover exactly, batches are atomic, moves keep
//! every id exactly once, and validation errors are typed and mutate nothing.
use ove::time::Rational;
use ove::timeline::avl::AvlTrack;
use ove::timeline::clip::{AssetId, ClipId, TrackId, TrackKind};
use ove::timeline::command::Command;
use ove::timeline::engine::{apply_command, TimelineError};
use ove::timeline::gap::GapTrack;
use ove::timeline::state::TimelineState;
use ove::timeline::track::{Clip, OracleTrack, TrackOps, TICK_DEN};

fn ticks(n: i64) -> Rational {
    Rational::new(n, TICK_DEN)
}

struct Rng(u64);
impl Rng {
    fn new(seed: u64) -> Self {
        Rng(seed ^ 0x9E37_79B9_7F4A_7C15)
    }
    fn next(&mut self) -> u64 {
        self.0 ^= self.0 << 13;
        self.0 ^= self.0 >> 7;
        self.0 ^= self.0 << 17;
        self.0
    }
    fn below(&mut self, n: usize) -> usize {
        (self.next() % n as u64) as usize
    }
}

fn rand_dur(rng: &mut Rng) -> i64 {
    481 + (rng.next() % 240_000) as i64
}

/// One edit of a track-level script.
#[derive(Clone, Debug)]
enum Edit {
    Insert(usize, Clip),
    Remove(usize),
    SetDuration(usize, Rational),
}

fn run_edit<T: TrackOps>(t: &mut T, e: &Edit) {
    match e {
        Edit::Insert(p, c) => t.insert_at(*p, c.clone()).unwrap(),
        Edit::Remove(p) => {
            t.remove_at(*p).unwrap();
        }
        Edit::SetDuration(p, d) => {
            t.set_duration_at(*p, *d).unwrap();
        }
    }
}

/// A seeded script: `n0` inserts, then `steps` random valid edits.
fn script(seed: u64, n0: usize, steps: usize) -> Vec<Edit> {
    let mut rng = Rng::new(seed);
    let mut len = 0usize;
    let mut next_id = 1u64;
    let mut out = Vec::new();
    for i in 0..n0 {
        out.push(Edit::Insert(i, Clip { id: ClipId(next_id), duration: ticks(rand_dur(&mut rng)), source_in: ticks(0) }));
        next_id += 1;
        len += 1;
    }
    for _ in 0..steps {
        let e = if len == 0 {
            0
        } else {
            rng.below(3)
        };
        match e {
            0 => {
                let p = rng.below(len + 1);
                out.push(Edit::Insert(p, Clip { id: ClipId(next_id), duration: ticks(rand_dur(&mut rng)), source_in: ticks(0) }));
                next_id += 1;
                len += 1;
            }
            1 => {
                out.push(Edit::Remove(rng.below(len)));
                len -= 1;
            }
            _ => {
                let p = rng.below(len);
                out.push(Edit::SetDuration(p, ticks(rand_dur(&mut rng))));
            }
        }
    }
    out
}

/// Hit test by a linear scan over the walked clips.
fn scan_hit(walk: &[(usize, Rational, Clip)], q: Rational) -> Option<usize> {
    let mut acc = Rational::zero(TICK_DEN);
    for (p, _s, c) in walk {
        let end = acc.add(c.duration);
        if q.less_than(&acc) {
            return None;
        }
        if q.less_than(&end) {
            return Some(*p);
        }
        acc = end;
    }
    None
}

/// The sample times of a track: every start, an interior point, the last
/// tick of every clip, the end, past the end and before zero.
fn samples(walk: &[(usize, Rational, Clip)]) -> Vec<Rational> {
    let mut out = Vec::new();
    let mut total = Rational::zero(TICK_DEN);
    for (_p, s, c) in walk {
        let dt = c.duration.ticks_at(24000, 1);
        out.push(*s);
        if dt > 2 {
            out.push(s.add(ticks(dt / 2)));
        }
        out.push(s.add(c.duration).sub(ticks(1)));
        total = s.add(c.duration);
    }
    out.push(total);
    out.push(total.add(ticks(1000)));
    out.push(ticks(-5));
    out
}

/// The three track structures give the same sequence, the same starts and
/// the same hits under one shared randomized script.
#[test]
fn p2_oracle_equivalence() {
    let sc = script(0x0E12_0002, 80, 400);
    let mut oracle = OracleTrack::new();
    let mut gap = GapTrack::new();
    let mut avl = AvlTrack::new();
    for (step, e) in sc.iter().enumerate() {
        run_edit(&mut oracle, e);
        run_edit(&mut gap, e);
        run_edit(&mut avl, e);
        if step % 50 == 0 {
            assert_eq!(gap.walk(), oracle.walk(), "gap diverged at step {step}");
            assert_eq!(avl.walk(), oracle.walk(), "avl diverged at step {step}");
        }
    }
    let want = oracle.walk();
    assert_eq!(gap.walk(), want, "gap final state diverged from oracle");
    assert_eq!(avl.walk(), want, "avl final state diverged from oracle");
    assert_eq!(gap.len(), oracle.len());
    assert_eq!(avl.len(), oracle.len());
    for q in samples(&want) {
        let o = oracle.hit_test_mut(q);
        assert_eq!(gap.hit_test_mut(q), o, "gap hit_test disagrees");
        assert_eq!(avl.hit_test_mut(q), o, "avl hit_test disagrees");
    }
}

fn add_cmd(id: Option<ClipId>, track: u32, start: Rational, dur: Rational) -> Command {
    Command::AddClip {
        id,
        track: TrackId(track),
        asset: AssetId(1),
        start,
        dur,
        src_in: ticks(0),
        speed: Rational::new(1, 1),
        label: "c".to_string(),
    }
}

/// One track of `n` back-to-back seeded clips with engine ids 1..=n.
fn seeded_state(seed: u64, n: usize) -> TimelineState {
    let mut rng = Rng::new(seed);
    let mut s = TimelineState::new(&[TrackKind::Video]);
    let mut at = ticks(0);
    for _ in 0..n {
        let d = ticks(rand_dur(&mut rng));
        apply_command(&mut s, &add_cmd(None, 0, at, d)).unwrap();
        at = at.add(d);
    }
    s
}

/// A split conserves duration exactly, advances the right half's source by
/// exactly the offset, and its inverse restores the original clip exactly.
#[test]
fn p4_split_conservation() {
    let mut s = seeded_state(0x0E12_0004, 20);
    let mut rng = Rng::new(0x0E12_0004);
    for step in 0..100 {
        let clips = s.clips_on_track(TrackId(0));
        let pos = rng.below(clips.len());
        let orig = clips[pos].clone();
        let dt = orig.dur.ticks_at(24000, 1);
        if dt < 3 {
            continue;
        }
        let at = ticks(1 + (rng.next() % (dt - 1) as u64) as i64);
        let a = apply_command(&mut s, &Command::SplitClip { id: orig.id, offset: at, new_id: None })
            .unwrap();
        let left = s.clip(orig.id).unwrap().clone();
        assert_eq!(left.dur, at, "step {step}: left duration != offset");
        let right = s.clip(a.assigned[0]).unwrap().clone();
        assert_eq!(left.dur.add(right.dur), orig.dur, "step {step}: split not conserved");
        assert_eq!(right.start, orig.start.add(at), "step {step}: right start");
        assert_eq!(right.src_in, orig.src_in.add(at.mul(orig.speed)), "step {step}: source_in");
        assert_eq!(s.clips_on_track(TrackId(0)).len(), clips.len() + 1);
        apply_command(&mut s, &a.inverse).unwrap();
        let back = s.clip(orig.id).unwrap();
        assert_eq!(back.start, orig.start, "step {step}: unsplit start");
        assert_eq!(back.dur, orig.dur, "step {step}: unsplit duration");
        assert_eq!(back.src_in, orig.src_in, "step {step}: unsplit source");
        assert_eq!(back.speed, orig.speed, "step {step}: unsplit speed");
        assert_eq!(back.label, orig.label, "step {step}: unsplit label");
        assert!(s.clip(a.assigned[0]).is_none(), "step {step}: right half left behind");
        assert_eq!(s.clips_on_track(TrackId(0)).len(), clips.len());
    }
}

/// Every structure's hit test equals a linear scan, at exact boundaries.
#[test]
fn p5_hit_test_coverage() {
    fn check<T: TrackOps>(name: &str, t: &mut T) {
        for e in script(0x0E12_0005, 60, 30) {
            run_edit(t, &e);
        }
        let walk = t.walk();
        for q in samples(&walk) {
            let want = scan_hit(&walk, q);
            assert_eq!(t.hit_test_mut(q), want, "[{name}] hit_test_mut != scan");
            assert_eq!(t.hit_test(q), want, "[{name}] hit_test != scan");
        }
    }
    check("oracle", &mut OracleTrack::new());
    check("gap", &mut GapTrack::new());
    check("avl", &mut AvlTrack::new());
}

/// A failing sub-command rolls the whole batch back; a successful batch is
/// undone exactly by its inverse.
#[test]
fn p6_batch_atomicity() {
    let mut s = seeded_state(0x0E12_0006, 30);
    let before = s.state_hash();
    let end = s.track_duration(TrackId(0));
    let ghost = add_cmd(Some(ClipId(999_999)), 0, end, ticks(1000));
    let batch = Command::Batch {
        cmds: vec![
            Command::ResizeClip { id: ClipId(1), dur: ticks(100) },
            ghost.clone(),
            Command::ResizeClip { id: ClipId(424_242), dur: ticks(999) },
        ],
        label: "b".to_string(),
    };
    let err = apply_command(&mut s, &batch).unwrap_err();
    assert_eq!(
        err,
        TimelineError::BatchRolledBack {
            applied: 2,
            label: "b".to_string(),
            error: Box::new(TimelineError::UnknownClip(ClipId(424_242))),
        }
    );
    assert_eq!(s.state_hash(), before, "batch rollback failed");
    assert_eq!(s.clip_count(), 30);
    assert!(s.clip(ClipId(999_999)).is_none());
    let ok_batch = Command::Batch {
        cmds: vec![Command::ResizeClip { id: ClipId(1), dur: ticks(100) }, ghost],
        label: "b".to_string(),
    };
    let a = apply_command(&mut s, &ok_batch).unwrap();
    assert_ne!(s.state_hash(), before, "batch had no effect");
    assert_eq!(s.clip_count(), 31);
    apply_command(&mut s, &a.inverse).unwrap();
    assert_eq!(s.state_hash(), before, "batch inverse failed");
    assert_eq!(s.clip_count(), 30);
}

/// A cross-track move keeps every id on exactly one track, moves the counts,
/// and its inverse puts the clip back at its old position.
#[test]
fn p7_cross_track_move() {
    let mut s = TimelineState::new(&[TrackKind::Video, TrackKind::Video]);
    let mut at = ticks(0);
    for i in 0..10 {
        let d = ticks(1000 + i);
        apply_command(&mut s, &add_cmd(None, 0, at, d)).unwrap();
        at = at.add(d);
    }
    for i in 0..5 {
        apply_command(&mut s, &add_cmd(None, 1, ticks(10_000 * i), ticks(2000 + i))).unwrap();
    }
    // clip 3 goes between the second and third clips of track 1
    let a = apply_command(
        &mut s,
        &Command::MoveClip { id: ClipId(3), track: TrackId(1), start: ticks(13_000) },
    )
    .unwrap();
    assert_eq!(s.clips_on_track(TrackId(0)).len(), 9);
    assert_eq!(s.clips_on_track(TrackId(1)).len(), 6);
    assert_eq!(s.clips_on_track(TrackId(1))[2].id, ClipId(3));
    let mut count = 0;
    for t in 0..2u32 {
        count += s.clips_on_track(TrackId(t)).iter().filter(|c| c.id == ClipId(3)).count();
    }
    assert_eq!(count, 1, "id 3 not exactly once after move");
    assert_eq!(s.clip_count(), 15);
    let listed: usize = (0..2u32).map(|t| s.clips_on_track(TrackId(t)).len()).sum();
    assert_eq!(listed, s.clip_count(), "track counts add up to the clip count");
    apply_command(&mut s, &a.inverse).unwrap();
    assert_eq!(s.clips_on_track(TrackId(0)).len(), 10);
    assert_eq!(s.clips_on_track(TrackId(1)).len(), 5);
    let pos = s.clips_on_track(TrackId(0)).iter().position(|c| c.id == ClipId(3));
    assert_eq!(pos, Some(2), "move inverse position");
}

/// Validation errors are typed and leave the state unchanged.
#[test]
fn p9_typed_errors_no_mutation() {
    let mut s = seeded_state(0x0E12_0009, 10);
    let before = s.state_hash();
    assert_eq!(
        apply_command(&mut s, &Command::SplitClip { id: ClipId(1), offset: ticks(0), new_id: None })
            .unwrap_err(),
        TimelineError::InvalidSplit { id: ClipId(1), offset: ticks(0) }
    );
    assert_eq!(
        apply_command(
            &mut s,
            &Command::SplitClip { id: ClipId(1), offset: ticks(1), new_id: Some(ClipId(2)) }
        )
        .unwrap_err(),
        TimelineError::IdInUse(ClipId(2))
    );
    assert_eq!(
        apply_command(&mut s, &Command::ResizeClip { id: ClipId(1), dur: ticks(0) }).unwrap_err(),
        TimelineError::InvalidDuration(ticks(0))
    );
    assert_eq!(
        apply_command(&mut s, &Command::RemoveClip { id: ClipId(777) }).unwrap_err(),
        TimelineError::UnknownClip(ClipId(777))
    );
    assert_eq!(
        apply_command(&mut s, &add_cmd(Some(ClipId(888)), 9, ticks(0), ticks(1))).unwrap_err(),
        TimelineError::UnknownTrack(TrackId(9))
    );
    assert_eq!(s.state_hash(), before, "failed commands mutated state");
    assert_eq!(s.clip_count(), 10);
}
