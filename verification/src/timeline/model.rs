//! The abstract timeline: track sequences, the clip table and the counter,
//! its well-formedness, and the meaning of every command.
use crate::time::Rational;
use crate::timeline::clip::{ClipV, TrackKind};
use crate::timeline::command::CmdV;
use vstd::prelude::*;

verus! {

/// The abstract value of a timeline state.
pub struct TLView {
    pub kinds: Seq<TrackKind>,
    /// Clip ids of each track, in start order.
    pub tracks: Seq<Seq<u64>>,
    pub clips: Map<u64, ClipV>,
    /// The id-assignment counter (not observable content).
    pub next_id: u64,
}

/// The abstract value of a timeline error.
pub enum ErrV {
    UnknownClip(u64),
    UnknownTrack(u32),
    Overlap { track: u32, existing: u64, at: Rational },
    InvalidDuration(Rational),
    InvalidSpeed(Rational),
    IdInUse(u64),
    InvalidSplit { id: u64, offset: Rational },
    BatchRolledBack { applied: nat, label: Seq<char>, error: Box<ErrV> },
    UndoUnavailable,
    RedoUnavailable,
    IndexOutOfBounds { index: nat, len: nat },
}

/// The abstract outcome of a successful command.
pub struct AppliedV {
    pub assigned: Seq<u64>,
    pub inverse: CmdV,
    pub resolved: CmdV,
}

impl TLView {
    /// The observable content: tracks and clips (the counter excluded).
    pub open spec fn same_content(self, o: TLView) -> bool {
        &&& self.kinds == o.kinds
        &&& self.tracks == o.tracks
        &&& self.clips == o.clips
    }

    pub open spec fn with_counter(self, next_id: u64) -> TLView {
        TLView { next_id, ..self }
    }

    pub open spec fn start_of(self, id: u64) -> Rational {
        self.clips[id].start
    }

    pub open spec fn end_of(self, id: u64) -> Rational {
        self.clips[id].end()
    }

    /// A track sequence is ordered: each clip ends no later than any later
    /// clip starts (so clips never overlap and starts strictly increase).
    pub open spec fn ordered(self, seq: Seq<u64>) -> bool {
        forall|i: int, j: int|
            0 <= i < j < seq.len() ==> #[trigger] self.end_of(seq[i]).is_le(
                #[trigger] self.start_of(seq[j]),
            )
    }

    /// Every id of track `t` is in the table and names that track.
    pub open spec fn track_ok(self, t: int) -> bool {
        &&& forall|i: int|
            0 <= i < self.tracks[t].len() ==> {
                let id = #[trigger] self.tracks[t][i];
                &&& self.clips.contains_key(id)
                &&& self.clips[id].track == t
                &&& self.clips[id].id == id
            }
        &&& self.ordered(self.tracks[t])
    }

    /// A sequence is ordered and every id in it names a valid clip.
    pub open spec fn seq_ok(self, seq: Seq<u64>) -> bool {
        &&& self.ordered(seq)
        &&& forall|i: int|
            0 <= i < seq.len() ==> {
                &&& self.clips.contains_key(#[trigger] seq[i])
                &&& self.clips[seq[i]].valid()
            }
    }

    /// Well-formed state.
    pub open spec fn wf(self) -> bool {
        &&& self.tracks.len() == self.kinds.len()
        &&& self.clips.dom().finite()
        &&& forall|t: int| 0 <= t < self.tracks.len() ==> #[trigger] self.track_ok(t)
        &&& forall|id: u64|
            #[trigger] self.clips.contains_key(id) ==> {
                &&& (self.clips[id].track as int) < self.tracks.len()
                &&& self.tracks[self.clips[id].track as int].contains(id)
                &&& self.clips[id].valid()
            }
    }

    /// `p` is where a clip starting at `x` goes in `seq`: after every clip
    /// that starts before `x`, before every other.
    pub open spec fn is_ins_pos(self, seq: Seq<u64>, x: Rational, p: int) -> bool {
        &&& 0 <= p <= seq.len()
        &&& forall|i: int| 0 <= i < p ==> #[trigger] self.start_of(seq[i]).is_lt(x)
        &&& forall|i: int| p <= i < seq.len() ==> !#[trigger] self.start_of(seq[i]).is_lt(x)
    }

    /// The insertion position of a start time in a track sequence.
    pub open spec fn ins_pos(self, seq: Seq<u64>, x: Rational) -> int {
        choose|p: int| self.is_ins_pos(seq, x, p)
    }

    /// The first clip id of a track sequence that contains `at`, as a position.
    pub open spec fn covers(self, id: u64, at: Rational) -> bool {
        self.start_of(id).is_le(at) && at.is_lt(self.end_of(id))
    }
}

/// The position of an id in a sequence.
pub open spec fn idx(seq: Seq<u64>, id: u64) -> int {
    choose|i: int| 0 <= i < seq.len() && seq[i] == id
}

/// `1 / speed` as an exact value.
pub open spec fn recip(r: Rational) -> Rational {
    Rational::from_red(r.d(), r.n())
}

/// The duration a retime to `speed` gives a clip (source range preserved).
pub open spec fn retimed_dur(c: ClipV, speed: Rational) -> Rational {
    c.dur.mul_spec(c.speed).mul_spec(recip(speed))
}

/// The right half of a split at `offset`, with id `rid`.
pub open spec fn right_half(c: ClipV, offset: Rational, rid: u64) -> ClipV {
    ClipV {
        id: rid,
        track: c.track,
        asset: c.asset,
        start: c.start.add_spec(offset),
        dur: c.dur.sub_spec(offset),
        src_in: c.src_in.add_spec(offset.mul_spec(c.speed)),
        speed: c.speed,
        label: c.label + "_b"@,
    }
}

/// The effect of a command: the state after it and its outcome.
pub open spec fn run(s: TLView, c: CmdV) -> (TLView, Result<AppliedV, ErrV>)
    decreases c, 1nat,
{
    match c {
        CmdV::Add { id, track, asset, start, dur, src_in, speed, label } => {
            if track >= s.tracks.len() {
                (s, Err(ErrV::UnknownTrack(track)))
            } else if dur.n() <= 0 {
                (s, Err(ErrV::InvalidDuration(dur)))
            } else if speed.n() <= 0 {
                (s, Err(ErrV::InvalidSpeed(speed)))
            } else if id is Some && s.clips.contains_key(id->0) {
                (s, Err(ErrV::IdInUse(id->0)))
            } else {
                let seq = s.tracks[track as int];
                let p = s.ins_pos(seq, start);
                if p > 0 && start.is_lt(s.end_of(seq[p - 1])) {
                    (s, Err(ErrV::Overlap { track, existing: seq[p - 1], at: start }))
                } else if p < seq.len() && s.start_of(seq[p]).is_lt(start.add_spec(dur)) {
                    (s, Err(ErrV::Overlap { track, existing: seq[p], at: start }))
                } else {
                    let cid = match id {
                        Some(i) => i,
                        None => fresh_id(s),
                    };
                    let next = if id is None {
                        (fresh_id(s) + 1) as u64
                    } else {
                        s.next_id
                    };
                    let clip = ClipV { id: cid, track, asset, start, dur, src_in, speed, label };
                    (
                        TLView {
                            kinds: s.kinds,
                            tracks: s.tracks.update(track as int, seq.insert(p, cid)),
                            clips: s.clips.insert(cid, clip),
                            next_id: next,
                        },
                        Ok(
                            AppliedV {
                                assigned: seq![cid],
                                inverse: CmdV::Remove { id: cid },
                                resolved: CmdV::Add {
                                    id: Some(cid),
                                    track,
                                    asset,
                                    start,
                                    dur,
                                    src_in,
                                    speed,
                                    label,
                                },
                            },
                        ),
                    )
                }
            }
        },
        CmdV::Remove { id } => {
            if !s.clips.contains_key(id) {
                (s, Err(ErrV::UnknownClip(id)))
            } else {
                let e = s.clips[id];
                let seq = s.tracks[e.track as int];
                (
                    TLView {
                        kinds: s.kinds,
                        tracks: s.tracks.update(e.track as int, seq.remove(idx(seq, id))),
                        clips: s.clips.remove(id),
                        next_id: s.next_id,
                    },
                    Ok(
                        AppliedV {
                            assigned: Seq::empty(),
                            inverse: CmdV::Add {
                                id: Some(id),
                                track: e.track,
                                asset: e.asset,
                                start: e.start,
                                dur: e.dur,
                                src_in: e.src_in,
                                speed: e.speed,
                                label: e.label,
                            },
                            resolved: c,
                        },
                    ),
                )
            }
        },
        CmdV::Move { id, track: nt, start: ns } => {
            if !s.clips.contains_key(id) {
                (s, Err(ErrV::UnknownClip(id)))
            } else if nt >= s.tracks.len() {
                (s, Err(ErrV::UnknownTrack(nt)))
            } else {
                let e = s.clips[id];
                let old = s.tracks[e.track as int];
                let tracks1 = s.tracks.update(e.track as int, old.remove(idx(old, id)));
                let seq2 = tracks1[nt as int];
                let q = s.ins_pos(seq2, ns);
                if q > 0 && ns.is_lt(s.end_of(seq2[q - 1])) {
                    (s, Err(ErrV::Overlap { track: nt, existing: seq2[q - 1], at: ns }))
                } else if q < seq2.len() && s.start_of(seq2[q]).is_lt(ns.add_spec(e.dur)) {
                    (s, Err(ErrV::Overlap { track: nt, existing: seq2[q], at: ns }))
                } else {
                    (
                        TLView {
                            kinds: s.kinds,
                            tracks: tracks1.update(nt as int, seq2.insert(q, id)),
                            clips: s.clips.insert(id, ClipV { track: nt, start: ns, ..e }),
                            next_id: s.next_id,
                        },
                        Ok(
                            AppliedV {
                                assigned: Seq::empty(),
                                inverse: CmdV::Move { id, track: e.track, start: e.start },
                                resolved: c,
                            },
                        ),
                    )
                }
            }
        },
        CmdV::Resize { id, dur } => {
            if !s.clips.contains_key(id) {
                (s, Err(ErrV::UnknownClip(id)))
            } else if dur.n() <= 0 {
                (s, Err(ErrV::InvalidDuration(dur)))
            } else {
                let e = s.clips[id];
                let seq = s.tracks[e.track as int];
                let p = idx(seq, id);
                if p + 1 < seq.len() && s.start_of(seq[p + 1]).is_lt(e.start.add_spec(dur)) {
                    (s, Err(ErrV::Overlap { track: e.track, existing: seq[p + 1], at: e.start }))
                } else {
                    (
                        TLView { clips: s.clips.insert(id, ClipV { dur, ..e }), ..s },
                        Ok(
                            AppliedV {
                                assigned: Seq::empty(),
                                inverse: CmdV::Resize { id, dur: e.dur },
                                resolved: c,
                            },
                        ),
                    )
                }
            }
        },
        CmdV::Split { id, offset, new_id } => {
            if !s.clips.contains_key(id) {
                (s, Err(ErrV::UnknownClip(id)))
            } else if !(offset.n() > 0 && offset.is_lt(s.clips[id].dur)) {
                (s, Err(ErrV::InvalidSplit { id, offset }))
            } else if new_id is Some && s.clips.contains_key(new_id->0) {
                (s, Err(ErrV::IdInUse(new_id->0)))
            } else {
                let e = s.clips[id];
                let rid = match new_id {
                    Some(n) => n,
                    None => fresh_id(s),
                };
                let next = if new_id is None {
                    (fresh_id(s) + 1) as u64
                } else {
                    s.next_id
                };
                let seq = s.tracks[e.track as int];
                let p = idx(seq, id);
                (
                    TLView {
                        kinds: s.kinds,
                        tracks: s.tracks.update(e.track as int, seq.insert(p + 1, rid)),
                        clips: s.clips.insert(id, ClipV { dur: offset, ..e }).insert(
                            rid,
                            right_half(e, offset, rid),
                        ),
                        next_id: next,
                    },
                    Ok(
                        AppliedV {
                            assigned: seq![rid],
                            inverse: CmdV::Batch {
                                cmds: seq![CmdV::Remove { id: rid }, CmdV::Resize { id, dur: e.dur }],
                                label: "unsplit:"@ + e.label,
                            },
                            resolved: CmdV::Split { id, offset, new_id: Some(rid) },
                        },
                    ),
                )
            }
        },
        CmdV::Retime { id, speed } => {
            if !s.clips.contains_key(id) {
                (s, Err(ErrV::UnknownClip(id)))
            } else if speed.n() <= 0 {
                (s, Err(ErrV::InvalidSpeed(speed)))
            } else {
                let e = s.clips[id];
                let nd = retimed_dur(e, speed);
                let seq = s.tracks[e.track as int];
                let p = idx(seq, id);
                if p + 1 < seq.len() && s.start_of(seq[p + 1]).is_lt(e.start.add_spec(nd)) {
                    (s, Err(ErrV::Overlap { track: e.track, existing: seq[p + 1], at: e.start }))
                } else {
                    (
                        TLView { clips: s.clips.insert(id, ClipV { dur: nd, speed, ..e }), ..s },
                        Ok(
                            AppliedV {
                                assigned: Seq::empty(),
                                inverse: CmdV::Retime { id, speed: e.speed },
                                resolved: c,
                            },
                        ),
                    )
                }
            }
        },
        CmdV::Batch { cmds, label } => {
            let (s2, r) = run_seq(s, cmds);
            match r {
                Ok((invs, ress, asg)) => (
                    s2,
                    Ok(
                        AppliedV {
                            assigned: asg,
                            inverse: CmdV::Batch { cmds: invs.reverse(), label: "undo:"@ + label },
                            resolved: CmdV::Batch { cmds: ress, label },
                        },
                    ),
                ),
                Err((i, e)) => (
                    s.with_counter(s2.next_id),
                    Err(ErrV::BatchRolledBack { applied: i, label, error: Box::new(e) }),
                ),
            }
        },
    }
}

/// The effect of a sequence of commands applied in order, stopping at the
/// first failure: on success, the inverses and resolved forms (in order) and
/// the assigned ids; on failure, the failing position and error, with the
/// state reached after the failed command.
pub open spec fn run_seq(s: TLView, cmds: Seq<CmdV>) -> (
    TLView,
    Result<(Seq<CmdV>, Seq<CmdV>, Seq<u64>), (nat, ErrV)>,
)
    decreases cmds, 0nat,
{
    if cmds.len() == 0 {
        (s, Ok((Seq::empty(), Seq::empty(), Seq::empty())))
    } else {
        let (s1, r) = run(s, cmds[0]);
        match r {
            Err(e) => (s1, Err((0, e))),
            Ok(a) => {
                let (s2, rr) = run_seq(s1, cmds.drop_first());
                match rr {
                    Ok((invs, ress, asg)) => (
                        s2,
                        Ok((seq![a.inverse] + invs, seq![a.resolved] + ress, a.assigned + asg)),
                    ),
                    Err((i, e)) => (s2, Err(((i + 1) as nat, e))),
                }
            },
        }
    }
}

/// The first id at or after `k` that names no clip (`u64::MAX` when every
/// id from `k` on is taken).
pub open spec fn free_from(clips: Map<u64, ClipV>, k: u64) -> u64
    decreases u64::MAX - k,
{
    if !clips.contains_key(k) || k == u64::MAX {
        k
    } else {
        free_from(clips, (k + 1) as u64)
    }
}

/// The id the engine assigns next: the first id at or after the counter
/// that no clip uses, so an assigned id is never one already in use.
pub open spec fn fresh_id(s: TLView) -> u64 {
    free_from(s.clips, s.next_id)
}

/// Room for the counter: the clip table is finite and the counter, moved
/// past every id in use, stays below `u64::MAX`.
pub open spec fn counter_room(s: TLView) -> bool {
    &&& s.clips.dom().finite()
    &&& s.next_id + s.clips.dom().len() < u64::MAX
}

proof fn lemma_free_from(m: Map<u64, ClipV>, k: u64)
    ensures
        k <= free_from(m, k),
        forall|j: u64| k <= j < free_from(m, k) ==> m.contains_key(j),
        free_from(m, k) == u64::MAX || !m.contains_key(free_from(m, k)),
    decreases u64::MAX - k,
{
    if m.contains_key(k) && k < u64::MAX {
        lemma_free_from(m, (k + 1) as u64);
    }
}

/// The ids in `[a, b)`.
spec fn id_range(a: u64, b: u64) -> Set<u64> {
    Set::new(|j: u64| a <= j < b)
}

proof fn lemma_id_range(a: u64, b: u64)
    requires
        a <= b,
    ensures
        id_range(a, b).finite(),
        id_range(a, b).len() == b - a,
    decreases b - a,
{
    if a == b {
        assert(id_range(a, b) =~= Set::<u64>::empty());
    } else {
        let c = (b - 1) as u64;
        lemma_id_range(a, c);
        assert(id_range(a, b) =~= id_range(a, c).insert(c));
    }
}

/// With room for the counter, the assigned id is free and below `u64::MAX`.
pub proof fn lemma_fresh_id(s: TLView)
    requires
        counter_room(s),
    ensures
        s.next_id <= fresh_id(s) < u64::MAX,
        !s.clips.contains_key(fresh_id(s)),
{
    let f = fresh_id(s);
    lemma_free_from(s.clips, s.next_id);
    lemma_id_range(s.next_id, f);
    assert(id_range(s.next_id, f).subset_of(s.clips.dom()));
    vstd::set_lib::lemma_len_subset(id_range(s.next_id, f), s.clips.dom());
}

/// What a command needs to run without panicking: well-formed exact values
/// whose sums, differences and products are representable, and room for
/// the counter wherever an id is assigned.
pub open spec fn pre(s: TLView, c: CmdV) -> bool
    decreases c, 1nat,
{
    match c {
        CmdV::Add { id, start, dur, src_in, speed, .. } => {
            &&& start.wf()
            &&& dur.wf()
            &&& src_in.wf()
            &&& speed.wf()
            &&& start.add_fits(dur)
            &&& id is None ==> counter_room(s)
        },
        CmdV::Remove { .. } => true,
        CmdV::Move { id, start, .. } => {
            &&& start.wf()
            &&& s.clips.contains_key(id) ==> start.add_fits(s.clips[id].dur)
        },
        CmdV::Resize { id, dur } => {
            &&& dur.wf()
            &&& s.clips.contains_key(id) ==> s.clips[id].start.add_fits(dur)
        },
        CmdV::Split { id, offset, new_id } => {
            &&& offset.wf()
            &&& (s.clips.contains_key(id) && offset.n() > 0 && offset.is_lt(s.clips[id].dur)) ==> {
                let e = s.clips[id];
                &&& e.start.add_fits(offset)
                &&& e.dur.sub_fits(offset)
                &&& offset.mul_fits(e.speed)
                &&& e.src_in.add_fits(offset.mul_spec(e.speed))
                &&& new_id is None ==> counter_room(s)
            }
        },
        CmdV::Retime { id, speed } => {
            &&& speed.wf()
            &&& (s.clips.contains_key(id) && speed.n() > 0) ==> {
                let e = s.clips[id];
                &&& e.dur.mul_fits(e.speed)
                &&& e.dur.mul_spec(e.speed).mul_fits(recip(speed))
                &&& e.start.add_fits(retimed_dur(e, speed))
            }
        },
        CmdV::Batch { cmds, .. } => pre_seq(s, cmds),
    }
}

/// What a sequence of commands needs: each command's needs, in the state the
/// commands before it produce (up to the first failure).
pub open spec fn pre_seq(s: TLView, cmds: Seq<CmdV>) -> bool
    decreases cmds, 0nat,
{
    cmds.len() > 0 ==> {
        &&& pre(s, cmds[0])
        &&& run(s, cmds[0]).1 is Ok ==> pre_seq(run(s, cmds[0]).0, cmds.drop_first())
    }
}

} // verus!

verus! {

/// In an ordered sequence of valid clips, starts strictly increase.
pub proof fn lemma_starts_increase(s: TLView, seq: Seq<u64>, i: int, j: int)
    requires
        s.ordered(seq),
        0 <= i < j < seq.len(),
        s.clips[seq[i]].valid(),
        s.clips[seq[j]].valid(),
    ensures
        s.start_of(seq[i]).is_lt(s.start_of(seq[j])),
        s.start_of(seq[i]).is_lt(s.end_of(seq[i])),
{
    let ci = s.clips[seq[i]];
    let cj = s.clips[seq[j]];
    crate::time::lemma_start_lt_end(ci.start, ci.dur);
    assert(s.end_of(seq[i]).is_le(s.start_of(seq[j])));
    crate::time::lemma_lt_le_trans(ci.start, ci.end(), cj.start);
}

/// Every track of a well-formed state is an ordered sequence of valid clips.
pub proof fn lemma_wf_seq_ok(s: TLView, t: int)
    requires
        s.wf(),
        0 <= t < s.tracks.len(),
    ensures
        s.seq_ok(s.tracks[t]),
{
    assert(s.track_ok(t));
    assert forall|i: int| 0 <= i < s.tracks[t].len() implies {
        &&& s.clips.contains_key(#[trigger] s.tracks[t][i])
        &&& s.clips[s.tracks[t][i]].valid()
    } by {
        assert(s.clips.contains_key(s.tracks[t][i]));
    }
}

/// Removing an element keeps a sequence ordered and valid.
pub proof fn lemma_seq_ok_remove(s: TLView, seq: Seq<u64>, p: int)
    requires
        s.seq_ok(seq),
        0 <= p < seq.len(),
    ensures
        s.seq_ok(seq.remove(p)),
{
    let r = seq.remove(p);
    assert forall|i: int, j: int| 0 <= i < j < r.len() implies #[trigger] s.end_of(r[i]).is_le(
        #[trigger] s.start_of(r[j]),
    ) by {
        let i2 = if i < p {
            i
        } else {
            i + 1
        };
        let j2 = if j < p {
            j
        } else {
            j + 1
        };
        assert(r[i] == seq[i2] && r[j] == seq[j2]);
        assert(s.end_of(seq[i2]).is_le(s.start_of(seq[j2])));
    }
    assert forall|i: int| 0 <= i < r.len() implies {
        &&& s.clips.contains_key(#[trigger] r[i])
        &&& s.clips[r[i]].valid()
    } by {
        let i2 = if i < p {
            i
        } else {
            i + 1
        };
        assert(r[i] == seq[i2]);
    }
}

/// The insertion position in a sequence with one element removed.
pub proof fn lemma_ins_pos_remove(s: TLView, seq: Seq<u64>, x: Rational, pos: int, sp: int)
    requires
        s.is_ins_pos(seq, x, pos),
        0 <= sp < seq.len(),
    ensures
        s.is_ins_pos(seq.remove(sp), x, if pos > sp { pos - 1 } else { pos }),
{
    let r = seq.remove(sp);
    let q = if pos > sp {
        pos - 1
    } else {
        pos
    };
    assert forall|j: int| 0 <= j < q implies #[trigger] s.start_of(r[j]).is_lt(x) by {
        if j < sp {
            assert(r[j] == seq[j]);
        } else {
            assert(r[j] == seq[j + 1]);
        }
    }
    assert forall|j: int| q <= j < r.len() implies !#[trigger] s.start_of(r[j]).is_lt(x) by {
        if j < sp {
            assert(r[j] == seq[j]);
        } else {
            assert(r[j] == seq[j + 1]);
        }
    }
}

/// Insertion positions are unique.
pub proof fn lemma_ins_pos_unique(s: TLView, seq: Seq<u64>, x: Rational, p: int, q: int)
    requires
        s.is_ins_pos(seq, x, p),
        s.is_ins_pos(seq, x, q),
    ensures
        p == q,
{
    if p < q {
        assert(s.start_of(seq[p]).is_lt(x));
    } else if q < p {
        assert(s.start_of(seq[q]).is_lt(x));
    }
}

/// A computed insertion position is the one the model names.
pub proof fn lemma_ins_pos_is(s: TLView, seq: Seq<u64>, x: Rational, p: int)
    requires
        s.is_ins_pos(seq, x, p),
    ensures
        s.ins_pos(seq, x) == p,
{
    lemma_ins_pos_unique(s, seq, x, s.ins_pos(seq, x), p);
}

/// In a well-formed state each id occurs at most once in a track.
pub proof fn lemma_idx_is(s: TLView, t: int, i: int)
    requires
        s.wf(),
        0 <= t < s.tracks.len(),
        0 <= i < s.tracks[t].len(),
    ensures
        idx(s.tracks[t], s.tracks[t][i]) == i,
{
    let seq = s.tracks[t];
    let id = seq[i];
    assert(s.track_ok(t));
    let k = idx(seq, id);
    assert(0 <= k < seq.len() && seq[k] == id);
    if k != i {
        let (a, b) = if k < i {
            (k, i)
        } else {
            (i, k)
        };
        assert(seq[a] == id);
        assert(seq[b] == id);
        assert(s.clips.contains_key(id));
        lemma_starts_increase(s, seq, a, b);
    }
}

} // verus!
