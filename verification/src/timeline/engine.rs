//! Command application (validation before mutation, exact inverses), and the
//! session engine with undo/redo stacks and a replayable journal.
use crate::time::Rational;
use crate::timeline::clip::{ClipEntry, ClipId, TrackId, TrackKind};
use crate::timeline::command::{
    cmd_view, cmds_view, lemma_cmds_view, lemma_cmds_view_push, verb_of, CmdV, Command,
};
use crate::timeline::preserve::{lemma_ins_pos_frame, lemma_seq_distinct, lemma_seq_ok_frame};
use crate::timeline::laws::{
    lemma_after_apply, lemma_after_redo, lemma_after_undo, lemma_idx_of, lemma_track_ids,
    lemma_inverse, lemma_redoable_counter, lemma_resolved, lemma_undoable_counter, redoable,
    undoable, lemma_prefix_facts, lemma_prefix_ok, lemma_run_counter, lemma_run_prefix,
    lemma_run_wf, lemma_weight_elem, lemma_wf_same_content, weight,
};
use crate::timeline::model::{
    idx, lemma_ins_pos_is, lemma_ins_pos_remove, lemma_seq_ok_remove, lemma_wf_seq_ok, pre,
    pre_seq, run, run_seq, AppliedV, ErrV, TLView,
};
use crate::timeline::state::TimelineState;
use crate::text::{debug_quoted, debug_str, decimal_of, digits_of, push_digits};
use crate::time::rational_text;
use vstd::prelude::*;

verus! {

#[derive(Debug, PartialEq)]
pub enum TimelineError {
    UnknownClip(ClipId),
    UnknownTrack(TrackId),
    /// A clip already occupies the requested range on the track.
    Overlap { track: TrackId, existing: ClipId, at: Rational },
    /// Duration must be > 0.
    InvalidDuration(Rational),
    /// Speed must be > 0.
    InvalidSpeed(Rational),
    /// Explicit id already in use.
    IdInUse(ClipId),
    /// Split offset must satisfy 0 < offset < clip duration.
    InvalidSplit { id: ClipId, offset: Rational },
    /// A batch failed; the applied prefix was rolled back.
    BatchRolledBack { applied: usize, label: String, error: Box<TimelineError> },
    UndoUnavailable,
    RedoUnavailable,
    /// A position outside a track's sequence.
    IndexOutOfBounds { index: usize, len: usize },
}

/// The abstract value of an error.
pub open spec fn err_view(e: TimelineError) -> ErrV
    decreases e,
{
    match e {
        TimelineError::UnknownClip(id) => ErrV::UnknownClip(id.0),
        TimelineError::UnknownTrack(t) => ErrV::UnknownTrack(t.0),
        TimelineError::Overlap { track, existing, at } => ErrV::Overlap {
            track: track.0,
            existing: existing.0,
            at,
        },
        TimelineError::InvalidDuration(r) => ErrV::InvalidDuration(r),
        TimelineError::InvalidSpeed(r) => ErrV::InvalidSpeed(r),
        TimelineError::IdInUse(id) => ErrV::IdInUse(id.0),
        TimelineError::InvalidSplit { id, offset } => ErrV::InvalidSplit { id: id.0, offset },
        TimelineError::BatchRolledBack { applied, label, error } => ErrV::BatchRolledBack {
            applied: applied as nat,
            label: label@,
            error: Box::new(err_view(*error)),
        },
        TimelineError::UndoUnavailable => ErrV::UndoUnavailable,
        TimelineError::RedoUnavailable => ErrV::RedoUnavailable,
        TimelineError::IndexOutOfBounds { index, len } => ErrV::IndexOutOfBounds {
            index: index as nat,
            len: len as nat,
        },
    }
}

impl View for TimelineError {
    type V = ErrV;

    open spec fn view(&self) -> ErrV {
        err_view(*self)
    }
}

/// `Name(n)`: the debug text of an id newtype.
pub open spec fn id_text(name: Seq<char>, n: int) -> Seq<char> {
    name + seq!['('] + decimal_of(n) + seq![')']
}

/// The display text of an error.
pub open spec fn err_text(e: ErrV) -> Seq<char>
    decreases e,
{
    match e {
        ErrV::UnknownClip(id) => "unknown clip "@ + id_text("ClipId"@, id as int),
        ErrV::UnknownTrack(t) => "unknown track "@ + id_text("TrackId"@, t as int),
        ErrV::Overlap { track, existing, at } => "overlap on track "@ + id_text("TrackId"@, track as int)
            + " at "@ + rational_text(at) + " (clip "@ + id_text("ClipId"@, existing as int) + ")"@,
        ErrV::InvalidDuration(r) => "invalid duration "@ + rational_text(r) + " (must be > 0)"@,
        ErrV::InvalidSpeed(r) => "invalid speed "@ + rational_text(r) + " (must be > 0)"@,
        ErrV::IdInUse(id) => "clip id "@ + id_text("ClipId"@, id as int) + " already in use"@,
        ErrV::InvalidSplit { id, offset } => "split offset "@ + rational_text(offset)
            + " out of range for clip "@ + id_text("ClipId"@, id as int),
        ErrV::BatchRolledBack { applied, label, error } => "batch "@ + debug_quoted(label)
            + " failed after "@ + decimal_of(applied as int) + " applied (rolled back): "@
            + err_text(*error),
        ErrV::UndoUnavailable => "nothing to undo"@,
        ErrV::RedoUnavailable => "nothing to redo"@,
        ErrV::IndexOutOfBounds { index, len } => "index "@ + decimal_of(index as int) + " out of bounds (len "@
            + decimal_of(len as int) + ")"@,
    }
}

/// Append `Name(n)`.
fn push_id(s: &mut String, name: &str, n: u64)
    ensures
        final(s)@ == old(s)@ + id_text(name@, n as int),
{
    s.append(name);
    s.append("(");
    push_digits(s, n);
    s.append(")");
    proof {
        reveal_strlit("(");
        reveal_strlit(")");
        assert(old(s)@ + name@ + seq!['('] + digits_of(n as nat) + seq![')'] =~= old(s)@ + id_text(
            name@,
            n as int,
        ));
    }
}

impl TimelineError {
    /// Append the display text.
    pub fn push_message(&self, s: &mut String)
        ensures
            final(s)@ == old(s)@ + err_text(err_view(*self)),
        decreases self,
    {
        let ghost s0 = s@;
        match self {
            TimelineError::UnknownClip(id) => {
                s.append("unknown clip ");
                push_id(s, "ClipId", id.0);
                assert(s@ =~= s0 + err_text(err_view(*self)));
            },
            TimelineError::UnknownTrack(t) => {
                s.append("unknown track ");
                push_id(s, "TrackId", t.0 as u64);
                assert(s@ =~= s0 + err_text(err_view(*self)));
            },
            TimelineError::Overlap { track, existing, at } => {
                s.append("overlap on track ");
                push_id(s, "TrackId", track.0 as u64);
                s.append(" at ");
                at.push_text(s);
                s.append(" (clip ");
                push_id(s, "ClipId", existing.0);
                s.append(")");
                assert(s@ =~= s0 + err_text(err_view(*self)));
            },
            TimelineError::InvalidDuration(r) => {
                s.append("invalid duration ");
                r.push_text(s);
                s.append(" (must be > 0)");
                assert(s@ =~= s0 + err_text(err_view(*self)));
            },
            TimelineError::InvalidSpeed(r) => {
                s.append("invalid speed ");
                r.push_text(s);
                s.append(" (must be > 0)");
                assert(s@ =~= s0 + err_text(err_view(*self)));
            },
            TimelineError::IdInUse(id) => {
                s.append("clip id ");
                push_id(s, "ClipId", id.0);
                s.append(" already in use");
                assert(s@ =~= s0 + err_text(err_view(*self)));
            },
            TimelineError::InvalidSplit { id, offset } => {
                s.append("split offset ");
                offset.push_text(s);
                s.append(" out of range for clip ");
                push_id(s, "ClipId", id.0);
                assert(s@ =~= s0 + err_text(err_view(*self)));
            },
            TimelineError::BatchRolledBack { applied, label, error } => {
                s.append("batch ");
                let q = debug_str(label.as_str());
                s.append(q.as_str());
                s.append(" failed after ");
                push_digits(s, *applied as u64);
                s.append(" applied (rolled back): ");
                error.push_message(s);
                assert(s@ =~= s0 + err_text(err_view(*self)));
            },
            TimelineError::UndoUnavailable => {
                s.append("nothing to undo");
                assert(s@ =~= s0 + err_text(err_view(*self)));
            },
            TimelineError::RedoUnavailable => {
                s.append("nothing to redo");
                assert(s@ =~= s0 + err_text(err_view(*self)));
            },
            TimelineError::IndexOutOfBounds { index, len } => {
                s.append("index ");
                push_digits(s, *index as u64);
                s.append(" out of bounds (len ");
                push_digits(s, *len as u64);
                s.append(")");
                assert(s@ =~= s0 + err_text(err_view(*self)));
            },
        }
    }

    /// The display text.
    pub fn message(&self) -> (r: String)
        ensures
            r@ == err_text(err_view(*self)),
    {
        let mut s = String::new();
        self.push_message(&mut s);
        assert(s@ =~= err_text(err_view(*self)));
        s
    }
}

/// Outcome of one successful atomic application.
#[derive(Debug)]
pub struct Applied {
    /// Engine-assigned ids in assignment order.
    pub assigned: Vec<ClipId>,
    /// Exact inverse computed against the pre-state.
    pub inverse: Command,
    /// The resolved command: engine-assigned ids replaced by concrete ids.
    pub resolved: Command,
}

pub open spec fn ids_view(v: Seq<ClipId>) -> Seq<u64> {
    v.map_values(|c: ClipId| c.0)
}

impl View for Applied {
    type V = AppliedV;

    open spec fn view(&self) -> AppliedV {
        AppliedV {
            assigned: ids_view(self.assigned@),
            inverse: self.inverse@,
            resolved: self.resolved@,
        }
    }
}

/// The outcome of `apply_command` matches the model.
pub open spec fn outcome_matches(r: Result<Applied, TimelineError>, m: Result<AppliedV, ErrV>) -> bool {
    match (r, m) {
        (Ok(a), Ok(av)) => a@ == av,
        (Err(e), Err(ev)) => e@ == ev,
        _ => false,
    }
}

/// Positive value (the denominator is positive by construction).
pub fn positive(r: Rational) -> (b: bool)
    ensures
        b == (r.n() > 0),
{
    r.num() > 0
}

/// Successor `(id, start)` at position `pos + 1` on a track, if any.
pub fn successor_of(state: &TimelineState, t: TrackId, pos: usize) -> (r: Option<(ClipId, Rational)>)
    requires
        state@.wf(),
        (t.0 as int) < state@.tracks.len(),
        pos < state@.tracks[t.0 as int].len(),
    ensures
        ({
            let seq = state@.tracks[t.0 as int];
            match r {
                Some((id, st)) => pos + 1 < seq.len() && id.0 == seq[pos + 1] && st
                    == state@.start_of(seq[pos + 1]),
                None => pos + 1 >= seq.len(),
            }
        }),
{
    proof {
        state.lemma_len_bound();
    }
    match state.clip_at_pos(t, pos + 1) {
        Some(cid) => {
            proof {
                assert(state@.track_ok(t.0 as int));
                assert(state@.clips.contains_key(cid.0));
            }
            match state.clip(cid) {
                Some(e) => Some((cid, e.start)),
                None => None,
            }
        },
        None => None,
    }
}

/// Apply one command atomically: validate fully, mutate, compute the exact
/// inverse. On failure the observable state is unchanged (including inside
/// batches: the applied prefix is rolled back via the sub-inverses).
pub fn apply_command(state: &mut TimelineState, cmd: &Command) -> (r: Result<Applied, TimelineError>)
    requires
        old(state)@.wf(),
        pre(old(state)@, cmd@),
    ensures
        final(state)@ == run(old(state)@, cmd@).0,
        outcome_matches(r, run(old(state)@, cmd@).1),
        final(state)@.wf(),
    decreases weight(cmd@), 1nat,
{
    let ghost s0 = state@;
    proof {
        lemma_run_wf(s0, cmd@);
    }
    match cmd {
        Command::AddClip { .. } => apply_add(state, cmd),
        Command::RemoveClip { .. } => apply_remove(state, cmd),
        Command::MoveClip { .. } => apply_move(state, cmd),
        Command::ResizeClip { .. } => apply_resize(state, cmd),
        Command::SplitClip { .. } => apply_split(state, cmd),
        Command::RetimeClip { .. } => apply_retime(state, cmd),
        Command::Batch { .. } => apply_batch(state, cmd),
    }
}

/// Add a clip: the track must exist, duration and speed be positive, an
/// explicit id be free, and the clip must not overlap its neighbours.
fn apply_add(state: &mut TimelineState, cmd: &Command) -> (r: Result<Applied, TimelineError>)
    requires
        old(state)@.wf(),
        pre(old(state)@, cmd@),
        cmd@ is Add,
    ensures
        final(state)@ == run(old(state)@, cmd@).0,
        outcome_matches(r, run(old(state)@, cmd@).1),
{
    let ghost s0 = state@;
    match cmd {
        Command::AddClip { id, track, asset, start, dur, src_in, speed, label } => {
            if track.0 as usize >= state.track_count() {
                return Err(TimelineError::UnknownTrack(*track));
            }
            if !positive(*dur) {
                return Err(TimelineError::InvalidDuration(*dur));
            }
            if !positive(*speed) {
                return Err(TimelineError::InvalidSpeed(*speed));
            }
            if let Some(id) = id {
                if !state.id_free(*id) {
                    return Err(TimelineError::IdInUse(*id));
                }
            }
            proof {
                lemma_wf_seq_ok(s0, track.0 as int);
            }
            let pos = state.insertion_pos(*track, *start);
            let ghost seq = s0.tracks[track.0 as int];
            proof {
                lemma_ins_pos_is(s0, seq, *start, pos as int);
                assert(s0.track_ok(track.0 as int));
            }
            let (pred, succ) = state.neighbors_at(*track, pos);
            if let Some(p) = pred {
                let pe = p.end();
                if start.less_than(&pe) {
                    return Err(
                        TimelineError::Overlap { track: *track, existing: p.id, at: *start },
                    );
                }
            }
            if let Some(s) = succ {
                let se = start.add(*dur);
                if s.start.less_than(&se) {
                    return Err(
                        TimelineError::Overlap { track: *track, existing: s.id, at: *start },
                    );
                }
            }
            let cid = match id {
                Some(id) => *id,
                None => state.assign_id(),
            };
            state.insert_clip(*track, cid, pos);
            state.put_clip(
                ClipEntry {
                    id: cid,
                    track: *track,
                    asset: *asset,
                    start: *start,
                    dur: *dur,
                    src_in: *src_in,
                    speed: *speed,
                    label: label.clone(),
                },
            );
            let resolved = Command::AddClip {
                id: Some(cid),
                track: *track,
                asset: *asset,
                start: *start,
                dur: *dur,
                src_in: *src_in,
                speed: *speed,
                label: label.clone(),
            };
            let a = Applied {
                assigned: vec![cid],
                inverse: Command::RemoveClip { id: cid },
                resolved,
            };
            proof {
                assert(ids_view(a.assigned@) =~= seq![cid.0]);
                assert(state@.tracks =~= run(s0, cmd@).0.tracks);
            }
            Ok(a)
        },
        _ => Err(TimelineError::UndoUnavailable),
    }
}

/// Remove a clip; its inverse adds it back with the same id.
fn apply_remove(state: &mut TimelineState, cmd: &Command) -> (r: Result<Applied, TimelineError>)
    requires
        old(state)@.wf(),
        pre(old(state)@, cmd@),
        cmd@ is Remove,
    ensures
        final(state)@ == run(old(state)@, cmd@).0,
        outcome_matches(r, run(old(state)@, cmd@).1),
{
    let ghost s0 = state@;
    match cmd {
        Command::RemoveClip { id } => {
            let entry = match state.clip(*id) {
                Some(e) => e.clone(),
                None => return Err(TimelineError::UnknownClip(*id)),
            };
            let pos = state.position_of(entry.track, *id);
            state.remove_clip_from_track(entry.track, pos);
            state.take_clip(*id);
            let a = Applied {
                assigned: Vec::new(),
                inverse: Command::AddClip {
                    id: Some(*id),
                    track: entry.track,
                    asset: entry.asset,
                    start: entry.start,
                    dur: entry.dur,
                    src_in: entry.src_in,
                    speed: entry.speed,
                    label: entry.label,
                },
                resolved: Command::RemoveClip { id: *id },
            };
            proof {
                assert(ids_view(a.assigned@) =~= Seq::<u64>::empty());
            }
            Ok(a)
        },
        _ => Err(TimelineError::UndoUnavailable),
    }
}

/// Move (and possibly re-track) a clip, validated against the target
/// neighbours without the clip itself.
fn apply_move(state: &mut TimelineState, cmd: &Command) -> (r: Result<Applied, TimelineError>)
    requires
        old(state)@.wf(),
        pre(old(state)@, cmd@),
        cmd@ is Move,
    ensures
        final(state)@ == run(old(state)@, cmd@).0,
        outcome_matches(r, run(old(state)@, cmd@).1),
{
    let ghost s0 = state@;
    match cmd {
        Command::MoveClip { id, track: new_track, start: new_start } => {
            let entry = match state.clip(*id) {
                Some(e) => e.clone(),
                None => return Err(TimelineError::UnknownClip(*id)),
            };
            if new_track.0 as usize >= state.track_count() {
                return Err(TimelineError::UnknownTrack(*new_track));
            }
            let ghost e = s0.clips[id.0];
            let ghost old_seq = s0.tracks[e.track as int];
            let ghost sp = idx(old_seq, id.0);
            let ghost tracks1 = s0.tracks.update(e.track as int, old_seq.remove(sp));
            let ghost seq2 = tracks1[new_track.0 as int];
            let same_track = entry.track.0 == new_track.0;
            proof {
                lemma_idx_of(s0, id.0);
                lemma_wf_seq_ok(s0, new_track.0 as int);
                lemma_seq_ok_remove(s0, old_seq, sp);
                assert forall|i: int| 0 <= i < seq2.len() implies {
                    let x = #[trigger] seq2[i];
                    &&& x != id.0
                    &&& s0.clips.contains_key(x)
                    &&& s0.clips[x].id == x
                } by {
                    if same_track {
                        let k = if i < sp {
                            i
                        } else {
                            i + 1
                        };
                        assert(seq2[i] == old_seq[k]);
                        lemma_seq_distinct(s0, old_seq, k, sp);
                        lemma_track_ids(s0, e.track as int, k);
                    } else {
                        lemma_track_ids(s0, new_track.0 as int, i);
                    }
                }
                assert(s0.seq_ok(seq2));
            }
            let pos = state.insertion_pos(*new_track, *new_start);
            proof {
                if same_track {
                    lemma_ins_pos_remove(s0, old_seq, *new_start, pos as int, sp);
                    let q = if pos > sp {
                        pos - 1
                    } else {
                        pos as int
                    };
                    lemma_ins_pos_is(s0, seq2, *new_start, q);
                } else {
                    lemma_ins_pos_is(s0, seq2, *new_start, pos as int);
                }
            }
            let (pred, succ) = if same_track {
                state.neighbors_excluding(*new_track, pos, *id)
            } else {
                state.neighbors_at(*new_track, pos)
            };
            let ghost q = s0.ins_pos(seq2, *new_start);
            if let Some(p) = pred {
                proof {
                    assert(s0.clips.contains_key(seq2[q - 1]));
                }
                let pe = p.end();
                if new_start.less_than(&pe) {
                    return Err(
                        TimelineError::Overlap { track: *new_track, existing: p.id, at: *new_start },
                    );
                }
            }
            if let Some(s) = succ {
                proof {
                    assert(s0.clips.contains_key(seq2[q]));
                }
                let se = new_start.add(entry.dur);
                if s.start.less_than(&se) {
                    return Err(
                        TimelineError::Overlap { track: *new_track, existing: s.id, at: *new_start },
                    );
                }
            }
            let old_pos = state.position_of(entry.track, *id);
            state.remove_clip_from_track(entry.track, old_pos);
            let mut updated = entry.clone();
            updated.track = *new_track;
            updated.start = *new_start;
            let ghost mid = state@;
            proof {
                assert(mid.tracks == tracks1);
                assert(mid.clips == s0.clips);
                lemma_seq_ok_frame(s0, mid, seq2);
            }
            let ins = state.insertion_pos(*new_track, *new_start);
            proof {
                lemma_ins_pos_frame(s0, mid, seq2, *new_start, ins as int);
                lemma_ins_pos_is(s0, seq2, *new_start, ins as int);
            }
            state.insert_clip(*new_track, *id, ins);
            state.put_clip(updated);
            let a = Applied {
                assigned: Vec::new(),
                inverse: Command::MoveClip { id: *id, track: entry.track, start: entry.start },
                resolved: Command::MoveClip { id: *id, track: *new_track, start: *new_start },
            };
            proof {
                assert(ids_view(a.assigned@) =~= Seq::<u64>::empty());
            }
            Ok(a)
        },
        _ => Err(TimelineError::UndoUnavailable),
    }
}

/// Change a clip's duration; it must stay positive and not reach into the
/// successor.
fn apply_resize(state: &mut TimelineState, cmd: &Command) -> (r: Result<Applied, TimelineError>)
    requires
        old(state)@.wf(),
        pre(old(state)@, cmd@),
        cmd@ is Resize,
    ensures
        final(state)@ == run(old(state)@, cmd@).0,
        outcome_matches(r, run(old(state)@, cmd@).1),
{
    let ghost s0 = state@;
    match cmd {
        Command::ResizeClip { id, dur } => {
            let entry = match state.clip(*id) {
                Some(e) => e.clone(),
                None => return Err(TimelineError::UnknownClip(*id)),
            };
            proof {
                lemma_idx_of(s0, id.0);
                state.lemma_len_bound();
            }
            if !positive(*dur) {
                return Err(TimelineError::InvalidDuration(*dur));
            }
            let pos = state.position_of(entry.track, *id);
            proof {
                lemma_wf_seq_ok(s0, entry.track.0 as int);
            }
            if let Some((succ_id, succ_start)) = successor_of(state, entry.track, pos) {
                let se = entry.start.add(*dur);
                if succ_start.less_than(&se) {
                    return Err(
                        TimelineError::Overlap {
                            track: entry.track,
                            existing: succ_id,
                            at: entry.start,
                        },
                    );
                }
            }
            let old_dur = entry.dur;
            let mut updated = entry;
            updated.dur = *dur;
            state.put_clip(updated);
            let a = Applied {
                assigned: Vec::new(),
                inverse: Command::ResizeClip { id: *id, dur: old_dur },
                resolved: Command::ResizeClip { id: *id, dur: *dur },
            };
            proof {
                assert(ids_view(a.assigned@) =~= Seq::<u64>::empty());
            }
            Ok(a)
        },
        _ => Err(TimelineError::UndoUnavailable),
    }
}

/// Split a clip at an offset inside it: the left part keeps the id, the
/// right part gets the given or next engine id.
fn apply_split(state: &mut TimelineState, cmd: &Command) -> (r: Result<Applied, TimelineError>)
    requires
        old(state)@.wf(),
        pre(old(state)@, cmd@),
        cmd@ is Split,
    ensures
        final(state)@ == run(old(state)@, cmd@).0,
        outcome_matches(r, run(old(state)@, cmd@).1),
{
    let ghost s0 = state@;
    match cmd {
        Command::SplitClip { id, offset, new_id } => {
            let entry = match state.clip(*id) {
                Some(e) => e.clone(),
                None => return Err(TimelineError::UnknownClip(*id)),
            };
            proof {
                lemma_idx_of(s0, id.0);
                state.lemma_len_bound();
            }
            let zero = Rational::zero(1);
            if !(zero.less_than(offset) && offset.less_than(&entry.dur)) {
                return Err(TimelineError::InvalidSplit { id: *id, offset: *offset });
            }
            if let Some(nid) = new_id {
                if !state.id_free(*nid) {
                    return Err(TimelineError::IdInUse(*nid));
                }
            }
            let pos = state.position_of(entry.track, *id);
            let right_id = match new_id {
                Some(nid) => *nid,
                None => state.assign_id(),
            };
            proof {
                entry.start.lemma_add_value(*offset);
                entry.dur.lemma_sub_value(*offset);
            }
            let mut rlabel = entry.label.clone();
            rlabel.append("_b");
            let right = ClipEntry {
                id: right_id,
                track: entry.track,
                asset: entry.asset,
                start: entry.start.add(*offset),
                dur: entry.dur.sub(*offset),
                src_in: entry.src_at(*offset),
                speed: entry.speed,
                label: rlabel,
            };
            let old_dur = entry.dur;
            let etrack = entry.track;
            let mut ulabel = String::from_str("unsplit:");
            ulabel.append(entry.label.as_str());
            let mut updated = entry;
            updated.dur = *offset;
            state.put_clip(updated);
            state.put_clip(right);
            state.insert_clip(etrack, right_id, pos + 1);
            let resolved = Command::SplitClip { id: *id, offset: *offset, new_id: Some(right_id) };
            let undo_cmds = vec![
                Command::RemoveClip { id: right_id },
                Command::ResizeClip { id: *id, dur: old_dur },
            ];
            proof {
                lemma_cmds_view(undo_cmds@);
                assert(cmds_view(undo_cmds@) =~= seq![
                    CmdV::Remove { id: right_id.0 },
                    CmdV::Resize { id: id.0, dur: old_dur },
                ]);
            }
            let a = Applied {
                assigned: vec![right_id],
                inverse: Command::Batch { cmds: undo_cmds, label: ulabel },
                resolved,
            };
            proof {
                assert(ids_view(a.assigned@) =~= seq![right_id.0]);
            }
            Ok(a)
        },
        _ => Err(TimelineError::UndoUnavailable),
    }
}

/// Change a clip's speed, keeping its source range: the new duration is
/// `dur * speed / new_speed`, exactly.
fn apply_retime(state: &mut TimelineState, cmd: &Command) -> (r: Result<Applied, TimelineError>)
    requires
        old(state)@.wf(),
        pre(old(state)@, cmd@),
        cmd@ is Retime,
    ensures
        final(state)@ == run(old(state)@, cmd@).0,
        outcome_matches(r, run(old(state)@, cmd@).1),
{
    let ghost s0 = state@;
    match cmd {
        Command::RetimeClip { id, speed } => {
            let entry = match state.clip(*id) {
                Some(e) => e.clone(),
                None => return Err(TimelineError::UnknownClip(*id)),
            };
            proof {
                lemma_idx_of(s0, id.0);
                state.lemma_len_bound();
            }
            if !positive(*speed) {
                return Err(TimelineError::InvalidSpeed(*speed));
            }
            let sd = entry.src_dur();
            let inv = Rational::new(speed.den(), speed.num());
            let new_dur = sd.mul(inv);
            let pos = state.position_of(entry.track, *id);
            proof {
                lemma_wf_seq_ok(s0, entry.track.0 as int);
            }
            if let Some((succ_id, succ_start)) = successor_of(state, entry.track, pos) {
                let se = entry.start.add(new_dur);
                if succ_start.less_than(&se) {
                    return Err(
                        TimelineError::Overlap {
                            track: entry.track,
                            existing: succ_id,
                            at: entry.start,
                        },
                    );
                }
            }
            let old_speed = entry.speed;
            let mut updated = entry;
            updated.dur = new_dur;
            updated.speed = *speed;
            state.put_clip(updated);
            let a = Applied {
                assigned: Vec::new(),
                inverse: Command::RetimeClip { id: *id, speed: old_speed },
                resolved: Command::RetimeClip { id: *id, speed: *speed },
            };
            proof {
                assert(ids_view(a.assigned@) =~= Seq::<u64>::empty());
            }
            Ok(a)
        },
        _ => Err(TimelineError::UndoUnavailable),
    }
}


/// Apply the commands of a batch in order. On the first failure the applied
/// prefix is undone with its inverses in reverse order (all or nothing) and
/// the failure is reported with the number of commands that had succeeded.
fn apply_batch(state: &mut TimelineState, cmd: &Command) -> (r: Result<Applied, TimelineError>)
    requires
        old(state)@.wf(),
        pre(old(state)@, cmd@),
        cmd@ is Batch,
    ensures
        final(state)@ == run(old(state)@, cmd@).0,
        outcome_matches(r, run(old(state)@, cmd@).1),
        final(state)@.wf(),
    decreases weight(cmd@), 0nat,
{
    let ghost s0 = state@;
    match cmd {
        Command::Batch { cmds, label } => {
            let ghost cv = cmds_view(cmds@);
            proof {
                lemma_cmds_view(cmds@);
                assert(cv.take(0) =~= Seq::<CmdV>::empty());
                assert(cmds_view(Seq::<Command>::empty()) =~= Seq::<CmdV>::empty());
                assert(ids_view(Seq::<ClipId>::empty()) =~= Seq::<u64>::empty());
            }
            let mut inverses: Vec<Command> = Vec::new();
            let mut resolved_subs: Vec<Command> = Vec::new();
            let mut assigned: Vec<ClipId> = Vec::new();
            let mut i: usize = 0;
            while i < cmds.len()
                invariant
                    i <= cmds@.len(),
                    cv == cmds_view(cmds@),
                    cv.len() == cmds@.len(),
                    forall|j: int| 0 <= j < cmds@.len() ==> #[trigger] cv[j] == cmd_view(cmds@[j]),
                    cmd@ == (CmdV::Batch { cmds: cv, label: label@ }),
                    s0 == old(state)@,
                    s0.wf(),
                    pre_seq(s0, cv),
                    run_seq(s0, cv.take(i as int)).1 is Ok,
                    run_seq(s0, cv.take(i as int)).0 == state@,
                    run_seq(s0, cv.take(i as int)).1->Ok_0 == (
                        cmds_view(inverses@),
                        cmds_view(resolved_subs@),
                        ids_view(assigned@),
                    ),
                    inverses@.len() == i,
                    state@.wf(),
                decreases cmds@.len() - i,
            {
                let ghost si = state@;
                proof {
                    lemma_prefix_facts(s0, cv, i as int + 1);
                    lemma_run_prefix(s0, cv, i as int);
                    lemma_weight_elem(cv, i as int);
                }
                match apply_command(state, &cmds[i]) {
                    Ok(a) => {
                        let Applied { assigned: mut asg, inverse, resolved } = a;
                        proof {
                            lemma_cmds_view_push(inverses@, inverse);
                            lemma_cmds_view_push(resolved_subs@, resolved);
                            assert(ids_view(assigned@ + asg@) =~= ids_view(assigned@) + ids_view(
                                asg@,
                            ));
                        }
                        inverses.push(inverse);
                        resolved_subs.push(resolved);
                        assigned.append(&mut asg);
                    },
                    Err(e) => {
                        let ghost k = state@.next_id;
                        let ghost ev = e@;
                        proof {
                            lemma_run_wf(si, cv[i as int]);
                        }
                        let mut j: usize = i;
                        while j > 0
                            invariant
                                j <= i,
                                i < cmds@.len(),
                                cv == cmds_view(cmds@),
                                cv.len() == cmds@.len(),
                                cmd@ == (CmdV::Batch { cmds: cv, label: label@ }),
                                s0 == old(state)@,
                                s0.wf(),
                                pre_seq(s0, cv),
                                inverses@.len() == i,
                                run_seq(s0, cv.take(i as int)).1 is Ok,
                                cmds_view(inverses@) == run_seq(s0, cv.take(i as int)).1->Ok_0.0,
                                state@ == run_seq(s0, cv.take(j as int)).0.with_counter(k),
                            decreases j,
                        {
                            let ghost jj = j as int - 1;
                            proof {
                                lemma_prefix_ok(s0, cv, jj, i as int);
                                lemma_prefix_ok(s0, cv, jj + 1, i as int);
                                lemma_run_prefix(s0, cv, jj);
                                lemma_prefix_facts(s0, cv, jj);
                                lemma_prefix_facts(s0, cv, jj + 1);
                                let sj = run_seq(s0, cv.take(jj)).0;
                                let s1 = run_seq(s0, cv.take(jj + 1)).0;
                                lemma_inverse(sj, cv[jj]);
                                let inv = run(sj, cv[jj]).1->Ok_0.inverse;
                                lemma_cmds_view(inverses@);
                                let big = run_seq(s0, cv.take(i as int)).1->Ok_0.0;
                                let small = run_seq(s0, cv.take(jj + 1)).1->Ok_0.0;
                                assert(run(sj, cv[jj]).1 is Ok);
                                assert(small == run_seq(s0, cv.take(jj)).1->Ok_0.0.push(inv));
                                assert(small[jj] == inv);
                                assert(big.take(jj + 1)[jj] == big[jj]);
                                assert(cmds_view(inverses@)[jj] == inv);
                                lemma_run_counter(s1, inv, k);
                                lemma_wf_same_content(s1, s1.with_counter(k));
                                lemma_weight_elem(cv, jj);
                            }
                            let _ = apply_command(state, &inverses[j - 1]);
                            proof {
                                let sj = run_seq(s0, cv.take(jj)).0;
                                assert(state@ == sj.with_counter(k));
                            }
                            j -= 1;
                        }
                        proof {
                            lemma_wf_same_content(s0, s0.with_counter(k));
                            assert(cv.take(0) =~= Seq::<CmdV>::empty());
                            lemma_prefix_facts(s0, cv, i as int + 1);
                            lemma_run_prefix(s0, cv, i as int);
                            assert(run_seq(s0, cv) == (run(si, cv[i as int]).0, Err::<
                                (Seq<CmdV>, Seq<CmdV>, Seq<u64>),
                                (nat, ErrV),
                            >((i as nat, ev))));
                            assert(run_seq(s0, Seq::<CmdV>::empty()).0 == s0);
                            assert(state@ == s0.with_counter(k));
                            assert(run(si, cv[i as int]).0.next_id == k);
                            assert(run(s0, cmd@).0 == s0.with_counter(k));
                        }
                        return Err(
                            TimelineError::BatchRolledBack {
                                applied: i,
                                label: label.clone(),
                                error: Box::new(e),
                            },
                        );
                    },
                }
                i += 1;
            }
            proof {
                assert(cv.take(cmds@.len() as int) =~= cv);
            }
            let n = inverses.len();
            let mut rev: Vec<Command> = Vec::new();
            let mut m: usize = 0;
            while m < n
                invariant
                    m <= n,
                    n == inverses@.len(),
                    rev@.len() == m,
                    forall|q: int| 0 <= q < m ==> #[trigger] cmd_view(rev@[q]) == cmd_view(
                        inverses@[n - 1 - q],
                    ),
                decreases n - m,
            {
                let c = inverses[n - 1 - m].duplicate();
                rev.push(c);
                m += 1;
            }
            proof {
                lemma_cmds_view(rev@);
                lemma_cmds_view(inverses@);
                assert(cmds_view(rev@) =~= cmds_view(inverses@).reverse());
            }
            let mut ulabel = String::from_str("undo:");
            ulabel.append(label.as_str());
            Ok(
                Applied {
                    assigned,
                    inverse: Command::Batch { cmds: rev, label: ulabel },
                    resolved: Command::Batch { cmds: resolved_subs, label: label.clone() },
                },
            )
        },
        _ => Err(TimelineError::UndoUnavailable),
    }
}

/// Result reported to the caller for one applied, undone or redone command.
/// It carries no state hash: hashing is an explicit checkpoint query.
#[derive(Debug)]
pub struct Receipt {
    pub verb: &'static str,
    pub assigned: Vec<ClipId>,
    pub inverse: Command,
    pub resolved: Command,
}

/// Journal entries, fully explicit so that replay is a plain fold.
#[derive(Debug)]
pub enum JournalEntry {
    Do { cmd: Command, inverse: Command },
    Undo { inverse: Command },
    Redo { cmd: Command },
}

/// The abstract value of a journal entry.
pub enum JournalV {
    Do { cmd: CmdV, inverse: CmdV },
    Undo { inverse: CmdV },
    Redo { cmd: CmdV },
}

impl View for JournalEntry {
    type V = JournalV;

    open spec fn view(&self) -> JournalV {
        match *self {
            JournalEntry::Do { cmd, inverse } => JournalV::Do { cmd: cmd@, inverse: inverse@ },
            JournalEntry::Undo { inverse } => JournalV::Undo { inverse: inverse@ },
            JournalEntry::Redo { cmd } => JournalV::Redo { cmd: cmd@ },
        }
    }
}

impl Clone for JournalEntry {
    fn clone(&self) -> (r: Self)
        ensures
            r@ == self@,
    {
        match self {
            JournalEntry::Do { cmd, inverse } => JournalEntry::Do {
                cmd: cmd.duplicate(),
                inverse: inverse.duplicate(),
            },
            JournalEntry::Undo { inverse } => JournalEntry::Undo { inverse: inverse.duplicate() },
            JournalEntry::Redo { cmd } => JournalEntry::Redo { cmd: cmd.duplicate() },
        }
    }
}

/// The abstract values of journal entries.
pub open spec fn journal_view(j: Seq<JournalEntry>) -> Seq<JournalV> {
    j.map_values(|x: JournalEntry| x@)
}

/// The abstract values of undo-stack pairs.
pub open spec fn pairs_view(u: Seq<(Command, Command)>) -> Seq<(CmdV, CmdV)> {
    u.map_values(|p: (Command, Command)| (p.0@, p.1@))
}

/// The abstract values of commands.
pub open spec fn list_view(u: Seq<Command>) -> Seq<CmdV> {
    u.map_values(|c: Command| c@)
}

/// The abstract value of a session engine.
pub struct EngineV {
    pub state: TLView,
    pub undo: Seq<(CmdV, CmdV)>,
    pub redo: Seq<CmdV>,
    pub journal: Seq<JournalV>,
}

/// A fresh engine over empty tracks of the given kinds.
pub open spec fn fresh(kinds: Seq<TrackKind>) -> EngineV {
    EngineV {
        state: TLView {
            kinds,
            tracks: Seq::new(kinds.len(), |i: int| Seq::<u64>::empty()),
            clips: Map::<u64, crate::timeline::clip::ClipV>::empty(),
            next_id: 1,
        },
        undo: Seq::empty(),
        redo: Seq::empty(),
        journal: Seq::empty(),
    }
}

/// One journal entry replayed: `Do` applies the recorded command and pushes
/// the recorded pair, `Undo` applies the recorded inverse, `Redo` the
/// recorded command, each moving the stacks as the live engine does.
pub open spec fn replay_step(e: EngineV, x: JournalV) -> Result<EngineV, ErrV> {
    match x {
        JournalV::Do { cmd, inverse } => match run(e.state, cmd) {
            (s1, Ok(_)) => Ok(
                EngineV {
                    state: s1,
                    undo: e.undo.push((cmd, inverse)),
                    redo: Seq::empty(),
                    journal: e.journal.push(x),
                },
            ),
            (_, Err(er)) => Err(er),
        },
        JournalV::Undo { inverse } => if e.undo.len() == 0 {
            Err(ErrV::UndoUnavailable)
        } else {
            match run(e.state, inverse) {
                (s1, Ok(_)) => Ok(
                    EngineV {
                        state: s1,
                        undo: e.undo.drop_last(),
                        redo: e.redo.push(e.undo.last().0),
                        journal: e.journal.push(x),
                    },
                ),
                (_, Err(er)) => Err(er),
            }
        },
        JournalV::Redo { cmd } => if e.redo.len() == 0 {
            Err(ErrV::RedoUnavailable)
        } else {
            match run(e.state, cmd) {
                (s1, Ok(a)) => Ok(
                    EngineV {
                        state: s1,
                        undo: e.undo.push((cmd, a.inverse)),
                        redo: e.redo.drop_last(),
                        journal: e.journal.push(x),
                    },
                ),
                (_, Err(er)) => Err(er),
            }
        },
    }
}

/// What replaying an entry needs: the command it applies runs without panic.
pub open spec fn step_pre(e: EngineV, x: JournalV) -> bool {
    match x {
        JournalV::Do { cmd, .. } => pre(e.state, cmd),
        JournalV::Undo { inverse } => e.undo.len() > 0 ==> pre(e.state, inverse),
        JournalV::Redo { cmd } => e.redo.len() > 0 ==> pre(e.state, cmd),
    }
}

/// A journal replayed from an engine, stopping at the first failure.
pub open spec fn replay_run(e: EngineV, j: Seq<JournalV>) -> Result<EngineV, ErrV>
    decreases j.len(),
{
    if j.len() == 0 {
        Ok(e)
    } else {
        match replay_step(e, j[0]) {
            Ok(e1) => replay_run(e1, j.drop_first()),
            Err(er) => Err(er),
        }
    }
}

/// What replaying a journal needs: each entry's needs, up to the first failure.
pub open spec fn replay_pre(e: EngineV, j: Seq<JournalV>) -> bool
    decreases j.len(),
{
    j.len() > 0 ==> {
        &&& step_pre(e, j[0])
        &&& replay_step(e, j[0]) is Ok ==> replay_pre(replay_step(e, j[0])->Ok_0, j.drop_first())
    }
}

/// Replaying a journal with one more entry replays the shorter journal and
/// then that entry.
pub proof fn lemma_replay_push(e: EngineV, j: Seq<JournalV>, x: JournalV)
    requires
        replay_run(e, j) is Ok,
    ensures
        replay_run(e, j.push(x)) == replay_step(replay_run(e, j)->Ok_0, x),
        replay_pre(e, j.push(x)) == (replay_pre(e, j) && step_pre(replay_run(e, j)->Ok_0, x)),
    decreases j.len(),
{
    let jx = j.push(x);
    assert(jx[0] == if j.len() == 0 {
        x
    } else {
        j[0]
    });
    if j.len() == 0 {
        assert(jx.drop_first() =~= Seq::<JournalV>::empty());
        if replay_step(e, x) is Ok {
            let e1 = replay_step(e, x)->Ok_0;
            assert(replay_run(e1, Seq::<JournalV>::empty()) == Ok::<EngineV, ErrV>(e1));
            assert(replay_pre(e1, Seq::<JournalV>::empty()));
        }
    } else {
        assert(jx.drop_first() =~= j.drop_first().push(x));
        let e1 = replay_step(e, j[0])->Ok_0;
        lemma_replay_push(e1, j.drop_first(), x);
    }
}

/// Replaying an undo marker on an engine with the same content and stacks
/// as a live one does what the live undo does.
pub proof fn lemma_replay_undo(e: EngineV, big: EngineV)
    requires
        e.state.wf(),
        undoable(e.state, e.undo),
        e.undo.len() > 0,
        big.state.same_content(e.state),
        big.undo == e.undo,
        big.redo == e.redo,
    ensures
        ({
            let (orig, inv) = e.undo.last();
            let x = JournalV::Undo { inverse: inv };
            &&& step_pre(big, x)
            &&& replay_step(big, x) is Ok
            &&& replay_step(big, x)->Ok_0.state.same_content(run(e.state, inv).0)
            &&& replay_step(big, x)->Ok_0.state.kinds == e.state.kinds
            &&& replay_step(big, x)->Ok_0.undo == e.undo.drop_last()
            &&& replay_step(big, x)->Ok_0.redo == e.redo.push(orig)
            &&& replay_step(big, x)->Ok_0.journal == big.journal.push(x)
        }),
{
    let (orig, inv) = e.undo.last();
    assert(big.state == e.state.with_counter(big.state.next_id));
    lemma_run_counter(e.state, inv, big.state.next_id);
    lemma_run_wf(e.state, inv);
}

/// Replaying a redo marker on an engine with the same content and stacks as
/// a live one does what the live redo does.
pub proof fn lemma_replay_redo(e: EngineV, big: EngineV)
    requires
        e.state.wf(),
        redoable(e.state, e.redo),
        e.redo.len() > 0,
        big.state.same_content(e.state),
        big.undo == e.undo,
        big.redo == e.redo,
    ensures
        ({
            let orig = e.redo.last();
            let x = JournalV::Redo { cmd: orig };
            &&& step_pre(big, x)
            &&& replay_step(big, x) is Ok
            &&& replay_step(big, x)->Ok_0.state.same_content(run(e.state, orig).0)
            &&& replay_step(big, x)->Ok_0.state.kinds == e.state.kinds
            &&& replay_step(big, x)->Ok_0.undo == e.undo.push(
                (orig, run(e.state, orig).1->Ok_0.inverse),
            )
            &&& replay_step(big, x)->Ok_0.redo == e.redo.drop_last()
            &&& replay_step(big, x)->Ok_0.journal == big.journal.push(x)
        }),
{
    let orig = e.redo.last();
    assert(big.state == e.state.with_counter(big.state.next_id));
    lemma_run_counter(e.state, orig, big.state.next_id);
    lemma_run_wf(e.state, orig);
}

/// Session engine: the state, undo/redo stacks (session state) and the
/// journal (the durable record).
#[derive(Debug)]
pub struct TimelineEngine {
    pub state: TimelineState,
    undo_stack: Vec<(Command, Command)>,
    redo_stack: Vec<Command>,
    journal: Vec<JournalEntry>,
}

impl Clone for TimelineEngine {
    /// A deep copy: same state, stacks and journal.
    fn clone(&self) -> (r: Self)
        ensures
            r.ev() == self.ev(),
    {
        let mut undo_stack: Vec<(Command, Command)> = Vec::new();
        let mut i: usize = 0;
        while i < self.undo_stack.len()
            invariant
                i <= self.undo_stack@.len(),
                undo_stack@.len() == i,
                forall|j: int|
                    0 <= j < i ==> (#[trigger] undo_stack@[j]).0@ == self.undo_stack@[j].0@
                        && undo_stack@[j].1@ == self.undo_stack@[j].1@,
            decreases self.undo_stack@.len() - i,
        {
            let a = self.undo_stack[i].0.duplicate();
            let b = self.undo_stack[i].1.duplicate();
            undo_stack.push((a, b));
            i += 1;
        }
        let mut redo_stack: Vec<Command> = Vec::new();
        let mut i: usize = 0;
        while i < self.redo_stack.len()
            invariant
                i <= self.redo_stack@.len(),
                redo_stack@.len() == i,
                forall|j: int| 0 <= j < i ==> (#[trigger] redo_stack@[j])@ == self.redo_stack@[j]@,
            decreases self.redo_stack@.len() - i,
        {
            redo_stack.push(self.redo_stack[i].duplicate());
            i += 1;
        }
        let mut journal: Vec<JournalEntry> = Vec::new();
        let mut i: usize = 0;
        while i < self.journal.len()
            invariant
                i <= self.journal@.len(),
                journal@.len() == i,
                forall|j: int| 0 <= j < i ==> (#[trigger] journal@[j])@ == self.journal@[j]@,
            decreases self.journal@.len() - i,
        {
            journal.push(self.journal[i].clone());
            i += 1;
        }
        let r = TimelineEngine { state: self.state.clone(), undo_stack, redo_stack, journal };
        proof {
            assert(r.undo_v() =~= self.undo_v());
            assert(r.redo_v() =~= self.redo_v());
            assert(r.journal_v() =~= self.journal_v());
        }
        r
    }
}

impl TimelineEngine {
    /// The timeline state.
    pub closed spec fn state_view(&self) -> TLView {
        self.state@
    }

    /// The undo stack: (resolved command, resolved inverse) pairs.
    pub closed spec fn undo_v(&self) -> Seq<(CmdV, CmdV)> {
        pairs_view(self.undo_stack@)
    }

    /// The redo stack: resolved commands, in redo order.
    pub closed spec fn redo_v(&self) -> Seq<CmdV> {
        list_view(self.redo_stack@)
    }

    /// The journal.
    pub closed spec fn journal_v(&self) -> Seq<JournalV> {
        journal_view(self.journal@)
    }

    /// The abstract value of the engine.
    pub open spec fn ev(&self) -> EngineV {
        EngineV {
            state: self.state_view(),
            undo: self.undo_v(),
            redo: self.redo_v(),
            journal: self.journal_v(),
        }
    }

    /// The journal replays to this engine: from fresh tracks of the same kinds
    /// it replays without panic and reaches the same content (tracks and
    /// clips; the id counter is not content) and the same stacks and journal.
    pub open spec fn replays(&self) -> bool {
        let k = self.state_view().kinds;
        &&& replay_pre(fresh(k), self.journal_v())
        &&& replay_run(fresh(k), self.journal_v()) is Ok
        &&& replay_run(fresh(k), self.journal_v())->Ok_0.state.same_content(self.state_view())
        &&& replay_run(fresh(k), self.journal_v())->Ok_0.undo == self.undo_v()
        &&& replay_run(fresh(k), self.journal_v())->Ok_0.redo == self.redo_v()
        &&& replay_run(fresh(k), self.journal_v())->Ok_0.journal == self.journal_v()
    }

    /// The engine invariant: a well-formed state whose undo stack unwinds and
    /// whose redo stack replays.
    pub open spec fn wf(&self) -> bool {
        &&& self.state_view().wf()
        &&& undoable(self.state_view(), self.undo_v())
        &&& redoable(self.state_view(), self.redo_v())
    }

    pub fn new(state: TimelineState) -> (r: Self)
        requires
            state@.wf(),
        ensures
            r.wf(),
            r.state_view() == state@,
            r.undo_v() == Seq::<(CmdV, CmdV)>::empty(),
            r.redo_v() == Seq::<CmdV>::empty(),
            r.journal_v() == Seq::<JournalV>::empty(),
            state@.same_content(fresh(state@.kinds).state) ==> r.replays(),
    {
        let r = TimelineEngine {
            state,
            undo_stack: Vec::new(),
            redo_stack: Vec::new(),
            journal: Vec::new(),
        };
        proof {
            assert(r.undo_v() =~= Seq::<(CmdV, CmdV)>::empty());
            assert(r.redo_v() =~= Seq::<CmdV>::empty());
            assert(r.journal_v() =~= Seq::<JournalV>::empty());
            assert(replay_run(fresh(state@.kinds), r.journal_v()) == Ok::<EngineV, ErrV>(
                fresh(state@.kinds),
            ));
        }
        r
    }

    /// Apply a command; on success record it (resolved, with its inverse) in
    /// the journal and on the undo stack, and clear the redo stack. On
    /// failure nothing is recorded.
    pub fn apply(&mut self, cmd: Command) -> (r: Result<Receipt, TimelineError>)
        requires
            old(self).wf(),
            pre(old(self).state_view(), cmd@),
        ensures
            final(self).wf(),
            old(self).replays() ==> final(self).replays(),
            final(self).state_view() == run(old(self).state_view(), cmd@).0,
            match run(old(self).state_view(), cmd@).1 {
                Ok(a) => {
                    &&& r is Ok
                    &&& r->Ok_0.verb@ == verb_of(cmd@)
                    &&& ids_view(r->Ok_0.assigned@) == a.assigned
                    &&& r->Ok_0.inverse@ == a.inverse
                    &&& r->Ok_0.resolved@ == a.resolved
                    &&& final(self).undo_v() == old(self).undo_v().push((a.resolved, a.inverse))
                    &&& final(self).redo_v() == Seq::<CmdV>::empty()
                    &&& final(self).journal_v() == old(self).journal_v().push(
                        JournalV::Do { cmd: a.resolved, inverse: a.inverse },
                    )
                },
                Err(e) => {
                    &&& r is Err
                    &&& r->Err_0@ == e
                    &&& final(self).undo_v() == old(self).undo_v()
                    &&& final(self).redo_v() == old(self).redo_v()
                    &&& final(self).journal_v() == old(self).journal_v()
                },
            },
    {
        let ghost s0 = self.state@;
        let verb = cmd.verb();
        proof {
            lemma_run_wf(s0, cmd@);
        }
        let applied = match apply_command(&mut self.state, &cmd) {
            Ok(a) => a,
            Err(e) => {
                proof {
                    lemma_wf_same_content(s0, self.state@);
                    lemma_undoable_counter(s0, self.undo_v(), self.state@.next_id);
                    lemma_redoable_counter(s0, self.redo_v(), self.state@.next_id);
                    assert(self.state@ == s0.with_counter(self.state@.next_id));
                    assert(self.state@.kinds == s0.kinds);
                }
                return Err(e);
            },
        };
        proof {
            lemma_after_apply(s0, self.undo_v(), cmd@);
        }
        let ghost e_old = *old(self);
        let Applied { assigned, inverse, resolved } = applied;
        let inv2 = inverse.duplicate();
        let inv3 = inverse.duplicate();
        let res2 = resolved.duplicate();
        let res3 = resolved.duplicate();
        let ghost j0 = self.journal@;
        let ghost u0 = self.undo_stack@;
        self.journal.push(JournalEntry::Do { cmd: res2, inverse: inv2 });
        self.undo_stack.push((res3, inv3));
        self.redo_stack.clear();
        proof {
            assert(journal_view(self.journal@) =~= journal_view(j0).push(
                JournalV::Do { cmd: resolved@, inverse: inverse@ },
            ));
            assert(pairs_view(self.undo_stack@) =~= pairs_view(u0).push((resolved@, inverse@)));
            assert(list_view(self.redo_stack@) =~= Seq::<CmdV>::empty());
            if e_old.replays() {
                let k = s0.kinds;
                let big = replay_run(fresh(k), e_old.journal_v())->Ok_0;
                assert(big.state == s0.with_counter(big.state.next_id));
                lemma_resolved(s0, cmd@, big.state.next_id);
                lemma_replay_push(
                    fresh(k),
                    e_old.journal_v(),
                    JournalV::Do { cmd: resolved@, inverse: inverse@ },
                );
            }
        }
        Ok(Receipt { verb, assigned, inverse, resolved })
    }

    /// Undo the last command by applying its exact inverse; the undo marker
    /// goes to the journal and the command to the redo stack.
    pub fn undo(&mut self) -> (r: Result<Receipt, TimelineError>)
        requires
            old(self).wf(),
        ensures
            final(self).wf(),
            old(self).replays() ==> final(self).replays(),
            old(self).undo_v().len() == 0 ==> {
                &&& r is Err
                &&& r->Err_0@ == ErrV::UndoUnavailable
                &&& final(self).state_view() == old(self).state_view()
                &&& final(self).undo_v() == old(self).undo_v()
                &&& final(self).redo_v() == old(self).redo_v()
                &&& final(self).journal_v() == old(self).journal_v()
            },
            old(self).undo_v().len() > 0 ==> {
                let (orig, inv) = old(self).undo_v().last();
                let (t, res) = run(old(self).state_view(), inv);
                &&& res is Ok
                &&& final(self).state_view() == t
                &&& r is Ok
                &&& r->Ok_0.verb@ == verb_of(inv)
                &&& ids_view(r->Ok_0.assigned@) == res->Ok_0.assigned
                &&& r->Ok_0.inverse@ == orig
                &&& r->Ok_0.resolved@ == inv
                &&& final(self).undo_v() == old(self).undo_v().drop_last()
                &&& final(self).redo_v() == old(self).redo_v().push(orig)
                &&& final(self).journal_v() == old(self).journal_v().push(
                    JournalV::Undo { inverse: inv },
                )
            },
    {
        let ghost s0 = self.state@;
        let ghost u0 = self.undo_stack@;
        let ghost r0 = self.redo_stack@;
        let ghost j0 = self.journal@;
        let (orig, inverse) = match self.undo_stack.pop() {
            Some(p) => p,
            None => {
                return Err(TimelineError::UndoUnavailable);
            },
        };
        proof {
            assert(pairs_view(u0).last() == (orig@, inverse@));
            assert(pairs_view(self.undo_stack@) =~= pairs_view(u0).drop_last());
            lemma_after_undo(s0, pairs_view(u0), list_view(r0));
        }
        let verb = inverse.verb();
        let applied = match apply_command(&mut self.state, &inverse) {
            Ok(a) => a,
            Err(e) => {
                return Err(e);
            },
        };
        self.journal.push(JournalEntry::Undo { inverse: inverse.duplicate() });
        self.redo_stack.push(orig.duplicate());
        proof {
            assert(journal_view(self.journal@) =~= journal_view(j0).push(
                JournalV::Undo { inverse: inverse@ },
            ));
            assert(list_view(self.redo_stack@) =~= list_view(r0).push(orig@));
            let e_old = *old(self);
            lemma_run_wf(s0, inverse@);
            if e_old.replays() {
                let k = s0.kinds;
                let big = replay_run(fresh(k), e_old.journal_v())->Ok_0;
                lemma_replay_undo(e_old.ev(), big);
                lemma_replay_push(fresh(k), e_old.journal_v(), JournalV::Undo { inverse: inverse@ });
            }
        }
        Ok(Receipt { verb, assigned: applied.assigned, inverse: orig, resolved: inverse })
    }

    /// Redo the last undone command by re-applying its resolved command;
    /// ids come out the same, so the content is exactly what it was.
    pub fn redo(&mut self) -> (r: Result<Receipt, TimelineError>)
        requires
            old(self).wf(),
        ensures
            final(self).wf(),
            old(self).replays() ==> final(self).replays(),
            old(self).redo_v().len() == 0 ==> {
                &&& r is Err
                &&& r->Err_0@ == ErrV::RedoUnavailable
                &&& final(self).state_view() == old(self).state_view()
                &&& final(self).undo_v() == old(self).undo_v()
                &&& final(self).redo_v() == old(self).redo_v()
                &&& final(self).journal_v() == old(self).journal_v()
            },
            old(self).redo_v().len() > 0 ==> {
                let orig = old(self).redo_v().last();
                let (s1, res) = run(old(self).state_view(), orig);
                &&& res is Ok
                &&& final(self).state_view() == s1
                &&& r is Ok
                &&& r->Ok_0.verb@ == verb_of(orig)
                &&& ids_view(r->Ok_0.assigned@) == res->Ok_0.assigned
                &&& r->Ok_0.inverse@ == res->Ok_0.inverse
                &&& r->Ok_0.resolved@ == res->Ok_0.resolved
                &&& final(self).undo_v() == old(self).undo_v().push((orig, res->Ok_0.inverse))
                &&& final(self).redo_v() == old(self).redo_v().drop_last()
                &&& final(self).journal_v() == old(self).journal_v().push(
                    JournalV::Redo { cmd: orig },
                )
            },
    {
        let ghost s0 = self.state@;
        let ghost u0 = self.undo_stack@;
        let ghost r0 = self.redo_stack@;
        let ghost j0 = self.journal@;
        let orig = match self.redo_stack.pop() {
            Some(c) => c,
            None => {
                return Err(TimelineError::RedoUnavailable);
            },
        };
        proof {
            assert(list_view(r0).last() == orig@);
            assert(list_view(self.redo_stack@) =~= list_view(r0).drop_last());
            lemma_after_redo(s0, pairs_view(u0), list_view(r0));
        }
        let verb = orig.verb();
        let applied = match apply_command(&mut self.state, &orig) {
            Ok(a) => a,
            Err(e) => {
                return Err(e);
            },
        };
        let Applied { assigned, inverse, resolved } = applied;
        self.journal.push(JournalEntry::Redo { cmd: orig.duplicate() });
        self.undo_stack.push((orig, inverse.duplicate()));
        proof {
            assert(journal_view(self.journal@) =~= journal_view(j0).push(
                JournalV::Redo { cmd: list_view(r0).last() },
            ));
            assert(pairs_view(self.undo_stack@) =~= pairs_view(u0).push(
                (list_view(r0).last(), inverse@),
            ));
            let e_old = *old(self);
            lemma_run_wf(s0, list_view(r0).last());
            if e_old.replays() {
                let k = s0.kinds;
                let big = replay_run(fresh(k), e_old.journal_v())->Ok_0;
                lemma_replay_redo(e_old.ev(), big);
                lemma_replay_push(
                    fresh(k),
                    e_old.journal_v(),
                    JournalV::Redo { cmd: list_view(r0).last() },
                );
            }
        }
        Ok(Receipt { verb, assigned, inverse, resolved })
    }

    pub fn journal(&self) -> (r: &[JournalEntry])
        ensures
            journal_view(r@) == self.journal_v(),
    {
        self.journal.as_slice()
    }

    /// The timeline state.
    pub fn state(&self) -> (r: &TimelineState)
        ensures
            r@ == self.state_view(),
    {
        &self.state
    }

    pub fn undo_depth(&self) -> (r: usize)
        ensures
            r == self.undo_v().len(),
    {
        self.undo_stack.len()
    }

    /// Rebuild an engine by folding a journal from fresh tracks of the given
    /// kinds; the rebuilt engine inherits the journal.
    pub fn replay(track_kinds: &[TrackKind], journal: &[JournalEntry]) -> (r: Result<
        TimelineEngine,
        TimelineError,
    >)
        requires
            replay_pre(fresh(track_kinds@), journal_view(journal@)),
        ensures
            match replay_run(fresh(track_kinds@), journal_view(journal@)) {
                Ok(e) => r is Ok && r->Ok_0.ev() == e && r->Ok_0.state_view().wf(),
                Err(er) => r is Err && r->Err_0@ == er,
            },
    {
        let ghost jv = journal_view(journal@);
        let st = TimelineState::new(track_kinds);
        let mut eng = TimelineEngine::new(st);
        proof {
            assert(eng.ev() == fresh(track_kinds@));
            assert(jv.skip(0) =~= jv);
        }
        let mut i: usize = 0;
        while i < journal.len()
            invariant
                i <= journal@.len(),
                jv == journal_view(journal@),
                replay_run(fresh(track_kinds@), jv) == replay_run(eng.ev(), jv.skip(i as int)),
                replay_pre(eng.ev(), jv.skip(i as int)),
                eng.state_view().wf(),
            decreases journal@.len() - i,
        {
            let ghost e0 = eng.ev();
            let ghost j0 = eng.journal@;
            let ghost u0 = eng.undo_stack@;
            let ghost r0 = eng.redo_stack@;
            let entry = &journal[i];
            proof {
                assert(jv.skip(i as int)[0] == entry@);
                assert(jv.skip(i as int).drop_first() =~= jv.skip(i as int + 1));
            }
            eng.journal.push(entry.clone());
            proof {
                assert(journal_view(eng.journal@) =~= journal_view(j0).push(entry@));
            }
            match entry {
                JournalEntry::Do { cmd, inverse } => {
                    proof {
                        lemma_run_wf(e0.state, cmd@);
                    }
                    match apply_command(&mut eng.state, cmd) {
                        Ok(_) => {},
                        Err(e) => {
                            return Err(e);
                        },
                    }
                    eng.undo_stack.push((cmd.duplicate(), inverse.duplicate()));
                    eng.redo_stack.clear();
                    proof {
                        assert(pairs_view(eng.undo_stack@) =~= pairs_view(u0).push(
                            (cmd@, inverse@),
                        ));
                        assert(list_view(eng.redo_stack@) =~= Seq::<CmdV>::empty());
                    }
                },
                JournalEntry::Undo { inverse } => {
                    let n = eng.undo_stack.len();
                    if n == 0 {
                        return Err(TimelineError::UndoUnavailable);
                    }
                    let orig = eng.undo_stack[n - 1].0.duplicate();
                    proof {
                        lemma_run_wf(e0.state, inverse@);
                        assert(pairs_view(u0).last().0 == orig@);
                    }
                    match apply_command(&mut eng.state, inverse) {
                        Ok(_) => {},
                        Err(e) => {
                            return Err(e);
                        },
                    }
                    eng.undo_stack.pop();
                    eng.redo_stack.push(orig);
                    proof {
                        assert(pairs_view(eng.undo_stack@) =~= pairs_view(u0).drop_last());
                        assert(list_view(eng.redo_stack@) =~= list_view(r0).push(
                            pairs_view(u0).last().0,
                        ));
                    }
                },
                JournalEntry::Redo { cmd } => {
                    if eng.redo_stack.len() == 0 {
                        return Err(TimelineError::RedoUnavailable);
                    }
                    let _ = eng.redo_stack.pop();
                    proof {
                        lemma_run_wf(e0.state, cmd@);
                        assert(list_view(eng.redo_stack@) =~= list_view(r0).drop_last());
                    }
                    let applied = match apply_command(&mut eng.state, cmd) {
                        Ok(a) => a,
                        Err(e) => {
                            return Err(e);
                        },
                    };
                    eng.undo_stack.push((cmd.duplicate(), applied.inverse));
                    proof {
                        assert(pairs_view(eng.undo_stack@) =~= pairs_view(u0).push(
                            (cmd@, applied.inverse@),
                        ));
                    }
                },
            }
            proof {
                assert(replay_step(e0, entry@) == Ok::<EngineV, ErrV>(eng.ev()));
            }
            i += 1;
        }
        proof {
            assert(jv.skip(i as int) =~= Seq::<JournalV>::empty());
        }
        Ok(eng)
    }

    pub fn redo_depth(&self) -> (r: usize)
        ensures
            r == self.redo_v().len(),
    {
        self.redo_stack.len()
    }
}

} // verus!
