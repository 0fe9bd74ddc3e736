//! Laws of the timeline model: every command keeps the state well formed,
//! every successful command has an exact inverse that restores the content,
//! and the id counter affects nothing but the ids it assigns.
use crate::time::{
    lemma_add_lt_mono, lemma_add_sub_split, lemma_le_trans, lemma_lt_le_trans, lemma_mul_pos,
    lemma_not_lt, lemma_start_lt_end, lemma_sub_pos, Rational,
};
use crate::timeline::clip::ClipV;
use crate::timeline::command::CmdV;
use crate::timeline::model::{
    fresh_id, lemma_fresh_id, idx, lemma_idx_is, lemma_seq_ok_remove, lemma_starts_increase, lemma_wf_seq_ok,
    pre, pre_seq, recip, retimed_dur, right_half, run, run_seq, AppliedV, ErrV, TLView,
};
use crate::timeline::hash::{content_hash, lemma_hash_ignores_counter};
use crate::timeline::preserve::{
    lemma_ins_pos_exists, lemma_seq_distinct, lemma_seq_ok_frame, lemma_seq_ok_insert,
    lemma_wf_frame, placed, same_clips_on,
};
use vstd::prelude::*;

verus! {

/// Where an id sits in a track of a well-formed state.
pub proof fn lemma_idx_of(s: TLView, id: u64)
    requires
        s.wf(),
        s.clips.contains_key(id),
    ensures
        ({
            let t = s.clips[id].track as int;
            let seq = s.tracks[t];
            &&& 0 <= t < s.tracks.len()
            &&& 0 <= idx(seq, id) < seq.len()
            &&& seq[idx(seq, id)] == id
            &&& s.seq_ok(seq)
            &&& s.clips[id].id == id
        }),
{
    let t = s.clips[id].track as int;
    let seq = s.tracks[t];
    assert(seq.contains(id));
    let k = choose|k: int| 0 <= k < seq.len() && seq[k] == id;
    lemma_idx_is(s, t, k);
    lemma_wf_seq_ok(s, t);
    lemma_track_ids(s, t, k);
}

/// The clips of a well-formed track are in the table with their ids.
pub proof fn lemma_track_ids(s: TLView, t: int, i: int)
    requires
        s.wf(),
        0 <= t < s.tracks.len(),
        0 <= i < s.tracks[t].len(),
    ensures
        s.clips.contains_key(s.tracks[t][i]),
        s.clips[s.tracks[t][i]].track == t,
        s.clips[s.tracks[t][i]].id == s.tracks[t][i],
        s.clips[s.tracks[t][i]].valid(),
{
    assert(s.track_ok(t));
    let id = s.tracks[t][i];
    assert(s.clips.contains_key(id));
}

/// Adding a clip keeps the state well formed.
proof fn lemma_add_wf(s: TLView, c: CmdV)
    requires
        s.wf(),
        pre(s, c),
        c is Add,
        run(s, c).1 is Ok,
    ensures
        run(s, c).0.wf(),
{
    match c {
        CmdV::Add { id, track, asset, start, dur, src_in, speed, label } => {
            let t = track as int;
            let seq = s.tracks[t];
            lemma_wf_seq_ok(s, t);
            lemma_ins_pos_exists(s, seq, start);
            let p = s.ins_pos(seq, start);
            let cid = match id {
                Some(i) => i,
                None => fresh_id(s),
            };
            if id is None {
                lemma_fresh_id(s);
            }
            let s2 = run(s, c).0;
            assert(!s.clips.contains_key(cid));
            if p > 0 {
                lemma_not_lt(start, s.end_of(seq[p - 1]));
            }
            if p < seq.len() {
                lemma_not_lt(s.start_of(seq[p]), start.add_spec(dur));
            }
            assert forall|i: int| 0 <= i < seq.len() implies {
                &&& s2.clips.contains_key(#[trigger] seq[i])
                &&& s2.clips[seq[i]] == s.clips[seq[i]]
            } by {
                lemma_track_ids(s, t, i);
            }
            lemma_seq_ok_insert(s, s2, seq, p, cid);
            let r = seq.insert(p, cid);
            assert(s2.track_ok(t)) by {
                assert forall|i: int| 0 <= i < r.len() implies {
                    let x = #[trigger] r[i];
                    &&& s2.clips.contains_key(x)
                    &&& s2.clips[x].track == t
                    &&& s2.clips[x].id == x
                } by {
                    if i < p {
                        assert(r[i] == seq[i]);
                        lemma_track_ids(s, t, i);
                    } else if i > p {
                        assert(r[i] == seq[i - 1]);
                        lemma_track_ids(s, t, i - 1);
                    }
                }
            }
            assert forall|x: u64|
                !set![cid].contains(x) && s.clips.contains_key(x) && set![t].contains(
                    s.clips[x].track as int,
                ) implies #[trigger] s2.tracks[s.clips[x].track as int].contains(x) by {
                assert(s.tracks[t].contains(x));
                let k = choose|k: int| 0 <= k < seq.len() && seq[k] == x;
                if k < p {
                    assert(r[k] == x);
                } else {
                    assert(r[k + 1] == x);
                }
            }
            assert forall|x: u64| set![cid].contains(x) && s2.clips.contains_key(x) implies #[trigger] placed(
                s2,
                x,
            ) by {
                assert(r[p] == cid);
            }
            lemma_wf_frame(s, s2, set![t], set![cid]);
        },
        _ => {},
    }
}


/// Removing a clip keeps the state well formed.
proof fn lemma_remove_wf(s: TLView, c: CmdV)
    requires
        s.wf(),
        c is Remove,
        run(s, c).1 is Ok,
    ensures
        run(s, c).0.wf(),
{
    match c {
        CmdV::Remove { id } => {
            lemma_idx_of(s, id);
            let e = s.clips[id];
            let t = e.track as int;
            let seq = s.tracks[t];
            let sp = idx(seq, id);
            let s2 = run(s, c).0;
            let r = seq.remove(sp);
            lemma_seq_ok_remove(s, seq, sp);
            assert forall|i: int| 0 <= i < r.len() implies {
                let x = #[trigger] r[i];
                &&& s2.clips.contains_key(x)
                &&& s2.clips[x] == s.clips[x]
                &&& s2.clips[x].track == t
                &&& s2.clips[x].id == x
            } by {
                let k = if i < sp {
                    i
                } else {
                    i + 1
                };
                assert(r[i] == seq[k]);
                lemma_seq_distinct(s, seq, k, sp);
                lemma_track_ids(s, t, k);
            }
            lemma_seq_ok_frame(s, s2, r);
            assert forall|x: u64|
                !set![id].contains(x) && s.clips.contains_key(x) && set![t].contains(
                    s.clips[x].track as int,
                ) implies #[trigger] s2.tracks[s.clips[x].track as int].contains(x) by {
                assert(s.tracks[t].contains(x));
                let k = choose|k: int| 0 <= k < seq.len() && seq[k] == x;
                if k < sp {
                    assert(r[k] == x);
                } else {
                    assert(k != sp);
                    assert(r[k - 1] == x);
                }
            }
            lemma_wf_frame(s, s2, set![t], set![id]);
        },
        _ => {},
    }
}

/// Replacing a clip by one with the same start, track and id that ends no
/// later than its successor starts keeps the state well formed.
proof fn lemma_replace_in_place(s: TLView, s2: TLView, id: u64)
    requires
        s.wf(),
        s.clips.contains_key(id),
        s2.kinds == s.kinds,
        s2.tracks == s.tracks,
        s2.clips == s.clips.insert(id, s2.clips[id]),
        s2.clips[id].valid(),
        s2.clips[id].start == s.clips[id].start,
        s2.clips[id].track == s.clips[id].track,
        s2.clips[id].id == id,
        ({
            let seq = s.tracks[s.clips[id].track as int];
            let p = idx(seq, id);
            p + 1 < seq.len() ==> s2.end_of(id).is_le(s.start_of(seq[p + 1]))
        }),
    ensures
        s2.wf(),
{
    lemma_idx_of(s, id);
    let e = s.clips[id];
    let t = e.track as int;
    let seq = s.tracks[t];
    let p = idx(seq, id);
    let q = seq.remove(p);
    lemma_seq_ok_remove(s, seq, p);
    assert forall|i: int| 0 <= i < q.len() implies {
        &&& s2.clips.contains_key(#[trigger] q[i])
        &&& s2.clips[q[i]] == s.clips[q[i]]
    } by {
        let k = if i < p {
            i
        } else {
            i + 1
        };
        assert(q[i] == seq[k]);
        lemma_seq_distinct(s, seq, k, p);
    }
    if p > 0 {
        assert(q[p - 1] == seq[p - 1]);
        assert(s.end_of(seq[p - 1]).is_le(s.start_of(seq[p])));
    }
    if p < q.len() {
        assert(q[p] == seq[p + 1]);
    }
    lemma_seq_ok_insert(s, s2, q, p, id);
    assert(q.insert(p, id) =~= seq);
    assert(s2.track_ok(t)) by {
        assert forall|i: int| 0 <= i < seq.len() implies {
            let x = #[trigger] seq[i];
            &&& s2.clips.contains_key(x)
            &&& s2.clips[x].track == t
            &&& s2.clips[x].id == x
        } by {
            lemma_track_ids(s, t, i);
        }
    }
    assert(placed(s2, id));
    lemma_wf_frame(s, s2, set![t], set![id]);
}

/// The successor of a clip starts no earlier than the clip ends.
proof fn lemma_succ_after(s: TLView, id: u64)
    requires
        s.wf(),
        s.clips.contains_key(id),
    ensures
        ({
            let seq = s.tracks[s.clips[id].track as int];
            let p = idx(seq, id);
            p + 1 < seq.len() ==> {
                &&& s.end_of(id).is_le(s.start_of(seq[p + 1]))
                &&& s.clips.contains_key(seq[p + 1])
                &&& s.clips[seq[p + 1]].valid()
            }
        }),
{
    lemma_idx_of(s, id);
}

/// Resizing a clip keeps the state well formed.
proof fn lemma_resize_wf(s: TLView, c: CmdV)
    requires
        s.wf(),
        pre(s, c),
        c is Resize,
        run(s, c).1 is Ok,
    ensures
        run(s, c).0.wf(),
{
    match c {
        CmdV::Resize { id, dur } => {
            lemma_idx_of(s, id);
            let e = s.clips[id];
            let seq = s.tracks[e.track as int];
            let p = idx(seq, id);
            let s2 = run(s, c).0;
            if p + 1 < seq.len() {
                lemma_not_lt(s.start_of(seq[p + 1]), e.start.add_spec(dur));
            }
            lemma_replace_in_place(s, s2, id);
        },
        _ => {},
    }
}

/// Retiming a clip keeps the state well formed.
proof fn lemma_retime_wf(s: TLView, c: CmdV)
    requires
        s.wf(),
        pre(s, c),
        c is Retime,
        run(s, c).1 is Ok,
    ensures
        run(s, c).0.wf(),
{
    match c {
        CmdV::Retime { id, speed } => {
            lemma_idx_of(s, id);
            let e = s.clips[id];
            let seq = s.tracks[e.track as int];
            let p = idx(seq, id);
            let s2 = run(s, c).0;
            lemma_retimed_valid(e, speed);
            if p + 1 < seq.len() {
                lemma_not_lt(s.start_of(seq[p + 1]), e.start.add_spec(retimed_dur(e, speed)));
            }
            lemma_replace_in_place(s, s2, id);
        },
        _ => {},
    }
}

/// The retimed duration is a positive well-formed value.
proof fn lemma_retimed_valid(e: ClipV, speed: Rational)
    requires
        e.valid(),
        speed.wf(),
        speed.n() > 0,
        e.dur.mul_fits(e.speed),
        e.dur.mul_spec(e.speed).mul_fits(recip(speed)),
    ensures
        retimed_dur(e, speed).wf(),
        retimed_dur(e, speed).n() > 0,
{
    speed.lemma_recip();
    assert(recip(speed) == speed.recip_spec());
    e.dur.lemma_mul_value(e.speed);
    lemma_mul_pos(e.dur, e.speed);
    let sd = e.dur.mul_spec(e.speed);
    sd.lemma_mul_value(recip(speed));
    lemma_mul_pos(sd, recip(speed));
}

/// Moving a clip keeps the state well formed.
proof fn lemma_move_wf(s: TLView, c: CmdV)
    requires
        s.wf(),
        pre(s, c),
        c is Move,
        run(s, c).1 is Ok,
    ensures
        run(s, c).0.wf(),
{
    match c {
        CmdV::Move { id, track: nt, start: ns } => {
            lemma_idx_of(s, id);
            let e = s.clips[id];
            let t0 = e.track as int;
            let t1 = nt as int;
            let old = s.tracks[t0];
            let sp = idx(old, id);
            let tracks1 = s.tracks.update(t0, old.remove(sp));
            let seq2 = tracks1[t1];
            lemma_seq_ok_remove(s, old, sp);
            if t1 != t0 {
                lemma_wf_seq_ok(s, t1);
            }
            assert forall|i: int| 0 <= i < seq2.len() implies {
                let x = #[trigger] seq2[i];
                &&& x != id
                &&& s.clips.contains_key(x)
                &&& s.clips[x].track == t1
                &&& s.clips[x].id == x
            } by {
                if t1 == t0 {
                    let k = if i < sp {
                        i
                    } else {
                        i + 1
                    };
                    assert(seq2[i] == old[k]);
                    lemma_seq_distinct(s, old, k, sp);
                    lemma_track_ids(s, t0, k);
                } else {
                    lemma_track_ids(s, t1, i);
                }
            }
            lemma_ins_pos_exists(s, seq2, ns);
            let q = s.ins_pos(seq2, ns);
            let s2 = run(s, c).0;
            if q > 0 {
                lemma_not_lt(ns, s.end_of(seq2[q - 1]));
            }
            if q < seq2.len() {
                lemma_not_lt(s.start_of(seq2[q]), ns.add_spec(e.dur));
            }
            lemma_seq_ok_insert(s, s2, seq2, q, id);
            let r = seq2.insert(q, id);
            assert(s2.track_ok(t1)) by {
                assert forall|i: int| 0 <= i < r.len() implies {
                    let x = #[trigger] r[i];
                    &&& s2.clips.contains_key(x)
                    &&& s2.clips[x].track == t1
                    &&& s2.clips[x].id == x
                } by {
                    if i < q {
                        assert(r[i] == seq2[i]);
                    } else if i > q {
                        assert(r[i] == seq2[i - 1]);
                    }
                }
            }
            if t0 != t1 {
                let o2 = old.remove(sp);
                assert(s2.tracks[t0] == o2);
                assert forall|i: int| 0 <= i < o2.len() implies {
                    let x = #[trigger] o2[i];
                    &&& s2.clips.contains_key(x)
                    &&& s2.clips[x] == s.clips[x]
                    &&& s2.clips[x].track == t0
                    &&& s2.clips[x].id == x
                } by {
                    let k = if i < sp {
                        i
                    } else {
                        i + 1
                    };
                    assert(o2[i] == old[k]);
                    lemma_seq_distinct(s, old, k, sp);
                    lemma_track_ids(s, t0, k);
                }
                lemma_seq_ok_frame(s, s2, o2);
                assert(s2.track_ok(t0));
            }
            assert forall|x: u64|
                !set![id].contains(x) && s.clips.contains_key(x) && set![t0, t1].contains(
                    s.clips[x].track as int,
                ) implies #[trigger] s2.tracks[s.clips[x].track as int].contains(x) by {
                let tx = s.clips[x].track as int;
                assert(s.tracks[tx].contains(x));
                let k = choose|k: int| 0 <= k < s.tracks[tx].len() && s.tracks[tx][k] == x;
                // position of x in the sequence without the moved clip
                let k2 = if tx == t0 {
                    if k < sp {
                        k
                    } else {
                        k - 1
                    }
                } else {
                    k
                };
                if tx == t0 {
                    assert(k != sp);
                    assert(old.remove(sp)[k2] == x);
                }
                assert(tracks1[tx][k2] == x);
                if tx == t1 {
                    if k2 < q {
                        assert(r[k2] == x);
                    } else {
                        assert(r[k2 + 1] == x);
                    }
                }
            }
            assert(r[q] == id);
            assert(placed(s2, id));
            lemma_wf_frame(s, s2, set![t0, t1], set![id]);
        },
        _ => {},
    }
}

/// Splitting a clip keeps the state well formed.
proof fn lemma_split_wf(s: TLView, c: CmdV)
    requires
        s.wf(),
        pre(s, c),
        c is Split,
        run(s, c).1 is Ok,
    ensures
        run(s, c).0.wf(),
{
    match c {
        CmdV::Split { id, offset, new_id } => {
            lemma_idx_of(s, id);
            lemma_succ_after(s, id);
            let e = s.clips[id];
            let t = e.track as int;
            let seq = s.tracks[t];
            let p = idx(seq, id);
            let rid = match new_id {
                Some(n) => n,
                None => fresh_id(s),
            };
            if new_id is None {
                lemma_fresh_id(s);
            }
            assert(!s.clips.contains_key(rid));
            let left = ClipV { dur: offset, ..e };
            let right = right_half(e, offset, rid);
            let smid = TLView { clips: s.clips.insert(id, left), ..s };
            lemma_add_lt_mono(e.start, offset, e.dur);
            lemma_start_lt_end(e.start, offset);
            lemma_start_lt_end(e.start, e.dur);
            if p + 1 < seq.len() {
                lemma_lt_le_trans(left.end(), e.end(), s.start_of(seq[p + 1]));
            }
            lemma_replace_in_place(s, smid, id);
            lemma_wf_seq_ok(smid, t);
            let s2 = run(s, c).0;
            // the right half is valid and ends where the clip ended
            e.start.lemma_add_value(offset);
            e.dur.lemma_sub_value(offset);
            lemma_sub_pos(e.dur, offset);
            offset.lemma_mul_value(e.speed);
            e.src_in.lemma_add_value(offset.mul_spec(e.speed));
            lemma_add_sub_split(e.start, offset, e.dur);
            assert(right.valid());
            assert forall|i: int| 0 <= i < seq.len() implies {
                &&& s2.clips.contains_key(#[trigger] seq[i])
                &&& s2.clips[seq[i]] == smid.clips[seq[i]]
            } by {
                lemma_track_ids(s, t, i);
            }
            lemma_seq_ok_insert(smid, s2, seq, p + 1, rid);
            let r = seq.insert(p + 1, rid);
            assert(s2.track_ok(t)) by {
                assert forall|i: int| 0 <= i < r.len() implies {
                    let x = #[trigger] r[i];
                    &&& s2.clips.contains_key(x)
                    &&& s2.clips[x].track == t
                    &&& s2.clips[x].id == x
                } by {
                    if i < p + 1 {
                        assert(r[i] == seq[i]);
                        lemma_track_ids(s, t, i);
                    } else if i > p + 1 {
                        assert(r[i] == seq[i - 1]);
                        lemma_track_ids(s, t, i - 1);
                    }
                }
            }
            assert forall|x: u64|
                !set![id, rid].contains(x) && s.clips.contains_key(x) && set![t].contains(
                    s.clips[x].track as int,
                ) implies #[trigger] s2.tracks[s.clips[x].track as int].contains(x) by {
                assert(s.tracks[t].contains(x));
                let k = choose|k: int| 0 <= k < seq.len() && seq[k] == x;
                if k < p + 1 {
                    assert(r[k] == x);
                } else {
                    assert(r[k + 1] == x);
                }
            }
            assert(r[p] == id && r[p + 1] == rid);
            assert(placed(s2, id));
            assert(placed(s2, rid));
            lemma_wf_frame(s, s2, set![t], set![id, rid]);
        },
        _ => {},
    }
}

/// Every command keeps a well-formed state well formed, and a command that
/// fails leaves the content (tracks and clips) unchanged.
pub proof fn lemma_run_wf(s: TLView, c: CmdV)
    requires
        s.wf(),
        pre(s, c),
    ensures
        run(s, c).0.wf(),
        run(s, c).0.kinds == s.kinds,
        run(s, c).1 is Err ==> run(s, c).0.same_content(s),
    decreases c, 1nat,
{
    match c {
        CmdV::Batch { cmds, label } => {
            lemma_run_seq_wf(s, cmds);
            lemma_wf_same_content(s, s.with_counter(run_seq(s, cmds).0.next_id));
        },
        _ => {
            if run(s, c).1 is Ok {
                match c {
                    CmdV::Add { .. } => lemma_add_wf(s, c),
                    CmdV::Remove { .. } => lemma_remove_wf(s, c),
                    CmdV::Move { .. } => lemma_move_wf(s, c),
                    CmdV::Resize { .. } => lemma_resize_wf(s, c),
                    CmdV::Split { .. } => lemma_split_wf(s, c),
                    CmdV::Retime { .. } => lemma_retime_wf(s, c),
                    _ => {},
                }
            }
        },
    }
}

/// A sequence of commands keeps a well-formed state well formed.
pub proof fn lemma_run_seq_wf(s: TLView, cmds: Seq<CmdV>)
    requires
        s.wf(),
        pre_seq(s, cmds),
    ensures
        run_seq(s, cmds).0.wf(),
        run_seq(s, cmds).0.kinds == s.kinds,
    decreases cmds, 0nat,
{
    if cmds.len() > 0 {
        lemma_run_wf(s, cmds[0]);
        if run(s, cmds[0]).1 is Ok {
            lemma_run_seq_wf(run(s, cmds[0]).0, cmds.drop_first());
        }
    }
}

/// Well-formedness depends on the content only, not on the counter.
pub proof fn lemma_wf_same_content(s: TLView, s2: TLView)
    requires
        s.wf(),
        s2.same_content(s),
    ensures
        s2.wf(),
{
    assert forall|t: int| 0 <= t < s2.tracks.len() implies #[trigger] s2.track_ok(t) by {
        assert(s.track_ok(t));
        lemma_wf_seq_ok(s, t);
        lemma_seq_ok_frame(s, s2, s.tracks[t]);
    }
}

/// The weight of a command: one per primitive, three for a split (whose
/// inverse is a two-command batch), one more than its parts for a batch.
/// An inverse never weighs more than the command it undoes.
pub open spec fn weight(c: CmdV) -> nat
    decreases c, 1nat,
{
    match c {
        CmdV::Split { .. } => 3,
        CmdV::Batch { cmds, .. } => 1 + weight_seq(cmds),
        _ => 1,
    }
}

/// The total weight of a sequence of commands.
pub open spec fn weight_seq(cmds: Seq<CmdV>) -> nat
    decreases cmds, 0nat,
{
    if cmds.len() == 0 {
        0
    } else {
        weight(cmds[0]) + weight_seq(cmds.drop_first())
    }
}

/// A command assigns no ids: every add and split in it names its id.
pub open spec fn no_assign(c: CmdV) -> bool
    decreases c, 1nat,
{
    match c {
        CmdV::Add { id, .. } => id is Some,
        CmdV::Split { new_id, .. } => new_id is Some,
        CmdV::Batch { cmds, .. } => no_assign_seq(cmds),
        _ => true,
    }
}

/// No command of a sequence assigns ids.
pub open spec fn no_assign_seq(cmds: Seq<CmdV>) -> bool
    decreases cmds, 0nat,
{
    cmds.len() > 0 ==> no_assign(cmds[0]) && no_assign_seq(cmds.drop_first())
}

/// Each command of a batch weighs less than the batch.
pub proof fn lemma_weight_elem(cmds: Seq<CmdV>, i: int)
    requires
        0 <= i < cmds.len(),
    ensures
        weight(cmds[i]) <= weight_seq(cmds),
    decreases cmds.len(),
{
    if i > 0 {
        lemma_weight_elem(cmds.drop_first(), i - 1);
        assert(cmds.drop_first()[i - 1] == cmds[i]);
    }
}

/// Weight and id assignment of a concatenation.
pub proof fn lemma_seq_concat(a: Seq<CmdV>, b: Seq<CmdV>)
    ensures
        weight_seq(a + b) == weight_seq(a) + weight_seq(b),
        no_assign_seq(a + b) == (no_assign_seq(a) && no_assign_seq(b)),
    decreases a.len(),
{
    if a.len() == 0 {
        assert(a + b =~= b);
    } else {
        assert((a + b).drop_first() =~= a.drop_first() + b);
        assert((a + b)[0] == a[0]);
        lemma_seq_concat(a.drop_first(), b);
    }
}

/// Running a concatenation runs the first part, then (if it succeeded) the
/// second from where the first left off.
pub proof fn lemma_run_seq_append(s: TLView, a: Seq<CmdV>, b: Seq<CmdV>)
    ensures
        run_seq(s, a + b) == (match run_seq(s, a) {
            (sa, Ok((i1, r1, g1))) => match run_seq(sa, b) {
                (sb, Ok((i2, r2, g2))) => (sb, Ok((i1 + i2, r1 + r2, g1 + g2))),
                (sb, Err((j, e))) => (sb, Err(((a.len() + j) as nat, e))),
            },
            (sa, Err(x)) => (sa, Err(x)),
        }),
        run_seq(s, a).1 is Ok ==> pre_seq(s, a + b) == (pre_seq(s, a) && pre_seq(
            run_seq(s, a).0,
            b,
        )),
        run_seq(s, a).1 is Err ==> pre_seq(s, a + b) == pre_seq(s, a),
    decreases a.len(),
{
    if a.len() == 0 {
        assert(a + b =~= b);
        match run_seq(s, b) {
            (sb, Ok((i2, r2, g2))) => {
                assert(Seq::<CmdV>::empty() + i2 =~= i2);
                assert(Seq::<CmdV>::empty() + r2 =~= r2);
                assert(Seq::<u64>::empty() + g2 =~= g2);
            },
            _ => {},
        }
    } else {
        let a1 = a.drop_first();
        assert((a + b).drop_first() =~= a1 + b);
        assert((a + b)[0] == a[0]);
        lemma_run_seq_append(run(s, a[0]).0, a1, b);
        match run(s, a[0]) {
            (s1, Ok(x)) => {
                match run_seq(s1, a1) {
                    (sa, Ok((i1, r1, g1))) => {
                        match run_seq(sa, b) {
                            (sb, Ok((i2, r2, g2))) => {
                                assert(seq![x.inverse] + (i1 + i2) =~= (seq![x.inverse] + i1) + i2);
                                assert(seq![x.resolved] + (r1 + r2) =~= (seq![x.resolved] + r1)
                                    + r2);
                                assert(x.assigned + (g1 + g2) =~= (x.assigned + g1) + g2);
                            },
                            _ => {},
                        }
                    },
                    _ => {},
                }
            },
            _ => {},
        }
    }
}

/// Insertion positions depend on the clips only, not on the counter.
proof fn lemma_ins_pos_counter(s: TLView, k: u64, seq: Seq<u64>, x: Rational)
    requires
        s.seq_ok(seq),
        x.wf(),
    ensures
        s.with_counter(k).ins_pos(seq, x) == s.ins_pos(seq, x),
{
    let s2 = s.with_counter(k);
    lemma_ins_pos_exists(s, seq, x);
    lemma_seq_ok_frame(s, s2, seq);
    lemma_ins_pos_exists(s2, seq, x);
    let p = s.ins_pos(seq, x);
    let q = s2.ins_pos(seq, x);
    assert forall|i: int| 0 <= i < q implies #[trigger] s.start_of(seq[i]).is_lt(x) by {
        assert(s2.start_of(seq[i]).is_lt(x));
    }
    assert forall|i: int| q <= i < seq.len() implies !#[trigger] s.start_of(seq[i]).is_lt(x) by {
        assert(!s2.start_of(seq[i]).is_lt(x));
    }
    assert(s.is_ins_pos(seq, x, q));
    crate::timeline::model::lemma_ins_pos_unique(s, seq, x, p, q);
}

/// A command that assigns no ids runs the same way whatever the counter
/// holds, and leaves the counter as it was.
pub proof fn lemma_run_counter(s: TLView, c: CmdV, k: u64)
    requires
        s.wf(),
        pre(s, c),
        no_assign(c),
    ensures
        run(s.with_counter(k), c).0 == run(s, c).0.with_counter(k),
        run(s.with_counter(k), c).1 == run(s, c).1,
        run(s, c).0.next_id == s.next_id,
        pre(s.with_counter(k), c),
    decreases c, 1nat,
{
    let s2 = s.with_counter(k);
    match c {
        CmdV::Add { id, track, start, .. } => {
            if track < s.tracks.len() {
                lemma_wf_seq_ok(s, track as int);
                lemma_ins_pos_counter(s, k, s.tracks[track as int], start);
            }
        },
        CmdV::Move { id, track: nt, start: ns } => {
            if s.clips.contains_key(id) && nt < s.tracks.len() {
                lemma_idx_of(s, id);
                let e = s.clips[id];
                let old = s.tracks[e.track as int];
                let tracks1 = s.tracks.update(e.track as int, old.remove(idx(old, id)));
                lemma_seq_ok_remove(s, old, idx(old, id));
                if nt as int != e.track as int {
                    lemma_wf_seq_ok(s, nt as int);
                }
                lemma_ins_pos_counter(s, k, tracks1[nt as int], ns);
            }
        },
        CmdV::Batch { cmds, label } => {
            lemma_run_seq_counter(s, cmds, k);
        },
        _ => {},
    }
}

/// A sequence that assigns no ids runs the same way whatever the counter.
pub proof fn lemma_run_seq_counter(s: TLView, cmds: Seq<CmdV>, k: u64)
    requires
        s.wf(),
        pre_seq(s, cmds),
        no_assign_seq(cmds),
    ensures
        run_seq(s.with_counter(k), cmds).0 == run_seq(s, cmds).0.with_counter(k),
        run_seq(s.with_counter(k), cmds).1 == run_seq(s, cmds).1,
        run_seq(s, cmds).0.next_id == s.next_id,
        pre_seq(s.with_counter(k), cmds),
    decreases cmds, 0nat,
{
    if cmds.len() > 0 {
        lemma_run_counter(s, cmds[0], k);
        lemma_run_wf(s, cmds[0]);
        if run(s, cmds[0]).1 is Ok {
            let s1 = run(s, cmds[0]).0;
            lemma_run_seq_counter(s1, cmds.drop_first(), k);
        }
    }
}

/// A successful command is undone by its inverse: applied right after it,
/// the inverse assigns no ids, needs nothing more than it, succeeds, and
/// restores the content, leaving the counter where the command left it.
pub open spec fn undoes(s: TLView, c: CmdV) -> bool {
    let (s1, r) = run(s, c);
    let inv = r->Ok_0.inverse;
    &&& no_assign(inv)
    &&& weight(inv) <= weight(c)
    &&& pre(s1, inv)
    &&& run(s1, inv).1 is Ok
    &&& run(s1, inv).0.same_content(s)
    &&& run(s1, inv).0.next_id == s1.next_id
}

/// A clip taken out of its track goes back to the same position, between
/// neighbours it does not overlap.
proof fn lemma_reinsert(s: TLView, s1: TLView, id: u64)
    requires
        s.wf(),
        s.clips.contains_key(id),
        ({
            let seq = s.tracks[s.clips[id].track as int];
            same_clips_on(s, s1, seq.remove(idx(seq, id)))
        }),
    ensures
        ({
            let e = s.clips[id];
            let seq = s.tracks[e.track as int];
            let sp = idx(seq, id);
            let q = seq.remove(sp);
            &&& s1.ins_pos(q, e.start) == sp
            &&& sp > 0 ==> !e.start.is_lt(s1.end_of(q[sp - 1]))
            &&& sp < q.len() ==> !s1.start_of(q[sp]).is_lt(e.start.add_spec(e.dur))
            &&& q.insert(sp, id) == seq
        }),
{
    lemma_idx_of(s, id);
    let e = s.clips[id];
    let seq = s.tracks[e.track as int];
    let sp = idx(seq, id);
    let q = seq.remove(sp);
    assert forall|i: int| 0 <= i < sp implies #[trigger] s1.start_of(q[i]).is_lt(e.start) by {
        assert(q[i] == seq[i]);
        lemma_starts_increase(s, seq, i, sp);
    }
    assert forall|i: int| sp <= i < q.len() implies !#[trigger] s1.start_of(q[i]).is_lt(e.start) by {
        assert(q[i] == seq[i + 1]);
        lemma_starts_increase(s, seq, sp, i + 1);
    }
    crate::timeline::model::lemma_ins_pos_is(s1, q, e.start, sp);
    if sp > 0 {
        assert(q[sp - 1] == seq[sp - 1]);
        assert(s.end_of(seq[sp - 1]).is_le(s.start_of(seq[sp])));
        lemma_not_lt(e.start, s.end_of(seq[sp - 1]));
    }
    if sp < q.len() {
        assert(q[sp] == seq[sp + 1]);
        assert(s.end_of(seq[sp]).is_le(s.start_of(seq[sp + 1])));
        lemma_not_lt(s.start_of(seq[sp + 1]), e.end());
    }
    assert(q.insert(sp, id) =~= seq);
}

/// The ids of a track other than `id`, with `id` taken out, keep their clips
/// in a state that changed only `id`.
proof fn lemma_others_kept(s: TLView, s1: TLView, id: u64)
    requires
        s.wf(),
        s.clips.contains_key(id),
        forall|x: u64| x != id && s.clips.contains_key(x) ==> #[trigger] s1.clips.contains_key(x)
            && s1.clips[x] == s.clips[x],
    ensures
        ({
            let seq = s.tracks[s.clips[id].track as int];
            same_clips_on(s, s1, seq.remove(idx(seq, id)))
        }),
{
    lemma_idx_of(s, id);
    let seq = s.tracks[s.clips[id].track as int];
    let sp = idx(seq, id);
    let q = seq.remove(sp);
    assert forall|i: int| 0 <= i < q.len() implies {
        &&& s1.clips.contains_key(#[trigger] q[i])
        &&& s1.clips[q[i]] == s.clips[q[i]]
    } by {
        let k = if i < sp {
            i
        } else {
            i + 1
        };
        assert(q[i] == seq[k]);
        lemma_seq_distinct(s, seq, k, sp);
        assert(s.clips.contains_key(seq[k]));
        assert(seq[k] != id);
        assert(s1.clips.contains_key(seq[k]) && s1.clips[seq[k]] == s.clips[seq[k]]);
    }
}

proof fn lemma_add_inverse(s: TLView, c: CmdV)
    requires
        s.wf(),
        pre(s, c),
        c is Add,
        run(s, c).1 is Ok,
    ensures
        undoes(s, c),
{
    match c {
        CmdV::Add { id, track, asset, start, dur, src_in, speed, label } => {
            lemma_run_wf(s, c);
            let t = track as int;
            let seq = s.tracks[t];
            lemma_wf_seq_ok(s, t);
            lemma_ins_pos_exists(s, seq, start);
            let p = s.ins_pos(seq, start);
            let cid = match id {
                Some(i) => i,
                None => fresh_id(s),
            };
            if id is None {
                lemma_fresh_id(s);
            }
            let s1 = run(s, c).0;
            assert(s1.tracks[t] == seq.insert(p, cid));
            assert(seq.insert(p, cid)[p] == cid);
            lemma_idx_is(s1, t, p);
            let s3 = run(s1, CmdV::Remove { id: cid }).0;
            assert(seq.insert(p, cid).remove(p) =~= seq);
            assert(s3.tracks =~= s.tracks);
            assert(s3.clips =~= s.clips);
        },
        _ => {},
    }
}

proof fn lemma_remove_inverse(s: TLView, c: CmdV)
    requires
        s.wf(),
        c is Remove,
        run(s, c).1 is Ok,
    ensures
        undoes(s, c),
{
    match c {
        CmdV::Remove { id } => {
            lemma_run_wf(s, c);
            lemma_idx_of(s, id);
            let e = s.clips[id];
            let s1 = run(s, c).0;
            lemma_others_kept(s, s1, id);
            lemma_reinsert(s, s1, id);
            let inv = CmdV::Add {
                id: Some(id),
                track: e.track,
                asset: e.asset,
                start: e.start,
                dur: e.dur,
                src_in: e.src_in,
                speed: e.speed,
                label: e.label,
            };
            let s3 = run(s1, inv).0;
            assert(ClipV {
                id: id,
                track: e.track,
                asset: e.asset,
                start: e.start,
                dur: e.dur,
                src_in: e.src_in,
                speed: e.speed,
                label: e.label,
            } == e);
            assert(s3.tracks =~= s.tracks);
            assert(s3.clips =~= s.clips);
        },
        _ => {},
    }
}

proof fn lemma_move_inverse(s: TLView, c: CmdV)
    requires
        s.wf(),
        pre(s, c),
        c is Move,
        run(s, c).1 is Ok,
    ensures
        undoes(s, c),
{
    match c {
        CmdV::Move { id, track: nt, start: ns } => {
            lemma_run_wf(s, c);
            lemma_idx_of(s, id);
            let e = s.clips[id];
            let t0 = e.track as int;
            let t1 = nt as int;
            let old = s.tracks[t0];
            let sp = idx(old, id);
            let o2 = old.remove(sp);
            let tracks1 = s.tracks.update(t0, o2);
            let seq2 = tracks1[t1];
            lemma_seq_ok_remove(s, old, sp);
            if t1 != t0 {
                lemma_wf_seq_ok(s, t1);
            }
            lemma_ins_pos_exists(s, seq2, ns);
            let q = s.ins_pos(seq2, ns);
            let r = seq2.insert(q, id);
            let s1 = run(s, c).0;
            assert(s1.tracks == tracks1.update(t1, r));
            assert(r[q] == id);
            lemma_idx_is(s1, t1, q);
            lemma_others_kept(s, s1, id);
            lemma_reinsert(s, s1, id);
            assert(r.remove(q) =~= seq2);
            let tracks1b = s1.tracks.update(t1, r.remove(q));
            assert(tracks1b =~= tracks1);
            let inv = CmdV::Move { id, track: e.track, start: e.start };
            let s3 = run(s1, inv).0;
            assert(s3.tracks =~= s.tracks);
            assert(s3.clips =~= s.clips);
        },
        _ => {},
    }
}

proof fn lemma_resize_inverse(s: TLView, c: CmdV)
    requires
        s.wf(),
        pre(s, c),
        c is Resize,
        run(s, c).1 is Ok,
    ensures
        undoes(s, c),
{
    match c {
        CmdV::Resize { id, dur } => {
            lemma_run_wf(s, c);
            lemma_idx_of(s, id);
            lemma_succ_after(s, id);
            let e = s.clips[id];
            let seq = s.tracks[e.track as int];
            let p = idx(seq, id);
            let s1 = run(s, c).0;
            if p + 1 < seq.len() {
                lemma_seq_distinct(s, seq, p, p + 1);
                lemma_not_lt(s1.start_of(seq[p + 1]), e.end());
            }
            let s3 = run(s1, CmdV::Resize { id, dur: e.dur }).0;
            assert(s3.clips =~= s.clips);
        },
        _ => {},
    }
}

/// Retiming back to the old speed gives back the old duration exactly.
proof fn lemma_retime_back(e: ClipV, speed: Rational)
    requires
        e.valid(),
        speed.wf(),
        speed.n() > 0,
        e.dur.mul_fits(e.speed),
        e.dur.mul_spec(e.speed).mul_fits(recip(speed)),
    ensures
        ({
            let e1 = ClipV { dur: retimed_dur(e, speed), speed, ..e };
            &&& e1.dur.mul_fits(e1.speed)
            &&& e1.dur.mul_spec(e1.speed).mul_fits(recip(e.speed))
            &&& retimed_dur(e1, e.speed) == e.dur
        }),
{
    speed.lemma_recip();
    e.speed.lemma_recip();
    assert(recip(speed) == speed.recip_spec());
    assert(recip(e.speed) == e.speed.recip_spec());
    let p = e.dur.mul_spec(e.speed);
    e.dur.lemma_mul_value(e.speed);
    let r = recip(speed);
    let nd = p.mul_spec(r);
    p.lemma_mul_value(r);
    let (pn, pd, sn, sd, ndn, ndd) = (p.n(), p.d(), speed.n(), speed.d(), nd.n(), nd.d());
    assert(pn * (ndd * sd) == (ndn * sn) * pd) by (nonlinear_arith)
        requires
            ndn * (pd * sn) == (pn * sd) * ndd,
    ;
    assert(ndd * sd > 0) by (nonlinear_arith)
        requires
            ndd > 0,
            sd > 0,
    ;
    p.lemma_from_red_of_value(ndn * sn, ndd * sd);
    assert(nd.mul_spec(speed) == p);
    let (dn, dd, en, ed) = (e.dur.n(), e.dur.d(), e.speed.n(), e.speed.d());
    assert(dn * (pd * en) == (pn * ed) * dd) by (nonlinear_arith)
        requires
            pn * (dd * ed) == (dn * en) * pd,
    ;
    assert(pd * en > 0) by (nonlinear_arith)
        requires
            pd > 0,
            en > 0,
    ;
    e.dur.lemma_from_red_of_value(pn * ed, pd * en);
}

proof fn lemma_retime_inverse(s: TLView, c: CmdV)
    requires
        s.wf(),
        pre(s, c),
        c is Retime,
        run(s, c).1 is Ok,
    ensures
        undoes(s, c),
{
    match c {
        CmdV::Retime { id, speed } => {
            lemma_run_wf(s, c);
            lemma_idx_of(s, id);
            lemma_succ_after(s, id);
            let e = s.clips[id];
            let seq = s.tracks[e.track as int];
            let p = idx(seq, id);
            let s1 = run(s, c).0;
            lemma_retime_back(e, speed);
            lemma_start_lt_end(e.start, e.dur);
            if p + 1 < seq.len() {
                lemma_seq_distinct(s, seq, p, p + 1);
                lemma_not_lt(s1.start_of(seq[p + 1]), e.end());
            }
            let s3 = run(s1, CmdV::Retime { id, speed: e.speed }).0;
            assert(s3.clips =~= s.clips);
        },
        _ => {},
    }
}

proof fn lemma_split_inverse(s: TLView, c: CmdV)
    requires
        s.wf(),
        pre(s, c),
        c is Split,
        run(s, c).1 is Ok,
    ensures
        undoes(s, c),
{
    match c {
        CmdV::Split { id, offset, new_id } => {
            lemma_run_wf(s, c);
            lemma_idx_of(s, id);
            lemma_succ_after(s, id);
            let e = s.clips[id];
            let t = e.track as int;
            let seq = s.tracks[t];
            let p = idx(seq, id);
            let rid = match new_id {
                Some(n) => n,
                None => fresh_id(s),
            };
            if new_id is None {
                lemma_fresh_id(s);
            }
            assert(!s.clips.contains_key(rid));
            let left = ClipV { dur: offset, ..e };
            let s1 = run(s, c).0;
            let r = seq.insert(p + 1, rid);
            assert(s1.tracks[t] == r);
            assert(r[p + 1] == rid);
            lemma_idx_is(s1, t, p + 1);
            let c1 = CmdV::Remove { id: rid };
            let c2 = CmdV::Resize { id, dur: e.dur };
            let sa = run(s1, c1).0;
            assert(r.remove(p + 1) =~= seq);
            assert(sa.tracks =~= s.tracks);
            assert(sa.clips =~= s.clips.insert(id, left));
            if p + 1 < seq.len() {
                lemma_seq_distinct(s, seq, p, p + 1);
                lemma_start_lt_end(e.start, e.dur);
                lemma_not_lt(sa.start_of(seq[p + 1]), e.end());
            }
            let sb = run(sa, c2).0;
            assert(run(sa, c2).1 is Ok);
            assert(sb.clips =~= s.clips);
            lemma_run_pair(s1, c1, c2);
        },
        _ => {},
    }
}

/// Every successful command is undone by its inverse (see `undoes`).
pub proof fn lemma_inverse(s: TLView, c: CmdV)
    requires
        s.wf(),
        pre(s, c),
        run(s, c).1 is Ok,
    ensures
        undoes(s, c),
    decreases c, 1nat,
{
    match c {
        CmdV::Add { .. } => lemma_add_inverse(s, c),
        CmdV::Remove { .. } => lemma_remove_inverse(s, c),
        CmdV::Move { .. } => lemma_move_inverse(s, c),
        CmdV::Resize { .. } => lemma_resize_inverse(s, c),
        CmdV::Split { .. } => lemma_split_inverse(s, c),
        CmdV::Retime { .. } => lemma_retime_inverse(s, c),
        CmdV::Batch { cmds, label } => {
            lemma_run_seq_inverse(s, cmds);
        },
    }
}

/// The inverses of a successful sequence, applied in reverse order, succeed
/// and restore the content.
pub proof fn lemma_run_seq_inverse(s: TLView, cmds: Seq<CmdV>)
    requires
        s.wf(),
        pre_seq(s, cmds),
        run_seq(s, cmds).1 is Ok,
    ensures
        ({
            let (s2, r) = run_seq(s, cmds);
            let invs = r->Ok_0.0.reverse();
            &&& no_assign_seq(invs)
            &&& weight_seq(invs) <= weight_seq(cmds)
            &&& pre_seq(s2, invs)
            &&& run_seq(s2, invs).1 is Ok
            &&& run_seq(s2, invs).0.same_content(s)
            &&& run_seq(s2, invs).0.next_id == s2.next_id
        }),
    decreases cmds, 0nat,
{
    if cmds.len() == 0 {
        assert(Seq::<CmdV>::empty().reverse() =~= Seq::<CmdV>::empty());
    } else {
        let c0 = cmds[0];
        let rest = cmds.drop_first();
        lemma_run_wf(s, c0);
        let s1 = run(s, c0).0;
        let a0 = run(s, c0).1->Ok_0;
        lemma_inverse(s, c0);
        lemma_run_seq_inverse(s1, rest);
        let s2 = run_seq(s1, rest).0;
        let invs_r = run_seq(s1, rest).1->Ok_0.0;
        let invs = seq![a0.inverse] + invs_r;
        assert(run_seq(s, cmds).1->Ok_0.0 == invs);
        assert(run_seq(s, cmds).0 == s2);
        let back = invs_r.reverse();
        let one = seq![a0.inverse];
        assert(invs.reverse() =~= back + one);
        lemma_run_seq_append(s2, back, one);
        lemma_seq_concat(back, one);
        let t1 = run_seq(s2, back).0;
        assert(t1 == s1.with_counter(t1.next_id));
        lemma_run_wf(s1, a0.inverse);
        lemma_run_counter(s1, a0.inverse, t1.next_id);
        lemma_run_single(t1, a0.inverse);
    }
}

/// A one-command sequence runs as its command.
pub proof fn lemma_run_single(s: TLView, c: CmdV)
    ensures
        run_seq(s, seq![c]).0 == run(s, c).0,
        run_seq(s, seq![c]).1 is Ok == run(s, c).1 is Ok,
        run(s, c).1 is Ok ==> run_seq(s, seq![c]).1 == Ok::<_, (nat, crate::timeline::model::ErrV)>(
            (
                seq![run(s, c).1->Ok_0.inverse],
                seq![run(s, c).1->Ok_0.resolved],
                run(s, c).1->Ok_0.assigned,
            ),
        ),
        pre_seq(s, seq![c]) == pre(s, c),
        weight_seq(seq![c]) == weight(c),
        no_assign_seq(seq![c]) == no_assign(c),
{
    let one = seq![c];
    let e = Seq::<CmdV>::empty();
    assert(one[0] == c);
    assert(one.drop_first() =~= e);
    let s1 = run(s, c).0;
    assert(run_seq(s1, e).0 == s1);
    assert(pre_seq(s1, e));
    assert(weight_seq(e) == 0);
    assert(no_assign_seq(e));
    if run(s, c).1 is Ok {
        let a = run(s, c).1->Ok_0;
        assert(seq![a.inverse] + Seq::<CmdV>::empty() =~= seq![a.inverse]);
        assert(seq![a.resolved] + Seq::<CmdV>::empty() =~= seq![a.resolved]);
        assert(a.assigned + Seq::<u64>::empty() =~= a.assigned);
    }
}

/// A two-command sequence whose commands both succeed runs as the first
/// followed by the second.
pub proof fn lemma_run_pair(s: TLView, c1: CmdV, c2: CmdV)
    requires
        run(s, c1).1 is Ok,
        run(run(s, c1).0, c2).1 is Ok,
    ensures
        run_seq(s, seq![c1, c2]).1 is Ok,
        run_seq(s, seq![c1, c2]).0 == run(run(s, c1).0, c2).0,
        pre_seq(s, seq![c1, c2]) == (pre(s, c1) && pre(run(s, c1).0, c2)),
        weight_seq(seq![c1, c2]) == weight(c1) + weight(c2),
        no_assign_seq(seq![c1, c2]) == (no_assign(c1) && no_assign(c2)),
{
    let cs = seq![c1, c2];
    assert(cs[0] == c1);
    assert(cs.drop_first() =~= seq![c2]);
    lemma_run_single(run(s, c1).0, c2);
}

/// Running a prefix one command longer runs the shorter prefix and then
/// that command.
pub proof fn lemma_run_prefix(s: TLView, cmds: Seq<CmdV>, i: int)
    requires
        0 <= i < cmds.len(),
    ensures
        run_seq(s, cmds.take(i + 1)) == (match run_seq(s, cmds.take(i)) {
            (si, Ok((a, b, g))) => match run(si, cmds[i]) {
                (s1, Ok(x)) => (s1, Ok((a.push(x.inverse), b.push(x.resolved), g + x.assigned))),
                (s1, Err(e)) => (s1, Err((i as nat, e))),
            },
            (si, Err(x)) => (si, Err(x)),
        }),
        run_seq(s, cmds.take(i)).1 is Ok ==> pre_seq(s, cmds.take(i + 1)) == (pre_seq(
            s,
            cmds.take(i),
        ) && pre(run_seq(s, cmds.take(i)).0, cmds[i])),
{
    let a = cmds.take(i);
    let one = seq![cmds[i]];
    assert(cmds.take(i + 1) =~= a + one);
    lemma_run_seq_append(s, a, one);
    lemma_run_single(run_seq(s, a).0, cmds[i]);
    if run_seq(s, a).1 is Ok {
        let (ia, ra, ga) = run_seq(s, a).1->Ok_0;
        let si = run_seq(s, a).0;
        if run(si, cmds[i]).1 is Ok {
            let x = run(si, cmds[i]).1->Ok_0;
            assert(ia + seq![x.inverse] =~= ia.push(x.inverse));
            assert(ra + seq![x.resolved] =~= ra.push(x.resolved));
        }
    }
}

/// Every prefix of a sequence that runs as it needs runs as it needs and
/// ends in a well-formed state; a prefix that fails decides the whole run.
pub proof fn lemma_prefix_facts(s: TLView, cmds: Seq<CmdV>, j: int)
    requires
        s.wf(),
        pre_seq(s, cmds),
        0 <= j <= cmds.len(),
    ensures
        pre_seq(s, cmds.take(j)),
        run_seq(s, cmds.take(j)).0.wf(),
        run_seq(s, cmds.take(j)).1 is Err ==> run_seq(s, cmds) == run_seq(s, cmds.take(j)),
{
    let a = cmds.take(j);
    let b = cmds.skip(j);
    assert(cmds =~= a + b);
    lemma_run_seq_append(s, a, b);
    lemma_run_seq_wf(s, a);
}

/// A prefix of a successful prefix succeeds, and its inverses are the first
/// ones of the longer prefix.
pub proof fn lemma_prefix_ok(s: TLView, cmds: Seq<CmdV>, j: int, i: int)
    requires
        0 <= j <= i <= cmds.len(),
        run_seq(s, cmds.take(i)).1 is Ok,
    ensures
        run_seq(s, cmds.take(j)).1 is Ok,
        run_seq(s, cmds.take(j)).1->Ok_0.0 == run_seq(s, cmds.take(i)).1->Ok_0.0.take(j),
        run_seq(s, cmds.take(j)).1->Ok_0.0.len() == j,
{
    let a = cmds.take(j);
    let b = cmds.take(i).skip(j);
    assert(cmds.take(i) =~= a + b);
    lemma_run_seq_append(s, a, b);
    lemma_inverses_len(s, a);
    let ia = run_seq(s, a).1->Ok_0.0;
    let ib = run_seq(run_seq(s, a).0, b).1->Ok_0.0;
    assert((ia + ib).take(j) =~= ia);
}

/// A successful sequence has one inverse per command.
pub proof fn lemma_inverses_len(s: TLView, cmds: Seq<CmdV>)
    ensures
        run_seq(s, cmds).1 is Ok ==> run_seq(s, cmds).1->Ok_0.0.len() == cmds.len(),
    decreases cmds.len(),
{
    if cmds.len() > 0 && run(s, cmds[0]).1 is Ok {
        lemma_inverses_len(run(s, cmds[0]).0, cmds.drop_first());
    }
}

/// The resolved form of a successful command reproduces it: run in the same
/// content under any counter, it needs nothing more, assigns no ids, and
/// gives the same content and the same outcome.
pub open spec fn reproduces(s: TLView, c: CmdV, k: u64) -> bool {
    let (s1, r) = run(s, c);
    let res = r->Ok_0.resolved;
    &&& no_assign(res)
    &&& pre(s.with_counter(k), res)
    &&& run(s.with_counter(k), res) == (s1.with_counter(k), r)
}

proof fn lemma_add_resolved(s: TLView, c: CmdV, k: u64)
    requires
        s.wf(),
        pre(s, c),
        c is Add,
        run(s, c).1 is Ok,
    ensures
        reproduces(s, c, k),
{
    match c {
        CmdV::Add { id, track, asset, start, dur, src_in, speed, label } => {
            lemma_wf_seq_ok(s, track as int);
            lemma_ins_pos_counter(s, k, s.tracks[track as int], start);
            if id is None {
                lemma_fresh_id(s);
            }
        },
        _ => {},
    }
}

proof fn lemma_split_resolved(s: TLView, c: CmdV, k: u64)
    requires
        s.wf(),
        pre(s, c),
        c is Split,
        run(s, c).1 is Ok,
    ensures
        reproduces(s, c, k),
{
    match c {
        CmdV::Split { new_id, .. } => {
            if new_id is None {
                lemma_fresh_id(s);
            }
        },
        _ => {},
    }
}

/// Every successful command is reproduced by its resolved form.
pub proof fn lemma_resolved(s: TLView, c: CmdV, k: u64)
    requires
        s.wf(),
        pre(s, c),
        run(s, c).1 is Ok,
    ensures
        reproduces(s, c, k),
    decreases c, 1nat,
{
    match c {
        CmdV::Add { .. } => lemma_add_resolved(s, c, k),
        CmdV::Split { .. } => lemma_split_resolved(s, c, k),
        CmdV::Batch { cmds, label } => {
            lemma_run_seq_resolved(s, cmds, k);
        },
        _ => {
            lemma_run_counter(s, c, k);
        },
    }
}

/// The resolved forms of a successful sequence reproduce it.
pub proof fn lemma_run_seq_resolved(s: TLView, cmds: Seq<CmdV>, k: u64)
    requires
        s.wf(),
        pre_seq(s, cmds),
        run_seq(s, cmds).1 is Ok,
    ensures
        ({
            let (s2, r) = run_seq(s, cmds);
            let ress = r->Ok_0.1;
            &&& no_assign_seq(ress)
            &&& pre_seq(s.with_counter(k), ress)
            &&& run_seq(s.with_counter(k), ress) == (s2.with_counter(k), r)
        }),
    decreases cmds, 0nat,
{
    if cmds.len() > 0 {
        let c0 = cmds[0];
        lemma_run_wf(s, c0);
        lemma_resolved(s, c0, k);
        let s1 = run(s, c0).0;
        let a0 = run(s, c0).1->Ok_0;
        lemma_run_seq_resolved(s1, cmds.drop_first(), k);
        let ress = run_seq(s, cmds).1->Ok_0.1;
        let rest = run_seq(s1, cmds.drop_first()).1->Ok_0.1;
        assert(ress == seq![a0.resolved] + rest);
        assert(ress[0] == a0.resolved);
        assert(ress.drop_first() =~= rest);
    } else {
        assert(run_seq(s, cmds).1->Ok_0.1 =~= Seq::<CmdV>::empty());
    }
}

/// The undo stack can be unwound from `s`: each top inverse applies, and
/// re-applying the recorded command to the state it leaves gives back the content
/// above it with the same inverse.
pub open spec fn undoable(s: TLView, undo: Seq<(CmdV, CmdV)>) -> bool
    decreases undo.len(),
{
    undo.len() > 0 ==> {
        let (orig, inv) = undo.last();
        let t = run(s, inv).0;
        &&& no_assign(inv)
        &&& pre(s, inv)
        &&& run(s, inv).1 is Ok
        &&& no_assign(orig)
        &&& pre(t, orig)
        &&& run(t, orig).1 is Ok
        &&& run(t, orig).0.same_content(s)
        &&& run(t, orig).1->Ok_0.inverse == inv
        &&& run(t, orig).1->Ok_0.resolved == orig
        &&& undoable(t, undo.drop_last())
    }
}

/// The redo stack can be replayed from `s`: each top command applies, its
/// resolved form is itself, and its inverse takes the content back.
pub open spec fn redoable(s: TLView, redo: Seq<CmdV>) -> bool
    decreases redo.len(),
{
    redo.len() > 0 ==> {
        let orig = redo.last();
        let s1 = run(s, orig).0;
        let inv = run(s, orig).1->Ok_0.inverse;
        &&& no_assign(orig)
        &&& pre(s, orig)
        &&& run(s, orig).1 is Ok
        &&& run(s, orig).1->Ok_0.resolved == orig
        &&& no_assign(inv)
        &&& pre(s1, inv)
        &&& run(s1, inv).1 is Ok
        &&& run(s1, inv).0.same_content(s)
        &&& redoable(s1, redo.drop_last())
    }
}

/// Unwinding the undo stack does not depend on the counter.
pub proof fn lemma_undoable_counter(s: TLView, undo: Seq<(CmdV, CmdV)>, k: u64)
    requires
        s.wf(),
        undoable(s, undo),
    ensures
        undoable(s.with_counter(k), undo),
    decreases undo.len(),
{
    if undo.len() > 0 {
        let (orig, inv) = undo.last();
        let t = run(s, inv).0;
        lemma_run_counter(s, inv, k);
        lemma_run_wf(s, inv);
        lemma_run_counter(t, orig, k);
        lemma_undoable_counter(t, undo.drop_last(), k);
    }
}

/// Replaying the redo stack does not depend on the counter.
pub proof fn lemma_redoable_counter(s: TLView, redo: Seq<CmdV>, k: u64)
    requires
        s.wf(),
        redoable(s, redo),
    ensures
        redoable(s.with_counter(k), redo),
    decreases redo.len(),
{
    if redo.len() > 0 {
        let orig = redo.last();
        let s1 = run(s, orig).0;
        let inv = run(s, orig).1->Ok_0.inverse;
        lemma_run_counter(s, orig, k);
        lemma_run_wf(s, orig);
        lemma_run_counter(s1, inv, k);
        lemma_redoable_counter(s1, redo.drop_last(), k);
    }
}

/// After a successful command, its resolved form and inverse on top of an
/// unwindable undo stack leave it unwindable.
pub proof fn lemma_after_apply(s: TLView, undo: Seq<(CmdV, CmdV)>, c: CmdV)
    requires
        s.wf(),
        undoable(s, undo),
        pre(s, c),
        run(s, c).1 is Ok,
    ensures
        undoable(
            run(s, c).0,
            undo.push((run(s, c).1->Ok_0.resolved, run(s, c).1->Ok_0.inverse)),
        ),
{
    let s1 = run(s, c).0;
    let a = run(s, c).1->Ok_0;
    let u2 = undo.push((a.resolved, a.inverse));
    lemma_run_wf(s, c);
    lemma_inverse(s, c);
    let t = run(s1, a.inverse).0;
    assert(t == s.with_counter(t.next_id));
    lemma_resolved(s, c, t.next_id);
    lemma_undoable_counter(s, undo, t.next_id);
    assert(u2.last() == (a.resolved, a.inverse));
    assert(u2.drop_last() =~= undo);
}

/// Undoing leaves the rest of the undo stack unwindable and the redo stack,
/// with the undone command on top, replayable.
pub proof fn lemma_after_undo(s: TLView, undo: Seq<(CmdV, CmdV)>, redo: Seq<CmdV>)
    requires
        s.wf(),
        undoable(s, undo),
        redoable(s, redo),
        undo.len() > 0,
    ensures
        run(s, undo.last().1).0.wf(),
        undoable(run(s, undo.last().1).0, undo.drop_last()),
        redoable(run(s, undo.last().1).0, redo.push(undo.last().0)),
{
    let (orig, inv) = undo.last();
    let t = run(s, inv).0;
    lemma_run_wf(s, inv);
    lemma_inverse(t, orig);
    let s1 = run(t, orig).0;
    lemma_run_wf(t, orig);
    assert(s1 == s.with_counter(s1.next_id));
    lemma_redoable_counter(s, redo, s1.next_id);
    let r2 = redo.push(orig);
    assert(r2.last() == orig);
    assert(r2.drop_last() =~= redo);
}

/// Redoing leaves the undo stack, with the redone command on top, unwindable
/// and the rest of the redo stack replayable.
pub proof fn lemma_after_redo(s: TLView, undo: Seq<(CmdV, CmdV)>, redo: Seq<CmdV>)
    requires
        s.wf(),
        undoable(s, undo),
        redoable(s, redo),
        redo.len() > 0,
    ensures
        run(s, redo.last()).0.wf(),
        undoable(
            run(s, redo.last()).0,
            undo.push((redo.last(), run(s, redo.last()).1->Ok_0.inverse)),
        ),
        redoable(run(s, redo.last()).0, redo.drop_last()),
{
    let orig = redo.last();
    let s1 = run(s, orig).0;
    let inv = run(s, orig).1->Ok_0.inverse;
    lemma_run_wf(s, orig);
    let t = run(s1, inv).0;
    assert(t == s.with_counter(t.next_id));
    lemma_run_counter(s, orig, t.next_id);
    lemma_undoable_counter(s, undo, t.next_id);
    let u2 = undo.push((orig, inv));
    assert(u2.last() == (orig, inv));
    assert(u2.drop_last() =~= undo);
}

/// Ids are never reused: an id that a single command assigns (the engine's
/// choice or the caller's) names no clip of the state it runs on, and an
/// engine-assigned id is the first free id at or after the counter.
pub proof fn lemma_assigned_fresh(s: TLView, c: CmdV)
    requires
        s.wf(),
        pre(s, c),
        run(s, c).1 is Ok,
        !(c is Batch),
    ensures
        forall|i: int|
            0 <= i < run(s, c).1->Ok_0.assigned.len() ==> !s.clips.contains_key(
                #[trigger] run(s, c).1->Ok_0.assigned[i],
            ),
        c matches CmdV::Add { id, .. } && id is None ==> run(s, c).1->Ok_0.assigned == seq![
            fresh_id(s),
        ] && run(s, c).0.next_id == fresh_id(s) + 1,
        c matches CmdV::Split { new_id, .. } && new_id is None ==> run(s, c).1->Ok_0.assigned
            == seq![fresh_id(s)] && run(s, c).0.next_id == fresh_id(s) + 1,
{
    match c {
        CmdV::Add { id, .. } => {
            if id is None {
                lemma_fresh_id(s);
            }
        },
        CmdV::Split { new_id, .. } => {
            if new_id is None {
                lemma_fresh_id(s);
            }
        },
        _ => {},
    }
}

/// A failed command changes no content: the tracks and clips are those it
/// started from, so the content hash is unchanged (only a failed batch may
/// have moved the id counter, which is not content); a failed batch reports,
/// under its label, the position and the error of its first failing
/// sub-command.
pub proof fn lemma_error_keeps_content(s: TLView, c: CmdV)
    requires
        run(s, c).1 is Err,
    ensures
        run(s, c).0 == s.with_counter(run(s, c).0.next_id),
        run(s, c).0.same_content(s),
        content_hash(run(s, c).0) == content_hash(s),
        c matches CmdV::Batch { cmds, label } ==> {
            &&& run_seq(s, cmds).1 is Err
            &&& run(s, c).1 == Err::<AppliedV, ErrV>(
                ErrV::BatchRolledBack {
                    applied: run_seq(s, cmds).1->Err_0.0,
                    label,
                    error: Box::new(run_seq(s, cmds).1->Err_0.1),
                },
            )
        },
{
    lemma_hash_ignores_counter(run(s, c).0, s);
}

/// The ids on the first `k` tracks.
pub open spec fn ids_upto(s: TLView, k: int) -> Set<u64>
    decreases k,
{
    if k <= 0 {
        Set::empty()
    } else {
        ids_upto(s, k - 1) + s.tracks[k - 1].to_set()
    }
}

/// The number of clips listed on the first `k` tracks.
pub open spec fn count_upto(s: TLView, k: int) -> int
    decreases k,
{
    if k <= 0 {
        0
    } else {
        count_upto(s, k - 1) + s.tracks[k - 1].len()
    }
}

/// A track of a well-formed state lists each id once, and lists exactly the
/// clips that name it.
proof fn lemma_track_set(s: TLView, t: int)
    requires
        s.wf(),
        0 <= t < s.tracks.len(),
    ensures
        s.tracks[t].no_duplicates(),
        s.tracks[t].to_set().len() == s.tracks[t].len(),
        forall|id: u64|
            #[trigger] s.tracks[t].to_set().contains(id) <==> (s.clips.contains_key(id)
                && s.clips[id].track == t),
{
    let seq = s.tracks[t];
    assert(s.track_ok(t));
    lemma_wf_seq_ok(s, t);
    assert forall|i: int, j: int| 0 <= i < seq.len() && 0 <= j < seq.len() && i != j implies seq[i]
        != seq[j] by {
        lemma_seq_distinct(s, seq, i, j);
    }
    seq.unique_seq_to_set();
    assert forall|id: u64| #[trigger] seq.to_set().contains(id) <==> (s.clips.contains_key(id)
        && s.clips[id].track == t) by {
        if seq.to_set().contains(id) {
            let i = choose|i: int| 0 <= i < seq.len() && seq[i] == id;
            assert(seq[i] == id);
        }
    }
}

proof fn lemma_ids_upto(s: TLView, k: int)
    requires
        s.wf(),
        0 <= k <= s.tracks.len(),
    ensures
        ids_upto(s, k).finite(),
        ids_upto(s, k).len() == count_upto(s, k),
        forall|id: u64|
            #[trigger] ids_upto(s, k).contains(id) <==> (s.clips.contains_key(id) && s.clips[id].track
                < k),
    decreases k,
{
    if k > 0 {
        lemma_ids_upto(s, k - 1);
        lemma_track_set(s, k - 1);
        let a = ids_upto(s, k - 1);
        let b = s.tracks[k - 1].to_set();
        assert(a.disjoint(b));
        vstd::set_lib::lemma_set_disjoint_lens(a, b);
    } else {
        assert(ids_upto(s, k) =~= Set::<u64>::empty());
    }
}

/// Every clip of a well-formed state is listed on exactly one track, once:
/// the track that names it lists it, no other does, and the tracks' clip
/// counts add up to the number of clips.
pub proof fn lemma_track_counts(s: TLView)
    requires
        s.wf(),
    ensures
        count_upto(s, s.tracks.len() as int) == s.clips.len(),
        forall|t: int| 0 <= t < s.tracks.len() ==> (#[trigger] s.tracks[t]).no_duplicates(),
        forall|id: u64, t: int|
            s.clips.contains_key(id) && 0 <= t < s.tracks.len() ==> (#[trigger] s.tracks[t].contains(
                id,
            ) <==> t == s.clips[id].track),
{
    let n = s.tracks.len() as int;
    lemma_ids_upto(s, n);
    assert(ids_upto(s, n) =~= s.clips.dom());
    assert forall|t: int| 0 <= t < s.tracks.len() implies (#[trigger] s.tracks[t]).no_duplicates() by {
        lemma_track_set(s, t);
    }
    assert forall|id: u64, t: int|
        s.clips.contains_key(id) && 0 <= t < s.tracks.len() implies (#[trigger] s.tracks[t].contains(
            id,
        ) <==> t == s.clips[id].track) by {
        lemma_track_set(s, t);
        assert(s.tracks[t].contains(id) <==> s.tracks[t].to_set().contains(id));
    }
}

} // verus!
