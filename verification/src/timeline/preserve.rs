//! Sequence and table facts behind the timeline laws: ordered sequences keep
//! their order under insertion and removal, and a state stays well formed
//! when only a few tracks and clips change.
use crate::time::{lemma_le_trans, lemma_lt_le_trans, lemma_not_lt, lemma_start_lt_end, Rational};
use crate::timeline::model::{lemma_seq_ok_remove, lemma_starts_increase, lemma_wf_seq_ok, TLView};
use vstd::prelude::*;

verus! {

/// A clip table entry is placed: its track exists and lists it, and it is valid.
pub open spec fn placed(s: TLView, id: u64) -> bool {
    &&& (s.clips[id].track as int) < s.tracks.len()
    &&& s.tracks[s.clips[id].track as int].contains(id)
    &&& s.clips[id].valid()
}

/// The ids of a sequence carry the same clips in both states.
pub open spec fn same_clips_on(s: TLView, s2: TLView, seq: Seq<u64>) -> bool {
    forall|i: int|
        0 <= i < seq.len() ==> {
            &&& s2.clips.contains_key(#[trigger] seq[i])
            &&& s2.clips[seq[i]] == s.clips[seq[i]]
        }
}

/// Distinct positions of an ordered sequence of valid clips hold distinct ids.
pub proof fn lemma_seq_distinct(s: TLView, seq: Seq<u64>, i: int, j: int)
    requires
        s.seq_ok(seq),
        0 <= i < seq.len(),
        0 <= j < seq.len(),
        i != j,
    ensures
        seq[i] != seq[j],
{
    let (a, b) = if i < j {
        (i, j)
    } else {
        (j, i)
    };
    lemma_starts_increase(s, seq, a, b);
}

/// An ordered sequence stays ordered in a state that keeps its clips.
pub proof fn lemma_seq_ok_frame(s: TLView, s2: TLView, seq: Seq<u64>)
    requires
        s.seq_ok(seq),
        same_clips_on(s, s2, seq),
    ensures
        s2.seq_ok(seq),
{
    assert forall|i: int, j: int| 0 <= i < j < seq.len() implies #[trigger] s2.end_of(
        seq[i],
    ).is_le(#[trigger] s2.start_of(seq[j])) by {
        assert(s.end_of(seq[i]).is_le(s.start_of(seq[j])));
    }
}

/// Inserting a clip between neighbours it does not overlap keeps a sequence
/// ordered.
pub proof fn lemma_seq_ok_insert(s: TLView, s2: TLView, seq: Seq<u64>, p: int, cid: u64)
    requires
        s.seq_ok(seq),
        0 <= p <= seq.len(),
        same_clips_on(s, s2, seq),
        s2.clips.contains_key(cid),
        s2.clips[cid].valid(),
        p > 0 ==> s.end_of(seq[p - 1]).is_le(s2.start_of(cid)),
        p < seq.len() ==> s2.end_of(cid).is_le(s.start_of(seq[p])),
    ensures
        s2.seq_ok(seq.insert(p, cid)),
{
    let r = seq.insert(p, cid);
    let c = s2.clips[cid];
    lemma_start_lt_end(c.start, c.dur);
    assert forall|i: int, j: int| 0 <= i < j < r.len() implies #[trigger] s2.end_of(r[i]).is_le(
        #[trigger] s2.start_of(r[j]),
    ) by {
        if i == p {
            assert(r[j] == seq[j - 1]);
            let sj = seq[j - 1];
            assert(s.clips.contains_key(sj) && s.clips[sj].valid());
            if j - 1 > p {
                assert(s.clips.contains_key(seq[p]) && s.clips[seq[p]].valid());
                lemma_starts_increase(s, seq, p, j - 1);
                lemma_le_trans(s2.end_of(cid), s.start_of(seq[p]), s.start_of(sj));
            }
        } else if j == p {
            assert(r[i] == seq[i]);
            let si = seq[i];
            let sp = seq[p - 1];
            assert(s.clips.contains_key(si) && s.clips[si].valid());
            assert(s.clips.contains_key(sp) && s.clips[sp].valid());
            lemma_start_lt_end(s.clips[si].start, s.clips[si].dur);
            lemma_start_lt_end(s.clips[sp].start, s.clips[sp].dur);
            if i < p - 1 {
                assert(s.end_of(si).is_le(s.start_of(sp)));
                lemma_starts_increase(s, seq, i, p - 1);
                lemma_le_trans(s.end_of(si), s.start_of(sp), s.end_of(sp));
                lemma_le_trans(s.end_of(si), s.end_of(sp), s2.start_of(cid));
            }
        } else {
            let i2 = if i < p {
                i
            } else {
                i - 1
            };
            let j2 = if j < p {
                j
            } else {
                j - 1
            };
            assert(r[i] == seq[i2] && r[j] == seq[j2]);
            assert(s.end_of(seq[i2]).is_le(s.start_of(seq[j2])));
        }
    }
    assert forall|i: int| 0 <= i < r.len() implies {
        &&& s2.clips.contains_key(#[trigger] r[i])
        &&& s2.clips[r[i]].valid()
    } by {
        if i < p {
            assert(r[i] == seq[i]);
        } else if i > p {
            assert(r[i] == seq[i - 1]);
        }
    }
}

/// Every start time has an insertion position in an ordered sequence.
pub proof fn lemma_ins_pos_exists(s: TLView, seq: Seq<u64>, x: Rational)
    requires
        s.seq_ok(seq),
        x.wf(),
    ensures
        s.is_ins_pos(seq, x, s.ins_pos(seq, x)),
    decreases seq.len(),
{
    let p = lemma_ins_pos_witness(s, seq, x);
    assert(s.is_ins_pos(seq, x, p));
}

proof fn lemma_ins_pos_witness(s: TLView, seq: Seq<u64>, x: Rational) -> (p: int)
    requires
        s.seq_ok(seq),
        x.wf(),
    ensures
        s.is_ins_pos(seq, x, p),
    decreases seq.len(),
{
    if seq.len() == 0 {
        0
    } else {
        let n = seq.len() - 1;
        let q = seq.drop_last();
        lemma_seq_ok_remove(s, seq, n);
        assert(seq.remove(n) =~= q);
        let p1 = lemma_ins_pos_witness(s, q, x);
        assert forall|i: int| 0 <= i < n implies #[trigger] seq[i] == q[i] by {}
        if p1 == n {
            if s.start_of(seq[n]).is_lt(x) {
                assert(s.is_ins_pos(seq, x, seq.len() as int));
                seq.len() as int
            } else {
                assert(s.is_ins_pos(seq, x, n));
                n
            }
        } else {
            assert(!s.start_of(seq[p1]).is_lt(x));
            if s.start_of(seq[n]).is_lt(x) {
                assert(s.clips.contains_key(seq[p1]) && s.clips.contains_key(seq[n]));
                lemma_starts_increase(s, seq, p1, n);
                lemma_lt_le_trans(s.start_of(seq[p1]), s.start_of(seq[n]), x);
            }
            assert(s.is_ins_pos(seq, x, p1));
            p1
        }
    }
}

/// A well-formed state stays well formed when only the tracks in `ts` and
/// the clips in `ids` change, provided the changed tracks are in order, the
/// changed clips are placed, and the unchanged clips of changed tracks are
/// still listed there.
pub proof fn lemma_wf_frame(s: TLView, s2: TLView, ts: Set<int>, ids: Set<u64>)
    requires
        s.wf(),
        ids.finite(),
        s2.kinds == s.kinds,
        s2.tracks.len() == s.tracks.len(),
        forall|t: int|
            0 <= t < s.tracks.len() && !ts.contains(t) ==> #[trigger] s2.tracks[t] == s.tracks[t],
        forall|t: int| 0 <= t < s.tracks.len() && ts.contains(t) ==> #[trigger] s2.track_ok(t),
        forall|id: u64|
            !ids.contains(id) ==> (#[trigger] s2.clips.contains_key(id) == s.clips.contains_key(id)),
        forall|id: u64|
            !ids.contains(id) && s.clips.contains_key(id) ==> #[trigger] s2.clips[id]
                == s.clips[id],
        forall|id: u64|
            ids.contains(id) && s.clips.contains_key(id) ==> ts.contains(
                #[trigger] s.clips[id].track as int,
            ),
        forall|id: u64| ids.contains(id) && s2.clips.contains_key(id) ==> #[trigger] placed(s2, id),
        forall|id: u64|
            !ids.contains(id) && s.clips.contains_key(id) && ts.contains(s.clips[id].track as int)
                ==> #[trigger] s2.tracks[s.clips[id].track as int].contains(id),
    ensures
        s2.wf(),
{
    assert(s2.clips.dom().subset_of(s.clips.dom().union(ids)));
    vstd::set_lib::lemma_len_subset(s2.clips.dom(), s.clips.dom().union(ids));
    assert forall|t: int| 0 <= t < s2.tracks.len() implies #[trigger] s2.track_ok(t) by {
        if !ts.contains(t) {
            assert(s.track_ok(t));
            assert(s2.tracks[t] == s.tracks[t]);
            let seq = s.tracks[t];
            assert forall|i: int| 0 <= i < seq.len() implies {
                &&& s2.clips.contains_key(#[trigger] seq[i])
                &&& s2.clips[seq[i]] == s.clips[seq[i]]
            } by {
                let id = seq[i];
                assert(s.clips.contains_key(id) && s.clips[id].track == t);
                if ids.contains(id) {
                    assert(ts.contains(s.clips[id].track as int));
                }
            }
            lemma_wf_seq_ok(s, t);
            lemma_seq_ok_frame(s, s2, seq);
        }
    }
    assert forall|id: u64| #[trigger] s2.clips.contains_key(id) implies {
        &&& (s2.clips[id].track as int) < s2.tracks.len()
        &&& s2.tracks[s2.clips[id].track as int].contains(id)
        &&& s2.clips[id].valid()
    } by {
        if ids.contains(id) {
            assert(placed(s2, id));
        } else {
            assert(s.clips.contains_key(id));
            let t = s.clips[id].track as int;
            if !ts.contains(t) {
                assert(s2.tracks[t] == s.tracks[t]);
            }
        }
    }
}

/// Insertion positions agree in states that keep the clips of the sequence.
pub proof fn lemma_ins_pos_frame(s: TLView, s2: TLView, seq: Seq<u64>, x: Rational, p: int)
    requires
        same_clips_on(s, s2, seq),
        s2.is_ins_pos(seq, x, p),
    ensures
        s.is_ins_pos(seq, x, p),
{
    assert forall|i: int| 0 <= i < p implies #[trigger] s.start_of(seq[i]).is_lt(x) by {
        assert(s2.start_of(seq[i]).is_lt(x));
    }
    assert forall|i: int| p <= i < seq.len() implies !#[trigger] s.start_of(seq[i]).is_lt(x) by {
        assert(!s2.start_of(seq[i]).is_lt(x));
    }
}

} // verus!
