//! Timeline state: per-track clip-id sequences kept sorted by clip start,
//! plus the clip table. Sorted sequences with random access serve binary
//! searches directly (hit testing, neighbor checks, insertion positions).
use crate::time::Rational;
use crate::timeline::clip::{ClipEntry, ClipId, ClipV, TrackId, TrackKind};
use crate::timeline::hash::{
    clip_bytes, clips_bytes, content_bytes, content_hash, feed_byte, feed_bytes, feed_i64,
    feed_u32, feed_u64, fnv, kind_byte, lemma_fnv_append, track_bytes, tracks_bytes, u32_le,
    FNV_OFFSET,
};
use crate::timeline::model::{
    counter_room, free_from, fresh_id, idx, lemma_fresh_id, lemma_ins_pos_is, lemma_starts_increase,
    TLView,
};
use std::collections::HashMap;
use vstd::prelude::*;

verus! {

broadcast use vstd::std_specs::hash::group_hash_axioms;

/// Default project tick axis for aggregates.
pub const TICK_AXIS_DEFAULT: (i64, i64) = (24000, 1);

/// The timeline state. Tracks are fixed at construction.
#[derive(Debug)]
pub struct TimelineState {
    kinds: Vec<TrackKind>,
    seqs: Vec<Vec<u64>>,
    clips: HashMap<u64, ClipEntry>,
    next_id: u64,
}

impl View for TimelineState {
    type V = TLView;

    closed spec fn view(&self) -> TLView {
        TLView {
            kinds: self.kinds@,
            tracks: self.seqs@.map_values(|v: Vec<u64>| v@),
            clips: self.clips@.map_values(|e: ClipEntry| e@),
            next_id: self.next_id,
        }
    }
}

impl Clone for TimelineState {
    /// A deep copy: same tracks, clips and counter.
    fn clone(&self) -> (r: Self)
        ensures
            r@ == self@,
    {
        let mut kinds: Vec<TrackKind> = Vec::new();
        let mut i: usize = 0;
        while i < self.kinds.len()
            invariant
                i <= self.kinds@.len(),
                kinds@ == self.kinds@.subrange(0, i as int),
            decreases self.kinds@.len() - i,
        {
            kinds.push(self.kinds[i]);
            i += 1;
            proof {
                assert(kinds@ =~= self.kinds@.subrange(0, i as int));
            }
        }
        let mut seqs: Vec<Vec<u64>> = Vec::new();
        let mut t: usize = 0;
        while t < self.seqs.len()
            invariant
                t <= self.seqs@.len(),
                seqs@.len() == t,
                forall|j: int| 0 <= j < t ==> (#[trigger] seqs@[j])@ == self.seqs@[j]@,
            decreases self.seqs@.len() - t,
        {
            let src = &self.seqs[t];
            let mut v: Vec<u64> = Vec::new();
            let mut k: usize = 0;
            while k < src.len()
                invariant
                    k <= src@.len(),
                    v@ == src@.subrange(0, k as int),
                decreases src@.len() - k,
            {
                v.push(src[k]);
                k += 1;
                proof {
                    assert(v@ =~= src@.subrange(0, k as int));
                }
            }
            proof {
                assert(v@ =~= src@);
            }
            seqs.push(v);
            t += 1;
        }
        let r = TimelineState {
            kinds,
            seqs,
            clips: self.clips.clone(),
            next_id: self.next_id,
        };
        proof {
            assert(r.kinds@ =~= self.kinds@);
            assert(r@.tracks =~= self@.tracks);
            assert(r@.clips =~= self@.clips);
        }
        r
    }
}

impl TimelineState {
    /// Construct with a fixed track table (order = compositing order).
    pub fn new(track_kinds: &[TrackKind]) -> (r: TimelineState)
        ensures
            r@.wf(),
            r@.kinds == track_kinds@,
            r@.tracks == Seq::new(track_kinds@.len(), |i: int| Seq::<u64>::empty()),
            r@.clips == Map::<u64, ClipV>::empty(),
            r@.next_id == 1,
    {
        let mut kinds: Vec<TrackKind> = Vec::new();
        let mut seqs: Vec<Vec<u64>> = Vec::new();
        let mut i: usize = 0;
        while i < track_kinds.len()
            invariant
                i <= track_kinds@.len(),
                kinds@ == track_kinds@.subrange(0, i as int),
                seqs@.len() == i,
                forall|j: int| 0 <= j < i ==> (#[trigger] seqs@[j])@ == Seq::<u64>::empty(),
            decreases track_kinds@.len() - i,
        {
            kinds.push(track_kinds[i]);
            seqs.push(Vec::new());
            i += 1;
        }
        let r = TimelineState { kinds, seqs, clips: HashMap::new(), next_id: 1 };
        proof {
            assert(kinds@ =~= track_kinds@);
            assert(r@.tracks =~= Seq::new(track_kinds@.len(), |i: int| Seq::<u64>::empty()));
            assert(r@.clips =~= Map::<u64, ClipV>::empty());
        }
        r
    }

    pub fn track_count(&self) -> (r: usize)
        ensures
            r == self@.tracks.len(),
    {
        self.seqs.len()
    }

    pub fn track_kind(&self, t: TrackId) -> (r: Option<TrackKind>)
        requires
            self@.wf(),
        ensures
            r == (if (t.0 as int) < self@.kinds.len() {
                Some(self@.kinds[t.0 as int])
            } else {
                None
            }),
    {
        let i = t.0 as usize;
        if i < self.kinds.len() {
            Some(self.kinds[i])
        } else {
            None
        }
    }

    /// The id the counter assigns next.
    pub fn counter(&self) -> (r: u64)
        ensures
            r == self@.next_id,
    {
        self.next_id
    }

    /// Track sequences are held in memory, so their lengths fit `usize`.
    pub proof fn lemma_len_bound(&self)
        ensures
            forall|t: int|
                0 <= t < self@.tracks.len() ==> #[trigger] self@.tracks[t].len() <= usize::MAX,
    {
        assert forall|t: int| 0 <= t < self@.tracks.len() implies #[trigger] self@.tracks[t].len()
            <= usize::MAX by {
            assert(self@.tracks[t] == self.seqs@[t]@);
            assert(self.seqs@[t]@.len() == self.seqs@[t].len());
        }
    }

    /// Assign the next engine id: the first id at or after the counter that
    /// no clip uses; the counter moves past it.
    pub fn assign_id(&mut self) -> (r: ClipId)
        requires
            counter_room(old(self)@),
        ensures
            r.0 == fresh_id(old(self)@),
            !old(self)@.clips.contains_key(r.0),
            final(self)@ == old(self)@.with_counter((r.0 + 1) as u64),
    {
        let ghost s0 = self@;
        proof {
            lemma_fresh_id(s0);
        }
        let mut k = self.next_id;
        while self.clips.contains_key(&k)
            invariant
                self@ == s0,
                s0.next_id <= k <= fresh_id(s0) < u64::MAX,
                free_from(s0.clips, k) == fresh_id(s0),
                !s0.clips.contains_key(fresh_id(s0)),
            decreases fresh_id(s0) - k,
        {
            proof {
                assert(s0.clips.contains_key(k));
            }
            k = k + 1;
        }
        proof {
            assert(!s0.clips.contains_key(k));
        }
        self.next_id = k + 1;
        ClipId(k)
    }

    /// Whether an explicit id is free (not currently in use).
    pub fn id_free(&self, id: ClipId) -> (r: bool)
        ensures
            r == !self@.clips.contains_key(id.0),
    {
        !self.clips.contains_key(&id.0)
    }

    pub fn clip(&self, id: ClipId) -> (r: Option<&ClipEntry>)
        ensures
            match r {
                Some(e) => self@.clips.contains_key(id.0) && e@ == self@.clips[id.0],
                None => !self@.clips.contains_key(id.0),
            },
    {
        self.clips.get(&id.0)
    }

    pub fn clip_count(&self) -> (r: usize)
        ensures
            r == self@.clips.len(),
    {
        proof {
            assert(self@.clips.dom() =~= self.clips@.dom());
        }
        self.clips.len()
    }

    /// The clip entry of an id known to be in the table.
    fn entry(&self, id: u64) -> (r: &ClipEntry)
        requires
            self@.clips.contains_key(id),
        ensures
            r@ == self@.clips[id],
    {
        self.clips.get(&id).unwrap()
    }

    /// Length of a track sequence.
    fn seq_len(&self, t: usize) -> (r: usize)
        requires
            t < self@.tracks.len(),
        ensures
            r == self@.tracks[t as int].len(),
    {
        self.seqs[t].len()
    }

    /// Clip id at a track position.
    fn seq_at(&self, t: usize, i: usize) -> (r: u64)
        requires
            t < self@.tracks.len(),
            i < self@.tracks[t as int].len(),
        ensures
            r == self@.tracks[t as int][i as int],
    {
        self.seqs[t][i]
    }

    /// Clips on a track in start order.
    pub fn clips_on_track(&self, t: TrackId) -> (r: Vec<ClipEntry>)
        requires
            self@.wf(),
            (t.0 as int) < self@.tracks.len(),
        ensures
            r@.len() == self@.tracks[t.0 as int].len(),
            forall|i: int|
                0 <= i < r@.len() ==> (#[trigger] r@[i])@ == self@.clips[self@.tracks[t.0 as int][i]],
    {
        let ti = t.0 as usize;
        let n = self.seq_len(ti);
        let mut out: Vec<ClipEntry> = Vec::new();
        let mut i: usize = 0;
        while i < n
            invariant
                self@.wf(),
                ti < self@.tracks.len(),
                n == self@.tracks[ti as int].len(),
                i <= n,
                out@.len() == i,
                forall|j: int|
                    0 <= j < i ==> (#[trigger] out@[j])@ == self@.clips[self@.tracks[ti as int][j]],
            decreases n - i,
        {
            let id = self.seq_at(ti, i);
            proof {
                assert(self@.track_ok(ti as int));
                assert(self@.clips.contains_key(self@.tracks[ti as int][i as int]));
            }
            out.push(self.entry(id).clone());
            i += 1;
        }
        out
    }

    /// The latest end over the clips of one track, starting from zero.
    fn fold_track_max(&self, ti: usize, init: Rational) -> (r: Rational)
        requires
            self@.wf(),
            ti < self@.tracks.len(),
            init.wf(),
        ensures
            r.wf(),
            init.is_le(r),
            forall|i: int|
                0 <= i < self@.tracks[ti as int].len() ==> #[trigger] self@.end_of(
                    self@.tracks[ti as int][i],
                ).is_le(r),
            r == init || exists|i: int|
                0 <= i < self@.tracks[ti as int].len() && r == #[trigger] self@.end_of(
                    self@.tracks[ti as int][i],
                ),
    {
        let n = self.seq_len(ti);
        let mut max = init;
        let mut i: usize = 0;
        while i < n
            invariant
                self@.wf(),
                ti < self@.tracks.len(),
                n == self@.tracks[ti as int].len(),
                i <= n,
                max.wf(),
                init.wf(),
                init.is_le(max),
                forall|j: int|
                    0 <= j < i ==> #[trigger] self@.end_of(self@.tracks[ti as int][j]).is_le(max),
                max == init || exists|j: int|
                    0 <= j < i && max == #[trigger] self@.end_of(self@.tracks[ti as int][j]),
            decreases n - i,
        {
            let id = self.seq_at(ti, i);
            proof {
                assert(self@.track_ok(ti as int));
                assert(self@.clips.contains_key(id));
            }
            let c = self.entry(id);
            let e = c.end();
            if max.less_than(&e) {
                proof {
                    assert forall|j: int| 0 <= j < i + 1 implies #[trigger] self@.end_of(
                        self@.tracks[ti as int][j],
                    ).is_le(e) by {
                        if j < i {
                            let c2 = self@.clips[self@.tracks[ti as int][j]];
                            assert(self@.clips.contains_key(self@.tracks[ti as int][j]));
                            assert(self@.end_of(self@.tracks[ti as int][j]).is_le(max));
                            crate::time::lemma_start_lt_end(c2.start, c2.dur);
                            crate::time::lemma_le_trans(c2.end(), max, e);
                        }
                    }
                    crate::time::lemma_le_trans(init, max, e);
                    assert(e == self@.end_of(self@.tracks[ti as int][i as int]));
                }
                max = e;
            }
            i += 1;
        }
        max
    }

    /// Duration of one track: the latest clip end (empty track = 0).
    pub fn track_duration(&self, t: TrackId) -> (r: Rational)
        requires
            self@.wf(),
            (t.0 as int) < self@.tracks.len(),
        ensures
            r.wf(),
            r.n() >= 0,
            forall|i: int|
                0 <= i < self@.tracks[t.0 as int].len() ==> #[trigger] self@.end_of(
                    self@.tracks[t.0 as int][i],
                ).is_le(r),
            r.n() == 0 || exists|i: int|
                0 <= i < self@.tracks[t.0 as int].len() && r == #[trigger] self@.end_of(
                    self@.tracks[t.0 as int][i],
                ),
    {
        let z = Rational::zero(1);
        let r = self.fold_track_max(t.0 as usize, z);
        r
    }

    /// Total timeline duration: the latest clip end over all tracks (exact).
    pub fn duration(&self) -> (r: Rational)
        requires
            self@.wf(),
        ensures
            r.wf(),
            r.n() >= 0,
            forall|t: int, i: int|
                0 <= t < self@.tracks.len() && 0 <= i < self@.tracks[t].len()
                    ==> #[trigger] self@.end_of(self@.tracks[t][i]).is_le(r),
            r.n() == 0 || exists|t: int, i: int|
                0 <= t < self@.tracks.len() && 0 <= i < self@.tracks[t].len() && r
                    == #[trigger] self@.end_of(self@.tracks[t][i]),
    {
        let z = Rational::zero(1);
        let mut max = z;
        let nt = self.seqs.len();
        let mut t: usize = 0;
        while t < nt
            invariant
                self@.wf(),
                nt == self@.tracks.len(),
                t <= nt,
                max.wf(),
                z.wf(),
                z.is_le(max),
                z.n() == 0 && z.d() == 1,
                forall|tt: int, i: int|
                    0 <= tt < t && 0 <= i < self@.tracks[tt].len()
                        ==> #[trigger] self@.end_of(self@.tracks[tt][i]).is_le(max),
                max == z || exists|tt: int, i: int|
                    0 <= tt < t && 0 <= i < self@.tracks[tt].len() && max
                        == #[trigger] self@.end_of(self@.tracks[tt][i]),
            decreases nt - t,
        {
            let m2 = self.fold_track_max(t, max);
            proof {
                assert forall|tt: int, i: int|
                    0 <= tt < t + 1 && 0 <= i < self@.tracks[tt].len() implies #[trigger] self@.end_of(
                    self@.tracks[tt][i],
                ).is_le(m2) by {
                    if tt < t {
                        assert(self@.track_ok(tt));
                        let c2 = self@.clips[self@.tracks[tt][i]];
                        assert(self@.end_of(self@.tracks[tt][i]).is_le(max));
                        crate::time::lemma_start_lt_end(c2.start, c2.dur);
                        crate::time::lemma_le_trans(c2.end(), max, m2);
                    }
                }
                crate::time::lemma_le_trans(z, max, m2);
                if m2 != max {
                    let i = choose|i: int|
                        0 <= i < self@.tracks[t as int].len() && m2 == #[trigger] self@.end_of(
                            self@.tracks[t as int][i],
                        );
                    assert(0 <= t < t + 1 && 0 <= i < self@.tracks[t as int].len() && m2
                        == self@.end_of(self@.tracks[t as int][i]));
                }
            }
            max = m2;
            t += 1;
        }
        proof {
            if max == z {
                assert(max.n() == 0);
            } else {
                assert(max.n() >= 0);
            }
        }
        max
    }
}


impl TimelineState {
    /// First position of track `ti` whose clip does not start before `key`.
    fn lower_bound(&self, ti: usize, key: &Rational) -> (p: usize)
        requires
            ti < self@.tracks.len(),
            self@.seq_ok(self@.tracks[ti as int]),
            key.wf(),
        ensures
            self@.is_ins_pos(self@.tracks[ti as int], *key, p as int),
    {
        let n = self.seq_len(ti);
        let mut lo: usize = 0;
        let mut hi: usize = n;
        while lo < hi
            invariant
                ti < self@.tracks.len(),
                self@.seq_ok(self@.tracks[ti as int]),
                key.wf(),
                n == self@.tracks[ti as int].len(),
                0 <= lo <= hi <= n,
                forall|i: int|
                    0 <= i < lo ==> #[trigger] self@.start_of(self@.tracks[ti as int][i]).is_lt(*key),
                forall|i: int|
                    hi <= i < n ==> !#[trigger] self@.start_of(self@.tracks[ti as int][i]).is_lt(
                        *key,
                    ),
            decreases hi - lo,
        {
            let mid = lo + (hi - lo) / 2;
            let id = self.seq_at(ti, mid);
            let ghost seq = self@.tracks[ti as int];
            proof {
                assert(self@.clips.contains_key(seq[mid as int]));
            }
            let st = self.entry(id).start;
            if st.less_than(key) {
                proof {
                    assert forall|i: int| 0 <= i < mid + 1 implies #[trigger] self@.start_of(
                        seq[i],
                    ).is_lt(*key) by {
                        if i < mid {
                            assert(self@.clips.contains_key(seq[i]));
                            lemma_starts_increase(self@, seq, i, mid as int);
                            crate::time::lemma_lt_le_trans(
                                self@.start_of(seq[i]),
                                st,
                                *key,
                            );
                        }
                    }
                }
                lo = mid + 1;
            } else {
                proof {
                    assert forall|i: int| mid <= i < n implies !#[trigger] self@.start_of(
                        seq[i],
                    ).is_lt(*key) by {
                        if mid < i && i < hi {
                            assert(self@.clips.contains_key(seq[i]));
                            lemma_starts_increase(self@, seq, mid as int, i);
                            crate::time::lemma_not_lt(st, *key);
                            crate::time::lemma_le_lt_trans(*key, st, self@.start_of(seq[i]));
                        }
                    }
                }
                hi = mid;
            }
        }
        lo
    }

    /// Binary search of a start time on a track: `Ok(i)` when clip `i` starts
    /// exactly there, else `Err(p)` with `p` the insertion position.
    fn search(&self, ti: usize, key: &Rational) -> (r: Result<usize, usize>)
        requires
            ti < self@.tracks.len(),
            self@.seq_ok(self@.tracks[ti as int]),
            key.wf(),
        ensures
            match r {
                Ok(i) => {
                    &&& self@.is_ins_pos(self@.tracks[ti as int], *key, i as int)
                    &&& i < self@.tracks[ti as int].len()
                    &&& self@.start_of(self@.tracks[ti as int][i as int]) == *key
                },
                Err(p) => {
                    &&& self@.is_ins_pos(self@.tracks[ti as int], *key, p as int)
                    &&& (p < self@.tracks[ti as int].len() ==> key.is_lt(
                        self@.start_of(self@.tracks[ti as int][p as int]),
                    ))
                },
            },
    {
        let p = self.lower_bound(ti, key);
        let n = self.seq_len(ti);
        if p < n {
            let id = self.seq_at(ti, p);
            proof {
                assert(self@.clips.contains_key(self@.tracks[ti as int][p as int]));
            }
            let st = self.entry(id).start;
            if key.less_than(&st) {
                Err(p)
            } else {
                proof {
                    assert(!self@.start_of(self@.tracks[ti as int][p as int]).is_lt(*key));
                    crate::time::lemma_not_lt(st, *key);
                    crate::time::lemma_not_lt(*key, st);
                    st.lemma_same_value_eq(*key);
                }
                Ok(p)
            }
        } else {
            Err(p)
        }
    }

    /// Hit-test: the clip on `t` whose `[start, start + dur)` contains `at`.
    pub fn hit_test(&self, t: TrackId, at: Rational) -> (r: Option<ClipId>)
        requires
            self@.wf(),
            (t.0 as int) < self@.tracks.len(),
            at.wf(),
        ensures
            match r {
                Some(c) => exists|i: int|
                    0 <= i < self@.tracks[t.0 as int].len() && #[trigger] self@.tracks[t.0 as int][i]
                        == c.0 && self@.covers(c.0, at),
                None => forall|i: int|
                    0 <= i < self@.tracks[t.0 as int].len() ==> !self@.covers(
                        #[trigger] self@.tracks[t.0 as int][i],
                        at,
                    ),
            },
    {
        let ti = t.0 as usize;
        let ghost seq = self@.tracks[ti as int];
        proof {
            assert(self@.track_ok(ti as int));
            crate::timeline::model::lemma_wf_seq_ok(self@, ti as int);
        }
        match self.search(ti, &at) {
            Ok(i) => {
                let id = self.seq_at(ti, i);
                proof {
                    let c = self@.clips[id];
                    assert(self@.clips.contains_key(id));
                    crate::time::lemma_start_lt_end(c.start, c.dur);
                    assert(self@.covers(id, at));
                    assert(self@.tracks[t.0 as int][i as int] == id);
                }
                Some(ClipId(id))
            },
            Err(insert) => {
                if insert == 0 {
                    proof {
                        assert forall|i: int| 0 <= i < seq.len() implies !self@.covers(
                            #[trigger] seq[i],
                            at,
                        ) by {
                            assert(!self@.start_of(seq[i]).is_lt(at));
                            if i > 0 {
                                assert(self@.clips.contains_key(seq[0]));
                                assert(self@.clips.contains_key(seq[i]));
                                lemma_starts_increase(self@, seq, 0, i);
                                crate::time::lemma_lt_le_trans(
                                    at,
                                    self@.start_of(seq[0]),
                                    self@.start_of(seq[i]),
                                );
                            }
                        }
                    }
                    return None;
                }
                let pred = self.seq_at(ti, insert - 1);
                proof {
                    assert(self@.clips.contains_key(pred));
                }
                let c = self.entry(pred);
                let e = c.end();
                if at.less_than(&e) {
                    proof {
                        assert(self@.start_of(seq[insert - 1]).is_lt(at));
                        assert(self@.covers(pred, at));
                        assert(self@.tracks[t.0 as int][insert - 1] == pred);
                    }
                    Some(ClipId(pred))
                } else {
                    proof {
                        assert forall|i: int| 0 <= i < seq.len() implies !self@.covers(
                            #[trigger] seq[i],
                            at,
                        ) by {
                            assert(self@.clips.contains_key(seq[i]));
                            if i < insert - 1 {
                                assert(self@.end_of(seq[i]).is_le(self@.start_of(seq[insert - 1])));
                                assert(self@.start_of(seq[insert - 1]).is_lt(at));
                                crate::time::lemma_start_lt_end(
                                    self@.clips[seq[i]].start,
                                    self@.clips[seq[i]].dur,
                                );
                                crate::time::lemma_le_lt_trans(
                                    self@.end_of(seq[i]),
                                    self@.start_of(seq[insert - 1]),
                                    at,
                                );
                            } else if i >= insert {
                                assert(self@.clips.contains_key(seq[insert as int]));
                                if i > insert {
                                    lemma_starts_increase(self@, seq, insert as int, i);
                                    crate::time::lemma_lt_le_trans(
                                        at,
                                        self@.start_of(seq[insert as int]),
                                        self@.start_of(seq[i]),
                                    );
                                }
                            }
                        }
                    }
                    None
                }
            },
        }
    }

    /// Insert position for `start` on track `t` (sequences are sorted by start).
    pub fn insertion_pos(&self, t: TrackId, start: Rational) -> (r: usize)
        requires
            (t.0 as int) < self@.tracks.len(),
            self@.seq_ok(self@.tracks[t.0 as int]),
            start.wf(),
        ensures
            self@.is_ins_pos(self@.tracks[t.0 as int], start, r as int),
    {
        match self.search(t.0 as usize, &start) {
            Ok(i) => i,
            Err(p) => p,
        }
    }

    /// Clip id at a sequence position on a track.
    pub fn clip_at_pos(&self, t: TrackId, pos: usize) -> (r: Option<ClipId>)
        requires
            (t.0 as int) < self@.tracks.len(),
        ensures
            r == (if (pos as int) < self@.tracks[t.0 as int].len() {
                Some(ClipId(self@.tracks[t.0 as int][pos as int]))
            } else {
                None
            }),
    {
        let ti = t.0 as usize;
        if pos < self.seq_len(ti) {
            Some(ClipId(self.seq_at(ti, pos)))
        } else {
            None
        }
    }

    /// Neighbor entries around an insertion at `pos` on track `t`.
    pub fn neighbors_at(&self, t: TrackId, pos: usize) -> (r: (Option<&ClipEntry>, Option<&ClipEntry>))
        requires
            self@.wf(),
            (t.0 as int) < self@.tracks.len(),
            pos <= self@.tracks[t.0 as int].len(),
        ensures
            ({
                let seq = self@.tracks[t.0 as int];
                &&& match r.0 {
                    Some(e) => pos > 0 && e@ == self@.clips[seq[pos - 1]],
                    None => pos == 0,
                }
                &&& match r.1 {
                    Some(e) => pos < seq.len() && e@ == self@.clips[seq[pos as int]],
                    None => pos == seq.len(),
                }
            }),
    {
        let ti = t.0 as usize;
        proof {
            assert(self@.track_ok(ti as int));
        }
        let pred = if pos == 0 {
            None
        } else {
            let id = self.seq_at(ti, pos - 1);
            proof {
                assert(self@.clips.contains_key(id));
            }
            Some(self.entry(id))
        };
        let succ = if pos >= self.seq_len(ti) {
            None
        } else {
            let id = self.seq_at(ti, pos);
            proof {
                assert(self@.clips.contains_key(id));
            }
            Some(self.entry(id))
        };
        (pred, succ)
    }

    /// Position of a clip in its track sequence.
    pub fn position_of(&self, t: TrackId, id: ClipId) -> (r: usize)
        requires
            self@.wf(),
            self@.clips.contains_key(id.0),
            self@.clips[id.0].track == t.0,
        ensures
            r < self@.tracks[t.0 as int].len(),
            self@.tracks[t.0 as int][r as int] == id.0,
            r == idx(self@.tracks[t.0 as int], id.0),
    {
        let ti = t.0 as usize;
        let ghost seq = self@.tracks[ti as int];
        proof {
            assert(self@.clips.contains_key(id.0));
            assert(seq.contains(id.0));
            let k = choose|k: int| 0 <= k < seq.len() && seq[k] == id.0;
            assert(self@.track_ok(ti as int));
            assert(self@.clips.contains_key(seq[k]));
            crate::timeline::model::lemma_wf_seq_ok(self@, ti as int);
        }
        let key = self.entry(id.0).start;
        let r = match self.search(ti, &key) {
            Ok(i) => i,
            Err(p) => p,
        };
        proof {
            let k = choose|k: int| 0 <= k < seq.len() && seq[k] == id.0;
            // the clip itself starts at `key`, so it sits exactly at the insertion position
            crate::time::lemma_not_lt(key, key);
            if (r as int) < k {
                assert(self@.clips.contains_key(seq[r as int]));
                lemma_starts_increase(self@, seq, r as int, k);
                assert(!self@.start_of(seq[r as int]).is_lt(key));
            } else if k < r as int {
                assert(self@.start_of(seq[k]).is_lt(key));
            }
            assert(r as int == k);
            crate::timeline::model::lemma_idx_is(self@, ti as int, k);
        }
        r
    }

    /// Neighbor entries around an insertion at `pos` that must skip `self_id`
    /// (same-track move validation, without mutating).
    pub fn neighbors_excluding(&self, t: TrackId, pos: usize, self_id: ClipId) -> (r: (
        Option<&ClipEntry>,
        Option<&ClipEntry>,
    ))
        requires
            self@.wf(),
            (t.0 as int) < self@.tracks.len(),
            pos <= self@.tracks[t.0 as int].len(),
            self@.clips.contains_key(self_id.0),
            self@.clips[self_id.0].track == t.0,
        ensures
            ({
                let seq = self@.tracks[t.0 as int];
                let sp = idx(seq, self_id.0);
                let seq2 = seq.remove(sp);
                let eff = if pos > sp {
                    pos - 1
                } else {
                    pos as int
                };
                &&& match r.0 {
                    Some(e) => eff > 0 && e@ == self@.clips[seq2[eff - 1]],
                    None => eff == 0,
                }
                &&& match r.1 {
                    Some(e) => eff < seq2.len() && e@ == self@.clips[seq2[eff]],
                    None => eff >= seq2.len(),
                }
            }),
    {
        let ti = t.0 as usize;
        let ghost seq = self@.tracks[ti as int];
        let self_pos = self.position_of(t, self_id);
        let n = self.seq_len(ti);
        let eff = if pos > self_pos {
            pos - 1
        } else {
            pos
        };
        proof {
            assert(self@.track_ok(ti as int));
        }
        let pred = if eff == 0 {
            None
        } else {
            let w = eff - 1;
            let m = if w >= self_pos {
                w + 1
            } else {
                w
            };
            let id = self.seq_at(ti, m);
            proof {
                assert(self@.clips.contains_key(id));
                assert(seq.remove(self_pos as int)[w as int] == seq[m as int]);
            }
            Some(self.entry(id))
        };
        let succ = if eff >= n - 1 {
            None
        } else {
            let m = if eff >= self_pos {
                eff + 1
            } else {
                eff
            };
            let id = self.seq_at(ti, m);
            proof {
                assert(self@.clips.contains_key(id));
                assert(seq.remove(self_pos as int)[eff as int] == seq[m as int]);
            }
            Some(self.entry(id))
        };
        (pred, succ)
    }

    /// Insert a clip id into a track sequence at `pos`.
    pub fn insert_clip(&mut self, t: TrackId, id: ClipId, pos: usize)
        requires
            (t.0 as int) < old(self)@.tracks.len(),
            pos <= old(self)@.tracks[t.0 as int].len(),
        ensures
            final(self)@ == (TLView {
                tracks: old(self)@.tracks.update(
                    t.0 as int,
                    old(self)@.tracks[t.0 as int].insert(pos as int, id.0),
                ),
                ..old(self)@
            }),
    {
        let ti = t.0 as usize;
        let mut v: Vec<u64> = Vec::new();
        self.seqs.set_and_swap(ti, &mut v);
        v.insert(pos, id.0);
        self.seqs.set_and_swap(ti, &mut v);
        proof {
            assert(self@.tracks =~= old(self)@.tracks.update(
                t.0 as int,
                old(self)@.tracks[t.0 as int].insert(pos as int, id.0),
            ));
        }
    }

    /// Remove and return the clip id at `pos` of a track sequence.
    pub fn remove_clip_from_track(&mut self, t: TrackId, pos: usize) -> (r: ClipId)
        requires
            (t.0 as int) < old(self)@.tracks.len(),
            pos < old(self)@.tracks[t.0 as int].len(),
        ensures
            r.0 == old(self)@.tracks[t.0 as int][pos as int],
            final(self)@ == (TLView {
                tracks: old(self)@.tracks.update(
                    t.0 as int,
                    old(self)@.tracks[t.0 as int].remove(pos as int),
                ),
                ..old(self)@
            }),
    {
        let ti = t.0 as usize;
        let mut v: Vec<u64> = Vec::new();
        self.seqs.set_and_swap(ti, &mut v);
        let id = v.remove(pos);
        self.seqs.set_and_swap(ti, &mut v);
        proof {
            assert(self@.tracks =~= old(self)@.tracks.update(
                t.0 as int,
                old(self)@.tracks[t.0 as int].remove(pos as int),
            ));
        }
        ClipId(id)
    }

    /// Insert or replace a clip in the table.
    pub fn put_clip(&mut self, entry: ClipEntry)
        ensures
            final(self)@ == (TLView {
                clips: old(self)@.clips.insert(entry.id.0, entry@),
                ..old(self)@
            }),
    {
        let ghost e = entry;
        self.clips.insert(entry.id.0, entry);
        proof {
            assert(self@.clips =~= old(self)@.clips.insert(e.id.0, e@));
        }
    }

    /// Remove a clip from the table.
    pub fn take_clip(&mut self, id: ClipId) -> (r: ClipEntry)
        requires
            old(self)@.clips.contains_key(id.0),
        ensures
            r@ == old(self)@.clips[id.0],
            final(self)@ == (TLView { clips: old(self)@.clips.remove(id.0), ..old(self)@ }),
    {
        let r = self.clips.remove(&id.0);
        proof {
            assert(self@.clips =~= old(self)@.clips.remove(id.0));
        }
        r.unwrap()
    }
}


/// Feed an `i64` after a hashed prefix.
fn feed_i64_after(Ghost(h): Ghost<u64>, acc: u64, Ghost(pre): Ghost<Seq<u8>>, x: i64) -> (r: u64)
    requires
        acc == fnv(h, pre),
    ensures
        r == fnv(h, pre + crate::timeline::hash::i64_le(x)),
{
    proof {
        lemma_fnv_append(h, pre, crate::timeline::hash::i64_le(x));
    }
    feed_i64(acc, x)
}

/// Hash one clip's canonical bytes.
fn hash_clip(h: u64, c: &ClipEntry) -> (r: u64)
    ensures
        r == fnv(h, clip_bytes(c@)),
{
    let ghost v = c@;
    let ghost p0 = crate::timeline::hash::u64_le(v.id);
    let a = feed_u64(h, c.id.0);
    let a = feed_i64_after(Ghost(h), a, Ghost(p0), c.start.num());
    let ghost p1 = p0 + crate::timeline::hash::i64_le(v.start.n() as i64);
    let a = feed_i64_after(Ghost(h), a, Ghost(p1), c.start.den());
    let ghost p2 = p1 + crate::timeline::hash::i64_le(v.start.d() as i64);
    let a = feed_i64_after(Ghost(h), a, Ghost(p2), c.dur.num());
    let ghost p3 = p2 + crate::timeline::hash::i64_le(v.dur.n() as i64);
    let a = feed_i64_after(Ghost(h), a, Ghost(p3), c.dur.den());
    let ghost p4 = p3 + crate::timeline::hash::i64_le(v.dur.d() as i64);
    let a = feed_i64_after(Ghost(h), a, Ghost(p4), c.src_in.num());
    let ghost p5 = p4 + crate::timeline::hash::i64_le(v.src_in.n() as i64);
    let a = feed_i64_after(Ghost(h), a, Ghost(p5), c.src_in.den());
    let ghost p6 = p5 + crate::timeline::hash::i64_le(v.src_in.d() as i64);
    let a = feed_i64_after(Ghost(h), a, Ghost(p6), c.speed.num());
    let ghost p7 = p6 + crate::timeline::hash::i64_le(v.speed.n() as i64);
    let a = feed_i64_after(Ghost(h), a, Ghost(p7), c.speed.den());
    let ghost p8 = p7 + crate::timeline::hash::i64_le(v.speed.d() as i64);
    let a = feed_u64(a, c.asset.0);
    proof {
        lemma_fnv_append(h, p8, crate::timeline::hash::u64_le(v.asset));
    }
    let ghost p9 = p8 + crate::timeline::hash::u64_le(v.asset);
    let lb = c.label.as_str().as_bytes();
    let a = feed_bytes(a, lb);
    proof {
        lemma_fnv_append(h, p9, vstd::utf8::encode_utf8(v.label));
    }
    let ghost p10 = p9 + vstd::utf8::encode_utf8(v.label);
    let a0 = a;
    let a = feed_byte(a0, 0xff);
    proof {
        assert(fnv(a0, Seq::<u8>::empty()) == a0);
        assert(seq![0xffu8].drop_last() =~= Seq::<u8>::empty());
        assert(seq![0xffu8].last() == 0xffu8);
        assert(fnv(a0, seq![0xffu8]) == a);
        lemma_fnv_append(h, p10, seq![0xffu8]);
        assert(p10 + seq![0xffu8] =~= clip_bytes(v));
    }
    a
}

impl TimelineState {
    /// Hash the bytes of one track.
    fn hash_track(&self, h: u64, ti: usize) -> (r: u64)
        requires
            self@.wf(),
            ti < self@.tracks.len(),
        ensures
            r == fnv(h, track_bytes(self@, ti as int)),
    {
        let kb: u8 = match self.kinds[ti] {
            TrackKind::Video => 0u8,
            TrackKind::Audio => 1u8,
        };
        let n = self.seq_len(ti);
        let h1 = feed_byte(h, kb);
        let h2 = feed_u32(h1, n as u32);
        let ghost seq = self@.tracks[ti as int];
        let ghost head = seq![kind_byte(self@.kinds[ti as int])] + u32_le(n as u32);
        proof {
            assert(seq![kb].drop_last() =~= Seq::<u8>::empty());
            assert(fnv(h, Seq::<u8>::empty()) == h);
            assert(fnv(h, seq![kb]) == h1);
            lemma_fnv_append(h, seq![kb], u32_le(n as u32));
            assert(self@.track_ok(ti as int));
        }
        let mut acc = h2;
        let mut i: usize = 0;
        while i < n
            invariant
                self@.wf(),
                ti < self@.tracks.len(),
                self@.track_ok(ti as int),
                seq == self@.tracks[ti as int],
                n == seq.len(),
                i <= n,
                acc == fnv(h, head + clips_bytes(self@, seq.take(i as int))),
            decreases n - i,
        {
            let id = self.seq_at(ti, i);
            proof {
                assert(self@.clips.contains_key(id));
                assert(seq.take(i + 1).drop_last() =~= seq.take(i as int));
                assert(seq.take(i + 1).last() == id);
                lemma_fnv_append(h, head + clips_bytes(self@, seq.take(i as int)), clip_bytes(self@.clips[id]));
                assert(head + clips_bytes(self@, seq.take(i + 1)) =~= head + clips_bytes(self@, seq.take(i as int)) + clip_bytes(self@.clips[id]));
            }
            acc = hash_clip(acc, self.entry(id));
            i += 1;
        }
        proof {
            assert(seq.take(n as int) =~= seq);
            assert(head + clips_bytes(self@, seq) =~= track_bytes(self@, ti as int));
        }
        acc
    }

    /// FNV-1a 64 over the canonical serialization: per track (in table
    /// order), clips in start order; per clip all exact fields + label.
    /// Excludes the id-assignment counter.
    pub fn state_hash(&self) -> (r: u64)
        requires
            self@.wf(),
        ensures
            r == content_hash(self@),
    {
        let n = self.seqs.len();
        let mut h = feed_u32(FNV_OFFSET, n as u32);
        let ghost head = u32_le(n as u32);
        let mut t: usize = 0;
        while t < n
            invariant
                self@.wf(),
                n == self@.tracks.len(),
                head == u32_le(n as u32),
                t <= n,
                h == fnv(FNV_OFFSET, head + tracks_bytes(self@, t as int)),
            decreases n - t,
        {
            proof {
                lemma_fnv_append(FNV_OFFSET, head + tracks_bytes(self@, t as int), track_bytes(self@, t as int));
                assert(head + tracks_bytes(self@, t + 1) =~= head + tracks_bytes(self@, t as int) + track_bytes(self@, t as int));
            }
            h = self.hash_track(h, t);
            t += 1;
        }
        proof {
            assert(head + tracks_bytes(self@, n as int) =~= content_bytes(self@));
        }
        h
    }
}

} // verus!
