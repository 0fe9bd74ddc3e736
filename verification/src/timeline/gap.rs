//! A generic gap buffer: O(1) edits at a movable cursor. Logical index `i`
//! maps to physical `i` before the gap and `i + gap_len` after it; the gap
//! cells are empty slots.
//!
//! [`GapTrack`] keeps a track's clips in a gap buffer, with a derived,
//! lazily rebuilt index of exact starts for time queries: every edit marks
//! the index dirty, and the first scrub query after an edit rebuilds it once.
use crate::time::{lemma_not_lt, Rational};
use crate::timeline::clip::ClipId;
use crate::timeline::engine::TimelineError;
use crate::timeline::track::{
    covers, hit_of, lemma_hit_is_cover, lemma_starts_increase, lemma_starts_wf, lemma_tick_zero,
    positive, scan_hit, start_of, sums_fit, tick_zero, Clip, TrackOps, TICK_DEN,
};
use std::collections::HashMap;
use vstd::prelude::*;

verus! {

/// The live elements of a gap layout, in logical order.
pub open spec fn live_of<T>(buf: Seq<Option<T>>, gap: int, gap_len: int) -> Seq<T> {
    Seq::new(
        (buf.len() - gap_len) as nat,
        |i: int|
            if i < gap {
                buf[i]->0
            } else {
                buf[i + gap_len]->0
            },
    )
}

/// A gap layout: the gap lies inside the buffer, its cells are empty and
/// every other cell holds an element.
pub open spec fn layout_ok<T>(buf: Seq<Option<T>>, gap: int, gap_len: int) -> bool {
    &&& 0 <= gap
    &&& 0 <= gap_len
    &&& gap + gap_len <= buf.len()
    &&& forall|i: int| 0 <= i < buf.len() ==> ((#[trigger] buf[i]) is Some <==> !(gap <= i < gap
        + gap_len))
}

/// Generic gap buffer over optional slots.
pub struct GapBuffer<T> {
    buf: Vec<Option<T>>,
    gap: usize,
    gap_len: usize,
}

impl<T> View for GapBuffer<T> {
    type V = Seq<T>;

    closed spec fn view(&self) -> Seq<T> {
        live_of(self.buf@, self.gap as int, self.gap_len as int)
    }
}

impl<T> GapBuffer<T> {
    /// Well formed.
    pub closed spec fn wf(&self) -> bool {
        layout_ok(self.buf@, self.gap as int, self.gap_len as int)
    }

    /// Number of slots (live elements plus gap).
    pub closed spec fn capacity(&self) -> nat {
        self.buf@.len()
    }

    /// Logical index at which the gap sits.
    pub closed spec fn cursor(&self) -> nat {
        self.gap as nat
    }

    pub fn with_capacity(n: usize) -> (r: Self)
        ensures
            r.wf(),
            r@ == Seq::<T>::empty(),
            r.capacity() == n,
    {
        let mut buf: Vec<Option<T>> = Vec::new();
        let mut i: usize = 0;
        while i < n
            invariant
                i <= n,
                buf@.len() == i,
                forall|j: int| 0 <= j < i ==> (#[trigger] buf@[j]) is None,
            decreases n - i,
        {
            buf.push(None);
            i += 1;
        }
        let r = GapBuffer { buf, gap: 0, gap_len: n };
        proof {
            assert(r@ =~= Seq::<T>::empty());
        }
        r
    }

    pub fn len(&self) -> (r: usize)
        requires
            self.wf(),
        ensures
            r == self@.len(),
    {
        self.buf.len() - self.gap_len
    }

    pub fn is_empty(&self) -> (r: bool)
        requires
            self.wf(),
        ensures
            r == (self@.len() == 0),
    {
        self.len() == 0
    }

    fn phys(&self, i: usize) -> (r: usize)
        requires
            self.wf(),
            i < self@.len(),
        ensures
            r == (if i < self.gap {
                i as int
            } else {
                i + self.gap_len
            }),
            r < self.buf@.len(),
    {
        let n = self.buf.len();
        if i < self.gap {
            i
        } else {
            i + self.gap_len
        }
    }

    /// Exchange two slots.
    fn swap_slots(&mut self, a: usize, b: usize)
        requires
            a < old(self).buf@.len(),
            b < old(self).buf@.len(),
        ensures
            final(self).buf@ == old(self).buf@.update(a as int, old(self).buf@[b as int]).update(
                b as int,
                old(self).buf@[a as int],
            ),
            final(self).gap == old(self).gap,
            final(self).gap_len == old(self).gap_len,
    {
        if a != b {
            let mut tmp: Option<T> = None;
            self.buf.set_and_swap(a, &mut tmp);
            self.buf.set_and_swap(b, &mut tmp);
            self.buf.set_and_swap(a, &mut tmp);
            proof {
                assert(self.buf@ =~= old(self).buf@.update(a as int, old(self).buf@[b as int]).update(
                    b as int,
                    old(self).buf@[a as int],
                ));
            }
        }
    }

    /// Move the gap so that logical index `to` sits at the gap start; the
    /// content is unchanged.
    pub fn move_gap(&mut self, to: usize)
        requires
            old(self).wf(),
            to <= old(self)@.len(),
        ensures
            final(self).wf(),
            final(self)@ == old(self)@,
            final(self).capacity() == old(self).capacity(),
            final(self).cursor() == to,
    {
        let ghost v0 = self@;
        let n = self.buf.len();
        if to == self.gap {
            return;
        }
        if to < self.gap {
            while self.gap > to
                invariant
                    self.wf(),
                    self@ == v0,
                    self.buf@.len() == old(self).buf@.len(),
                    self.buf@.len() == n,
                    to <= self.gap,
                decreases self.gap,
            {
                let g = self.gap - 1;
                let e = g + self.gap_len;
                self.swap_slots(g, e);
                self.gap = g;
                proof {
                    assert(self@ =~= v0);
                }
            }
        } else {
            while self.gap < to
                invariant
                    self.wf(),
                    self@ == v0,
                    self.buf@.len() == old(self).buf@.len(),
                    self.buf@.len() == n,
                    self.gap <= to,
                    to <= self@.len(),
                decreases to - self.gap,
            {
                let g = self.gap;
                let e = g + self.gap_len;
                self.swap_slots(g, e);
                self.gap = g + 1;
                proof {
                    assert(self@ =~= v0);
                }
            }
        }
    }

    /// Double the capacity: the gap grows to the old capacity.
    fn grow(&mut self)
        requires
            old(self).wf(),
            old(self).gap_len == 0,
            old(self).buf@.len() * 2 <= usize::MAX,
        ensures
            final(self).wf(),
            final(self)@ == old(self)@,
            final(self).capacity() == old(self).capacity() * 2,
            final(self).gap == old(self).gap,
            final(self).gap_len == old(self).buf@.len(),
    {
        let n = self.buf.len();
        let ghost v0 = self@;
        let mut old_buf: Vec<Option<T>> = Vec::new();
        std::mem::swap(&mut old_buf, &mut self.buf);
        let ghost ob = old_buf@;
        let mut nb: Vec<Option<T>> = Vec::new();
        // prefix, then n empty cells, then the suffix
        let mut suffix: Vec<Option<T>> = old_buf.split_off(self.gap);
        let ghost sfx = suffix@;
        let ghost pre = old_buf@;
        let mut i: usize = 0;
        while i < n
            invariant
                i <= n,
                old_buf@.len() == pre.len() + i,
                old_buf@.subrange(0, pre.len() as int) == pre,
                forall|j: int| pre.len() <= j < old_buf@.len() ==> (#[trigger] old_buf@[j]) is None,
            decreases n - i,
        {
            old_buf.push(None);
            i += 1;
        }
        let ghost mid = old_buf@;
        old_buf.append(&mut suffix);
        self.buf = old_buf;
        self.gap_len = n;
        proof {
            let g = self.gap as int;
            assert(pre =~= ob.subrange(0, g));
            assert(sfx =~= ob.subrange(g, n as int));
            assert(self.buf@.len() == 2 * n);
            assert forall|k: int| 0 <= k < g implies #[trigger] self.buf@[k] == ob[k] by {
                assert(self.buf@[k] == pre[k]);
            }
            assert forall|k: int| g <= k < n implies #[trigger] self.buf@[k + n] == ob[k] by {
                assert(self.buf@[k + n] == sfx[k - g]);
            }
            assert forall|k: int| g <= k < g + n implies (#[trigger] self.buf@[k]) is None by {
                assert(self.buf@[k] == mid[k]);
            }
            assert(layout_ok(self.buf@, g, n as int)) by {
                assert forall|k: int| 0 <= k < self.buf@.len() implies ((#[trigger] self.buf@[k]) is Some
                    <==> !(g <= k < g + n)) by {
                    if k < g {
                        assert(self.buf@[k] == ob[k]);
                    } else if k >= g + n {
                        assert(self.buf@[(k - n) + n] == ob[k - n]);
                    } else {
                        assert(self.buf@[k] == mid[k]);
                    }
                }
            }
            assert(self@ =~= v0);
        }
    }

    /// Insert at logical index `i` (0..=len).
    pub fn insert(&mut self, i: usize, value: T)
        requires
            old(self).wf(),
            i <= old(self)@.len(),
            old(self).capacity() > 0,
            old(self).capacity() * 2 <= usize::MAX,
        ensures
            final(self).wf(),
            final(self)@ == old(self)@.insert(i as int, value),
            final(self).capacity() == if old(self)@.len() == old(self).capacity() {
                2 * old(self).capacity()
            } else {
                old(self).capacity()
            },
    {
        if self.gap_len == 0 {
            self.grow();
        }
        self.move_gap(i);
        let ghost v1 = self@;
        let g = self.gap;
        let mut cell: Option<T> = Some(value);
        self.buf.set_and_swap(g, &mut cell);
        self.gap = g + 1;
        self.gap_len = self.gap_len - 1;
        proof {
            assert(self@ =~= v1.insert(i as int, value));
        }
    }

    /// Remove and return the element at logical index `i`.
    pub fn remove(&mut self, i: usize) -> (r: T)
        requires
            old(self).wf(),
            i < old(self)@.len(),
        ensures
            final(self).wf(),
            r == old(self)@[i as int],
            final(self)@ == old(self)@.remove(i as int),
            final(self).capacity() == old(self).capacity(),
    {
        self.move_gap(i);
        let ghost v1 = self@;
        let n = self.buf.len();
        let p = self.gap + self.gap_len;
        let mut cell: Option<T> = None;
        self.buf.set_and_swap(p, &mut cell);
        self.gap_len = self.gap_len + 1;
        proof {
            assert(self@ =~= v1.remove(i as int));
        }
        cell.unwrap()
    }

    pub fn get(&self, i: usize) -> (r: &T)
        requires
            self.wf(),
            i < self@.len(),
        ensures
            *r == self@[i as int],
    {
        let p = self.phys(i);
        self.buf[p].as_ref().unwrap()
    }

    pub fn set(&mut self, i: usize, value: T)
        requires
            old(self).wf(),
            i < old(self)@.len(),
        ensures
            final(self).wf(),
            final(self)@ == old(self)@.update(i as int, value),
            final(self).capacity() == old(self).capacity(),
    {
        let p = self.phys(i);
        let mut cell: Option<T> = Some(value);
        self.buf.set_and_swap(p, &mut cell);
        proof {
            assert(self@ =~= old(self)@.update(i as int, value));
        }
    }
}

/// The derived time index of a gap track.
pub struct GapIndex {
    /// `starts[i]` is the exact start of position `i`.
    starts: Vec<Rational>,
    /// Position of each clip id (the last one, if ids repeat).
    by_id: HashMap<u64, usize>,
}

/// A gap-buffer track with a lazily rebuilt start index.
pub struct GapTrack {
    buf: GapBuffer<Clip>,
    index: GapIndex,
    dirty: bool,
}

/// The count of leading starts at or before `t` (a binary search): exact on
/// increasing starts, some count up to the length otherwise.
fn partition_le(starts: &Vec<Rational>, t: &Rational) -> (r: usize)
    requires
        forall|i: int| 0 <= i < starts@.len() ==> (#[trigger] starts@[i]).wf(),
        t.wf(),
    ensures
        r <= starts@.len(),
        r > 0 ==> starts@[r - 1].is_le(*t),
        (forall|i: int, j: int| 0 <= i < j < starts@.len() ==> #[trigger] starts@[i].is_lt(
            #[trigger] starts@[j],
        )) ==> {
            &&& forall|j: int| 0 <= j < r ==> (#[trigger] starts@[j]).is_le(*t)
            &&& forall|j: int| r <= j < starts@.len() ==> !(#[trigger] starts@[j]).is_le(*t)
        },
{
    let mut lo: usize = 0;
    let mut hi: usize = starts.len();
    while lo < hi
        invariant
            forall|i: int| 0 <= i < starts@.len() ==> (#[trigger] starts@[i]).wf(),
            t.wf(),
            0 <= lo <= hi <= starts@.len(),
            lo > 0 ==> starts@[lo - 1].is_le(*t),
            (forall|i: int, j: int| 0 <= i < j < starts@.len() ==> #[trigger] starts@[i].is_lt(
                #[trigger] starts@[j],
            )) ==> {
                &&& forall|j: int| 0 <= j < lo ==> (#[trigger] starts@[j]).is_le(*t)
                &&& forall|j: int| hi <= j < starts@.len() ==> !(#[trigger] starts@[j]).is_le(*t)
            },
        decreases hi - lo,
    {
        let mid = lo + (hi - lo) / 2;
        if starts[mid].less_eq(t) {
            proof {
                if forall|i: int, j: int| 0 <= i < j < starts@.len() ==> #[trigger] starts@[i].is_lt(
                    #[trigger] starts@[j],
                ) {
                    assert forall|j: int| 0 <= j < mid + 1 implies (#[trigger] starts@[j]).is_le(*t) by {
                        if j < mid {
                            assert(starts@[j].is_lt(starts@[mid as int]));
                            lemma_not_lt(starts@[mid as int], starts@[j]);
                            crate::time::lemma_le_trans(starts@[j], starts@[mid as int], *t);
                        }
                    }
                }
            }
            lo = mid + 1;
        } else {
            proof {
                if forall|i: int, j: int| 0 <= i < j < starts@.len() ==> #[trigger] starts@[i].is_lt(
                    #[trigger] starts@[j],
                ) {
                    assert forall|j: int| mid <= j < starts@.len() implies !(#[trigger] starts@[j]).is_le(*t) by {
                        if j > mid && starts@[j].is_le(*t) {
                            assert(starts@[mid as int].is_lt(starts@[j]));
                            lemma_not_lt(starts@[j], starts@[mid as int]);
                            crate::time::lemma_le_trans(starts@[mid as int], starts@[j], *t);
                        }
                    }
                }
            }
            hi = mid;
        }
    }
    lo
}

impl GapTrack {
    pub fn new() -> (r: Self)
        ensures
            r.inv(),
            r.clips() == Seq::<Clip>::empty(),
            forall|s: Seq<Clip>| #[trigger] r.holds(s),
    {
        GapTrack {
            buf: GapBuffer::with_capacity(64),
            index: GapIndex { starts: Vec::new(), by_id: HashMap::new() },
            dirty: true,
        }
    }

    /// A track holding the clips in order.
    pub fn from_clips(clips: Vec<Clip>) -> (r: Self)
        requires
            clips@.len() * 4 <= usize::MAX,
        ensures
            r.inv(),
            r.clips() == clips@,
    {
        let mut t = GapTrack {
            buf: GapBuffer::with_capacity(64),
            index: GapIndex { starts: Vec::new(), by_id: HashMap::new() },
            dirty: true,
        };
        let mut i: usize = 0;
        while i < clips.len()
            invariant
                t.inv(),
                i <= clips@.len(),
                t.clips() == clips@.take(i as int),
                t.buf.capacity() <= if i <= 32 { 64 } else { 2 * i },
                clips@.len() * 4 <= usize::MAX,
            decreases clips@.len() - i,
        {
            let n = t.buf.len();
            t.buf.insert(n, clips[i]);
            t.dirty = true;
            proof {
                assert(t.clips() =~= clips@.take(i + 1));
            }
            i += 1;
        }
        t.dirty = true;
        proof {
            assert(clips@.take(clips@.len() as int) =~= clips@);
        }
        t
    }

    /// Rebuild the derived index if an edit made it stale: one exact walk
    /// of running sums.
    fn ensure_index(&mut self)
        requires
            old(self).inv(),
            sums_fit(old(self).clips()),
        ensures
            final(self).inv(),
            !final(self).dirty,
            final(self).clips() == old(self).clips(),
            final(self).buf.capacity() == old(self).buf.capacity(),
    {
        if !self.dirty {
            return;
        }
        let n = self.buf.len();
        let ghost s = self.buf@;
        let mut starts: Vec<Rational> = Vec::with_capacity(n);
        let mut by_id: HashMap<u64, usize> = HashMap::with_capacity(n);
        let mut acc = Rational::zero(TICK_DEN);
        proof {
            lemma_tick_zero();
            acc.lemma_same_value_eq(tick_zero());
        }
        let mut i: usize = 0;
        while i < n
            invariant
                self.buf.wf(),
                self.buf@ == s,
                n == s.len(),
                sums_fit(s),
                i <= n,
                acc == start_of(s, i as int),
                acc.wf(),
                starts@.len() == i,
                forall|k: int| 0 <= k < i ==> #[trigger] starts@[k] == start_of(s, k),
            decreases n - i,
        {
            let c = *self.buf.get(i);
            starts.push(acc);
            by_id.insert(c.id.0, i);
            proof {
                assert(s[i as int].duration.wf());
                assert(start_of(s, i as int).add_fits(s[i as int].duration));
            }
            acc = acc.add(c.duration);
            i += 1;
        }
        self.index.starts = starts;
        self.index.by_id = by_id;
        self.dirty = false;
    }

    /// The clean-index query: the last start at or before `t`, if its span
    /// reaches past `t`.
    fn hit_indexed(&self, t: Rational) -> (r: Option<usize>)
        requires
            self.inv(),
            !self.dirty,
            t.wf(),
            sums_fit(self.clips()),
        ensures
            positive(self.clips()) ==> match r {
                Some(i) => hit_of(self.clips(), t) == Some(i as int),
                None => hit_of(self.clips(), t) is None,
            },
            r is Some ==> r->0 < self.clips().len(),
    {
        let ghost s = self.buf@;
        proof {
            assert forall|i: int| 0 <= i < self.index.starts@.len() implies (#[trigger] self.index.starts@[i]).wf() by {
                lemma_starts_wf(s, i);
            }
            if positive(s) {
                assert forall|i: int, j: int| 0 <= i < j < self.index.starts@.len() implies #[trigger] self.index.starts@[i].is_lt(
                    #[trigger] self.index.starts@[j],
                ) by {
                    lemma_starts_increase(s, i, j);
                }
            }
        }
        let pp = partition_le(&self.index.starts, &t);
        if pp == 0 {
            proof {
                if positive(s) {
                    lemma_hit_is_cover(s, t);
                    if s.len() > 0 {
                        assert(!self.index.starts@[0].is_le(t));
                        assert forall|j: int| !#[trigger] covers(s, j, t) by {
                            if covers(s, j, t) {
                                assert(!self.index.starts@[j].is_le(t));
                            }
                        }
                    }
                }
            }
            return None;
        }
        let i = pp - 1;
        let c = self.buf.get(i);
        proof {
            lemma_starts_wf(s, i as int);
            assert(s[i as int].duration.wf());
            assert(start_of(s, i as int).add_fits(s[i as int].duration));
        }
        let end = self.index.starts[i].add(c.duration);
        proof {
            lemma_starts_wf(s, i + 1);
            if positive(s) {
                lemma_hit_is_cover(s, t);
                if t.is_lt(end) {
                    assert(covers(s, i as int, t));
                } else {
                    assert forall|j: int| !#[trigger] covers(s, j, t) by {
                        if covers(s, j, t) {
                            if j > i {
                                assert(!self.index.starts@[j].is_le(t));
                            } else if j < i {
                                lemma_starts_wf(s, j + 1);
                                assert(self.index.starts@[i as int].is_le(t));
                                if j + 1 < i {
                                    lemma_starts_increase(s, j + 1, i as int);
                                    lemma_not_lt(start_of(s, i as int), start_of(s, j + 1));
                                    crate::time::lemma_lt_le_trans(t, start_of(s, j + 1), start_of(s, i as int));
                                }
                                crate::time::lemma_lt_le_trans(t, start_of(s, i as int), t);
                            }
                        }
                    }
                }
            }
        }
        if t.less_than(&end) {
            Some(i)
        } else {
            None
        }
    }
}

impl Default for GapTrack {
    fn default() -> (r: Self)
        ensures
            r.clips() == Seq::<Clip>::empty(),
    {
        GapTrack::new()
    }
}

impl TrackOps for GapTrack {
    closed spec fn clips(&self) -> Seq<Clip> {
        self.buf@
    }

    closed spec fn inv(&self) -> bool {
        &&& self.buf.wf()
        &&& self.buf.capacity() > 0
        &&& !self.dirty ==> {
            &&& sums_fit(self.buf@)
            &&& self.index.starts@.len() == self.buf@.len()
            &&& forall|i: int| 0 <= i < self.buf@.len() ==> #[trigger] self.index.starts@[i] == start_of(self.buf@, i)
        }
    }

    closed spec fn holds(&self, s: Seq<Clip>) -> bool {
        self.buf.capacity() * 2 <= usize::MAX
    }

    fn len(&self) -> (r: usize) {
        self.buf.len()
    }

    fn clip_at(&self, pos: usize) -> (r: Option<&Clip>) {
        if pos >= self.buf.len() {
            None
        } else {
            Some(self.buf.get(pos))
        }
    }

    /// A linear scan; the derived time index is not touched.
    fn index_of(&self, id: ClipId) -> (r: Option<usize>) {
        let n = self.buf.len();
        let mut i: usize = 0;
        while i < n
            invariant
                self.buf.wf(),
                n == self.buf@.len(),
                i <= n,
                forall|j: int| 0 <= j < i ==> (#[trigger] self.buf@[j]).id != id,
            decreases n - i,
        {
            if self.buf.get(i).id == id {
                return Some(i);
            }
            i += 1;
        }
        None
    }

    /// Read-only: a binary search on a clean index, else an exact linear
    /// walk.
    fn hit_test(&self, t: Rational) -> (r: Option<usize>) {
        if !self.dirty {
            return self.hit_indexed(t);
        }
        let ghost s = self.buf@;
        let n = self.buf.len();
        let mut acc = Rational::zero(TICK_DEN);
        proof {
            lemma_tick_zero();
            acc.lemma_same_value_eq(tick_zero());
        }
        let mut i: usize = 0;
        while i < n
            invariant
                self.buf.wf(),
                self.buf@ == s,
                n == s.len(),
                sums_fit(s),
                t.wf(),
                i <= n,
                acc == start_of(s, i as int),
                acc.wf(),
                scan_hit(s, t, 0) == scan_hit(s, t, i as int),
            decreases n - i,
        {
            let c = self.buf.get(i);
            proof {
                assert(s[i as int].duration.wf());
                assert(start_of(s, i as int).add_fits(s[i as int].duration));
            }
            let end = acc.add(c.duration);
            if t.less_than(&acc) {
                return None;
            }
            if t.less_than(&end) {
                return Some(i);
            }
            acc = end;
            i += 1;
        }
        None
    }

    /// The scrub path: rebuild the index once if stale, then binary search.
    fn hit_test_mut(&mut self, t: Rational) -> (r: Option<usize>) {
        self.ensure_index();
        self.hit_indexed(t)
    }

    fn insert_at(&mut self, pos: usize, clip: Clip) -> (r: Result<(), TimelineError>) {
        if pos > self.buf.len() {
            return Err(TimelineError::IndexOutOfBounds { index: pos, len: self.buf.len() });
        }
        self.buf.insert(pos, clip);
        self.dirty = true;
        Ok(())
    }

    fn remove_at(&mut self, pos: usize) -> (r: Result<Clip, TimelineError>) {
        if pos >= self.buf.len() {
            return Err(TimelineError::IndexOutOfBounds { index: pos, len: self.buf.len() });
        }
        let c = self.buf.remove(pos);
        self.dirty = true;
        Ok(c)
    }

    fn set_duration_at(&mut self, pos: usize, d: Rational) -> (r: Result<Rational, TimelineError>) {
        if pos >= self.buf.len() {
            return Err(TimelineError::IndexOutOfBounds { index: pos, len: self.buf.len() });
        }
        let c = *self.buf.get(pos);
        let old_d = c.duration;
        self.buf.set(pos, Clip { duration: d, ..c });
        self.dirty = true;
        Ok(old_d)
    }

    fn walk(&self) -> (r: Vec<(usize, Rational, Clip)>) {
        let ghost s = self.buf@;
        let n = self.buf.len();
        let mut out: Vec<(usize, Rational, Clip)> = Vec::new();
        let mut acc = Rational::zero(TICK_DEN);
        proof {
            lemma_tick_zero();
            acc.lemma_same_value_eq(tick_zero());
        }
        let mut i: usize = 0;
        while i < n
            invariant
                self.buf.wf(),
                self.buf@ == s,
                n == s.len(),
                sums_fit(s),
                i <= n,
                acc == start_of(s, i as int),
                acc.wf(),
                out@.len() == i,
                forall|k: int| 0 <= k < i ==> #[trigger] out@[k] == (k as usize, start_of(s, k), s[k]),
            decreases n - i,
        {
            let c = *self.buf.get(i);
            out.push((i, acc, c));
            proof {
                assert(s[i as int].duration.wf());
                assert(start_of(s, i as int).add_fits(s[i as int].duration));
            }
            acc = acc.add(c.duration);
            i += 1;
        }
        out
    }
}

} // verus!
