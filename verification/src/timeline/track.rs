//! Position-addressed tracks: a sequence of clips whose absolute starts are
//! never stored authoritatively — a clip's start is the exact sum of the
//! durations before it. Every structure implementing [`TrackOps`] is held
//! to the same sequence contract, so each behaves as the plain vector
//! [`OracleTrack`] does.
use crate::time::{lemma_le_trans, lemma_lt_le_trans, lemma_not_lt, lemma_start_lt_end, Rational};
use crate::timeline::clip::ClipId;
use crate::timeline::engine::TimelineError;
use vstd::prelude::*;

verus! {

/// The tick denominator of the project axis (24000 ticks per second).
pub const TICK_DEN: i64 = 24000;

/// One clip of a position-addressed track.
#[derive(Clone, Copy, Debug, PartialEq, Eq, Structural)]
pub struct Clip {
    pub id: ClipId,
    pub duration: Rational,
    pub source_in: Rational,
}

/// Zero on the tick axis.
pub open spec fn tick_zero() -> Rational {
    Rational::from_red(0, TICK_DEN as int)
}

/// The exact start of position `i`: the sum of the durations before it.
pub open spec fn start_of(s: Seq<Clip>, i: int) -> Rational
    decreases i,
{
    if i <= 0 {
        tick_zero()
    } else {
        start_of(s, i - 1).add_spec(s[i - 1].duration)
    }
}

/// Every duration is well formed and every running sum is representable.
pub open spec fn sums_fit(s: Seq<Clip>) -> bool {
    &&& forall|i: int| 0 <= i < s.len() ==> (#[trigger] s[i]).duration.wf()
    &&& forall|i: int| 0 <= i < s.len() ==> #[trigger] start_of(s, i).add_fits(s[i].duration)
}

/// Every duration is positive.
pub open spec fn positive(s: Seq<Clip>) -> bool {
    forall|i: int| 0 <= i < s.len() ==> (#[trigger] s[i]).duration.n() > 0
}

/// Position `i` covers time `t`: `start(i) <= t < start(i + 1)`.
pub open spec fn covers(s: Seq<Clip>, i: int, t: Rational) -> bool {
    &&& 0 <= i < s.len()
    &&& start_of(s, i).is_le(t)
    &&& t.is_lt(start_of(s, i + 1))
}

/// The linear scan from position `i`: stop with none when `t` lies before
/// the position's start, with the position when `t` lies before its end.
pub open spec fn scan_hit(s: Seq<Clip>, t: Rational, i: int) -> Option<int>
    decreases s.len() - i,
{
    if i < 0 || i >= s.len() {
        None
    } else if t.is_lt(start_of(s, i)) {
        None
    } else if t.is_lt(start_of(s, i + 1)) {
        Some(i)
    } else {
        scan_hit(s, t, i + 1)
    }
}

/// The position whose span holds `t`, by the linear scan.
pub open spec fn hit_of(s: Seq<Clip>, t: Rational) -> Option<int> {
    scan_hit(s, t, 0)
}

/// Zero on the tick axis is the value `0/1`.
pub proof fn lemma_tick_zero()
    ensures
        tick_zero().wf(),
        tick_zero().n() == 0,
        tick_zero().d() == 1,
{
    crate::arith::lemma_gcd_zero_left(24000);
    vstd::arithmetic::div_mod::lemma_div_basics(24000);
    Rational::lemma_from_red(0, 24000);
}

/// Every start is well formed when the sums fit.
pub proof fn lemma_starts_wf(s: Seq<Clip>, i: int)
    requires
        sums_fit(s),
        0 <= i <= s.len(),
    ensures
        start_of(s, i).wf(),
    decreases i,
{
    if i == 0 {
        lemma_tick_zero();
    } else {
        lemma_starts_wf(s, i - 1);
        assert(s[i - 1].duration.wf());
        assert(start_of(s, i - 1).add_fits(s[i - 1].duration));
        start_of(s, i - 1).lemma_add_value(s[i - 1].duration);
    }
}

/// With positive durations the starts strictly increase.
pub proof fn lemma_starts_increase(s: Seq<Clip>, i: int, j: int)
    requires
        sums_fit(s),
        positive(s),
        0 <= i < j <= s.len(),
    ensures
        start_of(s, i).is_lt(start_of(s, j)),
    decreases j - i,
{
    lemma_starts_wf(s, j - 1);
    assert(s[j - 1].duration.wf() && s[j - 1].duration.n() > 0);
    assert(start_of(s, j - 1).add_fits(s[j - 1].duration));
    lemma_start_lt_end(start_of(s, j - 1), s[j - 1].duration);
    if i < j - 1 {
        lemma_starts_increase(s, i, j - 1);
        lemma_starts_wf(s, i);
        lemma_starts_wf(s, j);
        crate::time::lemma_lt_le_trans(start_of(s, i), start_of(s, j - 1), start_of(s, j));
        lemma_not_lt(start_of(s, j - 1), start_of(s, j));
    }
}

/// From a position whose start is at or before `t`, the scan finds the
/// covering position at or after it, or none covers from there on.
proof fn lemma_scan_from(s: Seq<Clip>, t: Rational, i: int)
    requires
        sums_fit(s),
        0 <= i <= s.len(),
        start_of(s, i).is_le(t),
    ensures
        match scan_hit(s, t, i) {
            Some(k) => i <= k && covers(s, k, t),
            None => forall|k: int| i <= k < s.len() ==> !covers(s, k, t),
        },
    decreases s.len() - i,
{
    if i < s.len() {
        lemma_not_lt(t, start_of(s, i));
        if !t.is_lt(start_of(s, i + 1)) {
            lemma_not_lt(t, start_of(s, i + 1));
            lemma_scan_from(s, t, i + 1);
        }
    }
}

/// With positive durations, the scan's answer is the unique position
/// whose span `[start, start + duration)` holds `t`, and none when no span
/// does.
pub proof fn lemma_hit_is_cover(s: Seq<Clip>, t: Rational)
    requires
        sums_fit(s),
        positive(s),
        t.wf(),
    ensures
        match hit_of(s, t) {
            Some(k) => covers(s, k, t) && forall|j: int| #[trigger] covers(s, j, t) ==> j == k,
            None => forall|j: int| !#[trigger] covers(s, j, t),
        },
{
    lemma_tick_zero();
    if t.is_lt(start_of(s, 0)) {
        assert forall|j: int| !#[trigger] covers(s, j, t) by {
            if covers(s, j, t) {
                if j > 0 {
                    lemma_starts_increase(s, 0, j);
                    lemma_starts_wf(s, j);
                    crate::time::lemma_lt_le_trans(start_of(s, 0), start_of(s, j), t);
                }
                lemma_not_lt(t, start_of(s, 0));
            }
        }
    } else {
        lemma_not_lt(t, start_of(s, 0));
        lemma_scan_from(s, t, 0);
        match hit_of(s, t) {
            Some(k) => {
                assert forall|j: int| #[trigger] covers(s, j, t) implies j == k by {
                    if j < k {
                        lemma_starts_wf(s, j + 1);
                        lemma_starts_wf(s, k);
                        if j + 1 < k {
                            lemma_starts_increase(s, j + 1, k);
                            lemma_not_lt(start_of(s, j + 1), start_of(s, k));
                            lemma_le_trans(start_of(s, j + 1), start_of(s, k), t);
                        } else {
                            lemma_not_lt(start_of(s, j + 1), start_of(s, k));
                        }
                        lemma_not_lt(t, start_of(s, j + 1));
                    } else if k < j {
                        lemma_starts_wf(s, k + 1);
                        lemma_starts_wf(s, j);
                        if k + 1 < j {
                            lemma_starts_increase(s, k + 1, j);
                            lemma_not_lt(start_of(s, k + 1), start_of(s, j));
                            lemma_le_trans(start_of(s, k + 1), start_of(s, j), t);
                        } else {
                            lemma_not_lt(start_of(s, k + 1), start_of(s, j));
                        }
                        lemma_not_lt(t, start_of(s, k + 1));
                    }
                }
            },
            None => {},
        }
    }
}

/// The operations every track structure offers, over its clip sequence.
pub trait TrackOps {
    /// The clips, in sequence order.
    spec fn clips(&self) -> Seq<Clip>;

    /// The structure is well formed.
    spec fn inv(&self) -> bool;

    /// The structure can take on the clip sequence `s` (machine limits, and
    /// for structures that keep sums, representable sums).
    spec fn holds(&self, s: Seq<Clip>) -> bool;

    fn len(&self) -> (r: usize)
        requires
            self.inv(),
        ensures
            r == self.clips().len(),
    ;

    fn clip_at(&self, pos: usize) -> (r: Option<&Clip>)
        requires
            self.inv(),
        ensures
            pos < self.clips().len() ==> r is Some && *r->0 == self.clips()[pos as int],
            pos >= self.clips().len() ==> r is None,
    ;

    /// The first position holding the id (a linear scan).
    fn index_of(&self, id: ClipId) -> (r: Option<usize>)
        requires
            self.inv(),
        ensures
            match r {
                Some(i) => i < self.clips().len() && self.clips()[i as int].id == id && forall|j: int|
                    0 <= j < i ==> (#[trigger] self.clips()[j]).id != id,
                None => forall|j: int| 0 <= j < self.clips().len() ==> (#[trigger] self.clips()[j]).id != id,
            },
    ;

    /// The position whose span holds `t`.
    fn hit_test(&self, t: Rational) -> (r: Option<usize>)
        requires
            self.inv(),
            t.wf(),
            sums_fit(self.clips()),
        ensures
            positive(self.clips()) ==> match r {
                Some(i) => hit_of(self.clips(), t) == Some(i as int),
                None => hit_of(self.clips(), t) is None,
            },
            r is Some ==> r->0 < self.clips().len(),
    ;

    /// The position whose span holds `t`, free to refresh derived indexes.
    fn hit_test_mut(&mut self, t: Rational) -> (r: Option<usize>)
        requires
            old(self).inv(),
            t.wf(),
            sums_fit(old(self).clips()),
        ensures
            final(self).inv(),
            forall|s: Seq<Clip>| #[trigger] final(self).holds(s) == old(self).holds(s),
            final(self).clips() == old(self).clips(),
            positive(old(self).clips()) ==> match r {
                Some(i) => hit_of(old(self).clips(), t) == Some(i as int),
                None => hit_of(old(self).clips(), t) is None,
            },
            r is Some ==> r->0 < old(self).clips().len(),
    ;

    fn insert_at(&mut self, pos: usize, clip: Clip) -> (r: Result<(), TimelineError>)
        requires
            old(self).inv(),
            pos <= old(self).clips().len() ==> old(self).holds(old(self).clips().insert(pos as int, clip)),
        ensures
            final(self).inv(),
            pos > old(self).clips().len() ==> r == Err::<(), TimelineError>(
                TimelineError::IndexOutOfBounds { index: pos, len: old(self).clips().len() as usize },
            ) && final(self).clips() == old(self).clips(),
            pos <= old(self).clips().len() ==> r is Ok && final(self).clips() == old(self).clips().insert(
                pos as int,
                clip,
            ),
    ;

    fn remove_at(&mut self, pos: usize) -> (r: Result<Clip, TimelineError>)
        requires
            old(self).inv(),
            pos < old(self).clips().len() ==> old(self).holds(old(self).clips().remove(pos as int)),
        ensures
            final(self).inv(),
            pos >= old(self).clips().len() ==> r == Err::<Clip, TimelineError>(
                TimelineError::IndexOutOfBounds { index: pos, len: old(self).clips().len() as usize },
            ) && final(self).clips() == old(self).clips(),
            pos < old(self).clips().len() ==> r == Ok::<Clip, TimelineError>(
                old(self).clips()[pos as int],
            ) && final(self).clips() == old(self).clips().remove(pos as int),
    ;

    /// Set a duration; returns the old one.
    fn set_duration_at(&mut self, pos: usize, d: Rational) -> (r: Result<Rational, TimelineError>)
        requires
            old(self).inv(),
            pos < old(self).clips().len() ==> old(self).holds(
                old(self).clips().update(pos as int, Clip { duration: d, ..old(self).clips()[pos as int] }),
            ),
        ensures
            final(self).inv(),
            pos >= old(self).clips().len() ==> r == Err::<Rational, TimelineError>(
                TimelineError::IndexOutOfBounds { index: pos, len: old(self).clips().len() as usize },
            ) && final(self).clips() == old(self).clips(),
            pos < old(self).clips().len() ==> r == Ok::<Rational, TimelineError>(
                old(self).clips()[pos as int].duration,
            ) && final(self).clips() == old(self).clips().update(
                pos as int,
                Clip { duration: d, ..old(self).clips()[pos as int] },
            ),
    ;

    /// Every clip with its position and exact start, in order.
    fn walk(&self) -> (r: Vec<(usize, Rational, Clip)>)
        requires
            self.inv(),
            sums_fit(self.clips()),
        ensures
            r@.len() == self.clips().len(),
            forall|i: int|
                0 <= i < r@.len() ==> #[trigger] r@[i] == (i as usize, start_of(self.clips(), i), self.clips()[i]),
    ;
}

/// The plain vector track: linear id search, linear hit test, starts
/// derived on every walk. The reference the other structures match.
#[derive(Clone, Debug)]
pub struct OracleTrack {
    v: Vec<Clip>,
}

impl OracleTrack {
    pub fn new() -> (r: Self)
        ensures
            r.inv(),
            r.clips() == Seq::<Clip>::empty(),
    {
        OracleTrack { v: Vec::new() }
    }

    pub fn from_clips(clips: Vec<Clip>) -> (r: Self)
        ensures
            r.inv(),
            r.clips() == clips@,
    {
        OracleTrack { v: clips }
    }
}

impl Default for OracleTrack {
    fn default() -> (r: Self)
        ensures
            r.clips() == Seq::<Clip>::empty(),
    {
        OracleTrack::new()
    }
}

impl TrackOps for OracleTrack {
    closed spec fn clips(&self) -> Seq<Clip> {
        self.v@
    }

    closed spec fn inv(&self) -> bool {
        true
    }

    open spec fn holds(&self, s: Seq<Clip>) -> bool {
        true
    }

    fn len(&self) -> (r: usize) {
        self.v.len()
    }

    fn clip_at(&self, pos: usize) -> (r: Option<&Clip>) {
        if pos < self.v.len() {
            Some(&self.v[pos])
        } else {
            None
        }
    }

    fn index_of(&self, id: ClipId) -> (r: Option<usize>) {
        let mut i: usize = 0;
        while i < self.v.len()
            invariant
                i <= self.v@.len(),
                forall|j: int| 0 <= j < i ==> (#[trigger] self.v@[j]).id != id,
            decreases self.v@.len() - i,
        {
            if self.v[i].id == id {
                return Some(i);
            }
            i += 1;
        }
        None
    }

    fn hit_test(&self, t: Rational) -> (r: Option<usize>)
        ensures
            match r {
                Some(i) => hit_of(self.clips(), t) == Some(i as int),
                None => hit_of(self.clips(), t) is None,
            },
    {
        let s = Ghost(self.v@);
        let mut acc = Rational::zero(TICK_DEN);
        proof {
            lemma_tick_zero();
            acc.lemma_same_value_eq(tick_zero());
        }
        let mut i: usize = 0;
        while i < self.v.len()
            invariant
                s@ == self.v@,
                sums_fit(s@),
                t.wf(),
                i <= s@.len(),
                acc == start_of(s@, i as int),
                acc.wf(),
                scan_hit(s@, t, 0) == scan_hit(s@, t, i as int),
            decreases s@.len() - i,
        {
            let c = self.v[i];
            proof {
                assert(s@[i as int].duration.wf());
                assert(start_of(s@, i as int).add_fits(s@[i as int].duration));
            }
            let end = acc.add(c.duration);
            if t.less_than(&acc) {
                return None;
            }
            if t.less_than(&end) {
                return Some(i);
            }
            acc = end;
            i += 1;
        }
        None
    }

    fn hit_test_mut(&mut self, t: Rational) -> (r: Option<usize>) {
        self.hit_test(t)
    }

    fn insert_at(&mut self, pos: usize, clip: Clip) -> (r: Result<(), TimelineError>) {
        if pos > self.v.len() {
            return Err(TimelineError::IndexOutOfBounds { index: pos, len: self.v.len() });
        }
        self.v.insert(pos, clip);
        Ok(())
    }

    fn remove_at(&mut self, pos: usize) -> (r: Result<Clip, TimelineError>) {
        if pos >= self.v.len() {
            return Err(TimelineError::IndexOutOfBounds { index: pos, len: self.v.len() });
        }
        Ok(self.v.remove(pos))
    }

    fn set_duration_at(&mut self, pos: usize, d: Rational) -> (r: Result<Rational, TimelineError>) {
        if pos >= self.v.len() {
            return Err(TimelineError::IndexOutOfBounds { index: pos, len: self.v.len() });
        }
        let c = self.v[pos];
        let old_d = c.duration;
        self.v.set(pos, Clip { duration: d, ..c });
        Ok(old_d)
    }

    fn walk(&self) -> (r: Vec<(usize, Rational, Clip)>) {
        let s = Ghost(self.v@);
        let mut out: Vec<(usize, Rational, Clip)> = Vec::new();
        let mut acc = Rational::zero(TICK_DEN);
        proof {
            lemma_tick_zero();
            acc.lemma_same_value_eq(tick_zero());
        }
        let mut i: usize = 0;
        while i < self.v.len()
            invariant
                s@ == self.v@,
                sums_fit(s@),
                i <= s@.len(),
                acc == start_of(s@, i as int),
                acc.wf(),
                out@.len() == i,
                forall|k: int| 0 <= k < i ==> #[trigger] out@[k] == (k as usize, start_of(s@, k), s@[k]),
            decreases s@.len() - i,
        {
            let c = self.v[i];
            out.push((i, acc, c));
            proof {
                assert(s@[i as int].duration.wf());
                assert(start_of(s@, i as int).add_fits(s@[i as int].duration));
            }
            acc = acc.add(c.duration);
            i += 1;
        }
        out
    }
}

} // verus!
