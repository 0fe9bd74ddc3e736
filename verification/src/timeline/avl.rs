//! AvlTrack: an order-statistic AVL tree over sequence order whose nodes
//! cache their subtree's clip count, height and exact duration sum. Time
//! queries descend by weight on the cached sums; no index is ever rebuilt.
use crate::time::{lemma_not_lt, lemma_red, lemma_red_value, red_fits, Rational};
use crate::timeline::clip::ClipId;
use crate::timeline::engine::TimelineError;
use crate::timeline::track::{
    covers, lemma_hit_is_cover, lemma_starts_increase, lemma_starts_wf, lemma_tick_zero,
    positive, start_of, sums_fit, tick_zero, Clip, TrackOps, TICK_DEN,
};
use vstd::prelude::*;

verus! {

// ---------------------------------------------------------------------------
// Exact sums as fractions
// ---------------------------------------------------------------------------

/// The sum of two fractions `(numerator, denominator)`.
pub open spec fn frac_add(a: (int, int), b: (int, int)) -> (int, int) {
    (a.0 * b.1 + b.0 * a.1, a.1 * b.1)
}

/// A clip's duration as a fraction.
pub open spec fn dur_frac(c: Clip) -> (int, int) {
    (c.duration.n(), c.duration.d())
}

/// The exact total duration of a clip sequence, as a fraction.
pub open spec fn total(s: Seq<Clip>) -> (int, int)
    decreases s.len(),
{
    if s.len() == 0 {
        (0, 1)
    } else {
        frac_add(total(s.drop_last()), dur_frac(s.last()))
    }
}

/// A value stands for a fraction: it is well formed and equal in value.
pub open spec fn represents(r: Rational, f: (int, int)) -> bool {
    &&& r.wf()
    &&& f.1 > 0
    &&& r.n() * f.1 == f.0 * r.d()
}

/// The reduced form of a fraction is representable.
pub open spec fn frac_fits(f: (int, int)) -> bool {
    red_fits(f.0, f.1)
}

/// Every duration is well formed.
pub open spec fn durs_wf(s: Seq<Clip>) -> bool {
    forall|i: int| 0 <= i < s.len() ==> (#[trigger] s[i]).duration.wf()
}

/// The total of every contiguous run of the sequence is representable.
pub open spec fn ranges_fit(s: Seq<Clip>) -> bool {
    forall|i: int, j: int| 0 <= i <= j <= s.len() ==> #[trigger] frac_fits(total(s.subrange(i, j)))
}

/// A sequence the tree can hold: well-formed durations, representable
/// run totals, and fewer clips than the `i32` height and `u32` count bound.
pub open spec fn avl_holds(s: Seq<Clip>) -> bool {
    &&& durs_wf(s)
    &&& ranges_fit(s)
    &&& s.len() < i32::MAX
}

proof fn lemma_frac_assoc(a: (int, int), b: (int, int), c: (int, int))
    ensures
        frac_add(frac_add(a, b), c) == frac_add(a, frac_add(b, c)),
{
    let (a0, a1, b0, b1, c0, c1) = (a.0, a.1, b.0, b.1, c.0, c.1);
    assert((a0 * b1 + b0 * a1) * c1 == a0 * b1 * c1 + b0 * a1 * c1) by (nonlinear_arith);
    assert(c0 * (a1 * b1) == c0 * a1 * b1) by (nonlinear_arith);
    assert(a0 * (b1 * c1) == a0 * b1 * c1) by (nonlinear_arith);
    assert((b0 * c1 + c0 * b1) * a1 == b0 * a1 * c1 + c0 * a1 * b1) by (nonlinear_arith);
    assert((a1 * b1) * c1 == a1 * (b1 * c1)) by (nonlinear_arith);
}

proof fn lemma_frac_comm(a: (int, int), b: (int, int))
    ensures
        frac_add(a, b) == frac_add(b, a),
{
    assert(a.1 * b.1 == b.1 * a.1) by (nonlinear_arith);
}

/// The total of a concatenation is the sum of the totals.
proof fn lemma_total_concat(a: Seq<Clip>, b: Seq<Clip>)
    ensures
        total(a + b) == frac_add(total(a), total(b)),
    decreases b.len(),
{
    let ta = total(a);
    if b.len() == 0 {
        assert(a + b =~= a);
        assert(total(b) == (0int, 1int));
        assert(ta.0 * 1 + 0 * ta.1 == ta.0 && ta.1 * 1 == ta.1) by (nonlinear_arith);
    } else {
        let b2 = b.drop_last();
        assert((a + b).drop_last() =~= a + b2);
        assert((a + b).last() == b.last());
        assert(total(a + b) == frac_add(total(a + b2), dur_frac(b.last())));
        assert(total(b) == frac_add(total(b2), dur_frac(b.last())));
        lemma_total_concat(a, b2);
        lemma_frac_assoc(total(a), total(b2), dur_frac(b.last()));
    }
}

/// The total of one clip is its duration.
proof fn lemma_total_single(c: Clip)
    ensures
        total(seq![c]) == dur_frac(c),
{
    assert(seq![c].drop_last() =~= Seq::<Clip>::empty());
    assert(total(Seq::<Clip>::empty()) == (0int, 1int));
    assert(seq![c].last() == c);
    let (n, d) = (c.duration.n(), c.duration.d());
    assert(0 * d + n * 1 == n && 1 * d == d) by (nonlinear_arith);
    assert(total(seq![c]) == frac_add((0int, 1int), dur_frac(c)));
}

/// Rearranging a product of four factors.
proof fn lemma_mul4(x: int, y: int, z: int, w: int)
    ensures
        (x * y) * (z * w) == (x * z) * (y * w),
        (x * y) * (z * w) == (x * w) * (y * z),
{
    vstd::arithmetic::mul::lemma_mul_is_associative(x * y, z, w);
    vstd::arithmetic::mul::lemma_mul_is_associative(x, y, z);
    vstd::arithmetic::mul::lemma_mul_is_commutative(y, z);
    vstd::arithmetic::mul::lemma_mul_is_associative(x, z, y);
    vstd::arithmetic::mul::lemma_mul_is_associative(x * z, y, w);
    vstd::arithmetic::mul::lemma_mul_is_associative(x, y, w);
    vstd::arithmetic::mul::lemma_mul_is_commutative(z, w);
    vstd::arithmetic::mul::lemma_mul_is_associative(x * y, w, z);
    vstd::arithmetic::mul::lemma_mul_is_commutative(y, w);
    vstd::arithmetic::mul::lemma_mul_is_associative(x, w, y);
    vstd::arithmetic::mul::lemma_mul_is_associative(x * w, y, z);
}

/// Totals have positive denominators.
proof fn lemma_total_den(s: Seq<Clip>)
    requires
        durs_wf(s),
    ensures
        total(s).1 > 0,
    decreases s.len(),
{
    if s.len() > 0 {
        assert(durs_wf(s.drop_last()));
        lemma_total_den(s.drop_last());
        assert(s.last().duration.wf());
        let t = total(s.drop_last());
        let d = s.last().duration.d();
        assert(t.1 * d > 0) by (nonlinear_arith)
            requires
                t.1 > 0,
                d > 0,
        ;
    }
}

/// `x / g1 == f0 / f1` cross-multiplied, carried over a common value.
proof fn lemma_cancel(x: int, y: int, g0: int, g1: int, f0: int, f1: int)
    requires
        g1 > 0,
        x * g1 == g0 * y,
        g0 * f1 == f0 * g1,
    ensures
        x * f1 == f0 * y,
{
    assert((x * f1) * g1 == (f0 * y) * g1) by (nonlinear_arith)
        requires
            x * g1 == g0 * y,
            g0 * f1 == f0 * g1,
    ;
    assert(x * f1 == f0 * y) by (nonlinear_arith)
        requires
            (x * f1) * g1 == (f0 * y) * g1,
            g1 > 0,
    ;
}

/// Adding values that stand for two fractions: the sum is representable
/// exactly when the fractions' sum is, and then it stands for that sum.
proof fn lemma_add_represents(r1: Rational, f1: (int, int), r2: Rational, f2: (int, int))
    requires
        represents(r1, f1),
        represents(r2, f2),
    ensures
        frac_add(f1, f2).1 > 0,
        r1.add_fits(r2) == frac_fits(frac_add(f1, f2)),
        r1.add_fits(r2) ==> represents(r1.add_spec(r2), frac_add(f1, f2)),
{
    let (n1, d1, n2, d2) = (r1.n(), r1.d(), r2.n(), r2.d());
    let g0 = n1 * d2 + n2 * d1;
    let g1 = d1 * d2;
    let f = frac_add(f1, f2);
    assert(g1 > 0 && f.1 > 0) by (nonlinear_arith)
        requires
            d1 > 0,
            d2 > 0,
            f1.1 > 0,
            f2.1 > 0,
            g1 == d1 * d2,
            f.1 == f1.1 * f2.1,
    ;
    let (p1, q1, p2, q2) = (f1.0, f1.1, f2.0, f2.1);
    vstd::arithmetic::mul::lemma_mul_is_distributive_add_other_way(q1 * q2, n1 * d2, n2 * d1);
    lemma_mul4(n1, d2, q1, q2);
    lemma_mul4(n2, d1, q1, q2);
    vstd::arithmetic::mul::lemma_mul_is_commutative(d1, q1);
    vstd::arithmetic::mul::lemma_mul_is_distributive_add_other_way(d1 * d2, p1 * q2, p2 * q1);
    lemma_mul4(p1, q2, d1, d2);
    lemma_mul4(p2, q1, d1, d2);
    vstd::arithmetic::mul::lemma_mul_is_commutative(d2, q2);
    vstd::arithmetic::mul::lemma_mul_is_commutative(d1, d2);
    assert(g0 * f.1 == f.0 * g1);
    lemma_red_value(g0, g1, f.0, f.1);
    if r1.add_fits(r2) {
        r1.lemma_add_value(r2);
        let a = r1.add_spec(r2);
        lemma_cancel(a.n(), a.d(), g0, g1, f.0, f.1);
    }
}

/// Two values standing for one fraction are the same value.
proof fn lemma_represents_eq(r1: Rational, r2: Rational, f: (int, int))
    requires
        represents(r1, f),
        represents(r2, f),
    ensures
        r1 == r2,
{
    assert(r1.n() * r2.d() == r2.n() * r1.d()) by (nonlinear_arith)
        requires
            r1.n() * f.1 == f.0 * r1.d(),
            r2.n() * f.1 == f.0 * r2.d(),
            f.1 > 0,
    ;
    r1.lemma_same_value_eq(r2);
}

/// The start of a position stands for the total of the clips before it.
proof fn lemma_start_represents(s: Seq<Clip>, k: int)
    requires
        sums_fit(s),
        0 <= k <= s.len(),
    ensures
        represents(start_of(s, k), total(s.take(k))),
    decreases k,
{
    if k == 0 {
        lemma_tick_zero();
        assert(s.take(0) =~= Seq::<Clip>::empty());
    } else {
        lemma_start_represents(s, k - 1);
        lemma_starts_wf(s, k - 1);
        assert(s.take(k).drop_last() =~= s.take(k - 1));
        assert(s.take(k).last() == s[k - 1]);
        let c = s[k - 1];
        assert(c.duration.wf());
        assert(represents(c.duration, dur_frac(c))) by (nonlinear_arith)
            requires
                c.duration.wf(),
        ;
        assert(start_of(s, k - 1).add_fits(c.duration));
        lemma_add_represents(start_of(s, k - 1), total(s.take(k - 1)), c.duration, dur_frac(c));
    }
}

/// The empty sequence can be held.
proof fn lemma_empty_holds()
    ensures
        avl_holds(Seq::<Clip>::empty()),
{
    let e = Seq::<Clip>::empty();
    lemma_red(0, 1);
    assert forall|i: int, j: int| 0 <= i <= j <= e.len() implies #[trigger] frac_fits(total(e.subrange(i, j))) by {
        assert(e.subrange(i, j) =~= e);
        assert(total(e) == (0int, 1int));
    }
}

/// A contiguous run of a sequence whose runs fit has runs that fit.
proof fn lemma_ranges_sub(s: Seq<Clip>, i: int, j: int)
    requires
        ranges_fit(s),
        0 <= i <= j <= s.len(),
    ensures
        ranges_fit(s.subrange(i, j)),
{
    let t = s.subrange(i, j);
    assert forall|a: int, b: int| 0 <= a <= b <= t.len() implies #[trigger] frac_fits(total(t.subrange(a, b))) by {
        assert(t.subrange(a, b) =~= s.subrange(i + a, i + b));
        assert(frac_fits(total(s.subrange(i + a, i + b))));
    }
}

/// What holds of a sequence holds of its contiguous runs.
proof fn lemma_holds_sub(s: Seq<Clip>, i: int, j: int)
    requires
        avl_holds(s),
        0 <= i <= j <= s.len(),
    ensures
        avl_holds(s.subrange(i, j)),
{
    lemma_ranges_sub(s, i, j);
    assert forall|k: int| 0 <= k < j - i implies (#[trigger] s.subrange(i, j)[k]).duration.wf() by {
        assert(s.subrange(i, j)[k] == s[i + k]);
    }
}

/// A run-fitting sequence has fitting prefix sums.
proof fn lemma_holds_sums_fit(s: Seq<Clip>)
    requires
        avl_holds(s),
    ensures
        sums_fit(s),
    decreases s.len(),
{
    if s.len() > 0 {
        let p = s.drop_last();
        assert(p =~= s.subrange(0, s.len() - 1));
        lemma_holds_sub(s, 0, s.len() - 1);
        lemma_holds_sums_fit(p);
        let k = s.len() - 1;
        assert forall|i: int| 0 <= i < s.len() implies #[trigger] start_of(s, i).add_fits(s[i].duration) by {
            assert forall|m: int| 0 <= m <= i implies start_of(s, m) == start_of(p, m) by {
                lemma_start_same(s, p, m);
            }
            if i < k {
                assert(start_of(p, i).add_fits(p[i].duration));
            } else {
                lemma_start_represents(p, k);
                assert(p.take(k) =~= p);
                assert(s[k].duration.wf());
                assert(represents(s[k].duration, dur_frac(s[k]))) by (nonlinear_arith)
                    requires
                        s[k].duration.wf(),
                ;
                lemma_add_represents(start_of(p, k), total(p), s[k].duration, dur_frac(s[k]));
                assert(s.subrange(0, s.len() as int) =~= s);
                assert(frac_fits(total(s.subrange(0, s.len() as int))));
                assert(total(s) == frac_add(total(p), dur_frac(s[k])));
            }
        }
    }
}

/// Starts depend only on the clips before them.
proof fn lemma_start_same(s: Seq<Clip>, p: Seq<Clip>, m: int)
    requires
        0 <= m <= p.len() <= s.len(),
        forall|i: int| 0 <= i < p.len() ==> p[i] == s[i],
    ensures
        start_of(s, m) == start_of(p, m),
    decreases m,
{
    if m > 0 {
        lemma_start_same(s, p, m - 1);
    }
}

// ---------------------------------------------------------------------------
// The tree
// ---------------------------------------------------------------------------

struct Node {
    clip: Clip,
    /// Exact sum of the subtree's durations.
    sum: Rational,
    cnt: u32,
    h: i32,
    l: Option<Box<Node>>,
    r: Option<Box<Node>>,
}

/// The clips of a subtree, in order.
spec fn seq_of(t: Option<Box<Node>>) -> Seq<Clip>
    decreases t,
{
    match t {
        None => Seq::empty(),
        Some(n) => seq_of(n.l) + seq![n.clip] + seq_of(n.r),
    }
}

/// The cached height of a subtree.
spec fn ht(t: Option<Box<Node>>) -> int {
    match t {
        None => 0,
        Some(n) => n.h as int,
    }
}

spec fn max_int(a: int, b: int) -> int {
    if a >= b {
        a
    } else {
        b
    }
}

/// Every node caches its subtree's count, height and exact duration sum.
spec fn tree_wf(t: Option<Box<Node>>) -> bool
    decreases t,
{
    match t {
        None => true,
        Some(n) => {
            &&& tree_wf(n.l)
            &&& tree_wf(n.r)
            &&& n.cnt == seq_of(t).len()
            &&& n.h == 1 + max_int(ht(n.l), ht(n.r))
            &&& represents(n.sum, total(seq_of(t)))
        },
    }
}

/// Heights are bounded by sizes.
proof fn lemma_height(t: Option<Box<Node>>)
    requires
        tree_wf(t),
    ensures
        0 <= ht(t) <= seq_of(t).len(),
        t is Some <==> ht(t) > 0,
    decreases t,
{
    if let Some(n) = t {
        lemma_height(n.l);
        lemma_height(n.r);
    }
}

fn height(t: &Option<Box<Node>>) -> (r: i32)
    ensures
        r == ht(*t),
{
    match t {
        None => 0,
        Some(n) => n.h,
    }
}

fn count(t: &Option<Box<Node>>) -> (r: u32)
    requires
        tree_wf(*t),
    ensures
        r == seq_of(*t).len(),
{
    match t {
        None => 0,
        Some(n) => n.cnt,
    }
}

fn subtree_sum(t: &Option<Box<Node>>) -> (r: Rational)
    requires
        tree_wf(*t),
        durs_wf(seq_of(*t)),
    ensures
        represents(r, total(seq_of(*t))),
{
    match t {
        None => {
            let z = Rational::zero(TICK_DEN);
            assert(total(Seq::<Clip>::empty()) == (0int, 1int));
            z
        },
        Some(n) => n.sum,
    }
}

/// A node over two subtrees, its caches computed: the sum adds the clip's
/// duration, the left sum and the right sum, in that order.
fn mk(clip: Clip, l: Option<Box<Node>>, r: Option<Box<Node>>) -> (res: Box<Node>)
    requires
        tree_wf(l),
        tree_wf(r),
        avl_holds(seq_of(l) + seq![clip] + seq_of(r)),
    ensures
        tree_wf(Some(res)),
        seq_of(Some(res)) == seq_of(l) + seq![clip] + seq_of(r),
        res.clip == clip,
        res.l == l,
        res.r == r,
{
    let ghost sl = seq_of(l);
    let ghost sr = seq_of(r);
    let ghost s = sl + seq![clip] + sr;
    proof {
        lemma_height(l);
        lemma_height(r);
        lemma_holds_sub(s, 0, sl.len() as int);
        assert(s.subrange(0, sl.len() as int) =~= sl);
        lemma_holds_sub(s, sl.len() as int + 1, s.len() as int);
        assert(s.subrange(sl.len() as int + 1, s.len() as int) =~= sr);
        assert(s[sl.len() as int] == clip);
    }
    let sum_l = subtree_sum(&l);
    let sum_r = subtree_sum(&r);
    let ghost d = dur_frac(clip);
    proof {
        assert(clip.duration.wf());
        assert(represents(clip.duration, d)) by (nonlinear_arith)
            requires
                clip.duration.wf(),
                d == dur_frac(clip),
        ;
        lemma_total_single(clip);
        lemma_total_concat(sl, seq![clip]);
        lemma_frac_comm(d, total(sl));
        assert(s.subrange(0, sl.len() as int + 1) =~= sl + seq![clip]);
        assert(frac_fits(total(s.subrange(0, sl.len() as int + 1))));
        lemma_add_represents(clip.duration, d, sum_l, total(sl));
    }
    let a = clip.duration.add(sum_l);
    proof {
        lemma_total_concat(sl + seq![clip], sr);
        assert(s.subrange(0, s.len() as int) =~= s);
        assert(frac_fits(total(s.subrange(0, s.len() as int))));
        lemma_add_represents(a, total(sl + seq![clip]), sum_r, total(sr));
    }
    let sum = a.add(sum_r);
    let cl = count(&l);
    let cr = count(&r);
    let hl = height(&l);
    let hr = height(&r);
    let h = if hl >= hr {
        1 + hl
    } else {
        1 + hr
    };
    let res = Box::new(Node { clip, sum, cnt: 1 + cl + cr, h, l, r });
    proof {
        assert(seq_of(Some(res)) =~= s);
    }
    res
}

fn rot_right(a: Box<Node>) -> (res: Box<Node>)
    requires
        tree_wf(Some(a)),
        a.l is Some,
        avl_holds(seq_of(Some(a))),
    ensures
        tree_wf(Some(res)),
        seq_of(Some(res)) == seq_of(Some(a)),
        res.clip == a.l.unwrap().clip,
        res.l == a.l.unwrap().l,
        res.r is Some,
        res.r.unwrap().clip == a.clip,
        res.r.unwrap().l == a.l.unwrap().r,
        res.r.unwrap().r == a.r,
{
    proof {
        reveal_with_fuel(tree_wf, 2);
        reveal_with_fuel(seq_of, 2);
    }
    let ghost sa = seq_of(Some(a));
    let Node { clip: ac, l: al, r: ar, .. } = *a;
    let b = al.unwrap();
    let ghost sb = seq_of(Some(b));
    let Node { clip: bc, l: bl, r: br, .. } = *b;
    let ghost inner = seq_of(br) + seq![ac] + seq_of(ar);
    proof {
        assert(sa =~= seq_of(bl) + seq![bc] + inner);
        let k = seq_of(bl).len() + 1;
        assert(sa.subrange(k as int, sa.len() as int) =~= inner);
        lemma_holds_sub(sa, k as int, sa.len() as int);
    }
    let na = mk(ac, br, ar);
    let res = mk(bc, bl, Some(na));
    proof {
        assert(seq_of(Some(res)) =~= sa);
    }
    res
}

fn rot_left(a: Box<Node>) -> (res: Box<Node>)
    requires
        tree_wf(Some(a)),
        a.r is Some,
        avl_holds(seq_of(Some(a))),
    ensures
        tree_wf(Some(res)),
        seq_of(Some(res)) == seq_of(Some(a)),
        res.clip == a.r.unwrap().clip,
        res.r == a.r.unwrap().r,
        res.l is Some,
        res.l.unwrap().clip == a.clip,
        res.l.unwrap().l == a.l,
        res.l.unwrap().r == a.r.unwrap().l,
{
    proof {
        reveal_with_fuel(tree_wf, 2);
        reveal_with_fuel(seq_of, 2);
    }
    let ghost sa = seq_of(Some(a));
    let Node { clip: ac, l: al, r: ar, .. } = *a;
    let b = ar.unwrap();
    let Node { clip: bc, l: bl, r: br, .. } = *b;
    let ghost inner = seq_of(al) + seq![ac] + seq_of(bl);
    proof {
        assert(sa =~= inner + seq![bc] + seq_of(br));
        assert(sa.subrange(0, inner.len() as int) =~= inner);
        lemma_holds_sub(sa, 0, inner.len() as int);
    }
    let na = mk(ac, al, bl);
    let res = mk(bc, Some(na), br);
    proof {
        assert(seq_of(Some(res)) =~= sa);
    }
    res
}

/// A node over two subtrees, rebalanced by at most two rotations when the
/// subtree heights differ by more than one.
fn balance(clip: Clip, l: Option<Box<Node>>, r: Option<Box<Node>>) -> (res: Box<Node>)
    requires
        tree_wf(l),
        tree_wf(r),
        avl_holds(seq_of(l) + seq![clip] + seq_of(r)),
    ensures
        tree_wf(Some(res)),
        seq_of(Some(res)) == seq_of(l) + seq![clip] + seq_of(r),
{
    let ghost s = seq_of(l) + seq![clip] + seq_of(r);
    proof {
        lemma_height(l);
        lemma_height(r);
    }
    let hl = height(&l);
    let hr = height(&r);
    let b = hl - hr;
    if b > 1 {
        let lb = l.unwrap();
        proof {
            reveal_with_fuel(tree_wf, 2);
            lemma_height(lb.l);
            lemma_height(lb.r);
            assert(s.subrange(0, seq_of(Some(lb)).len() as int) =~= seq_of(Some(lb)));
            lemma_holds_sub(s, 0, seq_of(Some(lb)).len() as int);
        }
        let lb2 = if height(&lb.l) < height(&lb.r) {
            rot_left(lb)
        } else {
            lb
        };
        let n = mk(clip, Some(lb2), r);
        return rot_right(n);
    }
    if b < -1 {
        let rb = r.unwrap();
        proof {
            reveal_with_fuel(tree_wf, 2);
            lemma_height(rb.l);
            lemma_height(rb.r);
            let k = seq_of(l).len() + 1;
            assert(s.subrange(k as int, s.len() as int) =~= seq_of(Some(rb)));
            lemma_holds_sub(s, k as int, s.len() as int);
        }
        let rb2 = if height(&rb.r) < height(&rb.l) {
            rot_right(rb)
        } else {
            rb
        };
        let n = mk(clip, l, Some(rb2));
        return rot_left(n);
    }
    mk(clip, l, r)
}

/// Insert at sequence position `idx`.
fn insert_node(t: Option<Box<Node>>, idx: usize, clip: Clip) -> (res: Box<Node>)
    requires
        tree_wf(t),
        idx <= seq_of(t).len(),
        avl_holds(seq_of(t).insert(idx as int, clip)),
    ensures
        tree_wf(Some(res)),
        seq_of(Some(res)) == seq_of(t).insert(idx as int, clip),
    decreases t,
{
    let ghost s = seq_of(t).insert(idx as int, clip);
    match t {
        None => {
            proof {
                assert(s =~= Seq::<Clip>::empty() + seq![clip] + Seq::<Clip>::empty());
            }
            mk(clip, None, None)
        },
        Some(node) => {
            let Node { clip: nc, l, r, .. } = *node;
            let lc = count(&l) as usize;
            if idx <= lc {
                proof {
                    let sl = seq_of(l).insert(idx as int, clip);
                    assert(s =~= sl + seq![nc] + seq_of(r));
                    assert(s.subrange(0, sl.len() as int) =~= sl);
                    lemma_holds_sub(s, 0, sl.len() as int);
                }
                let nl = insert_node(l, idx, clip);
                balance(nc, Some(nl), r)
            } else {
                proof {
                    let sr = seq_of(r).insert(idx - lc - 1, clip);
                    assert(s =~= seq_of(l) + seq![nc] + sr);
                    let k = lc + 1;
                    assert(s.subrange(k as int, s.len() as int) =~= sr);
                    lemma_holds_sub(s, k as int, s.len() as int);
                }
                let nr = insert_node(r, idx - lc - 1, clip);
                balance(nc, l, Some(nr))
            }
        },
    }
}

/// Remove the first clip of a non-empty subtree.
fn remove_min(t: Box<Node>) -> (res: (Option<Box<Node>>, Clip))
    requires
        tree_wf(Some(t)),
        avl_holds(seq_of(Some(t))),
    ensures
        tree_wf(res.0),
        seq_of(res.0) == seq_of(Some(t)).drop_first(),
        res.1 == seq_of(Some(t))[0],
    decreases t,
{
    let ghost s = seq_of(Some(t));
    let Node { clip, l, r, .. } = *t;
    let ghost gl = l;
    match l {
        None => {
            proof {
                assert(seq_of(gl) =~= Seq::<Clip>::empty());
                assert(s =~= seq![clip] + seq_of(r));
                assert(s.drop_first() =~= seq_of(r));
            }
            (r, clip)
        },
        Some(lb) => {
            proof {
                assert(s =~= seq_of(Some(lb)) + seq![clip] + seq_of(r));
                assert(s.subrange(0, seq_of(Some(lb)).len() as int) =~= seq_of(Some(lb)));
                lemma_holds_sub(s, 0, seq_of(Some(lb)).len() as int);
            }
            let (nl, m) = remove_min(lb);
            proof {
                let rest = seq_of(nl) + seq![clip] + seq_of(r);
                assert(rest =~= s.drop_first());
                assert(s.drop_first() =~= s.subrange(1, s.len() as int));
                lemma_holds_sub(s, 1, s.len() as int);
            }
            (Some(balance(clip, nl, r)), m)
        },
    }
}

/// The two subtrees of a removed node, joined: the right subtree's first
/// clip becomes the new root when both are present.
fn join(l: Option<Box<Node>>, r: Option<Box<Node>>) -> (res: Option<Box<Node>>)
    requires
        tree_wf(l),
        tree_wf(r),
        avl_holds(seq_of(l) + seq_of(r)),
    ensures
        tree_wf(res),
        seq_of(res) == seq_of(l) + seq_of(r),
{
    let ghost gl = l;
    let ghost gr = r;
    let ghost s = seq_of(l) + seq_of(r);
    match (l, r) {
        (None, r) => {
            proof {
                assert(seq_of(gl) =~= Seq::<Clip>::empty());
                assert(s =~= seq_of(r));
            }
            r
        },
        (l, None) => {
            proof {
                assert(seq_of(gr) =~= Seq::<Clip>::empty());
                assert(s =~= seq_of(l));
            }
            l
        },
        (l, Some(rb)) => {
            proof {
                let k = seq_of(l).len();
                assert(s.subrange(k as int, s.len() as int) =~= seq_of(Some(rb)));
                lemma_holds_sub(s, k as int, s.len() as int);
            }
            let (rr, m) = remove_min(rb);
            proof {
                assert(s =~= seq_of(l) + seq![m] + seq_of(rr));
            }
            Some(balance(m, l, rr))
        },
    }
}

/// Remove the clip at sequence position `idx`.
#[verifier::rlimit(40)]
fn remove_node(t: Option<Box<Node>>, idx: usize) -> (res: (Option<Box<Node>>, Clip))
    requires
        tree_wf(t),
        idx < seq_of(t).len(),
        avl_holds(seq_of(t).remove(idx as int)),
    ensures
        tree_wf(res.0),
        seq_of(res.0) == seq_of(t).remove(idx as int),
        res.1 == seq_of(t)[idx as int],
    decreases t,
{
    let ghost s = seq_of(t);
    let ghost s2 = seq_of(t).remove(idx as int);
    let node = t.unwrap();
    let Node { clip: nc, l, r, .. } = *node;
    let lc = count(&l) as usize;
    proof {
        assert(s =~= seq_of(l) + seq![nc] + seq_of(r));
    }
    if idx < lc {
        proof {
            let sl = seq_of(l).remove(idx as int);
            assert(s2 =~= sl + seq![nc] + seq_of(r));
            assert(s2.subrange(0, sl.len() as int) =~= sl);
            lemma_holds_sub(s2, 0, sl.len() as int);
        }
        let (nl, rem) = remove_node(l, idx);
        (Some(balance(nc, nl, r)), rem)
    } else if idx == lc {
        proof {
            assert(s2 =~= seq_of(l) + seq_of(r));
        }
        (join(l, r), nc)
    } else {
        proof {
            let sr = seq_of(r).remove(idx - lc - 1);
            assert(s2 =~= seq_of(l) + seq![nc] + sr);
            let k = lc + 1;
            assert(s2.subrange(k as int, s2.len() as int) =~= sr);
            lemma_holds_sub(s2, k as int, s2.len() as int);
        }
        let (nr, rem) = remove_node(r, idx - lc - 1);
        (Some(balance(nc, l, nr)), rem)
    }
}

/// The sequence with position `idx`'s duration replaced.
spec fn with_duration(s: Seq<Clip>, idx: int, d: Rational) -> Seq<Clip> {
    s.update(idx, Clip { duration: d, ..s[idx] })
}

/// Replace the duration at sequence position `idx`; returns the old one.
fn set_dur_node(t: Option<Box<Node>>, idx: usize, d: Rational) -> (res: (Option<Box<Node>>, Rational))
    requires
        tree_wf(t),
        idx < seq_of(t).len(),
        avl_holds(with_duration(seq_of(t), idx as int, d)),
    ensures
        tree_wf(res.0),
        seq_of(res.0) == with_duration(seq_of(t), idx as int, d),
        res.1 == seq_of(t)[idx as int].duration,
    decreases t,
{
    let ghost s = seq_of(t);
    let ghost s2 = with_duration(seq_of(t), idx as int, d);
    let node = t.unwrap();
    let Node { clip: nc, l, r, .. } = *node;
    let lc = count(&l) as usize;
    proof {
        assert(s =~= seq_of(l) + seq![nc] + seq_of(r));
    }
    if idx < lc {
        proof {
            let sl = with_duration(seq_of(l), idx as int, d);
            assert(s2 =~= sl + seq![nc] + seq_of(r));
            assert(s2.subrange(0, sl.len() as int) =~= sl);
            lemma_holds_sub(s2, 0, sl.len() as int);
        }
        let (nl, old) = set_dur_node(l, idx, d);
        (Some(balance(nc, nl, r)), old)
    } else if idx == lc {
        let c = Clip { duration: d, ..nc };
        proof {
            assert(s2 =~= seq_of(l) + seq![c] + seq_of(r));
        }
        (Some(balance(c, l, r)), nc.duration)
    } else {
        proof {
            let sr = with_duration(seq_of(r), idx - lc - 1, d);
            assert(s2 =~= seq_of(l) + seq![nc] + sr);
            let k = lc + 1;
            assert(s2.subrange(k as int, s2.len() as int) =~= sr);
            lemma_holds_sub(s2, k as int, s2.len() as int);
        }
        let (nr, old) = set_dur_node(r, idx - lc - 1, d);
        (Some(balance(nc, l, nr)), old)
    }
}

// ---------------------------------------------------------------------------
// Queries
// ---------------------------------------------------------------------------

/// The clip at sequence position `idx` (rank descent).
fn get_in(t: &Option<Box<Node>>, idx: usize) -> (r: &Clip)
    requires
        tree_wf(*t),
        idx < seq_of(*t).len(),
    ensures
        *r == seq_of(*t)[idx as int],
    decreases *t,
{
    let node = t.as_ref().unwrap();
    let lc = count(&node.l) as usize;
    proof {
        assert(seq_of(*t) =~= seq_of(node.l) + seq![node.clip] + seq_of(node.r));
    }
    if idx < lc {
        get_in(&node.l, idx)
    } else if idx == lc {
        &node.clip
    } else {
        get_in(&node.r, idx - lc - 1)
    }
}

/// The first position in the subtree holding the id, offset by `base`.
fn index_in(t: &Option<Box<Node>>, id: ClipId, base: usize) -> (r: Option<usize>)
    requires
        tree_wf(*t),
        base + seq_of(*t).len() <= usize::MAX,
    ensures
        match r {
            Some(i) => base <= i < base + seq_of(*t).len() && seq_of(*t)[i - base].id == id
                && forall|j: int| 0 <= j < i - base ==> (#[trigger] seq_of(*t)[j]).id != id,
            None => forall|j: int| 0 <= j < seq_of(*t).len() ==> (#[trigger] seq_of(*t)[j]).id != id,
        },
    decreases *t,
{
    match t {
        None => None,
        Some(node) => {
            let lc = count(&node.l) as usize;
            let ghost s = seq_of(*t);
            proof {
                assert(s =~= seq_of(node.l) + seq![node.clip] + seq_of(node.r));
            }
            match index_in(&node.l, id, base) {
                Some(i) => {
                    return Some(i);
                },
                None => {},
            }
            if node.clip.id == id {
                return Some(base + lc);
            }
            match index_in(&node.r, id, base + lc + 1) {
                Some(i) => Some(i),
                None => None,
            }
        },
    }
}

/// With positive durations, no position from `p` on covers a time before
/// `p`'s start.
proof fn lemma_no_cover_from(s: Seq<Clip>, t: Rational, p: int)
    requires
        sums_fit(s),
        positive(s),
        t.wf(),
        0 <= p <= s.len(),
        t.is_lt(start_of(s, p)),
    ensures
        forall|k: int| p <= k < s.len() ==> !#[trigger] covers(s, k, t),
{
    assert forall|k: int| p <= k < s.len() implies !#[trigger] covers(s, k, t) by {
        lemma_starts_wf(s, p);
        lemma_starts_wf(s, k);
        if k > p {
            lemma_starts_increase(s, p, k);
            lemma_not_lt(start_of(s, k), start_of(s, p));
            crate::time::lemma_lt_le_trans(t, start_of(s, p), start_of(s, k));
        }
        lemma_not_lt(t, start_of(s, k));
    }
}

/// With positive durations, no position before `q` covers a time at or
/// after `q`'s start.
proof fn lemma_no_cover_upto(s: Seq<Clip>, t: Rational, q: int)
    requires
        sums_fit(s),
        positive(s),
        t.wf(),
        0 <= q <= s.len(),
        start_of(s, q).is_le(t),
    ensures
        forall|k: int| 0 <= k < q ==> !#[trigger] covers(s, k, t),
{
    assert forall|k: int| 0 <= k < q implies !#[trigger] covers(s, k, t) by {
        lemma_starts_wf(s, k + 1);
        lemma_starts_wf(s, q);
        if k + 1 < q {
            lemma_starts_increase(s, k + 1, q);
            lemma_not_lt(start_of(s, q), start_of(s, k + 1));
            crate::time::lemma_le_trans(start_of(s, k + 1), start_of(s, q), t);
        }
        lemma_not_lt(t, start_of(s, k + 1));
    }
}

/// Weighted descent on the cached sums: `acc` is the exact start of the
/// subtree's first position `base` in the whole sequence `s`.
fn hit_in(t: &Option<Box<Node>>, tq: Rational, acc: Rational, base: usize, s: Ghost<Seq<Clip>>) -> (r:
    Option<usize>)
    requires
        tree_wf(*t),
        avl_holds(s@),
        tq.wf(),
        base + seq_of(*t).len() <= s@.len(),
        seq_of(*t) == s@.subrange(base as int, base + seq_of(*t).len()),
        acc == start_of(s@, base as int),
    ensures
        r is Some ==> base <= r->0 < base + seq_of(*t).len(),
        positive(s@) ==> match r {
            Some(i) => covers(s@, i as int, tq),
            None => forall|k: int| base <= k < base + seq_of(*t).len() ==> !#[trigger] covers(s@, k, tq),
        },
    decreases *t,
{
    match t {
        None => None,
        Some(node) => {
            let ghost sq = s@;
            let ghost n = seq_of(*t).len();
            proof {
                lemma_holds_sums_fit(sq);
                assert(seq_of(*t) =~= seq_of(node.l) + seq![node.clip] + seq_of(node.r));
                lemma_holds_sub(sq, base as int, base + n);
                lemma_holds_sub(seq_of(*t), 0, seq_of(node.l).len() as int);
                assert(seq_of(*t).subrange(0, seq_of(node.l).len() as int) =~= seq_of(node.l));
            }
            let lc = count(&node.l) as usize;
            let sl = subtree_sum(&node.l);
            let p = base + lc;
            proof {
                lemma_start_represents(sq, base as int);
                lemma_start_represents(sq, p as int);
                lemma_total_concat(sq.take(base as int), seq_of(node.l));
                assert(sq.take(base as int) + seq_of(node.l) =~= sq.take(p as int));
                assert(sq.take(p as int) =~= sq.subrange(0, p as int));
                assert(frac_fits(total(sq.subrange(0, p as int))));
                lemma_add_represents(acc, total(sq.take(base as int)), sl, total(seq_of(node.l)));
            }
            let start = acc.add(sl);
            proof {
                lemma_represents_eq(start, start_of(sq, p as int), total(sq.take(p as int)));
                let st = seq_of(*t);
                assert(st[lc as int] == node.clip);
                assert(st[lc as int] == sq[p as int]);
                assert(st.subrange(0, lc as int) =~= seq_of(node.l));
                assert(st.subrange(0, lc as int) =~= sq.subrange(base as int, p as int));
                assert(st.subrange(lc as int + 1, n as int) =~= seq_of(node.r));
                assert(st.subrange(lc as int + 1, n as int) =~= sq.subrange(p + 1, (base + n) as int));
            }
            if tq.less_than(&start) {
                let r = hit_in(&node.l, tq, acc, base, s);
                proof {
                    if positive(sq) {
                        lemma_no_cover_from(sq, tq, p as int);
                    }
                }
                r
            } else {
                proof {
                    assert(sq[p as int].duration.wf());
                    assert(start_of(sq, p as int).add_fits(sq[p as int].duration));
                }
                let end = start.add(node.clip.duration);
                proof {
                    lemma_not_lt(tq, start);
                }
                if tq.less_than(&end) {
                    Some(p)
                } else {
                    proof {
                        lemma_not_lt(tq, end);
                        lemma_starts_wf(sq, p + 1);
                        if positive(sq) {
                            lemma_no_cover_upto(sq, tq, p + 1);
                        }
                    }
                    hit_in(&node.r, tq, end, p + 1, s)
                }
            }
        },
    }
}

/// Append every clip of the subtree with its position and exact start;
/// returns the start after the subtree.
fn walk_in(
    t: &Option<Box<Node>>,
    out: &mut Vec<(usize, Rational, Clip)>,
    acc: Rational,
    s: Ghost<Seq<Clip>>,
) -> (r: Rational)
    requires
        tree_wf(*t),
        avl_holds(s@),
        old(out)@.len() + seq_of(*t).len() <= s@.len(),
        seq_of(*t) == s@.subrange(old(out)@.len() as int, old(out)@.len() + seq_of(*t).len() as int),
        acc == start_of(s@, old(out)@.len() as int),
    ensures
        final(out)@.len() == old(out)@.len() + seq_of(*t).len(),
        final(out)@.subrange(0, old(out)@.len() as int) == old(out)@,
        forall|k: int|
            old(out)@.len() <= k < final(out)@.len() ==> #[trigger] final(out)@[k] == (
                k as usize,
                start_of(s@, k),
                s@[k],
            ),
        r == start_of(s@, final(out)@.len() as int),
    decreases *t,
{
    match t {
        None => acc,
        Some(node) => {
            let ghost sq = s@;
            let ghost base = out@.len();
            let ghost o0 = out@;
            let ghost n = seq_of(*t).len();
            proof {
                lemma_holds_sums_fit(sq);
                assert(seq_of(*t) =~= seq_of(node.l) + seq![node.clip] + seq_of(node.r));
                assert(seq_of(node.l) == sq.subrange(base as int, base + seq_of(node.l).len() as int));
            }
            let a1 = walk_in(&node.l, out, acc, s);
            let ghost o1 = out@;
            let p = out.len();
            let ghost st = seq_of(*t);
            let ghost lc = seq_of(node.l).len();
            proof {
                assert(p == base + lc);
                assert(st[lc as int] == node.clip);
                assert(st[lc as int] == sq[p as int]);
                assert(st.subrange(lc as int + 1, n as int) =~= seq_of(node.r));
                assert(st.subrange(lc as int + 1, n as int) =~= sq.subrange(p + 1, (base + n) as int));
                lemma_starts_wf(sq, p as int);
                assert(sq[p as int].duration.wf());
                assert(start_of(sq, p as int).add_fits(sq[p as int].duration));
            }
            out.push((p, a1, node.clip));
            let a2 = a1.add(node.clip.duration);
            let ghost o2 = out@;
            let r = walk_in(&node.r, out, a2, s);
            proof {
                assert(out@.subrange(0, o2.len() as int) == o2);
                assert forall|k: int| base <= k < out@.len() implies #[trigger] out@[k] == (
                    k as usize,
                    start_of(sq, k),
                    sq[k],
                ) by {
                    if k < o1.len() {
                        assert(out@[k] == out@.subrange(0, o2.len() as int)[k]);
                        assert(o2[k] == o1[k]);
                    } else if k == o1.len() {
                        assert(out@[k] == o2[k]);
                    }
                }
                assert(out@.subrange(0, base as int) =~= o0) by {
                    assert forall|k: int| 0 <= k < base implies out@[k] == o0[k] by {
                        assert(out@[k] == out@.subrange(0, o2.len() as int)[k]);
                        assert(o2[k] == o1[k]);
                        assert(o1[k] == o1.subrange(0, base as int)[k]);
                    }
                }
            }
            r
        },
    }
}

// ---------------------------------------------------------------------------
// The track
// ---------------------------------------------------------------------------

/// A track kept as an order-statistic AVL tree with exact subtree sums.
pub struct AvlTrack {
    root: Option<Box<Node>>,
    n: usize,
}

impl AvlTrack {
    pub fn new() -> (r: Self)
        ensures
            r.inv(),
            r.clips() == Seq::<Clip>::empty(),
    {
        proof {
            lemma_empty_holds();
        }
        AvlTrack { root: None, n: 0 }
    }

    /// A track holding the clips in order (inserted one by one).
    pub fn from_clips(clips: Vec<Clip>) -> (r: Self)
        requires
            avl_holds(clips@),
        ensures
            r.inv(),
            r.clips() == clips@,
    {
        let mut t = AvlTrack::new();
        let mut i: usize = 0;
        while i < clips.len()
            invariant
                avl_holds(clips@),
                t.inv(),
                i <= clips@.len(),
                t.clips() == clips@.take(i as int),
            decreases clips@.len() - i,
        {
            proof {
                assert(clips@.take(i as int).insert(i as int, clips@[i as int]) =~= clips@.subrange(0, i + 1));
                lemma_holds_sub(clips@, 0, i + 1);
            }
            let root = t.root.take();
            t.root = Some(insert_node(root, i, clips[i]));
            t.n = t.n + 1;
            proof {
                assert(clips@.subrange(0, i + 1) =~= clips@.take(i + 1));
            }
            i += 1;
        }
        proof {
            assert(clips@.take(clips@.len() as int) =~= clips@);
        }
        t
    }
}

impl Default for AvlTrack {
    fn default() -> (r: Self)
        ensures
            r.clips() == Seq::<Clip>::empty(),
    {
        AvlTrack::new()
    }
}

impl TrackOps for AvlTrack {
    closed spec fn clips(&self) -> Seq<Clip> {
        seq_of(self.root)
    }

    closed spec fn inv(&self) -> bool {
        &&& tree_wf(self.root)
        &&& self.n == seq_of(self.root).len()
        &&& avl_holds(seq_of(self.root))
    }

    open spec fn holds(&self, s: Seq<Clip>) -> bool {
        avl_holds(s)
    }

    fn len(&self) -> (r: usize) {
        self.n
    }

    fn clip_at(&self, pos: usize) -> (r: Option<&Clip>) {
        if pos >= self.n {
            None
        } else {
            Some(get_in(&self.root, pos))
        }
    }

    /// An in-order scan for the first position holding the id.
    fn index_of(&self, id: ClipId) -> (r: Option<usize>) {
        index_in(&self.root, id, 0)
    }

    /// Weighted descent: O(log n) exact comparisons and additions on the
    /// cached sums.
    fn hit_test(&self, t: Rational) -> (r: Option<usize>) {
        let ghost s = seq_of(self.root);
        let acc = Rational::zero(TICK_DEN);
        proof {
            lemma_tick_zero();
            acc.lemma_same_value_eq(tick_zero());
            assert(s.subrange(0, s.len() as int) =~= s);
        }
        let r = hit_in(&self.root, t, acc, 0, Ghost(s));
        proof {
            if positive(s) {
                lemma_holds_sums_fit(s);
                lemma_hit_is_cover(s, t);
            }
        }
        r
    }

    fn hit_test_mut(&mut self, t: Rational) -> (r: Option<usize>) {
        self.hit_test(t)
    }

    fn insert_at(&mut self, pos: usize, clip: Clip) -> (r: Result<(), TimelineError>) {
        if pos > self.n {
            return Err(TimelineError::IndexOutOfBounds { index: pos, len: self.n });
        }
        let root = self.root.take();
        self.root = Some(insert_node(root, pos, clip));
        self.n = self.n + 1;
        Ok(())
    }

    fn remove_at(&mut self, pos: usize) -> (r: Result<Clip, TimelineError>) {
        if pos >= self.n {
            return Err(TimelineError::IndexOutOfBounds { index: pos, len: self.n });
        }
        let root = self.root.take();
        let (root, c) = remove_node(root, pos);
        self.root = root;
        self.n = self.n - 1;
        Ok(c)
    }

    /// A duration change alters sums, not positions.
    fn set_duration_at(&mut self, pos: usize, d: Rational) -> (r: Result<Rational, TimelineError>) {
        if pos >= self.n {
            return Err(TimelineError::IndexOutOfBounds { index: pos, len: self.n });
        }
        let root = self.root.take();
        let (root, old) = set_dur_node(root, pos, d);
        self.root = root;
        Ok(old)
    }

    fn walk(&self) -> (r: Vec<(usize, Rational, Clip)>) {
        let ghost s = seq_of(self.root);
        let mut out: Vec<(usize, Rational, Clip)> = Vec::new();
        let acc = Rational::zero(TICK_DEN);
        proof {
            lemma_tick_zero();
            acc.lemma_same_value_eq(tick_zero());
            assert(s.subrange(0, s.len() as int) =~= s);
        }
        let _ = walk_in(&self.root, &mut out, acc, Ghost(s));
        out
    }
}

} // verus!
