//! The probe data model (container, streams, color, keyframe index, VFR
//! analysis). Probe backends implement `ProbeBackend` outside this crate;
//! the metadata cache (files on disk) lives with the application.
use crate::media::asset::{AssetRef, StreamId, StreamKind};
use crate::media::frame::{BitDepth, ColorTags, PixelFormat};
use crate::time::Rational;
use vstd::prelude::*;

verus! {

#[derive(Clone, Copy, Debug, PartialEq, Eq, Structural)]
pub enum ContainerKind {
    Mp4,
    Mov,
    Mkv,
    WebM,
    Avi,
    Other,
}

/// Full static description of a media file, built once at import.
#[derive(Clone, Debug, PartialEq)]
pub struct ProbeInfo {
    pub container: ContainerKind,
    /// Container-level duration (exact if the container carries it exactly).
    pub duration: Option<Rational>,
    pub streams: Vec<ProbeStream>,
    /// Decoding-entry-point index of the first video stream, if built.
    pub keyframe_index: Option<KeyframeIndex>,
    /// Variable-frame-rate analysis of the first video stream, if built.
    pub vfr: Option<VfrReport>,
}

#[derive(Clone, Debug, PartialEq)]
pub struct ProbeStream {
    pub id: StreamId,
    pub kind: StreamKind,
    /// Codec name as reported by the probe backend.
    pub codec: String,
    /// Container time base of the stream's timestamps (exact).
    pub time_base: Rational,
    pub start_time: Option<Rational>,
    pub duration: Option<Rational>,
    /// Average rate hint, informational only: scheduling never assumes a
    /// constant frame rate.
    pub avg_frame_rate: Option<Rational>,
    pub nb_frames_hint: Option<u64>,
    pub video: Option<VideoDetails>,
    pub audio: Option<AudioDetails>,
}

#[derive(Clone, Debug, PartialEq)]
pub struct VideoDetails {
    pub width: u32,
    pub height: u32,
    pub pixel_format: PixelFormat,
    pub bit_depth: BitDepth,
    /// All five color tags, unknown-as-value.
    pub color: ColorTags,
}

#[derive(Clone, Debug, PartialEq)]
pub struct AudioDetails {
    pub sample_rate: u32,
    pub channels: u32,
    pub sample_format: String,
}

/// One decoding entry point (keyframe) of a video stream.
#[derive(Clone, Copy, Debug, PartialEq, Eq, Structural)]
pub struct KeyframeEntry {
    /// Exact container pts of the keyframe.
    pub pts: Rational,
    /// Demuxer byte offset, if the backend has it.
    pub byte_pos: Option<u64>,
}

#[derive(Clone, Debug, PartialEq, Eq)]
pub struct KeyframeIndex {
    /// Sorted ascending by pts.
    pub entries: Vec<KeyframeEntry>,
}

/// Entries are well formed and sorted ascending by pts.
pub open spec fn sorted_entries(e: Seq<KeyframeEntry>) -> bool {
    &&& forall|i: int| 0 <= i < e.len() ==> (#[trigger] e[i]).pts.wf()
    &&& forall|i: int, j: int| 0 <= i < j < e.len() ==> #[trigger] e[i].pts.is_le(#[trigger] e[j].pts)
}

impl KeyframeIndex {
    /// The last keyframe with pts <= t (the seek landing point), or None if
    /// t is before the first keyframe. A binary search: on a sorted index
    /// this is exact; on any index a returned entry has pts <= t.
    pub fn floor(&self, t: Rational) -> (r: Option<&KeyframeEntry>)
        requires
            forall|i: int| 0 <= i < self.entries@.len() ==> (#[trigger] self.entries@[i]).pts.wf(),
            t.wf(),
        ensures
            r is Some ==> exists|i: int|
                0 <= i < self.entries@.len() && *r->0 == self.entries@[i]
                    && self.entries@[i].pts.is_le(t),
            sorted_entries(self.entries@) ==> match r {
                Some(e) => exists|i: int|
                    0 <= i < self.entries@.len() && *e == self.entries@[i]
                        && self.entries@[i].pts.is_le(t) && forall|j: int|
                        i < j < self.entries@.len() ==> !(#[trigger] self.entries@[j]).pts.is_le(t),
                None => forall|j: int|
                    0 <= j < self.entries@.len() ==> !(#[trigger] self.entries@[j]).pts.is_le(t),
            },
    {
        let e = &self.entries;
        // partition point of `pts <= t`: lo..hi brackets it
        let mut lo: usize = 0;
        let mut hi: usize = e.len();
        while lo < hi
            invariant
                forall|i: int| 0 <= i < e@.len() ==> (#[trigger] e@[i]).pts.wf(),
                t.wf(),
                0 <= lo <= hi <= e@.len(),
                lo > 0 ==> e@[lo - 1].pts.is_le(t),
                sorted_entries(e@) ==> forall|j: int| 0 <= j < lo ==> (#[trigger] e@[j]).pts.is_le(t),
                sorted_entries(e@) ==> forall|j: int| hi <= j < e@.len() ==> !(#[trigger] e@[j]).pts.is_le(t),
            decreases hi - lo,
        {
            let mid = lo + (hi - lo) / 2;
            if e[mid].pts.less_eq(&t) {
                proof {
                    if sorted_entries(e@) {
                        assert forall|j: int| 0 <= j < mid + 1 implies (#[trigger] e@[j]).pts.is_le(t) by {
                            if j < mid {
                                crate::time::lemma_le_trans(e@[j].pts, e@[mid as int].pts, t);
                            }
                        }
                    }
                }
                lo = mid + 1;
            } else {
                proof {
                    if sorted_entries(e@) {
                        assert forall|j: int| mid <= j < e@.len() implies !(#[trigger] e@[j]).pts.is_le(t) by {
                            if j > mid && e@[j].pts.is_le(t) {
                                crate::time::lemma_le_trans(e@[mid as int].pts, e@[j].pts, t);
                            }
                        }
                    }
                }
                hi = mid;
            }
        }
        if lo == 0 {
            None
        } else {
            Some(&e[lo - 1])
        }
    }

    pub fn len(&self) -> (r: usize)
        ensures
            r == self.entries@.len(),
    {
        self.entries.len()
    }

    pub fn is_empty(&self) -> (r: bool)
        ensures
            r == (self.entries@.len() == 0),
    {
        self.entries.len() == 0
    }
}

/// Variable-frame-rate detection result for a video stream.
#[derive(Clone, Debug, PartialEq)]
pub struct VfrReport {
    /// True if more than one distinct inter-frame delta was observed.
    pub is_vfr: bool,
    /// The observed distinct deltas (at most 16), empty for a constant rate.
    pub distinct_deltas: Vec<Rational>,
    pub frame_count: u64,
}

/// The inter-frame deltas of a pts list.
pub open spec fn deltas(pts: Seq<Rational>) -> Seq<Rational> {
    Seq::new(
        if pts.len() > 0 {
            (pts.len() - 1) as nat
        } else {
            0
        },
        |i: int| pts[i + 1].sub_spec(pts[i]),
    )
}

/// The first distinct values of a sequence, in order of appearance, at most
/// 16 of them.
pub open spec fn distinct_capped(ds: Seq<Rational>) -> Seq<Rational>
    decreases ds.len(),
{
    if ds.len() == 0 {
        Seq::empty()
    } else {
        let a = distinct_capped(ds.drop_last());
        let d = ds.last();
        if a.len() < 16 && !a.contains(d) {
            a.push(d)
        } else {
            a
        }
    }
}

/// What the distinct deltas are, whatever the order they come in: no value
/// is listed twice, at most 16 are listed, each listed value is one of the
/// deltas, every delta is listed while fewer than 16 are, and more than one
/// value is listed exactly when two of the deltas differ.
pub proof fn lemma_distinct_capped(ds: Seq<Rational>)
    ensures
        distinct_capped(ds).no_duplicates(),
        distinct_capped(ds).len() <= 16,
        forall|k: int|
            0 <= k < distinct_capped(ds).len() ==> ds.contains(#[trigger] distinct_capped(ds)[k]),
        distinct_capped(ds).len() < 16 ==> forall|i: int|
            0 <= i < ds.len() ==> distinct_capped(ds).contains(#[trigger] ds[i]),
        distinct_capped(ds).len() > 1 <==> exists|i: int, j: int|
            0 <= i < ds.len() && 0 <= j < ds.len() && #[trigger] ds[i] != #[trigger] ds[j],
    decreases ds.len(),
{
    let r = distinct_capped(ds);
    if ds.len() > 0 {
        let p = ds.drop_last();
        let a = distinct_capped(p);
        let d = ds.last();
        lemma_distinct_capped(p);
        assert forall|k: int| 0 <= k < r.len() implies ds.contains(#[trigger] r[k]) by {
            if k < a.len() {
                let i = choose|i: int| 0 <= i < p.len() && p[i] == a[k];
                assert(ds[i] == r[k]);
            } else {
                assert(ds[ds.len() - 1] == r[k]);
            }
        }
        if r.len() < 16 {
            assert forall|i: int| 0 <= i < ds.len() implies r.contains(#[trigger] ds[i]) by {
                if i < p.len() {
                    assert(p[i] == ds[i]);
                    assert(a.contains(p[i]));
                    let k = choose|k: int| 0 <= k < a.len() && a[k] == p[i];
                    assert(r[k] == a[k]);
                } else {
                    if a.contains(d) {
                        let k = choose|k: int| 0 <= k < a.len() && a[k] == d;
                        assert(r[k] == a[k]);
                    } else {
                        assert(r[a.len() as int] == d);
                    }
                }
            }
        }
        if r.len() > 1 {
            assert(r[0] != r[1]);
            assert(ds.contains(r[0]));
            assert(ds.contains(r[1]));
            let i = choose|i: int| 0 <= i < ds.len() && ds[i] == r[0];
            let j = choose|j: int| 0 <= j < ds.len() && ds[j] == r[1];
            assert(ds[i] != ds[j]);
        } else {
            assert forall|i: int, j: int|
                0 <= i < ds.len() && 0 <= j < ds.len() implies #[trigger] ds[i] == #[trigger] ds[j] by {
                assert(r.contains(ds[i]));
                assert(r.contains(ds[j]));
            }
        }
    } else {
        assert(r =~= Seq::<Rational>::empty());
    }
}

/// The pts list is well formed and its consecutive differences fit.
pub open spec fn pts_ok(pts: Seq<Rational>) -> bool {
    &&& forall|i: int| 0 <= i < pts.len() ==> (#[trigger] pts[i]).wf()
    &&& forall|i: int| 0 < i < pts.len() ==> (#[trigger] pts[i]).sub_fits(pts[i - 1])
}

impl VfrReport {
    /// Compute from the exact pts list of a stream. Nothing assumes a
    /// constant frame rate.
    pub fn from_pts(pts: &[Rational]) -> (r: Self)
        requires
            pts_ok(pts@),
        ensures
            r.is_vfr == (distinct_capped(deltas(pts@)).len() > 1),
            r.distinct_deltas@ == if r.is_vfr {
                distinct_capped(deltas(pts@))
            } else {
                Seq::<Rational>::empty()
            },
            r.frame_count == pts@.len(),
            r.distinct_deltas@.no_duplicates(),
            r.distinct_deltas@.len() <= 16,
            forall|k: int|
                0 <= k < r.distinct_deltas@.len() ==> deltas(pts@).contains(
                    #[trigger] r.distinct_deltas@[k],
                ),
            r.is_vfr && r.distinct_deltas@.len() < 16 ==> forall|i: int|
                0 <= i < deltas(pts@).len() ==> r.distinct_deltas@.contains(
                    #[trigger] deltas(pts@)[i],
                ),
            r.is_vfr <==> exists|i: int, j: int|
                0 <= i < deltas(pts@).len() && 0 <= j < deltas(pts@).len() && #[trigger] deltas(
                    pts@,
                )[i] != #[trigger] deltas(pts@)[j],
    {
        let ghost ds = deltas(pts@);
        proof {
            lemma_distinct_capped(ds);
        }
        let mut distinct: Vec<Rational> = Vec::new();
        let mut i: usize = 1;
        while i < pts.len()
            invariant
                pts_ok(pts@),
                1 <= i,
                i <= pts@.len() || i == 1,
                ds == deltas(pts@),
                distinct@ == distinct_capped(ds.take(i as int - 1)),
            decreases pts@.len() - i,
        {
            let d = pts[i].sub(pts[i - 1]);
            proof {
                assert(ds.take(i as int).drop_last() =~= ds.take(i as int - 1));
                assert(ds.take(i as int).last() == d);
            }
            if distinct.len() < 16 && !contains_value(&distinct, &d) {
                distinct.push(d);
            }
            i += 1;
        }
        proof {
            if pts@.len() > 0 {
                assert(i == pts@.len());
                assert(ds.len() == pts@.len() - 1);
                assert(ds.take(pts@.len() as int - 1) =~= ds);
                assert(distinct@ == distinct_capped(ds.take(i as int - 1)));
            } else {
                assert(ds =~= Seq::<Rational>::empty());
                assert(ds.take(0) =~= ds);
            }
            assert(distinct@ == distinct_capped(ds));
        }
        let is_vfr = distinct.len() > 1;
        let distinct_deltas = if is_vfr {
            distinct
        } else {
            Vec::new()
        };
        VfrReport { is_vfr, distinct_deltas, frame_count: pts.len() as u64 }
    }
}

/// Whether a value occurs in a vector.
fn contains_value(v: &Vec<Rational>, d: &Rational) -> (r: bool)
    ensures
        r == v@.contains(*d),
{
    let mut i: usize = 0;
    while i < v.len()
        invariant
            i <= v@.len(),
            forall|j: int| 0 <= j < i ==> v@[j] != *d,
        decreases v@.len() - i,
    {
        if v[i].equals(d) {
            proof {
                assert(v@[i as int] == *d);
            }
            return true;
        }
        i += 1;
    }
    false
}

#[derive(Clone, Debug, PartialEq, Eq)]
pub enum ProbeError {
    Unreadable,
    Corrupt(String),
    Unsupported(String),
    Io(String),
}

/// The display text of a probe error.
pub open spec fn probe_err_text(e: ProbeError) -> Seq<char> {
    match e {
        ProbeError::Unreadable => "unreadable media file"@,
        ProbeError::Corrupt(d) => "corrupt media: "@ + d@,
        ProbeError::Unsupported(d) => "unsupported: "@ + d@,
        ProbeError::Io(d) => "io error: "@ + d@,
    }
}

impl ProbeError {
    /// The display text.
    pub fn message(&self) -> (r: String)
        ensures
            r@ == probe_err_text(*self),
    {
        let mut s = String::new();
        match self {
            ProbeError::Unreadable => {
                s.append("unreadable media file");
            },
            ProbeError::Corrupt(d) => {
                s.append("corrupt media: ");
                s.append(d.as_str());
            },
            ProbeError::Unsupported(d) => {
                s.append("unsupported: ");
                s.append(d.as_str());
            },
            ProbeError::Io(d) => {
                s.append("io error: ");
                s.append(d.as_str());
            },
        }
        assert(s@ =~= probe_err_text(*self));
        s
    }
}

/// Static probe and keyframe-index builder, implemented per media backend.
pub trait ProbeBackend {
    fn probe(&self, asset: &AssetRef) -> Result<ProbeInfo, ProbeError>;

    /// Build the decoding-entry-point index (a packet scan: boundaries are
    /// decided from a real index, never guessed).
    fn keyframe_index(&self, asset: &AssetRef) -> Result<KeyframeIndex, ProbeError>;
}

} // verus!
