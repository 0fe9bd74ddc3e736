//! Clip model: explicit identities and exact times.
use crate::time::Rational;
use vstd::prelude::*;

verus! {

/// Explicit clip identity, assigned by the engine from a folded counter or
/// given explicitly; never positional.
#[derive(Clone, Copy, PartialEq, Eq, PartialOrd, Ord, Hash, Debug, Structural)]
pub struct ClipId(pub u64);

/// Explicit track identity (index into the track table, fixed at construction).
#[derive(Clone, Copy, PartialEq, Eq, PartialOrd, Ord, Hash, Debug, Structural)]
pub struct TrackId(pub u32);

/// Explicit asset identity (opaque here).
#[derive(Clone, Copy, PartialEq, Eq, PartialOrd, Ord, Hash, Debug, Structural)]
pub struct AssetId(pub u64);

#[derive(Clone, Copy, PartialEq, Eq, Debug, Structural)]
pub enum TrackKind {
    Video,
    Audio,
}

impl TrackKind {
    /// Display name of the track kind.
    pub fn name(&self) -> (r: &'static str)
        ensures
            r@ == (match *self {
                TrackKind::Video => "video"@,
                TrackKind::Audio => "audio"@,
            }),
    {
        match self {
            TrackKind::Video => "video",
            TrackKind::Audio => "audio",
        }
    }
}

/// The abstract value of a clip: its fields, with the label as characters.
pub struct ClipV {
    pub id: u64,
    pub track: u32,
    pub asset: u64,
    pub start: Rational,
    pub dur: Rational,
    pub src_in: Rational,
    pub speed: Rational,
    pub label: Seq<char>,
}

impl ClipV {
    /// End on the timeline: `start + dur`.
    pub open spec fn end(self) -> Rational {
        self.start.add_spec(self.dur)
    }

    /// All exact fields are well formed, duration and speed are positive, and
    /// the end is representable.
    pub open spec fn valid(self) -> bool {
        &&& self.start.wf()
        &&& self.dur.wf()
        &&& self.src_in.wf()
        &&& self.speed.wf()
        &&& self.dur.n() > 0
        &&& self.speed.n() > 0
        &&& self.start.add_fits(self.dur)
    }
}

/// One clip on the timeline. The clip consumes source range
/// `[src_in, src_in + dur * speed)` and places it at `[start, start + dur)`.
#[derive(Debug)]
pub struct ClipEntry {
    pub id: ClipId,
    pub track: TrackId,
    pub asset: AssetId,
    pub start: Rational,
    pub dur: Rational,
    pub src_in: Rational,
    pub speed: Rational,
    pub label: String,
}

impl View for ClipEntry {
    type V = ClipV;

    open spec fn view(&self) -> ClipV {
        ClipV {
            id: self.id.0,
            track: self.track.0,
            asset: self.asset.0,
            start: self.start,
            dur: self.dur,
            src_in: self.src_in,
            speed: self.speed,
            label: self.label@,
        }
    }
}

impl Clone for ClipEntry {
    fn clone(&self) -> (r: Self)
        ensures
            r == *self,
    {
        ClipEntry {
            id: self.id,
            track: self.track,
            asset: self.asset,
            start: self.start,
            dur: self.dur,
            src_in: self.src_in,
            speed: self.speed,
            label: self.label.clone(),
        }
    }
}

impl ClipEntry {
    /// Exact source-range duration consumed by this clip (`dur * speed`).
    pub fn src_dur(&self) -> (r: Rational)
        requires
            self.dur.wf(),
            self.speed.wf(),
            self.dur.mul_fits(self.speed),
        ensures
            r.wf(),
            r == self.dur.mul_spec(self.speed),
    {
        self.dur.mul(self.speed)
    }

    /// Exact source position for a timeline offset within the clip
    /// (`src_in + offset * speed`).
    pub fn src_at(&self, offset: Rational) -> (r: Rational)
        requires
            self.src_in.wf(),
            self.speed.wf(),
            offset.wf(),
            offset.mul_fits(self.speed),
            self.src_in.add_fits(offset.mul_spec(self.speed)),
        ensures
            r.wf(),
            r == self.src_in.add_spec(offset.mul_spec(self.speed)),
    {
        proof {
            offset.lemma_mul_value(self.speed);
        }
        self.src_in.add(offset.mul(self.speed))
    }

    /// End time on the timeline (`start + dur`).
    pub fn end(&self) -> (r: Rational)
        requires
            self.start.wf(),
            self.dur.wf(),
            self.start.add_fits(self.dur),
        ensures
            r.wf(),
            r == self@.end(),
    {
        self.start.add(self.dur)
    }
}

} // verus!
