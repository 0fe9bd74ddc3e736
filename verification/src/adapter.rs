//! The software decoder adapter over libav*: every decision it takes, on the
//! plain values its calls read. The calls themselves (open the container,
//! read packets, decode frames, copy planes) stay with the caller, which
//! hands the results in here and performs the steps returned.
use crate::decode::{
    av_rational_to_rational, chroma_of, map_color, matrix_of, primaries_of, range_of, tb_value,
    ticks_ok, ticks_to_rational, ticks_value, transfer_of, DecodeConfig, DecodeError, DecoderCaps,
    HwAccel, SeekMode,
};
use crate::media::asset::{StreamId, StreamKind};
use crate::media::frame::{
    frame_err_text, BackendId, BitDepth, ColorTags, FrameEnvelope, FrameError, FrameMemory,
    PayloadV, PixelFormat, PixelFormatV,
};
use crate::media::pool::{gen_of, put_one, round64, total, FramePool, PoolKey, PoolStats, PoolV, PooledBuffer};
use crate::media::probe::{
    pts_ok, sorted_entries, AudioDetails, ContainerKind, KeyframeEntry, KeyframeIndex, ProbeError,
    ProbeInfo, ProbeStream, VfrReport, VideoDetails,
};
use crate::text::{decimal_of, push_decimal};
use crate::time::{rational_text, Rational};
use vstd::prelude::*;
use vstd::string::StringSliceAdditionalSpecFns;

verus! {

/// libc `EAGAIN` on Linux.
pub const EAGAIN: i32 = 11;

/// libav's `AVERROR_EOF`: the negated tag `'E' 'O' 'F' ' '`.
pub const AVERROR_EOF: i32 = -541478725;

// ---------------------------------------------------------------------------
// Exact tick conversion
// ---------------------------------------------------------------------------

/// `floor(pts * tb_den / tb_num)`: the tick at or before `pts` in the time
/// base `tb_num/tb_den` (a negative denominator flips both signs).
pub open spec fn ticks_floor(pts: Rational, tb_num: int, tb_den: int) -> int {
    let tn = if tb_den > 0 { tb_num } else { -tb_num };
    let td = if tb_den > 0 { tb_den } else { -tb_den };
    let n = pts.n() * td;
    let d = pts.d() * tn;
    if d > 0 {
        n / d
    } else {
        (-n) / (-d)
    }
}

/// `(-m) / b == -ceil(m / b)` for positive `m` and `b`.
proof fn lemma_neg_div(m: int, b: int)
    requires
        m > 0,
        b > 0,
    ensures
        (-m) / b == -((m + b - 1) / b),
{
    let q = (m + b - 1) / b;
    let r = (m + b - 1) % b;
    vstd::arithmetic::div_mod::lemma_fundamental_div_mod(m + b - 1, b);
    assert(0 <= r < b) by {
        vstd::arithmetic::div_mod::lemma_mod_pos_bound(m + b - 1, b);
    }
    assert(-m == (-q) * b + (b - 1 - r)) by (nonlinear_arith)
        requires
            m + b - 1 == b * q + r,
    ;
    vstd::arithmetic::div_mod::lemma_fundamental_div_mod_converse(-m, b, -q, b - 1 - r);
}

/// The tick at or before `pts` in the time base `tb_num/tb_den`, as an
/// `i128` (it always fits there).
fn ticks_floor_wide(pts: Rational, tb_num: i32, tb_den: i32) -> (r: i128)
    requires
        pts.d() > 0,
        tb_num != 0,
    ensures
        r == ticks_floor(pts, tb_num as int, tb_den as int),
{
    let (tn, td): (i128, i128) = if tb_den > 0 {
        (tb_num as i128, tb_den as i128)
    } else {
        (-(tb_num as i128), -(tb_den as i128))
    };
    let pn = pts.num();
    let pd = pts.den();
    proof {
        assert(-0x1_0000_0000_0000_0000_0000_0000 < (pn as int) * (td as int)
            < 0x1_0000_0000_0000_0000_0000_0000) by (nonlinear_arith)
            requires
                -0x8000_0000_0000_0000 <= pn < 0x8000_0000_0000_0000,
                -0x1_0000_0000 <= td <= 0x1_0000_0000,
        ;
        assert(-0x1_0000_0000_0000_0000_0000_0000 < (pd as int) * (tn as int)
            < 0x1_0000_0000_0000_0000_0000_0000) by (nonlinear_arith)
            requires
                0 < pd < 0x8000_0000_0000_0000,
                -0x1_0000_0000 <= tn <= 0x1_0000_0000,
        ;
        assert((pd as int) * (tn as int) != 0) by (nonlinear_arith)
            requires
                pd > 0,
                tn != 0,
        ;
    }
    let n: i128 = pn as i128 * td;
    let d: i128 = pd as i128 * tn;
    let (a, b): (i128, i128) = if d > 0 {
        (n, d)
    } else {
        (-n, -d)
    };
    let q: i128 = if a >= 0 {
        a / b
    } else {
        proof {
            lemma_neg_div(-a, b as int);
        }
        -((-a + b - 1) / b)
    };
    q
}

/// The tick at or before `pts` in the time base `tb_num/tb_den`, computed
/// exactly through `i128`.
pub fn rational_to_ticks_floor(pts: Rational, tb_num: i32, tb_den: i32) -> (r: i64)
    requires
        pts.wf(),
        tb_num != 0,
        i64::MIN <= ticks_floor(pts, tb_num as int, tb_den as int) <= i64::MAX,
    ensures
        r == ticks_floor(pts, tb_num as int, tb_den as int),
{
    ticks_floor_wide(pts, tb_num, tb_den) as i64
}

/// Whether the tick at or before `pts` fits `i64` (a conversion that does
/// not is a failure of the caller).
pub fn ticks_fit_checked(pts: Rational, tb_num: i32, tb_den: i32) -> (r: bool)
    requires
        pts.wf(),
        tb_num != 0,
    ensures
        r == ticks_fit(pts, tb_num, tb_den),
{
    let q = ticks_floor_wide(pts, tb_num, tb_den);
    i64::MIN as i128 <= q && q <= i64::MAX as i128
}

// ---------------------------------------------------------------------------
// Name mappings
// ---------------------------------------------------------------------------

/// The name of a libav sample format id (`AVSampleFormat`, whose ids are
/// small and stable); other ids read `sample_fmt#<id>`.
pub open spec fn sample_format_text(fmt: i32) -> Seq<char> {
    if fmt == 0 {
        "u8"@
    } else if fmt == 1 {
        "s16"@
    } else if fmt == 2 {
        "s32"@
    } else if fmt == 3 {
        "flt"@
    } else if fmt == 4 {
        "dbl"@
    } else if fmt == 5 {
        "u8p"@
    } else if fmt == 6 {
        "s16p"@
    } else if fmt == 7 {
        "s32p"@
    } else if fmt == 8 {
        "fltp"@
    } else if fmt == 9 {
        "dblp"@
    } else {
        "sample_fmt#"@ + decimal_of(fmt as int)
    }
}

pub fn sample_format_name(fmt: i32) -> (r: String)
    ensures
        r@ == sample_format_text(fmt),
{
    let name = match fmt {
        0 => "u8",
        1 => "s16",
        2 => "s32",
        3 => "flt",
        4 => "dbl",
        5 => "u8p",
        6 => "s16p",
        7 => "s32p",
        8 => "fltp",
        9 => "dblp",
        _ => {
            let mut s = String::from_str("sample_fmt#");
            push_decimal(&mut s, fmt as i64);
            return s;
        },
    };
    String::from_str(name)
}

/// `n` occurs in `h` at offset `i`.
pub open spec fn occurs_at(h: Seq<u8>, n: Seq<u8>, i: int) -> bool {
    h.subrange(i, i + n.len()) == n
}

/// `n` occurs somewhere in `h`.
pub open spec fn has_sub(h: Seq<u8>, n: Seq<u8>) -> bool {
    exists|i: int| 0 <= i && i + n.len() <= h.len() && #[trigger] occurs_at(h, n, i)
}

/// Whether `n` occurs in `h` at offset `i`.
fn matches_at(h: &[u8], n: &[u8], i: usize) -> (r: bool)
    requires
        i + n@.len() <= h@.len(),
    ensures
        r == occurs_at(h@, n@, i as int),
{
    let hl = h.len();
    let mut j: usize = 0;
    while j < n.len()
        invariant
            hl == h@.len(),
            i + n@.len() <= h@.len(),
            j <= n@.len(),
            forall|k: int| 0 <= k < j ==> h@[i + k] == n@[k],
        decreases n@.len() - j,
    {
        if h[i + j] != n[j] {
            proof {
                assert(h@.subrange(i as int, i + n@.len())[j as int] != n@[j as int]);
            }
            return false;
        }
        j += 1;
    }
    assert(h@.subrange(i as int, i + n@.len()) =~= n@);
    true
}

/// Whether `n` occurs as a contiguous run in `h`.
pub fn contains_bytes(h: &[u8], n: &[u8]) -> (r: bool)
    ensures
        r == has_sub(h@, n@),
{
    if n.len() > h.len() {
        return false;
    }
    let last = h.len() - n.len();
    let mut i: usize = 0;
    while i <= last
        invariant
            last == h@.len() - n@.len(),
            n@.len() <= h@.len(),
            forall|k: int| 0 <= k < i ==> !#[trigger] occurs_at(h@, n@, k),
        decreases last + 1 - i,
    {
        if matches_at(h, n, i) {
            return true;
        }
        if i == last {
            proof {
                if has_sub(h@, n@) {
                    let w = choose|w: int| 0 <= w && w + n@.len() <= h@.len() && #[trigger] occurs_at(h@, n@, w);
                    assert(w <= i);
                }
            }
            return false;
        }
        i += 1;
    }
    proof {
        if has_sub(h@, n@) {
            let w = choose|w: int| 0 <= w && w + n@.len() <= h@.len() && #[trigger] occurs_at(h@, n@, w);
            assert(w < i);
        }
    }
    false
}

/// The container kind of a libav input format name (none when the format
/// has no name).
pub open spec fn container_of(name: Option<Seq<u8>>) -> ContainerKind {
    match name {
        None => ContainerKind::Other,
        Some(b) => if has_sub(b, "mp4".spec_bytes()) || has_sub(b, "3gp".spec_bytes()) {
            ContainerKind::Mp4
        } else if has_sub(b, "mov".spec_bytes()) {
            ContainerKind::Mov
        } else if has_sub(b, "webm".spec_bytes()) {
            ContainerKind::WebM
        } else if has_sub(b, "matroska".spec_bytes()) {
            ContainerKind::Mkv
        } else if b == "avi".spec_bytes() {
            ContainerKind::Avi
        } else {
            ContainerKind::Other
        },
    }
}

pub fn container_kind(name: Option<&str>) -> (r: ContainerKind)
    ensures
        r == container_of(
            match name {
                None => None,
                Some(s) => Some(s.spec_bytes()),
            },
        ),
{
    match name {
        None => ContainerKind::Other,
        Some(s) => {
            let b = s.as_bytes();
            if contains_bytes(b, "mp4".as_bytes()) || contains_bytes(b, "3gp".as_bytes()) {
                ContainerKind::Mp4
            } else if contains_bytes(b, "mov".as_bytes()) {
                ContainerKind::Mov
            } else if contains_bytes(b, "webm".as_bytes()) {
                ContainerKind::WebM
            } else if contains_bytes(b, "matroska".as_bytes()) {
                ContainerKind::Mkv
            } else if bytes_equal(b, "avi".as_bytes()) {
                ContainerKind::Avi
            } else {
                ContainerKind::Other
            }
        },
    }
}

/// Whether two byte runs are equal.
fn bytes_equal(a: &[u8], b: &[u8]) -> (r: bool)
    ensures
        r == (a@ == b@),
{
    if a.len() != b.len() {
        return false;
    }
    let r = matches_at(a, b, 0);
    proof {
        assert(a@.subrange(0, b@.len() as int) =~= a@);
    }
    r
}

// ---------------------------------------------------------------------------
// Stream facts
// ---------------------------------------------------------------------------

/// Bit depth and plane count of the pixel formats the adapter maps; the
/// others are a typed failure.
pub open spec fn layout_of(f: PixelFormatV) -> Option<(BitDepth, usize)> {
    match f {
        PixelFormatV::Yuv420p => Some((BitDepth::B8, 3usize)),
        PixelFormatV::Yuvj420p => Some((BitDepth::B8, 3usize)),
        PixelFormatV::Yuv422p => Some((BitDepth::B8, 3usize)),
        PixelFormatV::Yuv444p => Some((BitDepth::B8, 3usize)),
        PixelFormatV::Yuv420p10le => Some((BitDepth::B10, 3usize)),
        PixelFormatV::Yuv422p10le => Some((BitDepth::B10, 3usize)),
        PixelFormatV::Yuv444p10le => Some((BitDepth::B10, 3usize)),
        PixelFormatV::Nv12 => Some((BitDepth::B8, 2usize)),
        PixelFormatV::Nv21 => Some((BitDepth::B8, 2usize)),
        PixelFormatV::P010le => Some((BitDepth::B10, 2usize)),
        PixelFormatV::Rgba => Some((BitDepth::B8, 1usize)),
        PixelFormatV::Bgra => Some((BitDepth::B8, 1usize)),
        PixelFormatV::Rgb24 => Some((BitDepth::B8, 1usize)),
        PixelFormatV::Bgr24 => Some((BitDepth::B8, 1usize)),
        PixelFormatV::Gray8 => Some((BitDepth::B8, 1usize)),
        PixelFormatV::Gray16le => Some((BitDepth::B16, 1usize)),
        PixelFormatV::Other(_) => None,
    }
}

/// The plane count of a mapped format.
pub open spec fn planes_of(f: PixelFormatV) -> int {
    match layout_of(f) {
        Some((_, p)) => p as int,
        None => 0,
    }
}

/// The bit depth of a mapped format.
pub open spec fn depth_of(f: PixelFormatV) -> BitDepth {
    match layout_of(f) {
        Some((d, _)) => d,
        None => BitDepth::B8,
    }
}

pub fn format_layout(f: &PixelFormat) -> (r: Option<(BitDepth, usize)>)
    ensures
        r == layout_of(f@),
{
    match f {
        PixelFormat::Yuv420p => Some((BitDepth::B8, 3)),
        PixelFormat::Yuvj420p => Some((BitDepth::B8, 3)),
        PixelFormat::Yuv422p => Some((BitDepth::B8, 3)),
        PixelFormat::Yuv444p => Some((BitDepth::B8, 3)),
        PixelFormat::Yuv420p10le => Some((BitDepth::B10, 3)),
        PixelFormat::Yuv422p10le => Some((BitDepth::B10, 3)),
        PixelFormat::Yuv444p10le => Some((BitDepth::B10, 3)),
        PixelFormat::Nv12 => Some((BitDepth::B8, 2)),
        PixelFormat::Nv21 => Some((BitDepth::B8, 2)),
        PixelFormat::P010le => Some((BitDepth::B10, 2)),
        PixelFormat::Rgba => Some((BitDepth::B8, 1)),
        PixelFormat::Bgra => Some((BitDepth::B8, 1)),
        PixelFormat::Rgb24 => Some((BitDepth::B8, 1)),
        PixelFormat::Bgr24 => Some((BitDepth::B8, 1)),
        PixelFormat::Gray8 => Some((BitDepth::B8, 1)),
        PixelFormat::Gray16le => Some((BitDepth::B16, 1)),
        PixelFormat::Other(_) => None,
    }
}

/// The stream kind of a libav media type (`AVMediaType`: video 0, audio 1,
/// data 2, subtitle 3, attachment 4).
pub open spec fn kind_of(media_type: i32) -> StreamKind {
    if media_type == 0 {
        StreamKind::Video
    } else if media_type == 1 {
        StreamKind::Audio
    } else if media_type == 2 {
        StreamKind::Data
    } else if media_type == 4 {
        StreamKind::Attachment
    } else {
        StreamKind::Unknown
    }
}

pub fn stream_kind(media_type: i32) -> (r: StreamKind)
    ensures
        r == kind_of(media_type),
{
    match media_type {
        0 => StreamKind::Video,
        1 => StreamKind::Audio,
        2 => StreamKind::Data,
        4 => StreamKind::Attachment,
        _ => StreamKind::Unknown,
    }
}

/// What the adapter reads of one container stream and its codec
/// parameters, as plain values. `pixel_format` is the libav pixel format
/// named in this library's terms, None when it has no name here.
#[derive(Clone, Debug)]
pub struct RawStream {
    pub media_type: i32,
    pub codec: String,
    pub tb_num: i32,
    pub tb_den: i32,
    pub start_time: i64,
    pub duration: i64,
    pub frame_rate_num: i32,
    pub frame_rate_den: i32,
    pub nb_frames: i64,
    /// The raw format id (pixel format for video, sample format for audio).
    pub format: i32,
    pub pixel_format: Option<PixelFormat>,
    pub width: u32,
    pub height: u32,
    pub color_primaries: i32,
    pub color_trc: i32,
    pub color_space: i32,
    pub color_range: i32,
    pub chroma_location: i32,
    pub sample_rate: u32,
    pub channels: u32,
}

/// The facts the adapter keeps of a stream.
#[derive(Clone, Debug)]
pub struct StreamFacts {
    pub index: u32,
    pub kind: StreamKind,
    pub codec: String,
    pub tb_num: i32,
    pub tb_den: i32,
    pub start_time: Option<i64>,
    pub duration: Option<i64>,
    pub avg_frame_rate: Option<Rational>,
    pub nb_frames: Option<u64>,
    pub video: Option<VideoDetails>,
    pub audio: Option<AudioDetails>,
}

/// A non-negative tick count, else none.
pub open spec fn known_ticks(t: i64) -> Option<i64> {
    if t >= 0 {
        Some(t)
    } else {
        None
    }
}

/// The average frame rate: a valid rate with a positive value, else none.
pub open spec fn rate_value(num: i32, den: i32) -> Option<Rational> {
    if den != 0 && tb_value(num, den).n() > 0 {
        Some(tb_value(num, den))
    } else {
        None
    }
}

/// The stream's pixel format is one the adapter maps.
pub open spec fn format_mapped(raw: RawStream) -> bool {
    raw.pixel_format is Some && layout_of(raw.pixel_format->0@) is Some
}

/// The color tags of the stream's codes.
pub open spec fn color_of(raw: RawStream) -> ColorTags {
    ColorTags {
        primaries: primaries_of(raw.color_primaries),
        transfer: transfer_of(raw.color_trc),
        matrix: matrix_of(raw.color_space),
        range: range_of(raw.color_range),
        chroma_loc: chroma_of(raw.chroma_location),
    }
}

/// The error the facts of a stream fail with, if any: a zero time base
/// first, then (for video) an unmapped pixel format.
pub open spec fn facts_error(raw: RawStream) -> Option<Seq<char>> {
    if raw.tb_den == 0 {
        Some("zero time base"@)
    } else if kind_of(raw.media_type) == StreamKind::Video && !format_mapped(raw) {
        Some("pixel format id "@ + decimal_of(raw.format as int))
    } else {
        None
    }
}

/// The video details of a stream whose format is mapped.
pub open spec fn video_matches(v: VideoDetails, raw: RawStream) -> bool {
    &&& v.width == raw.width
    &&& v.height == raw.height
    &&& v.pixel_format@ == raw.pixel_format->0@
    &&& v.bit_depth == depth_of(raw.pixel_format->0@)
    &&& v.color == color_of(raw)
}

/// The audio details of a stream.
pub open spec fn audio_matches(a: AudioDetails, raw: RawStream) -> bool {
    &&& a.sample_rate == raw.sample_rate
    &&& a.channels == raw.channels
    &&& a.sample_format@ == sample_format_text(raw.format)
}

/// The facts of stream `index` read from `raw`.
pub open spec fn facts_match(f: StreamFacts, raw: RawStream, index: u32) -> bool {
    &&& f.index == index
    &&& f.kind == kind_of(raw.media_type)
    &&& f.codec@ == raw.codec@
    &&& f.tb_num == raw.tb_num
    &&& f.tb_den == raw.tb_den
    &&& f.start_time == known_ticks(raw.start_time)
    &&& f.duration == known_ticks(raw.duration)
    &&& f.avg_frame_rate == rate_value(raw.frame_rate_num, raw.frame_rate_den)
    &&& f.nb_frames == (if raw.nb_frames > 0 {
        Some(raw.nb_frames as u64)
    } else {
        None::<u64>
    })
    &&& (f.kind == StreamKind::Video) == (f.video is Some)
    &&& f.video is Some ==> video_matches(f.video->0, raw)
    &&& (f.kind == StreamKind::Audio) == (f.audio is Some)
    &&& f.audio is Some ==> audio_matches(f.audio->0, raw)
}

/// The facts of stream `index`; a zero time base or an unmapped video
/// pixel format is a typed failure.
pub fn stream_facts(raw: &RawStream, index: u32) -> (r: Result<StreamFacts, ProbeError>)
    ensures
        match facts_error(*raw) {
            Some(msg) => r is Err && r->Err_0 is Unsupported && r->Err_0->Unsupported_0@ == msg,
            None => r is Ok && facts_match(r->Ok_0, *raw, index),
        },
{
    let kind = stream_kind(raw.media_type);
    let _validated_tb = match av_rational_to_rational(raw.tb_num, raw.tb_den) {
        Ok(tb) => tb,
        Err(e) => {
            return Err(e);
        },
    };
    let start_time = if raw.start_time >= 0 {
        Some(raw.start_time)
    } else {
        None
    };
    let duration = if raw.duration >= 0 {
        Some(raw.duration)
    } else {
        None
    };
    let avg_frame_rate = match av_rational_to_rational(raw.frame_rate_num, raw.frame_rate_den) {
        Ok(r) => if r.num() > 0 {
            Some(r)
        } else {
            None
        },
        Err(_) => None,
    };
    let nb_frames = if raw.nb_frames > 0 {
        Some(raw.nb_frames as u64)
    } else {
        None
    };
    let (video, audio) = match kind {
        StreamKind::Video => {
            let layout = match &raw.pixel_format {
                Some(pf) => match format_layout(pf) {
                    Some(l) => Some((pf.clone(), l.0)),
                    None => None,
                },
                None => None,
            };
            match layout {
                Some((pixel_format, bit_depth)) => {
                    let color = map_color(
                        raw.color_primaries,
                        raw.color_trc,
                        raw.color_space,
                        raw.color_range,
                        raw.chroma_location,
                    );
                    (
                        Some(
                            VideoDetails {
                                width: raw.width,
                                height: raw.height,
                                pixel_format,
                                bit_depth,
                                color,
                            },
                        ),
                        None,
                    )
                },
                None => {
                    let mut msg = String::from_str("pixel format id ");
                    push_decimal(&mut msg, raw.format as i64);
                    return Err(ProbeError::Unsupported(msg));
                },
            }
        },
        StreamKind::Audio => (
            None,
            Some(
                AudioDetails {
                    sample_rate: raw.sample_rate,
                    channels: raw.channels,
                    sample_format: sample_format_name(raw.format),
                },
            ),
        ),
        _ => (None, None),
    };
    Ok(
        StreamFacts {
            index,
            kind,
            codec: raw.codec.clone(),
            tb_num: raw.tb_num,
            tb_den: raw.tb_den,
            start_time,
            duration,
            avg_frame_rate,
            nb_frames,
            video,
            audio,
        },
    )
}

/// The facts' tick values can be converted (no `i64::MIN` product).
pub open spec fn facts_ticks_ok(f: StreamFacts) -> bool {
    &&& f.start_time is Some ==> ticks_ok(f.start_time->0, f.tb_num, f.tb_den)
    &&& f.duration is Some ==> ticks_ok(f.duration->0, f.tb_num, f.tb_den)
}

/// The probe description of a stream from its facts.
pub open spec fn stream_matches(p: ProbeStream, f: StreamFacts) -> bool {
    &&& p.id == StreamId(f.index)
    &&& p.kind == f.kind
    &&& p.codec@ == f.codec@
    &&& p.time_base == tb_value(f.tb_num, f.tb_den)
    &&& p.start_time == (match f.start_time {
        Some(t) => ticks_value(t, f.tb_num, f.tb_den),
        None => None,
    })
    &&& p.duration == (match f.duration {
        Some(t) => ticks_value(t, f.tb_num, f.tb_den),
        None => None,
    })
    &&& p.avg_frame_rate == f.avg_frame_rate
    &&& p.nb_frames_hint == f.nb_frames
    &&& p.video == f.video
    &&& p.audio == f.audio
}

/// The probe description of a stream: exact times in its time base.
pub fn facts_to_probe_stream(f: StreamFacts) -> (r: ProbeStream)
    requires
        f.tb_den != 0,
        facts_ticks_ok(f),
    ensures
        stream_matches(r, f),
{
    let time_base = match av_rational_to_rational(f.tb_num, f.tb_den) {
        Ok(tb) => tb,
        Err(_) => {
            proof {
                assert(false);
            }
            Rational::zero(1)
        },
    };
    let start_time = match f.start_time {
        Some(t) => ticks_to_rational(t, f.tb_num, f.tb_den),
        None => None,
    };
    let duration = match f.duration {
        Some(t) => ticks_to_rational(t, f.tb_num, f.tb_den),
        None => None,
    };
    ProbeStream {
        id: StreamId(f.index),
        kind: f.kind,
        codec: f.codec,
        time_base,
        start_time,
        duration,
        avg_frame_rate: f.avg_frame_rate,
        nb_frames_hint: f.nb_frames,
        video: f.video,
        audio: f.audio,
    }
}

// ---------------------------------------------------------------------------
// Header probe
// ---------------------------------------------------------------------------

/// The stream's known times convert (no `i64::MIN` product).
pub open spec fn raw_ticks_ok(raw: RawStream) -> bool {
    &&& raw.start_time >= 0 ==> ticks_ok(raw.start_time, raw.tb_num, raw.tb_den)
    &&& raw.duration >= 0 ==> ticks_ok(raw.duration, raw.tb_num, raw.tb_den)
}

/// A known tick count as an exact time in the stream's time base.
pub open spec fn time_of(t: i64, raw: RawStream) -> Option<Rational> {
    if t >= 0 {
        ticks_value(t, raw.tb_num, raw.tb_den)
    } else {
        None
    }
}

/// The probe description of stream `index` read from `raw` (whose facts
/// are error-free).
pub open spec fn probe_stream_of(p: ProbeStream, raw: RawStream, index: u32) -> bool {
    &&& p.id == StreamId(index)
    &&& p.kind == kind_of(raw.media_type)
    &&& p.codec@ == raw.codec@
    &&& p.time_base == tb_value(raw.tb_num, raw.tb_den)
    &&& p.start_time == time_of(raw.start_time, raw)
    &&& p.duration == time_of(raw.duration, raw)
    &&& p.avg_frame_rate == rate_value(raw.frame_rate_num, raw.frame_rate_den)
    &&& p.nb_frames_hint == (if raw.nb_frames > 0 {
        Some(raw.nb_frames as u64)
    } else {
        None::<u64>
    })
    &&& (p.kind == StreamKind::Video) == (p.video is Some)
    &&& p.video is Some ==> video_matches(p.video->0, raw)
    &&& (p.kind == StreamKind::Audio) == (p.audio is Some)
    &&& p.audio is Some ==> audio_matches(p.audio->0, raw)
}

/// The container duration in microseconds as an exact time, if known.
pub open spec fn container_duration(us: i64) -> Option<Rational> {
    if us >= 0 {
        Some(Rational::from_red(us as int, 1_000_000))
    } else {
        None
    }
}

/// The header-level probe description: container kind, container duration
/// (microseconds, exact but of microsecond precision) and every stream; the
/// first stream whose facts fail fails the probe.
pub fn probe_header(container: ContainerKind, duration_us: i64, streams: &Vec<RawStream>) -> (r: Result<
    ProbeInfo,
    ProbeError,
>)
    requires
        streams@.len() <= u32::MAX,
        forall|i: int| 0 <= i < streams@.len() ==> raw_ticks_ok(#[trigger] streams@[i]),
    ensures
        match r {
            Ok(info) => {
                &&& forall|i: int| 0 <= i < streams@.len() ==> (#[trigger] facts_error(streams@[i])) is None
                &&& info.container == container
                &&& info.duration == container_duration(duration_us)
                &&& info.streams@.len() == streams@.len()
                &&& forall|i: int|
                    0 <= i < streams@.len() ==> probe_stream_of(
                        #[trigger] info.streams@[i],
                        streams@[i],
                        i as u32,
                    )
                &&& info.keyframe_index is None
                &&& info.vfr is None
            },
            Err(e) => exists|i: int|
                0 <= i < streams@.len() && (forall|j: int|
                    0 <= j < i ==> (#[trigger] facts_error(streams@[j])) is None) && facts_error(
                    #[trigger] streams@[i],
                ) is Some && e is Unsupported && e->Unsupported_0@ == facts_error(streams@[i])->0,
        },
{
    let duration = if duration_us >= 0 {
        Some(Rational::new(duration_us, 1_000_000))
    } else {
        None
    };
    let mut out: Vec<ProbeStream> = Vec::new();
    let mut i: usize = 0;
    while i < streams.len()
        invariant
            streams@.len() <= u32::MAX,
            forall|k: int| 0 <= k < streams@.len() ==> raw_ticks_ok(#[trigger] streams@[k]),
            i <= streams@.len(),
            out@.len() == i,
            forall|k: int| 0 <= k < i ==> (#[trigger] facts_error(streams@[k])) is None,
            forall|k: int| 0 <= k < i ==> probe_stream_of(#[trigger] out@[k], streams@[k], k as u32),
        decreases streams@.len() - i,
    {
        let raw = &streams[i];
        match stream_facts(raw, i as u32) {
            Ok(f) => {
                proof {
                    assert(raw_ticks_ok(streams@[i as int]));
                }
                let p = facts_to_probe_stream(f);
                out.push(p);
            },
            Err(e) => {
                proof {
                    assert(facts_error(streams@[i as int]) is Some);
                }
                return Err(e);
            },
        }
        i += 1;
    }
    Ok(ProbeInfo { container, duration, streams: out, keyframe_index: None, vfr: None })
}

// ---------------------------------------------------------------------------
// Packet scan
// ---------------------------------------------------------------------------

/// What a packet read returned.
#[derive(Clone, Copy, Debug, PartialEq, Eq, Structural)]
pub enum ReadEvent {
    /// End of the container.
    Eof,
    /// A read error (its text comes from libav).
    Failed,
    /// A packet was read.
    Packet,
}

pub open spec fn read_event_of(rc: i32) -> ReadEvent {
    if rc == AVERROR_EOF {
        ReadEvent::Eof
    } else if rc < 0 {
        ReadEvent::Failed
    } else {
        ReadEvent::Packet
    }
}

/// Classify a packet read's return code.
pub fn read_event(rc: i32) -> (r: ReadEvent)
    ensures
        r == read_event_of(rc),
{
    if rc == AVERROR_EOF {
        ReadEvent::Eof
    } else if rc < 0 {
        ReadEvent::Failed
    } else {
        ReadEvent::Packet
    }
}

/// The first video stream among the streams' media types.
pub fn first_video_stream(media_types: &[i32]) -> (r: Result<usize, ProbeError>)
    ensures
        match r {
            Ok(i) => i < media_types@.len() && media_types@[i as int] == 0 && forall|j: int|
                0 <= j < i ==> media_types@[j] != 0,
            Err(e) => (forall|j: int| 0 <= j < media_types@.len() ==> media_types@[j] != 0)
                && e is Unsupported && e->Unsupported_0@ == "no video stream"@,
        },
{
    let mut i: usize = 0;
    while i < media_types.len()
        invariant
            i <= media_types@.len(),
            forall|j: int| 0 <= j < i ==> media_types@[j] != 0,
        decreases media_types@.len() - i,
    {
        if media_types[i] == 0 {
            return Ok(i);
        }
        i += 1;
    }
    Err(ProbeError::Unsupported(String::from_str("no video stream")))
}

/// The pts list and keyframe entries gathered while reading the packets of
/// one video stream.
#[derive(Debug)]
pub struct PacketScan {
    pub stream_index: usize,
    pub tb_num: i32,
    pub tb_den: i32,
    pub pts: Vec<Rational>,
    pub entries: Vec<KeyframeEntry>,
}

/// The byte position of a packet, if the container knows it.
pub open spec fn byte_pos_of(pos: i64) -> Option<u64> {
    if pos >= 0 {
        Some(pos as u64)
    } else {
        None
    }
}

impl PacketScan {
    /// The packet belongs to the scanned stream and has a usable pts.
    pub open spec fn takes(self, stream_index: i32, pts: i64) -> bool {
        &&& stream_index >= 0
        &&& stream_index as int == self.stream_index
        &&& pts >= 0
        &&& ticks_value(pts, self.tb_num, self.tb_den) is Some
    }

    pub fn new(stream_index: usize, tb_num: i32, tb_den: i32) -> (r: Self)
        ensures
            r.stream_index == stream_index,
            r.tb_num == tb_num,
            r.tb_den == tb_den,
            r.pts@ == Seq::<Rational>::empty(),
            r.entries@ == Seq::<KeyframeEntry>::empty(),
    {
        PacketScan { stream_index, tb_num, tb_den, pts: Vec::new(), entries: Vec::new() }
    }

    /// One packet read: a packet of the scanned stream with a usable pts
    /// adds its time, and a keyframe also adds an entry.
    pub fn packet(&mut self, stream_index: i32, pts: i64, key: bool, pos: i64)
        requires
            stream_index >= 0 && stream_index as int == old(self).stream_index && pts >= 0 ==> ticks_ok(
                pts,
                old(self).tb_num,
                old(self).tb_den,
            ),
        ensures
            final(self).stream_index == old(self).stream_index,
            final(self).tb_num == old(self).tb_num,
            final(self).tb_den == old(self).tb_den,
            ({
                let t = ticks_value(pts, old(self).tb_num, old(self).tb_den);
                if old(self).takes(stream_index, pts) {
                    &&& final(self).pts@ == old(self).pts@.push(t->0)
                    &&& final(self).entries@ == if key {
                        old(self).entries@.push(KeyframeEntry { pts: t->0, byte_pos: byte_pos_of(pos) })
                    } else {
                        old(self).entries@
                    }
                } else {
                    &&& final(self).pts@ == old(self).pts@
                    &&& final(self).entries@ == old(self).entries@
                }
            }),
    {
        if stream_index >= 0 && stream_index as usize == self.stream_index && pts >= 0 {
            if let Some(t) = ticks_to_rational(pts, self.tb_num, self.tb_den) {
                self.pts.push(t);
                if key {
                    let byte_pos = if pos >= 0 {
                        Some(pos as u64)
                    } else {
                        None
                    };
                    self.entries.push(KeyframeEntry { pts: t, byte_pos });
                }
            }
        }
    }

    /// The scan's result: the pts list and the keyframe index; a stream
    /// without any keyframe with a pts is corrupt.
    pub fn finish(self) -> (r: Result<(Vec<Rational>, KeyframeIndex), ProbeError>)
        ensures
            self.entries@.len() == 0 ==> r is Err && r->Err_0 is Corrupt && r->Err_0->Corrupt_0@
                == "no video packets with pts"@,
            self.entries@.len() > 0 ==> r is Ok && r->Ok_0.0@ == self.pts@ && r->Ok_0.1.entries@
                == self.entries@,
    {
        if self.entries.len() == 0 {
            return Err(ProbeError::Corrupt(String::from_str("no video packets with pts")));
        }
        Ok((self.pts, KeyframeIndex { entries: self.entries }))
    }
}

/// The full probe: the header description completed by one packet scan's
/// keyframe index and frame-rate report.
pub fn complete_probe(info: ProbeInfo, pts: &[Rational], index: KeyframeIndex) -> (r: ProbeInfo)
    requires
        pts_ok(pts@),
    ensures
        r.container == info.container,
        r.duration == info.duration,
        r.streams == info.streams,
        r.keyframe_index == Some(index),
        r.vfr is Some,
        r.vfr->0.frame_count == pts@.len(),
        ({
            let v = r.vfr->0;
            let ds = crate::media::probe::distinct_capped(crate::media::probe::deltas(pts@));
            v.is_vfr == (ds.len() > 1) && v.distinct_deltas@ == if v.is_vfr {
                ds
            } else {
                Seq::<Rational>::empty()
            }
        }),
{
    let mut info = info;
    info.vfr = Some(VfrReport::from_pts(pts));
    info.keyframe_index = Some(index);
    info
}

// ---------------------------------------------------------------------------
// Decoder session
// ---------------------------------------------------------------------------

/// A probe failure as a decode failure of the same kind and text.
pub fn pe2de(e: ProbeError) -> (r: DecodeError)
    ensures
        r == match e {
            ProbeError::Unreadable => DecodeError::Unreadable,
            ProbeError::Corrupt(d) => DecodeError::Corrupt(d),
            ProbeError::Unsupported(d) => DecodeError::Unsupported(d),
            ProbeError::Io(d) => DecodeError::Io(d),
        },
{
    match e {
        ProbeError::Unreadable => DecodeError::Unreadable,
        ProbeError::Corrupt(d) => DecodeError::Corrupt(d),
        ProbeError::Unsupported(d) => DecodeError::Unsupported(d),
        ProbeError::Io(d) => DecodeError::Io(d),
    }
}

/// The rejection of a hardware request by this software-only adapter.
pub open spec fn hw_rejection(hw: Option<HwAccel>) -> Option<Seq<char>> {
    match hw {
        None => None,
        Some(HwAccel::Auto) => Some("hardware decode requested; FFmpeg-SW adapter is software-only"@),
        Some(HwAccel::Vendor(v)) => Some(
            "hardware decode ("@ + v@ + ") requested; FFmpeg-SW adapter is software-only"@,
        ),
    }
}

/// A hardware request is a typed rejection, never a hidden downgrade.
pub fn check_hw(cfg: &DecodeConfig) -> (r: Result<(), DecodeError>)
    ensures
        match hw_rejection(cfg.hw) {
            None => r is Ok,
            Some(m) => r is Err && r->Err_0 is Unsupported && r->Err_0->Unsupported_0@ == m,
        },
{
    match cfg.hw {
        None => Ok(()),
        Some(HwAccel::Auto) => Err(
            DecodeError::Unsupported(
                String::from_str("hardware decode requested; FFmpeg-SW adapter is software-only"),
            ),
        ),
        Some(HwAccel::Vendor(v)) => {
            let mut m = String::from_str("hardware decode (");
            m.append(v);
            m.append(") requested; FFmpeg-SW adapter is software-only");
            Err(DecodeError::Unsupported(m))
        },
    }
}

/// `StreamId(n)`, the debug text of a stream id.
pub open spec fn stream_id_text(s: StreamId) -> Seq<char> {
    "StreamId("@ + decimal_of(s.0 as int) + ")"@
}

fn push_stream_id(m: &mut String, s: StreamId)
    ensures
        final(m)@ == old(m)@ + stream_id_text(s),
{
    m.append("StreamId(");
    crate::text::push_digits(m, s.0 as u64);
    m.append(")");
    assert(final(m)@ =~= old(m)@ + stream_id_text(s));
}

/// The requested stream must exist in the container.
pub fn check_stream_index(stream: StreamId, nb_streams: u32) -> (r: Result<(), DecodeError>)
    ensures
        stream.0 < nb_streams ==> r is Ok,
        stream.0 >= nb_streams ==> r is Err && r->Err_0 is Unsupported && r->Err_0->Unsupported_0@
            == "stream "@ + stream_id_text(stream) + " does not exist"@,
{
    if stream.0 >= nb_streams {
        let mut m = String::from_str("stream ");
        push_stream_id(&mut m, stream);
        m.append(" does not exist");
        return Err(DecodeError::Unsupported(m));
    }
    Ok(())
}

/// Only video streams are decoded; audio is a typed rejection.
pub fn check_video_kind(kind: StreamKind, stream: StreamId) -> (r: Result<(), DecodeError>)
    ensures
        kind == StreamKind::Video ==> r is Ok,
        kind == StreamKind::Audio ==> r is Err && r->Err_0 is Unsupported && r->Err_0->Unsupported_0@
            == "audio decode is out of Wave-2 scope (typed rejection; see STATUS)"@,
        kind != StreamKind::Video && kind != StreamKind::Audio ==> r is Err && r->Err_0 is Unsupported
            && r->Err_0->Unsupported_0@ == "stream "@ + stream_id_text(stream) + " is not a video stream"@,
{
    match kind {
        StreamKind::Video => Ok(()),
        StreamKind::Audio => Err(
            DecodeError::Unsupported(
                String::from_str("audio decode is out of Wave-2 scope (typed rejection; see STATUS)"),
            ),
        ),
        _ => {
            let mut m = String::from_str("stream ");
            push_stream_id(&mut m, stream);
            m.append(" is not a video stream");
            Err(DecodeError::Unsupported(m))
        },
    }
}

/// The first `planes` line sizes as strides.
pub open spec fn plane_strides(linesizes: Seq<i32>, planes: int) -> Seq<usize> {
    Seq::new(planes as nat, |k: int| linesizes[k] as usize)
}

/// The capabilities of a software session decoding one pixel format.
pub open spec fn caps_match(c: DecoderCaps, cfg: DecodeConfig, f: PixelFormatV, depth: BitDepth) -> bool {
    &&& c.hw is None
    &&& c.seek_modes@ == if cfg.keyframe_index is Some {
        seq![SeekMode::Exact, SeekMode::Snap]
    } else {
        seq![SeekMode::Exact]
    }
    &&& c.memory_outputs@ == seq![FrameMemory::Cpu]
    &&& c.pixel_formats@.len() == 1
    &&& c.pixel_formats@[0]@ == f
    &&& c.max_bit_depth == depth
    &&& c.threaded == (cfg.thread_count > 1)
}

/// The decoder's state besides its libav handles: the stream, its time
/// base, the drain flags, the armed exact-seek target, the snap index, the
/// declared capabilities, the frame pool and the frame geometry.
pub struct DecodeSession {
    pub stream_index: usize,
    pub tb_num: i32,
    pub tb_den: i32,
    pub eof_sent: bool,
    pub drain_done: bool,
    /// Armed by an exact seek: frames strictly before it are dropped.
    pub drop_until: Option<Rational>,
    pub snap_index: Option<KeyframeIndex>,
    pub caps: DecoderCaps,
    pub pool: FramePool,
    pub pool_key: PoolKey,
    pub pool_strides: Vec<usize>,
    pub pool_bytes: usize,
    pub cancelled: bool,
    pub stream_id: StreamId,
    pub width: u32,
    pub height: u32,
    pub pixel_format: PixelFormat,
    pub bit_depth: BitDepth,
}

/// A seek to perform: the container seek target in ticks, the exact-seek
/// drop target and the pts the seek lands on.
#[derive(Clone, Copy, Debug, PartialEq, Eq, Structural)]
pub struct SeekPlan {
    pub target_ticks: i64,
    pub drop_until: Option<Rational>,
    pub landed: Rational,
}

/// What to do after asking the decoder for a frame.
#[derive(Clone, Copy, Debug, PartialEq, Eq, Structural)]
pub enum ReceiveStep {
    /// A frame at this pts is to be delivered.
    Deliver(Rational),
    /// A frame before the exact-seek target: drop it and ask again.
    Skip,
    /// The decoder wants input: feed one packet and ask again.
    Feed,
    /// End of stream.
    End,
    /// A decoder failure (its text comes from libav).
    Fail,
}

/// What to do with a packet read while feeding the decoder.
#[derive(Clone, Copy, Debug, PartialEq, Eq, Structural)]
pub enum FeedStep {
    /// End of input: send the drain packet (once).
    SendDrain,
    /// End of input, drain already sent: nothing to feed.
    Done,
    /// A packet of the decoded stream: send it.
    Send,
    /// A packet of another stream: drop it and read on.
    Skip,
    /// A read failure (its text comes from libav).
    Fail,
}

/// A send to the decoder failed (a full input queue is no failure).
pub open spec fn send_failed_spec(rc: i32) -> bool {
    rc < 0 && rc != -EAGAIN
}

pub fn send_failed(rc: i32) -> (r: bool)
    ensures
        r == send_failed_spec(rc),
{
    rc < 0 && rc != -EAGAIN
}

/// Open a session on a video stream from what libav reported for it: its
/// time base, size and pixel format, the line sizes of a compact image of
/// that format and the size of its buffer. A non-positive buffer size is
/// an internal failure.
pub fn open_session(
    cfg: DecodeConfig,
    stream_id: StreamId,
    stream_index: usize,
    tb_num: i32,
    tb_den: i32,
    width: u32,
    height: u32,
    pixel_format: PixelFormat,
    linesizes: [i32; 4],
    buf_size: i32,
) -> (r: Result<DecodeSession, DecodeError>)
    requires
        layout_of(pixel_format@) is Some,
        forall|k: int| 0 <= k < 4 ==> linesizes@[k] >= 0,
        round64(total(plane_strides(linesizes@, planes_of(pixel_format@))))
            <= usize::MAX,
    ensures
        buf_size <= 0 ==> r is Err && r->Err_0 is Internal && r->Err_0->Internal_0@
            == "av_image_get_buffer_size failed"@,
        buf_size > 0 ==> r is Ok && {
            let s = r->Ok_0;
            let planes = planes_of(pixel_format@);
            &&& s.stream_index == stream_index && s.stream_id == stream_id
            &&& s.tb_num == tb_num && s.tb_den == tb_den
            &&& !s.eof_sent && !s.drain_done && !s.cancelled
            &&& s.drop_until is None
            &&& s.snap_index == cfg.keyframe_index
            &&& caps_match(s.caps, cfg, pixel_format@, depth_of(pixel_format@))
            &&& s.pool.wf()
            &&& s.pool@.live == 0
            &&& s.pool@.max == 8
            &&& s.pool_strides@ == plane_strides(linesizes@, planes)
            &&& s.pool_key@.format == pixel_format@
            &&& s.pool_key@.width == width && s.pool_key@.height == height
            &&& s.pool_key@.byte_class == round64(total(s.pool_strides@))
            &&& s.pool_bytes == buf_size
            &&& s.width == width && s.height == height
            &&& s.pixel_format@ == pixel_format@
            &&& s.bit_depth == depth_of(pixel_format@)
        },
{
    let (bit_depth, planes) = match format_layout(&pixel_format) {
        Some(l) => l,
        None => {
            proof {
                assert(false);
            }
            (BitDepth::B8, 0)
        },
    };
    let mut strides: Vec<usize> = Vec::new();
    let mut k: usize = 0;
    while k < planes
        invariant
            planes <= 3,
            k <= planes,
            strides@ == plane_strides(linesizes@, k as int),
            forall|j: int| 0 <= j < 4 ==> linesizes@[j] >= 0,
        decreases planes - k,
    {
        strides.push(linesizes[k] as usize);
        proof {
            assert(strides@ =~= plane_strides(linesizes@, k + 1));
        }
        k += 1;
    }
    if buf_size <= 0 {
        return Err(DecodeError::Internal(String::from_str("av_image_get_buffer_size failed")));
    }
    let pool_key = PoolKey::from_strides(pixel_format.clone(), width, height, strides.as_slice());
    let mut seek_modes = vec![SeekMode::Exact];
    if cfg.keyframe_index.is_some() {
        seek_modes.push(SeekMode::Snap);
    }
    let caps = DecoderCaps {
        hw: None,
        seek_modes,
        memory_outputs: vec![FrameMemory::Cpu],
        pixel_formats: vec![pixel_format.clone()],
        max_bit_depth: bit_depth,
        threaded: cfg.thread_count > 1,
    };
    proof {
        assert(caps.memory_outputs@ =~= seq![FrameMemory::Cpu]);
        assert(caps.seek_modes@ =~= if cfg.keyframe_index is Some {
            seq![SeekMode::Exact, SeekMode::Snap]
        } else {
            seq![SeekMode::Exact]
        });
    }
    Ok(
        DecodeSession {
            stream_index,
            tb_num,
            tb_den,
            eof_sent: false,
            drain_done: false,
            drop_until: None,
            snap_index: cfg.keyframe_index,
            caps,
            pool: FramePool::new(8),
            pool_key,
            pool_strides: strides,
            pool_bytes: buf_size as usize,
            cancelled: false,
            stream_id,
            width,
            height,
            pixel_format,
            bit_depth,
        },
    )
}

/// The ticks of a time fit `i64` in the time base.
pub open spec fn ticks_fit(pts: Rational, tb_num: i32, tb_den: i32) -> bool {
    i64::MIN <= ticks_floor(pts, tb_num as int, tb_den as int) <= i64::MAX
}

impl DecodeSession {
    /// A cancelled session answers every call with `Cancelled`.
    pub fn check_live(&self) -> (r: Result<(), DecodeError>)
        ensures
            r == if self.cancelled {
                Err::<(), DecodeError>(DecodeError::Cancelled)
            } else {
                Ok::<(), DecodeError>(())
            },
    {
        if self.cancelled {
            Err(DecodeError::Cancelled)
        } else {
            Ok(())
        }
    }

    /// Whether the ticks a seek converts fit `i64`: the target's for an exact
    /// seek, every keyframe's for a snapped one (a conversion that does not
    /// fit is a failure of the caller, which tests this first).
    pub fn seek_ticks_fit(&self, pts: Rational, mode: SeekMode) -> (r: bool)
        requires
            pts.wf(),
            self.tb_num != 0,
            mode == SeekMode::Snap && self.snap_index is Some ==> forall|i: int|
                0 <= i < self.snap_index->0.entries@.len() ==> (#[trigger] self.snap_index->0.entries@[
                    i
                ]).pts.wf(),
        ensures
            r == ((mode == SeekMode::Exact ==> ticks_fit(pts, self.tb_num, self.tb_den)) && (mode
                == SeekMode::Snap && self.snap_index is Some ==> forall|i: int|
                0 <= i < self.snap_index->0.entries@.len() ==> ticks_fit(
                    (#[trigger] self.snap_index->0.entries@[i]).pts,
                    self.tb_num,
                    self.tb_den,
                ))),
    {
        match mode {
            SeekMode::Exact => ticks_fit_checked(pts, self.tb_num, self.tb_den),
            SeekMode::Snap => match &self.snap_index {
                None => true,
                Some(index) => {
                    let mut k: usize = 0;
                    while k < index.entries.len()
                        invariant
                            k <= index.entries@.len(),
                            self.tb_num != 0,
                            mode == SeekMode::Snap,
                            self.snap_index == Some(*index),
                            forall|i: int|
                                0 <= i < index.entries@.len() ==> (#[trigger] index.entries@[i]).pts.wf(),
                            forall|i: int|
                                0 <= i < k ==> ticks_fit(
                                    (#[trigger] index.entries@[i]).pts,
                                    self.tb_num,
                                    self.tb_den,
                                ),
                        decreases index.entries@.len() - k,
                    {
                        if !ticks_fit_checked(index.entries[k].pts, self.tb_num, self.tb_den) {
                            proof {
                                assert(!ticks_fit(
                                    index.entries@[k as int].pts,
                                    self.tb_num,
                                    self.tb_den,
                                ));
                            }
                            return false;
                        }
                        k += 1;
                    }
                    true
                },
            },
        }
    }

    /// Plan a seek. Exact: seek to the tick at or before `pts` and drop
    /// frames before `pts`; lands on `pts`. Snap: needs the keyframe index;
    /// lands on the last keyframe at or before `pts` and drops nothing.
    pub fn plan_seek(&self, pts: Rational, mode: SeekMode) -> (r: Result<SeekPlan, DecodeError>)
        requires
            pts.wf(),
            self.tb_num != 0,
            mode == SeekMode::Exact ==> ticks_fit(pts, self.tb_num, self.tb_den),
            mode == SeekMode::Snap && self.snap_index is Some ==> forall|i: int|
                0 <= i < self.snap_index->0.entries@.len() ==> {
                    &&& (#[trigger] self.snap_index->0.entries@[i]).pts.wf()
                    &&& ticks_fit(self.snap_index->0.entries@[i].pts, self.tb_num, self.tb_den)
                },
        ensures
            self.cancelled ==> r == Err::<SeekPlan, DecodeError>(DecodeError::Cancelled),
            !self.cancelled && mode == SeekMode::Exact ==> r == Ok::<SeekPlan, DecodeError>(
                SeekPlan {
                    target_ticks: ticks_floor(pts, self.tb_num as int, self.tb_den as int) as i64,
                    drop_until: Some(pts),
                    landed: pts,
                },
            ),
            !self.cancelled && mode == SeekMode::Snap && self.snap_index is None ==> r is Err
                && r->Err_0 is Unsupported && r->Err_0->Unsupported_0@
                == "Snap seek requires a keyframe index (DecodeConfig::keyframe_index)"@,
            !self.cancelled && mode == SeekMode::Snap && self.snap_index is Some ==> {
                let e = self.snap_index->0.entries@;
                &&& r is Ok ==> exists|i: int|
                    0 <= i < e.len() && e[i].pts.is_le(pts) && r->Ok_0 == (SeekPlan {
                        target_ticks: ticks_floor(e[i].pts, self.tb_num as int, self.tb_den as int) as i64,
                        drop_until: None,
                        landed: e[i].pts,
                    }) && (sorted_entries(e) ==> forall|j: int|
                        i < j < e.len() ==> !(#[trigger] e[j]).pts.is_le(pts))
                &&& r is Err ==> r->Err_0 is Unsupported && r->Err_0->Unsupported_0@ == "snap target "@
                    + rational_text(pts) + " is before the first keyframe"@ && (sorted_entries(e)
                    ==> forall|j: int| 0 <= j < e.len() ==> !(#[trigger] e[j]).pts.is_le(pts))
            },
    {
        if self.cancelled {
            return Err(DecodeError::Cancelled);
        }
        match mode {
            SeekMode::Snap => {
                let index = match &self.snap_index {
                    Some(ix) => ix,
                    None => {
                        return Err(
                            DecodeError::Unsupported(
                                String::from_str(
                                    "Snap seek requires a keyframe index (DecodeConfig::keyframe_index)",
                                ),
                            ),
                        );
                    },
                };
                match index.floor(pts) {
                    Some(entry) => {
                        let target = rational_to_ticks_floor(entry.pts, self.tb_num, self.tb_den);
                        Ok(SeekPlan { target_ticks: target, drop_until: None, landed: entry.pts })
                    },
                    None => {
                        let mut m = String::from_str("snap target ");
                        pts.push_text(&mut m);
                        m.append(" is before the first keyframe");
                        Err(DecodeError::Unsupported(m))
                    },
                }
            },
            SeekMode::Exact => {
                let target = rational_to_ticks_floor(pts, self.tb_num, self.tb_den);
                Ok(SeekPlan { target_ticks: target, drop_until: Some(pts), landed: pts })
            },
        }
    }

    /// The container seek succeeded: the drain flags reset and the plan's
    /// drop target is armed.
    pub fn seek_done(&mut self, plan: &SeekPlan)
        ensures
            *final(self) == (DecodeSession {
                eof_sent: false,
                drain_done: false,
                drop_until: plan.drop_until,
                ..*old(self)
            }),
    {
        self.eof_sent = false;
        self.drain_done = false;
        self.drop_until = plan.drop_until;
    }

    /// Decide on what the decoder answered when asked for a frame: `rc` its
    /// return code, `pts_ticks` the frame's pts when `rc` is 0. A frame
    /// without a pts, or one whose time does not fit, is corrupt; frames
    /// strictly before an armed exact-seek target are skipped; end of
    /// stream marks the drain done.
    pub fn on_receive(&mut self, rc: i32, pts_ticks: i64) -> (r: Result<ReceiveStep, DecodeError>)
        requires
            rc == 0 && pts_ticks >= 0 ==> ticks_ok(pts_ticks, old(self).tb_num, old(self).tb_den),
            old(self).drop_until is Some ==> old(self).drop_until->0.wf(),
        ensures
            rc == AVERROR_EOF ==> r == Ok::<ReceiveStep, DecodeError>(ReceiveStep::End)
                && *final(self) == (DecodeSession { drain_done: true, ..*old(self) }),
            rc != AVERROR_EOF ==> *final(self) == *old(self),
            rc == -EAGAIN ==> r == Ok::<ReceiveStep, DecodeError>(ReceiveStep::Feed),
            rc != 0 && rc != -EAGAIN && rc != AVERROR_EOF ==> r == Ok::<ReceiveStep, DecodeError>(
                ReceiveStep::Fail,
            ),
            rc == 0 && pts_ticks < 0 ==> r is Err && r->Err_0 is Corrupt && r->Err_0->Corrupt_0@
                == "decoded frame without pts"@,
            rc == 0 && pts_ticks >= 0 ==> match ticks_value(pts_ticks, old(self).tb_num, old(self).tb_den) {
                None => r is Err && r->Err_0 is Corrupt && r->Err_0->Corrupt_0@
                    == "pts out of rational range"@,
                Some(p) => r == Ok::<ReceiveStep, DecodeError>(
                    match old(self).drop_until {
                        Some(t) => if p.is_lt(t) {
                            ReceiveStep::Skip
                        } else {
                            ReceiveStep::Deliver(p)
                        },
                        None => ReceiveStep::Deliver(p),
                    },
                ),
            },
    {
        if rc == 0 {
            if pts_ticks < 0 {
                return Err(DecodeError::Corrupt(String::from_str("decoded frame without pts")));
            }
            let pts = match ticks_to_rational(pts_ticks, self.tb_num, self.tb_den) {
                Some(p) => p,
                None => {
                    return Err(DecodeError::Corrupt(String::from_str("pts out of rational range")));
                },
            };
            if let Some(target) = &self.drop_until {
                if pts.less_than(target) {
                    return Ok(ReceiveStep::Skip);
                }
            }
            return Ok(ReceiveStep::Deliver(pts));
        }
        if rc == -EAGAIN {
            return Ok(ReceiveStep::Feed);
        }
        if rc == AVERROR_EOF {
            self.drain_done = true;
            return Ok(ReceiveStep::End);
        }
        Ok(ReceiveStep::Fail)
    }

    /// Decide on a packet read while feeding: `rc` the read's return code,
    /// `packet_stream` the packet's stream index when one was read.
    pub fn feed_step(&self, rc: i32, packet_stream: i32) -> (r: FeedStep)
        ensures
            r == if rc == AVERROR_EOF {
                if self.eof_sent {
                    FeedStep::Done
                } else {
                    FeedStep::SendDrain
                }
            } else if rc < 0 {
                FeedStep::Fail
            } else if packet_stream >= 0 && packet_stream as int == self.stream_index {
                FeedStep::Send
            } else {
                FeedStep::Skip
            },
    {
        if rc == AVERROR_EOF {
            if self.eof_sent {
                FeedStep::Done
            } else {
                FeedStep::SendDrain
            }
        } else if rc < 0 {
            FeedStep::Fail
        } else if packet_stream >= 0 && packet_stream as usize == self.stream_index {
            FeedStep::Send
        } else {
            FeedStep::Skip
        }
    }

    /// The drain packet went out.
    pub fn drain_sent(&mut self)
        ensures
            *final(self) == (DecodeSession { eof_sent: true, ..*old(self) }),
    {
        self.eof_sent = true;
    }

    /// Reset decoder-internal state only; the position and an armed
    /// exact-seek target stay.
    pub fn flush(&mut self)
        ensures
            *final(self) == (DecodeSession { eof_sent: false, drain_done: false, ..*old(self) }),
    {
        self.eof_sent = false;
        self.drain_done = false;
    }

    /// Cooperative cancel: later calls answer `Cancelled`.
    pub fn cancel(&mut self)
        ensures
            *final(self) == (DecodeSession { cancelled: true, ..*old(self) }),
    {
        self.cancelled = true;
    }

    /// A frame's exact duration from its duration in ticks; a frame
    /// without one (zero or negative) or whose duration does not fit is
    /// corrupt.
    pub fn frame_duration(&self, dur_ticks: i64) -> (r: Result<Rational, DecodeError>)
        requires
            dur_ticks > 0 ==> ticks_ok(dur_ticks, self.tb_num, self.tb_den),
        ensures
            dur_ticks <= 0 ==> r is Err && r->Err_0 is Corrupt && r->Err_0->Corrupt_0@
                == "frame without duration"@,
            dur_ticks > 0 ==> match ticks_value(dur_ticks, self.tb_num, self.tb_den) {
                Some(d) => r == Ok::<Rational, DecodeError>(d),
                None => r is Err && r->Err_0 is Corrupt && r->Err_0->Corrupt_0@
                    == "duration out of rational range"@,
            },
    {
        if dur_ticks > 0 {
            match ticks_to_rational(dur_ticks, self.tb_num, self.tb_den) {
                Some(d) => Ok(d),
                None => Err(DecodeError::Corrupt(String::from_str("duration out of rational range"))),
            }
        } else {
            Err(DecodeError::Corrupt(String::from_str("frame without duration")))
        }
    }

    /// A pooled buffer of the session's geometry for the next frame.
    pub fn acquire_buffer(&mut self) -> (r: PooledBuffer)
        requires
            old(self).pool.wf(),
            old(self).pool@.live < usize::MAX,
            gen_of(old(self).pool@.gens, old(self).pool_key@) < u64::MAX,
            old(self).pool@.recycles < u64::MAX,
        ensures
            final(self).pool.wf(),
            final(self).pool@.live == old(self).pool@.live + 1,
            r@.key == old(self).pool_key@,
            r@.data == Seq::new(old(self).pool_bytes as nat, |i: int| 0u8),
            r@.strides == old(self).pool_strides@,
            r@.generation == gen_of(final(self).pool@.gens, old(self).pool_key@),
            *final(self) == (DecodeSession { pool: final(self).pool, ..*old(self) }),
    {
        let strides = self.pool_strides.clone();
        self.pool.acquire(&self.pool_key, self.pool_bytes, strides)
    }

    /// The plane copy failed: the buffer goes back to the pool.
    pub fn return_buffer(&mut self, buf: PooledBuffer)
        requires
            old(self).pool.wf(),
        ensures
            final(self).pool.wf(),
            gen_of(old(self).pool@.gens, old(self).pool_key@) != buf@.generation
                ==> final(self).pool@ == old(self).pool@,
            gen_of(old(self).pool@.gens, old(self).pool_key@) == buf@.generation
                ==> exists|cap: usize|
                cap >= buf@.data.len() && final(self).pool@ == (PoolV {
                    free: #[trigger] put_one(
                        old(self).pool@.free,
                        old(self).pool_key@,
                        old(self).pool@.max as nat,
                        cap,
                    ),
                    live: if old(self).pool@.live > 0 { (old(self).pool@.live - 1) as usize } else { 0 },
                    ..old(self).pool@
                }),
            *final(self) == (DecodeSession { pool: final(self).pool, ..*old(self) }),
    {
        let generation = buf.generation();
        let data = buf.into_data();
        let _ = self.pool.release_bytes(&self.pool_key, data, generation);
    }

    /// The delivered frame: the session's stream and geometry, the frame's
    /// times, key flag and color tags, and the pooled buffer's bytes and
    /// generation.
    pub fn finish_frame(
        &self,
        buf: PooledBuffer,
        pts: Rational,
        duration: Rational,
        keyframe: bool,
        color: ColorTags,
    ) -> (r: FrameEnvelope)
        ensures
            r@.pts == pts && r@.duration == duration && r@.timeline_pts is None,
            r@.stream_id == self.stream_id,
            r@.width == self.width && r@.height == self.height,
            r@.pixel_format == self.pixel_format@ && r@.bit_depth == self.bit_depth,
            r@.color == color && r@.keyframe == keyframe,
            r@.memory == FrameMemory::Cpu,
            r@.payload == (PayloadV::Cpu { data: buf@.data, strides: buf@.strides }),
            r@.backend == BackendId::FFmpegSw@,
            r@.generation == buf@.generation,
    {
        let generation = buf.generation();
        let bytes = buf.into_frame_bytes();
        FrameEnvelope::video_cpu(
            pts,
            duration,
            self.stream_id,
            self.width,
            self.height,
            self.pixel_format.clone(),
            self.bit_depth,
            color,
            bytes,
            keyframe,
            BackendId::FFmpegSw,
            generation,
        )
    }

    /// Reclaim a consumed frame's CPU bytes into the pool; a frame held
    /// across a recycle (stale generation) or one without CPU bytes is an
    /// internal failure and leaves the pool as it was.
    pub fn reclaim(&mut self, frame: FrameEnvelope) -> (r: Result<(), DecodeError>)
        requires
            old(self).pool.wf(),
        ensures
            final(self).pool.wf(),
            *final(self) == (DecodeSession { pool: final(self).pool, ..*old(self) }),
            !(frame@.payload is Cpu) ==> r is Err && r->Err_0 is Internal && r->Err_0->Internal_0@
                == "reclaim of non-CPU frame"@ && final(self).pool@ == old(self).pool@,
            frame@.payload is Cpu && gen_of(old(self).pool@.gens, old(self).pool_key@)
                != frame@.generation ==> r is Err && r->Err_0 is Internal && r->Err_0->Internal_0@
                == frame_err_text(
                FrameError::StaleFrame {
                    held: frame@.generation,
                    current: gen_of(old(self).pool@.gens, old(self).pool_key@),
                },
            ) && final(self).pool@ == old(self).pool@,
            frame@.payload is Cpu && gen_of(old(self).pool@.gens, old(self).pool_key@)
                == frame@.generation ==> r is Ok && exists|cap: usize|
                cap >= frame@.payload->Cpu_data.len() && final(self).pool@ == (PoolV {
                    free: #[trigger] put_one(
                        old(self).pool@.free,
                        old(self).pool_key@,
                        old(self).pool@.max as nat,
                        cap,
                    ),
                    live: if old(self).pool@.live > 0 {
                        (old(self).pool@.live - 1) as usize
                    } else {
                        0
                    },
                    ..old(self).pool@
                }),
    {
        let generation = frame.generation();
        let data = match frame.cpu_bytes() {
            Some(b) => b.data.clone(),
            None => {
                return Err(DecodeError::Internal(String::from_str("reclaim of non-CPU frame")));
            },
        };
        match self.pool.check_live(&self.pool_key, generation) {
            Ok(()) => {},
            Err(e) => {
                return Err(DecodeError::Internal(e.message()));
            },
        }
        match self.pool.release_bytes(&self.pool_key, data, generation) {
            Ok(()) => Ok(()),
            Err(e) => Err(DecodeError::Internal(e.message())),
        }
    }

    pub fn pool_stats(&self) -> (r: PoolStats)
        requires
            self.pool.wf(),
        ensures
            r.live == self.pool@.live,
            r.keys == self.pool@.free.len(),
            r.recycles == self.pool@.recycles,
    {
        self.pool.stats()
    }
}

} // verus!
