//! The frame envelope: the only frame type that crosses crate boundaries.
//! All five color tags are required fields with unknown-as-value enums,
//! timestamps are exact rationals, the memory location is explicit, and the
//! envelope is not `Clone`: sharing is an explicit, visible CPU deep copy.
use crate::media::asset::StreamId;
use crate::text::{digits_of, push_digits};
use crate::time::Rational;
use vstd::prelude::*;

verus! {

#[derive(Clone, Copy, Debug, PartialEq, Eq, Structural)]
pub enum Primaries {
    Bt709,
    Bt470m,
    Bt470bg,
    Bt601525,
    Bt601625,
    Bt2020,
    DciP3,
    Unknown,
}

#[derive(Clone, Copy, Debug, PartialEq, Eq, Structural)]
pub enum Transfer {
    Bt709,
    Gamma22,
    Gamma28,
    Srgb,
    Linear,
    Log100,
    Log316,
    Pq,
    Hlg,
    Unknown,
}

#[derive(Clone, Copy, Debug, PartialEq, Eq, Structural)]
pub enum MatrixCoeffs {
    Identity,
    Bt709,
    Bt470bg,
    Smpte170m,
    Smpte240m,
    Bt2020Ncl,
    Bt2020Pcl,
    Unknown,
}

#[derive(Clone, Copy, Debug, PartialEq, Eq, Structural)]
pub enum Range {
    Limited,
    Full,
    Unknown,
}

#[derive(Clone, Copy, Debug, PartialEq, Eq, Structural)]
pub enum ChromaLoc {
    Left,
    Center,
    TopLeft,
    Top,
    BottomLeft,
    Bottom,
    Unknown,
}

/// The five mandatory color tags.
#[derive(Clone, Copy, Debug, PartialEq, Eq, Structural)]
pub struct ColorTags {
    pub primaries: Primaries,
    pub transfer: Transfer,
    pub matrix: MatrixCoeffs,
    pub range: Range,
    pub chroma_loc: Option<ChromaLoc>,
}

/// All tags unknown (and no chroma location).
pub open spec fn unknown_tags() -> ColorTags {
    ColorTags {
        primaries: Primaries::Unknown,
        transfer: Transfer::Unknown,
        matrix: MatrixCoeffs::Unknown,
        range: Range::Unknown,
        chroma_loc: None,
    }
}

impl ColorTags {
    /// Explicit all-unknown tags: allowed, but never silently invented.
    pub fn unknown() -> (r: Self)
        ensures
            r == unknown_tags(),
    {
        ColorTags {
            primaries: Primaries::Unknown,
            transfer: Transfer::Unknown,
            matrix: MatrixCoeffs::Unknown,
            range: Range::Unknown,
            chroma_loc: None,
        }
    }
}

/// Pixel format as an enum; genuinely exotic formats surface as `Other(name)`.
#[derive(Debug, PartialEq, Eq, Hash)]
pub enum PixelFormat {
    Yuv420p,
    Yuvj420p,
    Yuv422p,
    Yuv444p,
    Yuv420p10le,
    Yuv422p10le,
    Yuv444p10le,
    Nv12,
    Nv21,
    P010le,
    Rgba,
    Bgra,
    Rgb24,
    Bgr24,
    Gray8,
    Gray16le,
    Other(String),
}

/// The abstract value of a pixel format (the name of `Other` as characters).
pub enum PixelFormatV {
    Yuv420p,
    Yuvj420p,
    Yuv422p,
    Yuv444p,
    Yuv420p10le,
    Yuv422p10le,
    Yuv444p10le,
    Nv12,
    Nv21,
    P010le,
    Rgba,
    Bgra,
    Rgb24,
    Bgr24,
    Gray8,
    Gray16le,
    Other(Seq<char>),
}

impl View for PixelFormat {
    type V = PixelFormatV;

    open spec fn view(&self) -> PixelFormatV {
        match self {
            PixelFormat::Yuv420p => PixelFormatV::Yuv420p,
            PixelFormat::Yuvj420p => PixelFormatV::Yuvj420p,
            PixelFormat::Yuv422p => PixelFormatV::Yuv422p,
            PixelFormat::Yuv444p => PixelFormatV::Yuv444p,
            PixelFormat::Yuv420p10le => PixelFormatV::Yuv420p10le,
            PixelFormat::Yuv422p10le => PixelFormatV::Yuv422p10le,
            PixelFormat::Yuv444p10le => PixelFormatV::Yuv444p10le,
            PixelFormat::Nv12 => PixelFormatV::Nv12,
            PixelFormat::Nv21 => PixelFormatV::Nv21,
            PixelFormat::P010le => PixelFormatV::P010le,
            PixelFormat::Rgba => PixelFormatV::Rgba,
            PixelFormat::Bgra => PixelFormatV::Bgra,
            PixelFormat::Rgb24 => PixelFormatV::Rgb24,
            PixelFormat::Bgr24 => PixelFormatV::Bgr24,
            PixelFormat::Gray8 => PixelFormatV::Gray8,
            PixelFormat::Gray16le => PixelFormatV::Gray16le,
            PixelFormat::Other(s) => PixelFormatV::Other(s@),
        }
    }
}

impl Clone for PixelFormat {
    fn clone(&self) -> (r: Self)
        ensures
            r@ == self@,
    {
        match self {
            PixelFormat::Yuv420p => PixelFormat::Yuv420p,
            PixelFormat::Yuvj420p => PixelFormat::Yuvj420p,
            PixelFormat::Yuv422p => PixelFormat::Yuv422p,
            PixelFormat::Yuv444p => PixelFormat::Yuv444p,
            PixelFormat::Yuv420p10le => PixelFormat::Yuv420p10le,
            PixelFormat::Yuv422p10le => PixelFormat::Yuv422p10le,
            PixelFormat::Yuv444p10le => PixelFormat::Yuv444p10le,
            PixelFormat::Nv12 => PixelFormat::Nv12,
            PixelFormat::Nv21 => PixelFormat::Nv21,
            PixelFormat::P010le => PixelFormat::P010le,
            PixelFormat::Rgba => PixelFormat::Rgba,
            PixelFormat::Bgra => PixelFormat::Bgra,
            PixelFormat::Rgb24 => PixelFormat::Rgb24,
            PixelFormat::Bgr24 => PixelFormat::Bgr24,
            PixelFormat::Gray8 => PixelFormat::Gray8,
            PixelFormat::Gray16le => PixelFormat::Gray16le,
            PixelFormat::Other(s) => PixelFormat::Other(s.clone()),
        }
    }
}

impl PixelFormat {
    /// Whether the format is one of the planar YUV family (8 or 10 bit).
    pub fn is_yuv_planar_family(&self) -> (r: bool)
        ensures
            r == (self@ is Yuv420p || self@ is Yuvj420p || self@ is Yuv422p || self@ is Yuv444p
                || self@ is Yuv420p10le || self@ is Yuv422p10le || self@ is Yuv444p10le),
    {
        match self {
            PixelFormat::Yuv420p | PixelFormat::Yuvj420p | PixelFormat::Yuv422p
            | PixelFormat::Yuv444p | PixelFormat::Yuv420p10le | PixelFormat::Yuv422p10le
            | PixelFormat::Yuv444p10le => true,
            _ => false,
        }
    }

    /// Field-wise equality of formats (the name compared for `Other`).
    pub fn same(&self, o: &PixelFormat) -> (r: bool)
        ensures
            r == (self@ == o@),
    {
        match (self, o) {
            (PixelFormat::Other(a), PixelFormat::Other(b)) => a.eq(b),
            (PixelFormat::Other(_), _) => false,
            (_, PixelFormat::Other(_)) => false,
            _ => {
                let r = self.tag() == o.tag();
                proof {
                    if r {
                        lemma_tag_injective(self@, o@);
                    }
                }
                r
            },
        }
    }

    /// Position of the variant in the declaration.
    fn tag(&self) -> (r: u8)
        ensures
            r == tag_of(self@),
    {
        match self {
            PixelFormat::Yuv420p => 0,
            PixelFormat::Yuvj420p => 1,
            PixelFormat::Yuv422p => 2,
            PixelFormat::Yuv444p => 3,
            PixelFormat::Yuv420p10le => 4,
            PixelFormat::Yuv422p10le => 5,
            PixelFormat::Yuv444p10le => 6,
            PixelFormat::Nv12 => 7,
            PixelFormat::Nv21 => 8,
            PixelFormat::P010le => 9,
            PixelFormat::Rgba => 10,
            PixelFormat::Bgra => 11,
            PixelFormat::Rgb24 => 12,
            PixelFormat::Bgr24 => 13,
            PixelFormat::Gray8 => 14,
            PixelFormat::Gray16le => 15,
            PixelFormat::Other(_) => 16,
        }
    }
}

/// Position of a format variant in the declaration.
pub open spec fn tag_of(p: PixelFormatV) -> u8 {
    match p {
        PixelFormatV::Yuv420p => 0,
        PixelFormatV::Yuvj420p => 1,
        PixelFormatV::Yuv422p => 2,
        PixelFormatV::Yuv444p => 3,
        PixelFormatV::Yuv420p10le => 4,
        PixelFormatV::Yuv422p10le => 5,
        PixelFormatV::Yuv444p10le => 6,
        PixelFormatV::Nv12 => 7,
        PixelFormatV::Nv21 => 8,
        PixelFormatV::P010le => 9,
        PixelFormatV::Rgba => 10,
        PixelFormatV::Bgra => 11,
        PixelFormatV::Rgb24 => 12,
        PixelFormatV::Bgr24 => 13,
        PixelFormatV::Gray8 => 14,
        PixelFormatV::Gray16le => 15,
        PixelFormatV::Other(_) => 16,
    }
}

/// Distinct named formats have distinct positions.
pub proof fn lemma_tag_injective(p: PixelFormatV, q: PixelFormatV)
    requires
        !(p is Other),
        !(q is Other),
        tag_of(p) == tag_of(q),
    ensures
        p == q,
{
}

#[derive(Clone, Copy, Debug, PartialEq, Eq, Hash, Structural)]
pub enum BitDepth {
    B8,
    B10,
    B12,
    B16,
    Other(u8),
}

/// CPU bytes: all planes contiguous in `data`, per-plane strides explicit.
#[derive(Debug, PartialEq, Eq)]
pub struct FrameBytes {
    pub data: Vec<u8>,
    pub strides: Vec<usize>,
}

/// GPU-resident frame: an engine-neutral descriptor only.
#[derive(Clone, Copy, Debug, PartialEq, Eq, Structural)]
pub struct GpuHandle(pub u64);

#[derive(Clone, Copy, Debug, PartialEq, Eq, Structural)]
pub enum GpuUploadKind {
    ImportedExternalTexture,
    AHardwareBuffer,
    MappedTexture,
    ZeroCopyPlatformSurface,
}

#[derive(Clone, Copy, Debug, PartialEq, Eq, Structural)]
pub struct GpuFrameRef {
    pub handle: GpuHandle,
    pub upload_kind: GpuUploadKind,
    /// If false, the export planner must read back or re-route.
    pub exportable: bool,
}

/// Undecoded (compressed) passthrough.
#[derive(Debug, PartialEq, Eq)]
pub struct PackedSlice {
    pub data: Vec<u8>,
}

#[derive(Clone, Copy, Debug, PartialEq, Eq, Structural)]
pub enum FrameMemory {
    Cpu,
    Gpu,
    Packed,
}

#[derive(Clone, Copy, Debug, PartialEq, Eq, Structural)]
pub enum FrameKind {
    Video,
    Audio { sample_rate: u32, channels: u32 },
    Metadata,
}

/// Which adapter produced a frame.
#[derive(Debug, PartialEq, Eq)]
pub enum BackendId {
    FFmpegSw,
    MediaCodec,
    WebCodecs,
    Wgpu,
    Other(String),
}

/// The abstract value of a backend id.
pub enum BackendIdV {
    FFmpegSw,
    MediaCodec,
    WebCodecs,
    Wgpu,
    Other(Seq<char>),
}

impl View for BackendId {
    type V = BackendIdV;

    open spec fn view(&self) -> BackendIdV {
        match self {
            BackendId::FFmpegSw => BackendIdV::FFmpegSw,
            BackendId::MediaCodec => BackendIdV::MediaCodec,
            BackendId::WebCodecs => BackendIdV::WebCodecs,
            BackendId::Wgpu => BackendIdV::Wgpu,
            BackendId::Other(s) => BackendIdV::Other(s@),
        }
    }
}

impl Clone for BackendId {
    fn clone(&self) -> (r: Self)
        ensures
            r@ == self@,
    {
        match self {
            BackendId::FFmpegSw => BackendId::FFmpegSw,
            BackendId::MediaCodec => BackendId::MediaCodec,
            BackendId::WebCodecs => BackendId::WebCodecs,
            BackendId::Wgpu => BackendId::Wgpu,
            BackendId::Other(s) => BackendId::Other(s.clone()),
        }
    }
}

/// The payload of an envelope, by location.
#[derive(Debug, PartialEq)]
enum FramePayload {
    Cpu(FrameBytes),
    Gpu(GpuFrameRef),
    Packed(PackedSlice),
}

/// The abstract value of a payload.
pub enum PayloadV {
    Cpu { data: Seq<u8>, strides: Seq<usize> },
    Gpu(GpuFrameRef),
    Packed(Seq<u8>),
}

#[derive(Clone, Copy, Debug, PartialEq, Eq, Structural)]
pub enum FrameError {
    /// Deep copy of a GPU frame: the contract forbids silent copies.
    GpuCopyForbidden,
    PackedCopyNotSupported,
    /// Pool generation mismatch: the holder kept the frame across a recycle.
    StaleFrame { held: u64, current: u64 },
}

/// The display text of a frame error.
pub open spec fn frame_err_text(e: FrameError) -> Seq<char> {
    match e {
        FrameError::GpuCopyForbidden => "GPU frames cannot be deep-copied; use the backend's visible copy_frame"@,
        FrameError::PackedCopyNotSupported => "packed (compressed) payload copy not supported"@,
        FrameError::StaleFrame { held, current } => "stale frame: held generation "@ + digits_of(
            held as nat,
        ) + ", pool at "@ + digits_of(current as nat),
    }
}

impl FrameError {
    /// The display text.
    pub fn message(&self) -> (r: String)
        ensures
            r@ == frame_err_text(*self),
    {
        let mut s = String::new();
        match self {
            FrameError::GpuCopyForbidden => {
                s.append("GPU frames cannot be deep-copied; use the backend's visible copy_frame");
            },
            FrameError::PackedCopyNotSupported => {
                s.append("packed (compressed) payload copy not supported");
            },
            FrameError::StaleFrame { held, current } => {
                s.append("stale frame: held generation ");
                push_digits(&mut s, *held);
                s.append(", pool at ");
                push_digits(&mut s, *current);
            },
        }
        assert(s@ =~= frame_err_text(*self));
        s
    }
}

#[derive(Debug, PartialEq)]
pub struct FrameEnvelope {
    /// Exact presentation time.
    pub pts: Rational,
    /// Exact duration; never inferred from a frame rate.
    pub duration: Rational,
    /// Set by remap when the frame is scheduled on the project axis.
    pub timeline_pts: Option<Rational>,
    pub stream_id: StreamId,
    pub kind: FrameKind,
    pub width: u32,
    pub height: u32,
    pub pixel_format: PixelFormat,
    pub bit_depth: BitDepth,
    /// All five tags required (unknown-as-value fine, absence not).
    pub color: ColorTags,
    pub memory: FrameMemory,
    payload: FramePayload,
    /// Decode entry-point flag.
    pub keyframe: bool,
    pub backend: BackendId,
    /// Pool generation, for stale detection.
    pub generation: u64,
}

/// The abstract value of a frame envelope: its fields, with formats,
/// backends and payload by value.
pub struct FrameV {
    pub pts: Rational,
    pub duration: Rational,
    pub timeline_pts: Option<Rational>,
    pub stream_id: StreamId,
    pub kind: FrameKind,
    pub width: u32,
    pub height: u32,
    pub pixel_format: PixelFormatV,
    pub bit_depth: BitDepth,
    pub color: ColorTags,
    pub memory: FrameMemory,
    pub payload: PayloadV,
    pub keyframe: bool,
    pub backend: BackendIdV,
    pub generation: u64,
}

impl View for FrameEnvelope {
    type V = FrameV;

    closed spec fn view(&self) -> FrameV {
        FrameV {
            pts: self.pts,
            duration: self.duration,
            timeline_pts: self.timeline_pts,
            stream_id: self.stream_id,
            kind: self.kind,
            width: self.width,
            height: self.height,
            pixel_format: self.pixel_format@,
            bit_depth: self.bit_depth,
            color: self.color,
            memory: self.memory,
            payload: match self.payload {
                FramePayload::Cpu(b) => PayloadV::Cpu { data: b.data@, strides: b.strides@ },
                FramePayload::Gpu(g) => PayloadV::Gpu(g),
                FramePayload::Packed(p) => PayloadV::Packed(p.data@),
            },
            keyframe: self.keyframe,
            backend: self.backend@,
            generation: self.generation,
        }
    }
}

impl FrameEnvelope {
    /// A CPU video frame.
    pub fn video_cpu(
        pts: Rational,
        duration: Rational,
        stream_id: StreamId,
        width: u32,
        height: u32,
        pixel_format: PixelFormat,
        bit_depth: BitDepth,
        color: ColorTags,
        bytes: FrameBytes,
        keyframe: bool,
        backend: BackendId,
        generation: u64,
    ) -> (r: Self)
        ensures
            r@.pts == pts && r@.duration == duration && r@.timeline_pts is None,
            r@.stream_id == stream_id && r@.kind == FrameKind::Video,
            r@.width == width && r@.height == height,
            r@.pixel_format == pixel_format@ && r@.bit_depth == bit_depth && r@.color == color,
            r@.memory == FrameMemory::Cpu,
            r@.payload == (PayloadV::Cpu { data: bytes.data@, strides: bytes.strides@ }),
            r@.keyframe == keyframe && r@.backend == backend@ && r@.generation == generation,
    {
        FrameEnvelope {
            pts,
            duration,
            timeline_pts: None,
            stream_id,
            kind: FrameKind::Video,
            width,
            height,
            pixel_format,
            bit_depth,
            color,
            memory: FrameMemory::Cpu,
            payload: FramePayload::Cpu(bytes),
            keyframe,
            backend,
            generation,
        }
    }

    /// A GPU-resident video frame.
    pub fn video_gpu(
        pts: Rational,
        duration: Rational,
        stream_id: StreamId,
        width: u32,
        height: u32,
        pixel_format: PixelFormat,
        bit_depth: BitDepth,
        color: ColorTags,
        gpu: GpuFrameRef,
        keyframe: bool,
        backend: BackendId,
        generation: u64,
    ) -> (r: Self)
        ensures
            r@.pts == pts && r@.duration == duration && r@.timeline_pts is None,
            r@.stream_id == stream_id && r@.kind == FrameKind::Video,
            r@.width == width && r@.height == height,
            r@.pixel_format == pixel_format@ && r@.bit_depth == bit_depth && r@.color == color,
            r@.memory == FrameMemory::Gpu,
            r@.payload == PayloadV::Gpu(gpu),
            r@.keyframe == keyframe && r@.backend == backend@ && r@.generation == generation,
    {
        FrameEnvelope {
            pts,
            duration,
            timeline_pts: None,
            stream_id,
            kind: FrameKind::Video,
            width,
            height,
            pixel_format,
            bit_depth,
            color,
            memory: FrameMemory::Gpu,
            payload: FramePayload::Gpu(gpu),
            keyframe,
            backend,
            generation,
        }
    }

    /// A compressed passthrough frame (format "compressed", unknown tags).
    pub fn packed(
        pts: Rational,
        duration: Rational,
        stream_id: StreamId,
        data: Vec<u8>,
        keyframe: bool,
        backend: BackendId,
    ) -> (r: Self)
        ensures
            r@.pts == pts && r@.duration == duration && r@.timeline_pts is None,
            r@.stream_id == stream_id && r@.kind == FrameKind::Video,
            r@.width == 0 && r@.height == 0,
            r@.pixel_format == PixelFormatV::Other("compressed"@),
            r@.bit_depth == BitDepth::Other(0),
            r@.color == unknown_tags(),
            r@.memory == FrameMemory::Packed,
            r@.payload == PayloadV::Packed(data@),
            r@.keyframe == keyframe && r@.backend == backend@ && r@.generation == 0,
    {
        FrameEnvelope {
            pts,
            duration,
            timeline_pts: None,
            stream_id,
            kind: FrameKind::Video,
            width: 0,
            height: 0,
            pixel_format: PixelFormat::Other(String::from_str("compressed")),
            bit_depth: BitDepth::Other(0),
            color: ColorTags::unknown(),
            memory: FrameMemory::Packed,
            payload: FramePayload::Packed(PackedSlice { data }),
            keyframe,
            backend,
            generation: 0,
        }
    }

    /// An audio frame; its duration is exactly `samples / sample_rate`.
    pub fn audio(
        pts: Rational,
        stream_id: StreamId,
        sample_rate: u32,
        channels: u32,
        samples: usize,
        bytes: FrameBytes,
        backend: BackendId,
        generation: u64,
    ) -> (r: Self)
        requires
            sample_rate > 0,
            samples <= i64::MAX,
        ensures
            r@.pts == pts,
            r@.duration == Rational::from_red(samples as int, sample_rate as int),
            r@.timeline_pts is None,
            r@.stream_id == stream_id,
            r@.kind == (FrameKind::Audio { sample_rate, channels }),
            r@.width == 0 && r@.height == 0,
            r@.pixel_format == PixelFormatV::Other("pcm"@),
            r@.bit_depth == BitDepth::Other(0),
            r@.color == unknown_tags(),
            r@.memory == FrameMemory::Cpu,
            r@.payload == (PayloadV::Cpu { data: bytes.data@, strides: bytes.strides@ }),
            !r@.keyframe && r@.backend == backend@ && r@.generation == generation,
    {
        let duration = Rational::new(samples as i64, sample_rate as i64);
        FrameEnvelope {
            pts,
            duration,
            timeline_pts: None,
            stream_id,
            kind: FrameKind::Audio { sample_rate, channels },
            width: 0,
            height: 0,
            pixel_format: PixelFormat::Other(String::from_str("pcm")),
            bit_depth: BitDepth::Other(0),
            color: ColorTags::unknown(),
            memory: FrameMemory::Cpu,
            payload: FramePayload::Cpu(bytes),
            keyframe: false,
            backend,
            generation,
        }
    }

    /// The CPU bytes, if the payload is on the CPU.
    /// The pool generation the frame was born at.
    pub fn generation(&self) -> (r: u64)
        ensures
            r == self@.generation,
    {
        self.generation
    }

    pub fn cpu_bytes(&self) -> (r: Option<&FrameBytes>)
        ensures
            match self@.payload {
                PayloadV::Cpu { data, strides } => r is Some && r->0.data@ == data
                    && r->0.strides@ == strides,
                _ => r is None,
            },
    {
        match &self.payload {
            FramePayload::Cpu(b) => Some(b),
            _ => None,
        }
    }

    /// Mutable access to the CPU bytes, if the payload is on the CPU.
    pub fn cpu_bytes_mut(&mut self) -> (r: Option<&mut FrameBytes>)
        ensures
            r is Some <==> old(self)@.payload is Cpu,
            r is Some ==> (*r->0).data@ == old(self)@.payload->Cpu_data,
    {
        match &mut self.payload {
            FramePayload::Cpu(b) => Some(b),
            _ => None,
        }
    }

    /// The GPU descriptor, if the payload is on the GPU.
    pub fn gpu_ref(&self) -> (r: Option<GpuFrameRef>)
        ensures
            match self@.payload {
                PayloadV::Gpu(g) => r == Some(g),
                _ => r is None,
            },
    {
        match &self.payload {
            FramePayload::Gpu(g) => Some(*g),
            _ => None,
        }
    }

    /// The compressed bytes, if the payload is packed.
    pub fn packed_data(&self) -> (r: Option<&[u8]>)
        ensures
            match self@.payload {
                PayloadV::Packed(d) => r is Some && r->0@ == d,
                _ => r is None,
            },
    {
        match &self.payload {
            FramePayload::Packed(p) => Some(p.data.as_slice()),
            _ => None,
        }
    }

    /// Explicit, visible deep copy of a CPU frame. GPU frames are rejected
    /// (sharing is a backend-visible copy), and so are packed ones.
    pub fn deep_copy_cpu(&self) -> (r: Result<FrameEnvelope, FrameError>)
        ensures
            match self@.payload {
                PayloadV::Cpu { data, strides } => r is Ok && same_header(r->Ok_0@, self@)
                    && r->Ok_0@.memory == FrameMemory::Cpu && r->Ok_0@.payload == (PayloadV::Cpu {
                    data,
                    strides,
                }),
                PayloadV::Gpu(_) => r == Err::<FrameEnvelope, FrameError>(
                    FrameError::GpuCopyForbidden,
                ),
                PayloadV::Packed(_) => r == Err::<FrameEnvelope, FrameError>(
                    FrameError::PackedCopyNotSupported,
                ),
            },
    {
        match &self.payload {
            FramePayload::Cpu(b) => {
                let data = copy_bytes(&b.data);
                let strides = copy_strides(&b.strides);
                Ok(
                    FrameEnvelope {
                        pts: self.pts,
                        duration: self.duration,
                        timeline_pts: self.timeline_pts,
                        stream_id: self.stream_id,
                        kind: self.kind,
                        width: self.width,
                        height: self.height,
                        pixel_format: self.pixel_format.clone(),
                        bit_depth: self.bit_depth,
                        color: self.color,
                        memory: FrameMemory::Cpu,
                        payload: FramePayload::Cpu(FrameBytes { data, strides }),
                        keyframe: self.keyframe,
                        backend: self.backend.clone(),
                        generation: self.generation,
                    },
                )
            },
            FramePayload::Gpu(_) => Err(FrameError::GpuCopyForbidden),
            FramePayload::Packed(_) => Err(FrameError::PackedCopyNotSupported),
        }
    }
}

/// Two frames agree on every field but the memory location and payload.
pub open spec fn same_header(a: FrameV, b: FrameV) -> bool {
    &&& a.pts == b.pts
    &&& a.duration == b.duration
    &&& a.timeline_pts == b.timeline_pts
    &&& a.stream_id == b.stream_id
    &&& a.kind == b.kind
    &&& a.width == b.width
    &&& a.height == b.height
    &&& a.pixel_format == b.pixel_format
    &&& a.bit_depth == b.bit_depth
    &&& a.color == b.color
    &&& a.keyframe == b.keyframe
    &&& a.backend == b.backend
    &&& a.generation == b.generation
}

/// A copy of a byte vector.
pub fn copy_bytes(v: &Vec<u8>) -> (r: Vec<u8>)
    ensures
        r@ == v@,
{
    let mut out: Vec<u8> = Vec::new();
    let mut i: usize = 0;
    while i < v.len()
        invariant
            i <= v@.len(),
            out@ == v@.take(i as int),
        decreases v@.len() - i,
    {
        out.push(v[i]);
        proof {
            assert(v@.take(i as int + 1) =~= v@.take(i as int).push(v@[i as int]));
        }
        i += 1;
    }
    proof {
        assert(v@.take(v@.len() as int) =~= v@);
    }
    out
}

/// A copy of a stride vector.
pub fn copy_strides(v: &Vec<usize>) -> (r: Vec<usize>)
    ensures
        r@ == v@,
{
    let mut out: Vec<usize> = Vec::new();
    let mut i: usize = 0;
    while i < v.len()
        invariant
            i <= v@.len(),
            out@ == v@.take(i as int),
        decreases v@.len() - i,
    {
        out.push(v[i]);
        proof {
            assert(v@.take(i as int + 1) =~= v@.take(i as int).push(v@[i as int]));
        }
        i += 1;
    }
    proof {
        assert(v@.take(v@.len() as int) =~= v@);
    }
    out
}

} // verus!
