//! The decoder abstraction: seek modes, configuration, declared
//! capabilities, typed errors and the session state machine that decoder
//! backends implement, plus the exact conversions from container time bases.
use crate::media::asset::{AssetRef, StreamId};
use crate::media::frame::{
    BitDepth, ChromaLoc, ColorTags, FrameEnvelope, FrameMemory, MatrixCoeffs, PixelFormat, Primaries,
    Range, Transfer,
};
use crate::media::probe::{KeyframeIndex, ProbeError};
use crate::time::Rational;
use vstd::prelude::*;

verus! {

/// Seek semantics.
#[derive(Clone, Copy, Debug, PartialEq, Eq, Structural)]
pub enum SeekMode {
    /// Decode forward from the keyframe at or before the pts and drop until
    /// exact.
    Exact,
    /// Land on the keyframe at or before the pts; needs a keyframe index.
    Snap,
}

/// Hardware acceleration request; lack of support is a typed error, never a
/// hidden downgrade.
#[derive(Clone, Copy, Debug, PartialEq, Eq)]
pub enum HwAccel {
    Auto,
    Vendor(&'static str),
}

#[derive(Clone, Debug, PartialEq, Eq)]
pub struct DecodeConfig {
    /// None = software decode; Some = hardware required.
    pub hw: Option<HwAccel>,
    /// Internal decoder threads.
    pub thread_count: u8,
    /// Prebuilt keyframe index; enables `SeekMode::Snap`.
    pub keyframe_index: Option<KeyframeIndex>,
}

impl Default for DecodeConfig {
    fn default() -> (r: Self)
        ensures
            r.hw is None,
            r.thread_count == 1,
            r.keyframe_index is None,
    {
        DecodeConfig { hw: None, thread_count: 1, keyframe_index: None }
    }
}

/// Declared capabilities of a decoder instance.
#[derive(Clone, Debug, PartialEq, Eq)]
pub struct DecoderCaps {
    /// None for software builds.
    pub hw: Option<HwInfo>,
    /// Exact always; Snap present iff a keyframe index is available.
    pub seek_modes: Vec<SeekMode>,
    pub memory_outputs: Vec<FrameMemory>,
    pub pixel_formats: Vec<PixelFormat>,
    pub max_bit_depth: BitDepth,
    pub threaded: bool,
}

#[derive(Clone, Debug, PartialEq, Eq)]
pub struct HwInfo {
    pub vendor: String,
}

/// Typed decode errors: corrupt inputs are values, never panics.
#[derive(Clone, Debug, PartialEq, Eq)]
pub enum DecodeError {
    Unreadable,
    Corrupt(String),
    Unsupported(String),
    Cancelled,
    Io(String),
    /// Backend-internal failures that map to no cleaner variant; they carry
    /// context.
    Internal(String),
}

/// The display text of a decode error.
pub open spec fn decode_err_text(e: DecodeError) -> Seq<char> {
    match e {
        DecodeError::Unreadable => "unreadable media"@,
        DecodeError::Corrupt(d) => "corrupt media: "@ + d@,
        DecodeError::Unsupported(d) => "unsupported: "@ + d@,
        DecodeError::Cancelled => "decode cancelled"@,
        DecodeError::Io(d) => "io: "@ + d@,
        DecodeError::Internal(d) => "internal: "@ + d@,
    }
}

impl DecodeError {
    /// The display text.
    pub fn message(&self) -> (r: String)
        ensures
            r@ == decode_err_text(*self),
    {
        let mut s = String::new();
        match self {
            DecodeError::Unreadable => {
                s.append("unreadable media");
            },
            DecodeError::Corrupt(d) => {
                s.append("corrupt media: ");
                s.append(d.as_str());
            },
            DecodeError::Unsupported(d) => {
                s.append("unsupported: ");
                s.append(d.as_str());
            },
            DecodeError::Cancelled => {
                s.append("decode cancelled");
            },
            DecodeError::Io(d) => {
                s.append("io: ");
                s.append(d.as_str());
            },
            DecodeError::Internal(d) => {
                s.append("internal: ");
                s.append(d.as_str());
            },
        }
        assert(s@ =~= decode_err_text(*self));
        s
    }
}

/// The decoder session state machine (pull model): open, seek, next,
/// flush, cancel. All times are exact rationals.
pub trait Decoder {
    fn open(asset: &AssetRef, stream: StreamId, cfg: DecodeConfig) -> Result<Self, DecodeError> where
        Self: Sized,
    ;

    fn capabilities(&self) -> &DecoderCaps;

    /// Seek; returns the landed pts.
    fn seek(&mut self, pts: Rational, mode: SeekMode) -> Result<Rational, DecodeError>;

    /// The next frame at or after the cursor; `Ok(None)` at end of stream.
    fn next(&mut self) -> Result<Option<FrameEnvelope>, DecodeError>;

    /// Reset decoder-internal state; `next` continues from the last position.
    fn flush(&mut self);

    /// Cooperative cancel; the session is unusable afterwards.
    fn cancel(&mut self);
}

/// The numerator of a time base `num/den` with the denominator's sign
/// moved onto it.
pub open spec fn norm_num(num: i32, den: i32) -> int {
    if den < 0 {
        -num
    } else {
        num as int
    }
}

/// The denominator of a time base made non-negative.
pub open spec fn norm_den(num: i32, den: i32) -> int {
    if den < 0 {
        -den
    } else {
        den as int
    }
}

/// The exact value of a time base with a non-zero denominator.
pub open spec fn tb_value(num: i32, den: i32) -> Rational {
    Rational::from_red(norm_num(num, den), norm_den(num, den))
}

/// The exact time of `ticks` in a time base: None for a zero denominator or
/// when `ticks * num` does not fit `i64`.
pub open spec fn ticks_value(ticks: i64, num: i32, den: i32) -> Option<Rational> {
    let n = ticks * norm_num(num, den);
    if den == 0 || n < i64::MIN || n > i64::MAX {
        None
    } else {
        Some(Rational::from_red(n, norm_den(num, den)))
    }
}

/// `ticks * num` is not `i64::MIN` (whose magnitude a reduction cannot
/// take).
pub open spec fn ticks_ok(ticks: i64, num: i32, den: i32) -> bool {
    ticks * norm_num(num, den) != i64::MIN
}

/// A container time base `num/den` as an exact value: a zero denominator
/// is rejected, a negative one normalized by flipping both signs.
pub fn av_rational_to_rational(num: i32, den: i32) -> (r: Result<Rational, ProbeError>)
    ensures
        den == 0 ==> r is Err && r->Err_0 is Unsupported && r->Err_0->Unsupported_0@ == "zero time base"@,
        den != 0 ==> r == Ok::<Rational, ProbeError>(tb_value(num, den)),
{
    if den == 0 {
        return Err(ProbeError::Unsupported(String::from_str("zero time base")));
    }
    if den > 0 {
        Ok(Rational::new(num as i64, den as i64))
    } else {
        Ok(Rational::new(-(num as i64), -(den as i64)))
    }
}

/// Packet ticks in a time base `num/den` as an exact value, or None when
/// the denominator is zero or `ticks * num` does not fit `i64`.
pub fn ticks_to_rational(ticks: i64, num: i32, den: i32) -> (r: Option<Rational>)
    requires
        ticks_ok(ticks, num, den),
    ensures
        r == ticks_value(ticks, num, den),
{
    if den == 0 {
        return None;
    }
    let (n, d): (i64, i64) = if den > 0 {
        (num as i64, den as i64)
    } else {
        (-(num as i64), -(den as i64))
    };
    proof {
        assert(-0x8000_0000_0000_0000_0000_0000_0000_0000 < (ticks as int) * (n as int)
            < 0x8000_0000_0000_0000_0000_0000_0000_0000) by (nonlinear_arith)
            requires
                -0x8000_0000_0000_0000 <= ticks < 0x8000_0000_0000_0000,
                -0x8000_0000 <= n <= 0x8000_0000,
        ;
    }
    let num128: i128 = (ticks as i128) * (n as i128);
    if num128 < i64::MIN as i128 || num128 > i64::MAX as i128 {
        return None;
    }
    Some(Rational::new(num128 as i64, d))
}

/// Color primaries for a container code (the ISO/IEC 23091-4 code points
/// FFmpeg uses); unmapped codes are `Unknown`, as a value.
pub open spec fn primaries_of(code: i32) -> Primaries {
    if code == 1 {
        Primaries::Bt709
    } else if code == 4 {
        Primaries::Bt470m
    } else if code == 5 {
        Primaries::Bt470bg
    } else if code == 6 {
        Primaries::Bt601525
    } else if code == 9 {
        Primaries::Bt2020
    } else if code == 11 {
        Primaries::DciP3
    } else {
        Primaries::Unknown
    }
}

/// Transfer characteristics for a container code.
pub open spec fn transfer_of(code: i32) -> Transfer {
    if code == 1 {
        Transfer::Bt709
    } else if code == 4 {
        Transfer::Gamma22
    } else if code == 5 {
        Transfer::Gamma28
    } else if code == 13 {
        Transfer::Srgb
    } else if code == 8 {
        Transfer::Linear
    } else if code == 9 {
        Transfer::Log100
    } else if code == 10 {
        Transfer::Log316
    } else if code == 16 {
        Transfer::Pq
    } else if code == 18 {
        Transfer::Hlg
    } else {
        Transfer::Unknown
    }
}

/// Matrix coefficients for a container code.
pub open spec fn matrix_of(code: i32) -> MatrixCoeffs {
    if code == 0 {
        MatrixCoeffs::Identity
    } else if code == 1 {
        MatrixCoeffs::Bt709
    } else if code == 5 {
        MatrixCoeffs::Bt470bg
    } else if code == 6 {
        MatrixCoeffs::Smpte170m
    } else if code == 7 {
        MatrixCoeffs::Smpte240m
    } else if code == 9 {
        MatrixCoeffs::Bt2020Ncl
    } else if code == 10 {
        MatrixCoeffs::Bt2020Pcl
    } else {
        MatrixCoeffs::Unknown
    }
}

/// Range for a container code (1 = limited/MPEG, 2 = full/JPEG).
pub open spec fn range_of(code: i32) -> Range {
    if code == 1 {
        Range::Limited
    } else if code == 2 {
        Range::Full
    } else {
        Range::Unknown
    }
}

/// Chroma location for a container code; unspecified is no location.
pub open spec fn chroma_of(code: i32) -> Option<ChromaLoc> {
    if code == 1 {
        Some(ChromaLoc::Left)
    } else if code == 2 {
        Some(ChromaLoc::Center)
    } else if code == 3 {
        Some(ChromaLoc::TopLeft)
    } else if code == 4 {
        Some(ChromaLoc::Top)
    } else if code == 5 {
        Some(ChromaLoc::BottomLeft)
    } else if code == 6 {
        Some(ChromaLoc::Bottom)
    } else {
        None
    }
}

/// All five color tags from the container's codes; anything unmapped is
/// `Unknown` (a value, never an absence).
pub fn map_color(primaries: i32, transfer: i32, matrix: i32, range: i32, chroma_loc: i32) -> (r: ColorTags)
    ensures
        r == (ColorTags {
            primaries: primaries_of(primaries),
            transfer: transfer_of(transfer),
            matrix: matrix_of(matrix),
            range: range_of(range),
            chroma_loc: chroma_of(chroma_loc),
        }),
{
    let primaries = match primaries {
        1 => Primaries::Bt709,
        4 => Primaries::Bt470m,
        5 => Primaries::Bt470bg,
        6 => Primaries::Bt601525,
        // 625-line BT.601 files report BT470BG (mapped above); `Bt601625`
        // stays for other backends
        9 => Primaries::Bt2020,
        11 => Primaries::DciP3,
        _ => Primaries::Unknown,
    };
    let transfer = match transfer {
        1 => Transfer::Bt709,
        4 => Transfer::Gamma22,
        5 => Transfer::Gamma28,
        13 => Transfer::Srgb,
        8 => Transfer::Linear,
        9 => Transfer::Log100,
        10 => Transfer::Log316,
        16 => Transfer::Pq,
        18 => Transfer::Hlg,
        _ => Transfer::Unknown,
    };
    let matrix = match matrix {
        0 => MatrixCoeffs::Identity,
        1 => MatrixCoeffs::Bt709,
        5 => MatrixCoeffs::Bt470bg,
        6 => MatrixCoeffs::Smpte170m,
        7 => MatrixCoeffs::Smpte240m,
        9 => MatrixCoeffs::Bt2020Ncl,
        10 => MatrixCoeffs::Bt2020Pcl,
        _ => MatrixCoeffs::Unknown,
    };
    let range = match range {
        1 => Range::Limited,
        2 => Range::Full,
        _ => Range::Unknown,
    };
    let chroma = match chroma_loc {
        1 => Some(ChromaLoc::Left),
        2 => Some(ChromaLoc::Center),
        3 => Some(ChromaLoc::TopLeft),
        4 => Some(ChromaLoc::Top),
        5 => Some(ChromaLoc::BottomLeft),
        6 => Some(ChromaLoc::Bottom),
        _ => None,
    };
    ColorTags { primaries, transfer, matrix, range, chroma_loc: chroma }
}

} // verus!
