use ove::media::asset::StreamId;
use ove::media::frame::{
    BackendId, BitDepth, ChromaLoc, ColorTags, FrameBytes, FrameEnvelope, FrameError,
    FrameMemory, GpuFrameRef, GpuHandle, GpuUploadKind, MatrixCoeffs, PixelFormat, Primaries,
    Range, Transfer,
};
use ove::time::Rational;

fn cpu_frame() -> FrameEnvelope {
    FrameEnvelope::video_cpu(
        Rational::new(1, 24),
        Rational::new(1, 24),
        StreamId(0),
        4,
        4,
        PixelFormat::Yuv420p,
        BitDepth::B8,
        ColorTags {
            primaries: Primaries::Bt709,
            transfer: Transfer::Bt709,
            matrix: MatrixCoeffs::Bt709,
            range: Range::Limited,
            chroma_loc: Some(ChromaLoc::Left),
        },
        FrameBytes { data: vec![0u8; 4 * 4 * 3 / 2], strides: vec![4, 2, 2] },
        true,
        BackendId::FFmpegSw,
        7,
    )
}

#[test]
fn video_frame_carries_all_five_color_tags() {
    let f = cpu_frame();
    let c = f.color;
    let _ = (c.primaries, c.transfer, c.matrix, c.range, c.chroma_loc);
    assert_eq!(c.range, Range::Limited);
}

#[test]
fn deep_copy_cpu_is_exact_and_independent() {
    let f = cpu_frame();
    let mut g = f.deep_copy_cpu().unwrap();
    assert_eq!(g.pts, f.pts);
    assert_eq!(g.cpu_bytes().unwrap().data, f.cpu_bytes().unwrap().data);
    // mutate the copy; the first is unchanged (unique ownership)
    g.cpu_bytes_mut().unwrap().data[0] = 0xAB;
    assert_ne!(g.cpu_bytes().unwrap().data[0], f.cpu_bytes().unwrap().data[0]);
}

#[test]
fn gpu_frames_reject_deep_copy() {
    let f = FrameEnvelope::video_gpu(
        Rational::new(0, 1),
        Rational::new(1, 24),
        StreamId(0),
        1920,
        1080,
        PixelFormat::Nv12,
        BitDepth::B8,
        ColorTags::unknown(),
        GpuFrameRef {
            handle: GpuHandle(42),
            upload_kind: GpuUploadKind::ImportedExternalTexture,
            exportable: false,
        },
        false,
        BackendId::Wgpu,
        0,
    );
    assert_eq!(f.memory, FrameMemory::Gpu);
    assert!(!f.gpu_ref().unwrap().exportable);
    assert_eq!(f.deep_copy_cpu(), Err(FrameError::GpuCopyForbidden));
}

#[test]
fn audio_duration_is_samples_over_rate_exactly() {
    // 2002 samples at 48k = exactly one NTSC 29.97 frame
    let f = FrameEnvelope::audio(
        Rational::new(0, 1),
        StreamId(1),
        48000,
        2,
        2002,
        FrameBytes { data: vec![0; 2002 * 4], strides: vec![4004, 4004] },
        BackendId::Other("test".into()),
        0,
    );
    assert_eq!(f.duration, Rational::new(2002, 48000));
    assert_eq!(f.duration, Rational::new(1001, 24000));
}

#[test]
fn packed_frames_carry_bytes_and_reject_copy() {
    let f = FrameEnvelope::packed(
        Rational::new(0, 1),
        Rational::new(1, 24),
        StreamId(0),
        vec![1, 2, 3],
        true,
        BackendId::FFmpegSw,
    );
    assert_eq!(f.memory, FrameMemory::Packed);
    assert_eq!(f.packed_data().unwrap(), &[1u8, 2, 3][..]);
    assert!(f.cpu_bytes().is_none());
    assert!(f.gpu_ref().is_none());
    assert_eq!(f.pixel_format, PixelFormat::Other("compressed".into()));
    assert_eq!(f.color, ColorTags::unknown());
    assert_eq!(f.deep_copy_cpu(), Err(FrameError::PackedCopyNotSupported));
}

#[test]
fn pixel_format_families() {
    assert!(PixelFormat::Yuv420p10le.is_yuv_planar_family());
    assert!(!PixelFormat::Nv12.is_yuv_planar_family());
    assert!(!PixelFormat::Other("x".into()).is_yuv_planar_family());
    assert!(PixelFormat::Other("x".into()).same(&PixelFormat::Other("x".into())));
    assert!(!PixelFormat::Other("x".into()).same(&PixelFormat::Other("y".into())));
    assert!(!PixelFormat::Rgba.same(&PixelFormat::Bgra));
}
