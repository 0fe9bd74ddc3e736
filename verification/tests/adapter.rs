use ove::adapter::{
    check_hw, check_stream_index, check_video_kind, complete_probe, container_kind, contains_bytes,
    first_video_stream, open_session, pe2de, probe_header, rational_to_ticks_floor, read_event,
    sample_format_name, send_failed, stream_facts, FeedStep, PacketScan, RawStream, ReadEvent,
    ReceiveStep, AVERROR_EOF, EAGAIN,
};
use ove::decode::{DecodeConfig, DecodeError, HwAccel, SeekMode};
use ove::media::asset::{StreamId, StreamKind};
use ove::media::frame::{BitDepth, ChromaLoc, FrameMemory, PixelFormat, Primaries, Range};
use ove::media::probe::{ContainerKind, KeyframeEntry, KeyframeIndex, ProbeError};
use ove::time::Rational;

fn video_stream() -> RawStream {
    RawStream {
        media_type: 0,
        codec: "h264".to_string(),
        tb_num: 1,
        tb_den: 12288,
        start_time: 0,
        duration: 24576,
        frame_rate_num: 24,
        frame_rate_den: 1,
        nb_frames: 48,
        format: 0,
        pixel_format: Some(PixelFormat::Yuv420p),
        width: 320,
        height: 240,
        color_primaries: 1,
        color_trc: 1,
        color_space: 1,
        color_range: 1,
        chroma_location: 1,
        sample_rate: 0,
        channels: 0,
    }
}

fn audio_stream() -> RawStream {
    RawStream {
        media_type: 1,
        codec: "aac".to_string(),
        tb_num: 1,
        tb_den: 48000,
        start_time: -1,
        duration: 96000,
        frame_rate_num: 0,
        frame_rate_den: 0,
        nb_frames: 0,
        format: 8,
        pixel_format: None,
        width: 0,
        height: 0,
        color_primaries: 2,
        color_trc: 2,
        color_space: 2,
        color_range: 0,
        chroma_location: 0,
        sample_rate: 48000,
        channels: 2,
    }
}

#[test]
fn ticks_floor_rounds_down_in_the_time_base() {
    // 1/24 s in a 1/12288 time base is exactly 512 ticks
    assert_eq!(rational_to_ticks_floor(Rational::new(1, 24), 1, 12288), 512);
    // 1/3 s in 1/1000: 333.33.. floors to 333
    assert_eq!(rational_to_ticks_floor(Rational::new(1, 3), 1, 1000), 333);
    // negative times floor toward minus infinity
    assert_eq!(rational_to_ticks_floor(Rational::new(-1, 3), 1, 1000), -334);
    // a negative denominator flips both signs
    assert_eq!(rational_to_ticks_floor(Rational::new(1, 3), -1, -1000), 333);
    assert_eq!(rational_to_ticks_floor(Rational::new(1001, 30000), 1001, 30000), 1);
}

#[test]
fn sample_formats_have_names() {
    assert_eq!(sample_format_name(0), "u8");
    assert_eq!(sample_format_name(8), "fltp");
    assert_eq!(sample_format_name(9), "dblp");
    assert_eq!(sample_format_name(42), "sample_fmt#42");
    assert_eq!(sample_format_name(-3), "sample_fmt#-3");
}

#[test]
fn container_names_map_to_kinds() {
    assert_eq!(container_kind(Some("mov,mp4,m4a,3gp,3g2,mj2")), ContainerKind::Mp4);
    assert_eq!(container_kind(Some("matroska,webm")), ContainerKind::WebM);
    assert_eq!(container_kind(Some("matroska")), ContainerKind::Mkv);
    assert_eq!(container_kind(Some("quicktime-mov")), ContainerKind::Mov);
    assert_eq!(container_kind(Some("avi")), ContainerKind::Avi);
    assert_eq!(container_kind(Some("avi2")), ContainerKind::Other);
    assert_eq!(container_kind(Some("")), ContainerKind::Other);
    assert_eq!(container_kind(None), ContainerKind::Other);
    assert!(contains_bytes(b"abc", b""));
    assert!(!contains_bytes(b"ab", b"abc"));
    assert!(contains_bytes(b"xxabc", b"abc"));
}

#[test]
fn video_stream_facts_are_exact() {
    let f = stream_facts(&video_stream(), 0).unwrap();
    assert_eq!(f.kind, StreamKind::Video);
    assert_eq!(f.start_time, Some(0));
    assert_eq!(f.duration, Some(24576));
    assert_eq!(f.avg_frame_rate, Some(Rational::new(24, 1)));
    assert_eq!(f.nb_frames, Some(48));
    let v = f.video.clone().unwrap();
    assert_eq!((v.width, v.height), (320, 240));
    assert_eq!(v.pixel_format, PixelFormat::Yuv420p);
    assert_eq!(v.bit_depth, BitDepth::B8);
    assert_eq!(v.color.primaries, Primaries::Bt709);
    assert_eq!(v.color.range, Range::Limited);
    assert_eq!(v.color.chroma_loc, Some(ChromaLoc::Left));
    assert!(f.audio.is_none());
}

#[test]
fn audio_stream_facts_name_the_sample_format() {
    let f = stream_facts(&audio_stream(), 1).unwrap();
    assert_eq!(f.kind, StreamKind::Audio);
    assert_eq!(f.start_time, None);
    assert_eq!(f.avg_frame_rate, None);
    assert_eq!(f.nb_frames, None);
    let a = f.audio.unwrap();
    assert_eq!(a.sample_format, "fltp");
    assert_eq!((a.sample_rate, a.channels), (48000, 2));
    assert!(f.video.is_none());
}

#[test]
fn stream_facts_errors_are_typed() {
    let mut raw = video_stream();
    raw.tb_den = 0;
    assert_eq!(
        stream_facts(&raw, 0).err(),
        Some(ProbeError::Unsupported("zero time base".to_string()))
    );
    let mut raw = video_stream();
    raw.pixel_format = None;
    raw.format = 77;
    assert_eq!(
        stream_facts(&raw, 0).err(),
        Some(ProbeError::Unsupported("pixel format id 77".to_string()))
    );
    let mut raw = video_stream();
    raw.pixel_format = Some(PixelFormat::Other("yuv410p".to_string()));
    raw.format = 6;
    assert!(matches!(stream_facts(&raw, 0), Err(ProbeError::Unsupported(_))));
}

#[test]
fn header_probe_describes_every_stream() {
    let info = probe_header(ContainerKind::Mp4, 2_000_000, &vec![video_stream(), audio_stream()]).unwrap();
    assert_eq!(info.container, ContainerKind::Mp4);
    assert_eq!(info.duration, Some(Rational::new(2, 1)));
    assert_eq!(info.streams.len(), 2);
    let v = &info.streams[0];
    assert_eq!(v.id, StreamId(0));
    assert_eq!(v.time_base, Rational::new(1, 12288));
    assert_eq!(v.start_time, Some(Rational::new(0, 1)));
    assert_eq!(v.duration, Some(Rational::new(2, 1)));
    let a = &info.streams[1];
    assert_eq!(a.id, StreamId(1));
    assert_eq!(a.kind, StreamKind::Audio);
    assert_eq!(a.duration, Some(Rational::new(2, 1)));
    assert!(info.keyframe_index.is_none() && info.vfr.is_none());

    let none = probe_header(ContainerKind::Other, -1, &vec![]).unwrap();
    assert_eq!(none.duration, None);

    let mut bad = audio_stream();
    bad.tb_den = 0;
    assert_eq!(
        probe_header(ContainerKind::Mp4, 0, &vec![video_stream(), bad]).err(),
        Some(ProbeError::Unsupported("zero time base".to_string()))
    );
}

#[test]
fn packet_scan_keeps_the_video_stream_keyframes() {
    assert_eq!(first_video_stream(&[1, 2, 0, 0]).unwrap(), 2);
    assert_eq!(
        first_video_stream(&[1, 3]).err(),
        Some(ProbeError::Unsupported("no video stream".to_string()))
    );
    let mut scan = PacketScan::new(0, 1, 12288);
    scan.packet(0, 0, true, 48);
    scan.packet(1, 0, true, 100); // other stream
    scan.packet(0, -1, false, 200); // no pts
    scan.packet(0, 512, false, 300);
    scan.packet(0, 1024, true, -1);
    assert_eq!(scan.pts, vec![Rational::new(0, 1), Rational::new(1, 24), Rational::new(1, 12)]);
    let (pts, index) = scan.finish().unwrap();
    assert_eq!(pts.len(), 3);
    assert_eq!(
        index.entries,
        vec![
            KeyframeEntry { pts: Rational::new(0, 1), byte_pos: Some(48) },
            KeyframeEntry { pts: Rational::new(1, 12), byte_pos: None },
        ]
    );
    let empty = PacketScan::new(0, 1, 25);
    assert_eq!(
        empty.finish().err(),
        Some(ProbeError::Corrupt("no video packets with pts".to_string()))
    );
    assert_eq!(read_event(AVERROR_EOF), ReadEvent::Eof);
    assert_eq!(read_event(-5), ReadEvent::Failed);
    assert_eq!(read_event(0), ReadEvent::Packet);
}

#[test]
fn full_probe_adds_index_and_vfr_report() {
    let info = probe_header(ContainerKind::Mp4, 0, &vec![video_stream()]).unwrap();
    let pts = vec![Rational::new(0, 1), Rational::new(1, 24), Rational::new(1, 8)];
    let index = KeyframeIndex { entries: vec![KeyframeEntry { pts: Rational::new(0, 1), byte_pos: None }] };
    let full = complete_probe(info, &pts, index.clone());
    assert_eq!(full.keyframe_index, Some(index));
    let vfr = full.vfr.unwrap();
    assert!(vfr.is_vfr);
    assert_eq!(vfr.frame_count, 3);
    assert_eq!(vfr.distinct_deltas, vec![Rational::new(1, 24), Rational::new(1, 12)]);
}

#[test]
fn d9_no_hidden_downgrade() {
    let e = check_hw(&DecodeConfig { hw: Some(HwAccel::Auto), ..DecodeConfig::default() })
        .err()
        .expect("hw request must not silently fall back");
    assert!(matches!(e, DecodeError::Unsupported(_)));
    let e = check_hw(&DecodeConfig { hw: Some(HwAccel::Vendor("nvdec")), ..DecodeConfig::default() })
        .err()
        .expect("vendor hw request must not silently fall back");
    assert!(matches!(e, DecodeError::Unsupported(_)));
    assert!(e.message().contains("software-only"), "message names the limit: {:?}", e);
    assert_eq!(
        e.message(),
        "unsupported: hardware decode (nvdec) requested; FFmpeg-SW adapter is software-only"
    );
    assert!(check_hw(&DecodeConfig::default()).is_ok());
}

#[test]
fn open_checks_are_typed() {
    assert!(check_stream_index(StreamId(1), 2).is_ok());
    assert_eq!(
        check_stream_index(StreamId(2), 2).err(),
        Some(DecodeError::Unsupported("stream StreamId(2) does not exist".to_string()))
    );
    assert!(check_video_kind(StreamKind::Video, StreamId(0)).is_ok());
    assert!(matches!(check_video_kind(StreamKind::Audio, StreamId(1)), Err(DecodeError::Unsupported(_))));
    assert_eq!(
        check_video_kind(StreamKind::Data, StreamId(3)).err(),
        Some(DecodeError::Unsupported("stream StreamId(3) is not a video stream".to_string()))
    );
    assert_eq!(pe2de(ProbeError::Unreadable), DecodeError::Unreadable);
    assert_eq!(pe2de(ProbeError::Io("x".to_string())), DecodeError::Io("x".to_string()));
}

fn session(with_index: bool) -> ove::adapter::DecodeSession {
    let index = KeyframeIndex {
        entries: vec![
            KeyframeEntry { pts: Rational::new(0, 1), byte_pos: None },
            KeyframeEntry { pts: Rational::new(2, 1), byte_pos: None },
        ],
    };
    let cfg = DecodeConfig {
        keyframe_index: if with_index { Some(index) } else { None },
        thread_count: 4,
        ..DecodeConfig::default()
    };
    open_session(cfg, StreamId(0), 0, 1, 12288, 320, 240, PixelFormat::Yuv420p, [320, 160, 160, 0], 115200)
        .ok()
        .unwrap()
}

#[test]
fn session_opens_with_declared_caps() {
    let s = session(true);
    assert_eq!(s.caps.seek_modes, vec![SeekMode::Exact, SeekMode::Snap]);
    assert_eq!(s.caps.memory_outputs, vec![FrameMemory::Cpu]);
    assert!(s.caps.threaded);
    assert_eq!(s.pool_strides, vec![320, 160, 160]);
    assert_eq!(s.pool_bytes, 115200);
    assert_eq!(session(false).caps.seek_modes, vec![SeekMode::Exact]);
    let bad = open_session(
        DecodeConfig::default(),
        StreamId(0),
        0,
        1,
        25,
        2,
        2,
        PixelFormat::Gray8,
        [2, 0, 0, 0],
        0,
    );
    assert_eq!(
        bad.err(),
        Some(DecodeError::Internal("av_image_get_buffer_size failed".to_string()))
    );
}

#[test]
fn seek_plans_land_exactly_or_on_keyframes() {
    let s = session(true);
    let p = s.plan_seek(Rational::new(1, 24), SeekMode::Exact).unwrap();
    assert_eq!(p.target_ticks, 512);
    assert_eq!(p.drop_until, Some(Rational::new(1, 24)));
    assert_eq!(p.landed, Rational::new(1, 24));
    let p = s.plan_seek(Rational::new(3, 1), SeekMode::Snap).unwrap();
    assert_eq!(p.landed, Rational::new(2, 1));
    assert_eq!(p.target_ticks, 24576);
    assert_eq!(p.drop_until, None);
    let e = s.plan_seek(Rational::new(-1, 1), SeekMode::Snap).err().unwrap();
    assert_eq!(e, DecodeError::Unsupported("snap target -1/1 is before the first keyframe".to_string()));
    let e = session(false).plan_seek(Rational::new(1, 1), SeekMode::Snap).err().unwrap();
    assert!(matches!(e, DecodeError::Unsupported(_)));
    let mut s = session(true);
    s.cancel();
    assert_eq!(s.plan_seek(Rational::new(1, 1), SeekMode::Exact).err(), Some(DecodeError::Cancelled));
    assert_eq!(s.check_live().err(), Some(DecodeError::Cancelled));
}

#[test]
fn receive_drops_frames_before_the_exact_target() {
    let mut s = session(false);
    let p = s.plan_seek(Rational::new(1, 24), SeekMode::Exact).unwrap();
    s.eof_sent = true;
    s.seek_done(&p);
    assert!(!s.eof_sent);
    assert_eq!(s.on_receive(0, 0).unwrap(), ReceiveStep::Skip);
    assert_eq!(s.on_receive(0, 512).unwrap(), ReceiveStep::Deliver(Rational::new(1, 24)));
    assert_eq!(
        s.on_receive(0, -1).err(),
        Some(DecodeError::Corrupt("decoded frame without pts".to_string()))
    );
    assert_eq!(s.on_receive(-EAGAIN, 0).unwrap(), ReceiveStep::Feed);
    assert_eq!(s.on_receive(-22, 0).unwrap(), ReceiveStep::Fail);
    assert!(!s.drain_done);
    assert_eq!(s.on_receive(AVERROR_EOF, 0).unwrap(), ReceiveStep::End);
    assert!(s.drain_done);
}

#[test]
fn feeding_sends_ours_and_drains_once() {
    let mut s = session(false);
    assert_eq!(s.feed_step(0, 0), FeedStep::Send);
    assert_eq!(s.feed_step(0, 1), FeedStep::Skip);
    assert_eq!(s.feed_step(-5, 0), FeedStep::Fail);
    assert_eq!(s.feed_step(AVERROR_EOF, 0), FeedStep::SendDrain);
    s.drain_sent();
    assert_eq!(s.feed_step(AVERROR_EOF, 0), FeedStep::Done);
    s.flush();
    assert_eq!(s.feed_step(AVERROR_EOF, 0), FeedStep::SendDrain);
    assert!(send_failed(-5));
    assert!(!send_failed(-EAGAIN));
    assert!(!send_failed(0));
}

#[test]
fn frame_duration_is_exact_and_required() {
    let s = session(false);
    assert_eq!(s.frame_duration(512).unwrap(), Rational::new(1, 24));
    assert_eq!(
        s.frame_duration(0).err(),
        Some(DecodeError::Corrupt("frame without duration".to_string()))
    );
}

#[test]
fn frames_reclaim_into_the_pool() {
    let mut s = session(false);
    let buf = s.acquire_buffer();
    assert_eq!(buf.data.len(), 115200);
    let color = ove::media::frame::ColorTags::unknown();
    let frame = s.finish_frame(buf, Rational::new(0, 1), Rational::new(1, 24), true, color);
    assert_eq!(frame.generation, 0);
    assert!(frame.keyframe);
    assert_eq!(s.pool_stats().live, 1);
    s.reclaim(frame).unwrap();
    assert_eq!(s.pool_stats().live, 0);
    let buf = s.acquire_buffer();
    s.return_buffer(buf);
    assert_eq!(s.pool_stats().live, 0);
}
