use ove::decode::DecodeError;
use ove::media::frame::FrameError;
use ove::media::probe::ProbeError;
use ove::text::decimal;
use ove::time::Rational;
use ove::timeline::clip::{ClipId, TrackId};
use ove::timeline::engine::TimelineError;

#[test]
fn decimal_text_of_integers() {
    assert_eq!(decimal(0), "0");
    assert_eq!(decimal(7), "7");
    assert_eq!(decimal(-42), "-42");
    assert_eq!(decimal(1_000_000), "1000000");
    assert_eq!(decimal(i64::MAX), "9223372036854775807");
    assert_eq!(decimal(i64::MIN), "-9223372036854775808");
}

#[test]
fn rational_text_is_num_over_den() {
    assert_eq!(Rational::new(2, 4).text(), "1/2");
    assert_eq!(Rational::new(-1001, 30000).text(), "-1001/30000");
    assert_eq!(Rational::new(0, 5).text(), "0/1");
}

#[test]
fn timeline_error_messages() {
    assert_eq!(TimelineError::UnknownClip(ClipId(5)).message(), "unknown clip ClipId(5)");
    assert_eq!(TimelineError::UnknownTrack(TrackId(2)).message(), "unknown track TrackId(2)");
    assert_eq!(
        TimelineError::Overlap { track: TrackId(1), existing: ClipId(3), at: Rational::new(1, 2) }.message(),
        "overlap on track TrackId(1) at 1/2 (clip ClipId(3))"
    );
    assert_eq!(
        TimelineError::InvalidDuration(Rational::new(0, 1)).message(),
        "invalid duration 0/1 (must be > 0)"
    );
    assert_eq!(
        TimelineError::InvalidSpeed(Rational::new(-1, 2)).message(),
        "invalid speed -1/2 (must be > 0)"
    );
    assert_eq!(TimelineError::IdInUse(ClipId(9)).message(), "clip id ClipId(9) already in use");
    assert_eq!(
        TimelineError::InvalidSplit { id: ClipId(4), offset: Rational::new(3, 1) }.message(),
        "split offset 3/1 out of range for clip ClipId(4)"
    );
    assert_eq!(
        TimelineError::BatchRolledBack {
            applied: 2,
            label: "trim \"a\"".to_string(),
            error: Box::new(TimelineError::UndoUnavailable),
        }
        .message(),
        "batch \"trim \\\"a\\\"\" failed after 2 applied (rolled back): nothing to undo"
    );
    assert_eq!(TimelineError::RedoUnavailable.message(), "nothing to redo");
}

#[test]
fn media_error_messages() {
    assert_eq!(
        FrameError::StaleFrame { held: 1, current: 3 }.message(),
        "stale frame: held generation 1, pool at 3"
    );
    assert_eq!(
        FrameError::PackedCopyNotSupported.message(),
        "packed (compressed) payload copy not supported"
    );
    assert!(FrameError::GpuCopyForbidden.message().starts_with("GPU frames cannot be deep-copied"));
    assert_eq!(ProbeError::Unreadable.message(), "unreadable media file");
    assert_eq!(ProbeError::Corrupt("x".to_string()).message(), "corrupt media: x");
    assert_eq!(ProbeError::Io("disk".to_string()).message(), "io error: disk");
    assert_eq!(DecodeError::Cancelled.message(), "decode cancelled");
    assert_eq!(DecodeError::Internal("y".to_string()).message(), "internal: y");
    assert_eq!(DecodeError::Io("z".to_string()).message(), "io: z");
    assert_eq!(DecodeError::Unreadable.message(), "unreadable media");
}
