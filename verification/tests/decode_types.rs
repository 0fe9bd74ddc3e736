use ove::decode::{av_rational_to_rational, map_color, ticks_to_rational, DecodeConfig};
use ove::interop::{ove_time_add, ove_time_half, ove_time_split_roundtrip, ove_time_sub, RationalTime};
use ove::media::frame::{ChromaLoc, MatrixCoeffs, Primaries, Range, Transfer};
use ove::media::probe::ProbeError;
use ove::time::Rational;

#[test]
fn time_base_conversion_is_exact_and_normalized() {
    assert_eq!(av_rational_to_rational(1, 24000), Ok(Rational::new(1, 24000)));
    assert_eq!(av_rational_to_rational(1001, -30000), Ok(Rational::new(-1001, 30000)));
    assert_eq!(av_rational_to_rational(2, 4), Ok(Rational::new(1, 2)));
    assert!(matches!(av_rational_to_rational(1, 0), Err(ProbeError::Unsupported(_))));
}

#[test]
fn ticks_convert_exactly_or_refuse() {
    assert_eq!(ticks_to_rational(48048, 1, 24000), Some(Rational::new(2002, 1000)));
    assert_eq!(ticks_to_rational(3, 1001, -30000), Some(Rational::new(-3003, 30000)));
    assert_eq!(ticks_to_rational(5, 1, 0), None);
    assert_eq!(ticks_to_rational(i64::MAX, 2, 1), None, "ticks * num beyond i64");
}

#[test]
fn default_config_is_single_threaded_software() {
    let c = DecodeConfig::default();
    assert!(c.hw.is_none());
    assert_eq!(c.thread_count, 1);
    assert!(c.keyframe_index.is_none());
}

#[test]
fn color_codes_map_to_tags() {
    let c = map_color(1, 16, 9, 2, 3);
    assert_eq!(c.primaries, Primaries::Bt709);
    assert_eq!(c.transfer, Transfer::Pq);
    assert_eq!(c.matrix, MatrixCoeffs::Bt2020Ncl);
    assert_eq!(c.range, Range::Full);
    assert_eq!(c.chroma_loc, Some(ChromaLoc::TopLeft));
    let u = map_color(2, 2, 2, 0, 0);
    assert_eq!(u.primaries, Primaries::Unknown);
    assert_eq!(u.transfer, Transfer::Unknown);
    assert_eq!(u.matrix, MatrixCoeffs::Unknown);
    assert_eq!(u.range, Range::Unknown);
    assert_eq!(u.chroma_loc, None);
    assert_eq!(map_color(5, 18, 0, 1, 6).matrix, MatrixCoeffs::Identity);
    assert_eq!(map_color(5, 18, 0, 1, 6).transfer, Transfer::Hlg);
}

#[test]
fn interop_surface_is_exact() {
    let a = RationalTime { num: 1, den: 3 };
    let b = RationalTime { num: 1, den: 6 };
    assert_eq!(ove_time_add(a, b), RationalTime { num: 1, den: 2 });
    assert_eq!(ove_time_sub(a, b), RationalTime { num: 1, den: 6 });
    // halving floors the numerator on the same denominator
    assert_eq!(ove_time_half(RationalTime { num: 1001, den: 30000 }), RationalTime { num: 1, den: 60 });
    let parts = ove_time_split_roundtrip(RationalTime { num: 7, den: 5 });
    assert_eq!(parts.len(), 2);
    assert_eq!(parts[0], RationalTime { num: 3, den: 5 });
    assert_eq!(parts[1], RationalTime { num: 4, den: 5 });
    assert_eq!(ove_time_add(parts[0], parts[1]), RationalTime { num: 7, den: 5 });
}
