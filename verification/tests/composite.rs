use ove::composite::{expected_output, make_frame_a, make_frame_b, yuv_to_rgb8, B_SRC_H, B_SRC_W, OUT_H, OUT_W};

#[test]
fn bt601_limited_range_conversion_is_integer_exact() {
    assert_eq!(yuv_to_rgb8(16, 128, 128), [0, 0, 0]);
    assert_eq!(yuv_to_rgb8(235, 128, 128), [255, 255, 255]);
    assert_eq!(yuv_to_rgb8(81, 90, 240), [255, 0, 0]);
    // the shift floors negative sums
    assert_eq!(yuv_to_rgb8(16, 0, 128), [0, 50, 0]);
    assert_eq!(yuv_to_rgb8(208, 128, 240), [255, 133, 224]);
}

#[test]
fn procedural_frames_have_their_patterns() {
    let a = make_frame_a(OUT_W, OUT_H);
    assert_eq!(a.y.len(), 64 * 64);
    assert_eq!(a.u.len(), 32 * 32);
    assert_eq!(a.y[0], 0);
    assert_eq!(a.y[64 + 1], 8);
    assert_eq!(a.y[63 * 64 + 63], ((63 * 3 + 63 * 5) % 256) as u8);
    assert_eq!((a.u[0], a.v[0]), (90, 200));
    assert_eq!((a.u[4], a.v[4]), (160, 200));
    let b = make_frame_b(B_SRC_W, B_SRC_H);
    assert_eq!(b.y.len(), 256);
    assert_eq!(b.y[8 * 16 + 8], 16);
    assert_eq!(b.y[0], 208);
    assert_eq!(b.y[15], 16 + 15 * 12);
    assert_eq!((b.u[0], b.v[0]), (128, 240));
    assert_eq!((b.u[1], b.v[1]), (40, 110));
}

#[test]
fn composite_puts_b_over_a_in_its_rectangle() {
    let a = make_frame_a(OUT_W, OUT_H);
    let b = make_frame_b(B_SRC_W, B_SRC_H);
    let out = expected_output(&a, &b);
    assert_eq!(out.len(), 64 * 64 * 4);
    assert_eq!(&out[0..4], &[96, 0, 0, 255]);
    let p = (24 * 64 + 24) * 4;
    assert_eq!(&out[p..p + 4], &[255, 133, 224, 255]);
    for py in 0..64usize {
        for px in 0..64usize {
            let i = (py * 64 + px) * 4;
            let want = if (24..56).contains(&px) && (24..56).contains(&py) {
                let (sx, sy) = ((px - 24) / 2, (py - 24) / 2);
                let c = (sy / 2) * 8 + sx / 2;
                yuv_to_rgb8(b.y[sy * 16 + sx], b.u[c], b.v[c])
            } else {
                let c = (py / 2) * 32 + px / 2;
                yuv_to_rgb8(a.y[py * 64 + px], a.u[c], a.v[c])
            };
            assert_eq!(&out[i..i + 3], &want, "pixel ({px}, {py})");
            assert_eq!(out[i + 3], 255);
        }
    }
}
