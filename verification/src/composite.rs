//! The host reference of the two-frame composite: BT.601 limited-range
//! YUV 4:2:0 to RGB in exact integer arithmetic, a nearest-neighbour 2x
//! scale of frame B into a fixed rectangle over frame A, and the two
//! procedural test frames. A GPU result is compared against this byte for
//! byte.
use vstd::prelude::*;

verus! {

/// Output width.
pub const OUT_W: u32 = 64;
/// Output height.
pub const OUT_H: u32 = 64;
/// Frame B source width.
pub const B_SRC_W: u32 = 16;
/// Frame B source height.
pub const B_SRC_H: u32 = 16;
/// Frame B destination rectangle in the output.
pub const B_DST_X: u32 = 24;
pub const B_DST_Y: u32 = 24;
pub const B_DST_W: u32 = 32;
pub const B_DST_H: u32 = 32;

/// A planar YUV 4:2:0 frame: full-size luma, quarter-size chroma planes.
#[derive(Clone, Debug, PartialEq, Eq)]
pub struct YuvFrame {
    pub y: Vec<u8>,
    pub u: Vec<u8>,
    pub v: Vec<u8>,
    pub w: u32,
    pub h: u32,
}

/// The planes have the sizes of the frame's dimensions.
pub open spec fn frame_ok(f: YuvFrame) -> bool {
    &&& f.y@.len() == f.w * f.h
    &&& f.u@.len() == (f.w / 2) * (f.h / 2)
    &&& f.v@.len() == (f.w / 2) * (f.h / 2)
}

/// Clamp to `[lo, hi]`.
pub open spec fn clamp(x: int, lo: int, hi: int) -> int {
    if x < lo {
        lo
    } else if x > hi {
        hi
    } else {
        x
    }
}

/// The RGB of one sample: `((298 (y-16) + c) >> 8)` clamped, with the
/// BT.601 chroma terms (`>> 8` floors).
pub open spec fn rgb_of(y: u8, u: u8, v: u8) -> (u8, u8, u8) {
    let yy = y - 16;
    let uu = u - 128;
    let vv = v - 128;
    (
        clamp((298 * yy + 409 * vv + 128) / 256, 0, 255) as u8,
        clamp((298 * yy - 100 * uu - 208 * vv + 128) / 256, 0, 255) as u8,
        clamp((298 * yy + 516 * uu + 128) / 256, 0, 255) as u8,
    )
}

/// `x >> 8` for an `i32`: the floor of `x / 256`.
fn shr8(x: i32) -> (r: i32)
    ensures
        r == x / 256,
{
    let r = x >> 8;
    assert(r == x / 256) by (bit_vector)
        requires
            r == x >> 8,
    ;
    r
}

fn clamp_byte(x: i32) -> (r: u8)
    ensures
        r == clamp(x as int, 0, 255),
{
    if x < 0 {
        0
    } else if x > 255 {
        255
    } else {
        x as u8
    }
}

/// Host reference conversion, the same integer math as the shader.
pub fn yuv_to_rgb8(y: u8, u: u8, v: u8) -> (r: [u8; 3])
    ensures
        r@ == seq![rgb_of(y, u, v).0, rgb_of(y, u, v).1, rgb_of(y, u, v).2],
{
    let yy = y as i32 - 16;
    let uu = u as i32 - 128;
    let vv = v as i32 - 128;
    let r = clamp_byte(shr8(298 * yy + 409 * vv + 128));
    let g = clamp_byte(shr8(298 * yy - 100 * uu - 208 * vv + 128));
    let b = clamp_byte(shr8(298 * yy + 516 * uu + 128));
    let out = [r, g, b];
    assert(out@ =~= seq![rgb_of(y, u, v).0, rgb_of(y, u, v).1, rgb_of(y, u, v).2]);
    out
}

/// Frame A's luma at `(px, py)`: a diagonal gradient.
pub open spec fn a_luma(px: int, py: int) -> u8 {
    ((px * 3 + py * 5) % 256) as u8
}

/// Frame A's chroma at chroma position `(px, py)`: blocks.
pub open spec fn a_chroma(px: int, py: int) -> (u8, u8) {
    (
        if (px / 4 + py / 4) % 2 == 0 {
            90u8
        } else {
            160u8
        },
        if (px / 6 + py / 2) % 2 == 0 {
            200u8
        } else {
            60u8
        },
    )
}

/// `|x|`.
pub open spec fn iabs(x: int) -> int {
    if x < 0 {
        -x
    } else {
        x
    }
}

/// Frame B's luma at `(px, py)`: a radial ramp from the centre.
pub open spec fn b_luma(px: int, py: int, w: int, h: int) -> u8 {
    clamp(16 + (iabs(px - w / 2) + iabs(py - h / 2)) * 12, 16, 235) as u8
}

/// Frame B's chroma at chroma position `(px, py)`: a checkerboard and
/// stripes.
pub open spec fn b_chroma(px: int, py: int) -> (u8, u8) {
    (
        if (px + py) % 2 == 0 {
            128u8
        } else {
            40u8
        },
        if px % 3 == 0 {
            240u8
        } else {
            110u8
        },
    )
}

/// Sample `k` of a row-major plane of width `w` is `f` at its column and row.
pub open spec fn row_major(p: Seq<u8>, w: int, n: int, f: spec_fn(int, int) -> u8) -> bool {
    &&& p.len() == n
    &&& forall|k: int| 0 <= k < n ==> #[trigger] p[k] == f(k % w, k / w)
}

/// Index facts of row-major position `py * w + px`.
proof fn lemma_row_major(w: int, px: int, py: int)
    requires
        w > 0,
        0 <= px < w,
        0 <= py,
    ensures
        (py * w + px) % w == px,
        (py * w + px) / w == py,
        py * w + px + 1 <= (py + 1) * w,
{
    vstd::arithmetic::div_mod::lemma_fundamental_div_mod_converse(py * w + px, w, py, px);
    assert((py + 1) * w == py * w + w) by (nonlinear_arith);
}

/// A plane of `w * h` samples computed by row.
fn fill_plane(w: u32, h: u32, Ghost(f): Ghost<spec_fn(int, int) -> u8>, g: impl Fn(u32, u32) -> u8) -> (p: Vec<u8>)
    requires
        w * h <= u32::MAX,
        forall|x: u32, y: u32| x < w && y < h ==> #[trigger] g.requires((x, y)),
        forall|x: u32, y: u32, r: u8| x < w && y < h && #[trigger] g.ensures((x, y), r) ==> r == f(
            x as int,
            y as int,
        ),
    ensures
        row_major(p@, w as int, (w * h) as int, f),
{
    let mut p: Vec<u8> = Vec::with_capacity((w * h) as usize);
    let mut py: u32 = 0;
    while py < h
        invariant
            w * h <= u32::MAX,
            py <= h,
            forall|x: u32, y: u32| x < w && y < h ==> #[trigger] g.requires((x, y)),
            forall|x: u32, y: u32, r: u8| x < w && y < h && #[trigger] g.ensures((x, y), r) ==> r == f(
                x as int,
                y as int,
            ),
            p@.len() == py * w,
            w > 0 ==> forall|k: int| 0 <= k < p@.len() ==> #[trigger] p@[k] == f(k % (w as int), k / (w as int)),
        decreases h - py,
    {
        let mut px: u32 = 0;
        while px < w
            invariant
                w * h <= u32::MAX,
                py < h,
                px <= w,
                forall|x: u32, y: u32| x < w && y < h ==> #[trigger] g.requires((x, y)),
                forall|x: u32, y: u32, r: u8| x < w && y < h && #[trigger] g.ensures((x, y), r) ==> r == f(
                    x as int,
                    y as int,
                ),
                p@.len() == py * w + px,
                w > 0 ==> forall|k: int| 0 <= k < p@.len() ==> #[trigger] p@[k] == f(k % (w as int), k / (w as int)),
            decreases w - px,
        {
            let x = g(px, py);
            proof {
                lemma_row_major(w as int, px as int, py as int);
            }
            p.push(x);
            px += 1;
        }
        proof {
            assert((py + 1) * w == py * w + w) by (nonlinear_arith);
        }
        py += 1;
    }
    proof {
        assert(h * w == w * h) by (nonlinear_arith);
    }
    p
}

/// Frame A: a diagonal luma gradient with distinct chroma blocks.
pub fn make_frame_a(w: u32, h: u32) -> (r: YuvFrame)
    requires
        w * h <= u32::MAX,
        3 * w + 5 * h <= u32::MAX,
    ensures
        r.w == w && r.h == h,
        row_major(r.y@, w as int, (w * h) as int, |x: int, y: int| a_luma(x, y)),
        row_major(r.u@, (w / 2) as int, ((w / 2) * (h / 2)) as int, |x: int, y: int| a_chroma(x, y).0),
        row_major(r.v@, (w / 2) as int, ((w / 2) * (h / 2)) as int, |x: int, y: int| a_chroma(x, y).1),
{
    let y = fill_plane(
        w,
        h,
        Ghost(|x: int, y: int| a_luma(x, y)),
        (|px: u32, py: u32| -> (r: u8)
            requires
                px < w,
                py < h,
            ensures
                r == a_luma(px as int, py as int),
            { ((px * 3 + py * 5) % 256) as u8 }),
    );
    proof {
        assert((w / 2) * (h / 2) <= w * h) by (nonlinear_arith);
    }
    let cw = w / 2;
    let ch = h / 2;
    let u = fill_plane(
        cw,
        ch,
        Ghost(|x: int, y: int| a_chroma(x, y).0),
        (|px: u32, py: u32| -> (r: u8)
            ensures
                r == a_chroma(px as int, py as int).0,
            {
                if (px / 4 + py / 4) % 2 == 0 {
                    90
                } else {
                    160
                }
            }),
    );
    let v = fill_plane(
        cw,
        ch,
        Ghost(|x: int, y: int| a_chroma(x, y).1),
        (|px: u32, py: u32| -> (r: u8)
            ensures
                r == a_chroma(px as int, py as int).1,
            {
                if (px / 6 + py / 2) % 2 == 0 {
                    200
                } else {
                    60
                }
            }),
    );
    YuvFrame { y, u, v, w, h }
}

/// Frame B: a radial luma ramp with checkerboard and striped chroma.
pub fn make_frame_b(w: u32, h: u32) -> (r: YuvFrame)
    requires
        w * h <= u32::MAX,
        12 * (w + h) + 16 <= i32::MAX,
    ensures
        r.w == w && r.h == h,
        row_major(r.y@, w as int, (w * h) as int, |x: int, y: int| b_luma(x, y, w as int, h as int)),
        row_major(r.u@, (w / 2) as int, ((w / 2) * (h / 2)) as int, |x: int, y: int| b_chroma(x, y).0),
        row_major(r.v@, (w / 2) as int, ((w / 2) * (h / 2)) as int, |x: int, y: int| b_chroma(x, y).1),
{
    let y = fill_plane(
        w,
        h,
        Ghost(|x: int, y: int| b_luma(x, y, w as int, h as int)),
        (|px: u32, py: u32| -> (r: u8)
            requires
                px < w,
                py < h,
            ensures
                r == b_luma(px as int, py as int, w as int, h as int),
            {
                let dx = px as i32 - w as i32 / 2;
                let dy = py as i32 - h as i32 / 2;
                let ax = if dx < 0 {
                    -dx
                } else {
                    dx
                };
                let ay = if dy < 0 {
                    -dy
                } else {
                    dy
                };
                let d = ax + ay;
                let l = 16 + d * 12;
                let c = if l < 16 {
                    16
                } else if l > 235 {
                    235
                } else {
                    l
                };
                c as u8
            }),
    );
    proof {
        assert((w / 2) * (h / 2) <= w * h) by (nonlinear_arith);
    }
    let cw = w / 2;
    let ch = h / 2;
    let u = fill_plane(
        cw,
        ch,
        Ghost(|x: int, y: int| b_chroma(x, y).0),
        (|px: u32, py: u32| -> (r: u8)
            requires
                px < cw,
                py < ch,
            ensures
                r == b_chroma(px as int, py as int).0,
            {
                if (px + py) % 2 == 0 {
                    128
                } else {
                    40
                }
            }),
    );
    let v = fill_plane(
        cw,
        ch,
        Ghost(|x: int, y: int| b_chroma(x, y).1),
        (|px: u32, py: u32| -> (r: u8)
            ensures
                r == b_chroma(px as int, py as int).1,
            {
                if px % 3 == 0 {
                    240
                } else {
                    110
                }
            }),
    );
    YuvFrame { y, u, v, w, h }
}

/// The output pixel lies in frame B's rectangle.
pub open spec fn in_rect(px: int, py: int) -> bool {
    &&& B_DST_X <= px < B_DST_X + B_DST_W
    &&& B_DST_Y <= py < B_DST_Y + B_DST_H
}

pub open spec fn min_int(a: int, b: int) -> int {
    if a <= b {
        a
    } else {
        b
    }
}

/// Frame B's source column and row for an output pixel in the rectangle
/// (nearest neighbour: `local * src / dst`, floored, kept inside B).
pub open spec fn b_src(b: YuvFrame, px: int, py: int) -> (int, int) {
    (
        min_int((px - B_DST_X) * (B_SRC_W as int) / (B_DST_W as int), b.w - 1),
        min_int((py - B_DST_Y) * (B_SRC_H as int) / (B_DST_H as int), b.h - 1),
    )
}

/// The sample of a 4:2:0 frame at `(x, y)`.
pub open spec fn sample(f: YuvFrame, x: int, y: int) -> (u8, u8, u8) {
    let c = (y / 2) * (f.w / 2) + x / 2;
    rgb_of(f.y@[y * f.w + x], f.u@[c], f.v@[c])
}

/// The expected RGB of an output pixel: B inside the rectangle, A outside.
pub open spec fn pixel_of(a: YuvFrame, b: YuvFrame, px: int, py: int) -> (u8, u8, u8) {
    if in_rect(px, py) {
        sample(b, b_src(b, px, py).0, b_src(b, px, py).1)
    } else {
        sample(a, px, py)
    }
}

/// Every index a sample at `(x, y)` reads lies in the frame's planes.
pub open spec fn readable(f: YuvFrame, x: int, y: int) -> bool {
    let c = (y / 2) * (f.w / 2) + x / 2;
    &&& 0 <= y * f.w + x < f.y@.len()
    &&& 0 <= c < f.u@.len()
    &&& 0 <= c < f.v@.len()
}

/// The composite can read every sample it needs from both frames.
pub open spec fn composite_readable(a: YuvFrame, b: YuvFrame) -> bool {
    &&& b.w >= 1 && b.h >= 1
    &&& (OUT_H - 1) * a.w + OUT_W <= u32::MAX
    &&& (B_SRC_H - 1) * b.w + B_SRC_W <= u32::MAX
    &&& forall|px: int, py: int|
        0 <= px < OUT_W && 0 <= py < OUT_H && #[trigger] in_rect(px, py) ==> readable(
            b,
            b_src(b, px, py).0,
            b_src(b, px, py).1,
        )
    &&& forall|px: int, py: int|
        0 <= px < OUT_W && 0 <= py < OUT_H && !#[trigger] in_rect(px, py) ==> readable(a, px, py)
}

/// RGB of a frame's sample at `(x, y)`.
fn sample_at(f: &YuvFrame, x: u32, y: u32) -> (r: [u8; 3])
    requires
        readable(*f, x as int, y as int),
        y * f.w + x <= u32::MAX,
    ensures
        r@ == seq![sample(*f, x as int, y as int).0, sample(*f, x as int, y as int).1, sample(*f, x as int, y as int).2],
{
    proof {
        assert((y / 2) * (f.w / 2) + x / 2 <= y * f.w + x) by (nonlinear_arith);
    }
    let c = ((y / 2) * (f.w / 2) + x / 2) as usize;
    yuv_to_rgb8(f.y[(y * f.w + x) as usize], f.u[c], f.v[c])
}

/// The expected composite: B scaled 2x (nearest neighbour) into its
/// rectangle over A, RGBA with opaque alpha, row-major.
pub fn expected_output(a: &YuvFrame, b: &YuvFrame) -> (out: Vec<u8>)
    requires
        composite_readable(*a, *b),
    ensures
        out@.len() == OUT_W * OUT_H * 4,
        forall|k: int|
            0 <= k < OUT_W * OUT_H ==> {
                let p = pixel_of(*a, *b, k % (OUT_W as int), k / (OUT_W as int));
                &&& #[trigger] out@[4 * k] == p.0
                &&& out@[4 * k + 1] == p.1
                &&& out@[4 * k + 2] == p.2
                &&& out@[4 * k + 3] == 255
            },
{
    let mut out: Vec<u8> = vec![0u8; (OUT_W * OUT_H * 4) as usize];
    let mut py: u32 = 0;
    while py < OUT_H
        invariant
            composite_readable(*a, *b),
            py <= OUT_H,
            out@.len() == OUT_W * OUT_H * 4,
            forall|k: int|
                0 <= k < py * OUT_W ==> {
                    let p = pixel_of(*a, *b, k % (OUT_W as int), k / (OUT_W as int));
                    &&& #[trigger] out@[4 * k] == p.0
                    &&& out@[4 * k + 1] == p.1
                    &&& out@[4 * k + 2] == p.2
                    &&& out@[4 * k + 3] == 255
                },
        decreases OUT_H - py,
    {
        let mut px: u32 = 0;
        while px < OUT_W
            invariant
                composite_readable(*a, *b),
                py < OUT_H,
                px <= OUT_W,
                out@.len() == OUT_W * OUT_H * 4,
                forall|k: int|
                    0 <= k < py * OUT_W + px ==> {
                        let p = pixel_of(*a, *b, k % (OUT_W as int), k / (OUT_W as int));
                        &&& #[trigger] out@[4 * k] == p.0
                        &&& out@[4 * k + 1] == p.1
                        &&& out@[4 * k + 2] == p.2
                        &&& out@[4 * k + 3] == 255
                    },
            decreases OUT_W - px,
        {
            let inside = px >= B_DST_X && px < B_DST_X + B_DST_W && py >= B_DST_Y && py < B_DST_Y
                + B_DST_H;
            let idx = ((py * OUT_W + px) * 4) as usize;
            let rgb8 = if inside {
                let lx = px - B_DST_X;
                let ly = py - B_DST_Y;
                let sx0 = lx * B_SRC_W / B_DST_W;
                let sy0 = ly * B_SRC_H / B_DST_H;
                let sx = if sx0 <= b.w - 1 {
                    sx0
                } else {
                    b.w - 1
                };
                let sy = if sy0 <= b.h - 1 {
                    sy0
                } else {
                    b.h - 1
                };
                proof {
                    assert(in_rect(px as int, py as int));
                    assert(sx == b_src(*b, px as int, py as int).0);
                    assert(sy == b_src(*b, px as int, py as int).1);
                    assert(sy * b.w + sx <= (B_SRC_H - 1) * b.w + B_SRC_W) by (nonlinear_arith)
                        requires
                            sy <= B_SRC_H - 1,
                            sx < B_SRC_W,
                    ;
                }
                sample_at(b, sx, sy)
            } else {
                proof {
                    assert(!in_rect(px as int, py as int));
                    assert(py * a.w + px <= (OUT_H - 1) * a.w + OUT_W) by (nonlinear_arith)
                        requires
                            py <= OUT_H - 1,
                            px < OUT_W,
                    ;
                }
                sample_at(a, px, py)
            };
            let ghost cur = py * OUT_W + px;
            let ghost pix = pixel_of(*a, *b, px as int, py as int);
            proof {
                vstd::arithmetic::div_mod::lemma_fundamental_div_mod_converse(
                    cur as int,
                    OUT_W as int,
                    py as int,
                    px as int,
                );
                assert(rgb8@ == seq![pix.0, pix.1, pix.2]);
            }
            let ghost o0 = out@;
            out.set(idx, rgb8[0]);
            out.set(idx + 1, rgb8[1]);
            out.set(idx + 2, rgb8[2]);
            out.set(idx + 3, 255);
            proof {
                assert forall|k: int| 0 <= k < cur + 1 implies {
                    let p = pixel_of(*a, *b, k % (OUT_W as int), k / (OUT_W as int));
                    &&& #[trigger] out@[4 * k] == p.0
                    &&& out@[4 * k + 1] == p.1
                    &&& out@[4 * k + 2] == p.2
                    &&& out@[4 * k + 3] == 255
                } by {
                    if k < cur {
                        assert(out@[4 * k] == o0[4 * k]);
                        assert(out@[4 * k + 1] == o0[4 * k + 1]);
                        assert(out@[4 * k + 2] == o0[4 * k + 2]);
                        assert(out@[4 * k + 3] == o0[4 * k + 3]);
                    }
                }
            }
            px += 1;
        }
        py += 1;
    }
    out
}

} // verus!
