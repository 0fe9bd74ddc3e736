//! FNV-1a 64 over a canonical byte serialization of the timeline content.
use crate::timeline::clip::{ClipV, TrackKind};
use crate::timeline::model::TLView;
use vstd::prelude::*;
use vstd::utf8::{encode_scalar, encode_utf8};

verus! {

pub const FNV_OFFSET: u64 = 0xcbf2_9ce4_8422_2325;

pub const FNV_PRIME: u64 = 0x0000_0100_0000_01b3;

/// One FNV-1a step.
pub open spec fn fnv_step(h: u64, b: u8) -> u64 {
    (h ^ (b as u64)).wrapping_mul(FNV_PRIME)
}

/// FNV-1a over a byte sequence, from state `h`.
pub open spec fn fnv(h: u64, bytes: Seq<u8>) -> u64
    decreases bytes.len(),
{
    if bytes.len() == 0 {
        h
    } else {
        fnv_step(fnv(h, bytes.drop_last()), bytes.last())
    }
}

/// Little-endian bytes of a `u64`.
pub open spec fn u64_le(x: u64) -> Seq<u8> {
    Seq::new(8, |k: int| ((x >> ((8 * k) as u64)) & 0xff) as u8)
}

/// Little-endian bytes of a `u32`.
pub open spec fn u32_le(x: u32) -> Seq<u8> {
    Seq::new(4, |k: int| ((x >> ((8 * k) as u32)) & 0xff) as u8)
}

/// Little-endian two's-complement bytes of an `i64`.
pub open spec fn i64_le(x: i64) -> Seq<u8> {
    u64_le(x as u64)
}

/// Canonical bytes of one clip: all exact fields, the asset, the label and a
/// terminator (labels may be empty).
pub open spec fn clip_bytes(c: ClipV) -> Seq<u8> {
    u64_le(c.id) + i64_le(c.start.n() as i64) + i64_le(c.start.d() as i64) + i64_le(
        c.dur.n() as i64,
    ) + i64_le(c.dur.d() as i64) + i64_le(c.src_in.n() as i64) + i64_le(c.src_in.d() as i64)
        + i64_le(c.speed.n() as i64) + i64_le(c.speed.d() as i64) + u64_le(c.asset) + encode_utf8(
        c.label,
    ) + seq![0xffu8]
}

/// Little-endian bytes determine the `u64`.
proof fn lemma_u64_le_inj(x: u64, y: u64)
    requires
        u64_le(x) == u64_le(y),
    ensures
        x == y,
{
    assert(u64_le(x)[0] == u64_le(y)[0]);
    assert(u64_le(x)[0] == ((x >> 0u64) & 0xff) as u8);
    assert(u64_le(y)[0] == ((y >> 0u64) & 0xff) as u8);
    assert(u64_le(x)[1] == u64_le(y)[1]);
    assert(u64_le(x)[1] == ((x >> 8u64) & 0xff) as u8);
    assert(u64_le(y)[1] == ((y >> 8u64) & 0xff) as u8);
    assert(u64_le(x)[2] == u64_le(y)[2]);
    assert(u64_le(x)[2] == ((x >> 16u64) & 0xff) as u8);
    assert(u64_le(y)[2] == ((y >> 16u64) & 0xff) as u8);
    assert(u64_le(x)[3] == u64_le(y)[3]);
    assert(u64_le(x)[3] == ((x >> 24u64) & 0xff) as u8);
    assert(u64_le(y)[3] == ((y >> 24u64) & 0xff) as u8);
    assert(u64_le(x)[4] == u64_le(y)[4]);
    assert(u64_le(x)[4] == ((x >> 32u64) & 0xff) as u8);
    assert(u64_le(y)[4] == ((y >> 32u64) & 0xff) as u8);
    assert(u64_le(x)[5] == u64_le(y)[5]);
    assert(u64_le(x)[5] == ((x >> 40u64) & 0xff) as u8);
    assert(u64_le(y)[5] == ((y >> 40u64) & 0xff) as u8);
    assert(u64_le(x)[6] == u64_le(y)[6]);
    assert(u64_le(x)[6] == ((x >> 48u64) & 0xff) as u8);
    assert(u64_le(y)[6] == ((y >> 48u64) & 0xff) as u8);
    assert(u64_le(x)[7] == u64_le(y)[7]);
    assert(u64_le(x)[7] == ((x >> 56u64) & 0xff) as u8);
    assert(u64_le(y)[7] == ((y >> 56u64) & 0xff) as u8);
    assert(x == y) by (bit_vector)
        requires
            ((x >> 0u64) & 0xff) as u8 == ((y >> 0u64) & 0xff) as u8,
            ((x >> 8u64) & 0xff) as u8 == ((y >> 8u64) & 0xff) as u8,
            ((x >> 16u64) & 0xff) as u8 == ((y >> 16u64) & 0xff) as u8,
            ((x >> 24u64) & 0xff) as u8 == ((y >> 24u64) & 0xff) as u8,
            ((x >> 32u64) & 0xff) as u8 == ((y >> 32u64) & 0xff) as u8,
            ((x >> 40u64) & 0xff) as u8 == ((y >> 40u64) & 0xff) as u8,
            ((x >> 48u64) & 0xff) as u8 == ((y >> 48u64) & 0xff) as u8,
            ((x >> 56u64) & 0xff) as u8 == ((y >> 56u64) & 0xff) as u8,
    ;
}

/// Little-endian bytes determine the `i64`.
proof fn lemma_i64_le_inj(x: i64, y: i64)
    requires
        i64_le(x) == i64_le(y),
    ensures
        x == y,
{
    lemma_u64_le_inj(x as u64, y as u64);
    assert(x == y) by (bit_vector)
        requires
            x as u64 == y as u64,
    ;
}

/// No byte of a UTF-8 encoded scalar is `0xff`.
proof fn lemma_scalar_no_ff(v: u32)
    ensures
        forall|i: int| 0 <= i < encode_scalar(v).len() ==> #[trigger] encode_scalar(v)[i] != 0xffu8,
{
    assert(((v & 0x7F) as u8) != 0xffu8) by (bit_vector);
    assert((0xC0u8 | ((v >> 6u32) & 0x1F) as u8) != 0xffu8) by (bit_vector);
    assert((0xE0u8 | ((v >> 12u32) & 0x0F) as u8) != 0xffu8) by (bit_vector);
    assert((0xF0u8 | ((v >> 18u32) & 0x7) as u8) != 0xffu8) by (bit_vector);
    assert((0x80u8 | (v & 0x3F) as u8) != 0xffu8) by (bit_vector);
    assert((0x80u8 | ((v >> 6u32) & 0x3F) as u8) != 0xffu8) by (bit_vector);
    assert((0x80u8 | ((v >> 12u32) & 0x3F) as u8) != 0xffu8) by (bit_vector);
}

/// No byte of UTF-8 encoded text is `0xff`, so it ends a label unambiguously.
proof fn lemma_utf8_no_ff(cs: Seq<char>)
    ensures
        forall|i: int| 0 <= i < encode_utf8(cs).len() ==> #[trigger] encode_utf8(cs)[i] != 0xffu8,
    decreases cs.len(),
{
    if cs.len() > 0 {
        lemma_scalar_no_ff(cs[0] as u32);
        lemma_utf8_no_ff(cs.drop_first());
        let e = encode_scalar(cs[0] as u32);
        assert forall|i: int| 0 <= i < encode_utf8(cs).len() implies #[trigger] encode_utf8(cs)[i]
            != 0xffu8 by {
            if i < e.len() {
                assert(encode_utf8(cs)[i] == e[i]);
            } else {
                assert(encode_utf8(cs)[i] == encode_utf8(cs.drop_first())[i - e.len()]);
            }
        }
    }
}

/// Equal strings made of a head and a tail of equal length have equal heads
/// and equal tails.
proof fn lemma_peel(a1: Seq<u8>, x1: Seq<u8>, a2: Seq<u8>, x2: Seq<u8>)
    requires
        a1 + x1 == a2 + x2,
        x1.len() == x2.len(),
    ensures
        a1 == a2,
        x1 == x2,
{
    let s = a1 + x1;
    assert(a1 =~= s.subrange(0, a1.len() as int));
    assert(a2 =~= (a2 + x2).subrange(0, a2.len() as int));
    assert(x1 =~= s.subrange(a1.len() as int, s.len() as int));
    assert(x2 =~= (a2 + x2).subrange(a2.len() as int, s.len() as int));
}

/// Equal strings that start with the same head have equal rests.
proof fn lemma_cancel_head(p: Seq<u8>, x1: Seq<u8>, x2: Seq<u8>)
    requires
        p + x1 == p + x2,
    ensures
        x1 == x2,
{
    assert(x1 =~= (p + x1).subrange(p.len() as int, (p + x1).len() as int));
    assert(x2 =~= (p + x2).subrange(p.len() as int, (p + x2).len() as int));
}

/// The fixed-width part of a clip's canonical bytes: id, start, duration,
/// source in-point, speed and asset, each as eight little-endian bytes.
spec fn clip_head(c: ClipV) -> Seq<u8> {
    u64_le(c.id) + i64_le(c.start.n() as i64) + i64_le(c.start.d() as i64) + i64_le(
        c.dur.n() as i64,
    ) + i64_le(c.dur.d() as i64) + i64_le(c.src_in.n() as i64) + i64_le(c.src_in.d() as i64)
        + i64_le(c.speed.n() as i64) + i64_le(c.speed.d() as i64) + u64_le(c.asset)
}

/// Two clips agree on every field that their canonical bytes carry: all but
/// the track, which the track listing them gives.
pub open spec fn same_hashed_fields(a: ClipV, b: ClipV) -> bool {
    &&& a.id == b.id
    &&& a.start == b.start
    &&& a.dur == b.dur
    &&& a.src_in == b.src_in
    &&& a.speed == b.speed
    &&& a.asset == b.asset
    &&& a.label == b.label
}

proof fn lemma_head_fields(c1: ClipV, c2: ClipV)
    requires
        clip_head(c1) == clip_head(c2),
    ensures
        c1.id == c2.id,
        c1.start == c2.start,
        c1.dur == c2.dur,
        c1.src_in == c2.src_in,
        c1.speed == c2.speed,
        c1.asset == c2.asset,
{
    let a9_1 = u64_le(c1.id) + i64_le(c1.start.n() as i64) + i64_le(c1.start.d() as i64) + i64_le(
        c1.dur.n() as i64,
    ) + i64_le(c1.dur.d() as i64) + i64_le(c1.src_in.n() as i64) + i64_le(c1.src_in.d() as i64)
        + i64_le(c1.speed.n() as i64) + i64_le(c1.speed.d() as i64);
    let a9_2 = u64_le(c2.id) + i64_le(c2.start.n() as i64) + i64_le(c2.start.d() as i64) + i64_le(
        c2.dur.n() as i64,
    ) + i64_le(c2.dur.d() as i64) + i64_le(c2.src_in.n() as i64) + i64_le(c2.src_in.d() as i64)
        + i64_le(c2.speed.n() as i64) + i64_le(c2.speed.d() as i64);
    lemma_peel(a9_1, u64_le(c1.asset), a9_2, u64_le(c2.asset));
    lemma_u64_le_inj(c1.asset, c2.asset);
    let a8_1 = u64_le(c1.id) + i64_le(c1.start.n() as i64) + i64_le(c1.start.d() as i64) + i64_le(
        c1.dur.n() as i64,
    ) + i64_le(c1.dur.d() as i64) + i64_le(c1.src_in.n() as i64) + i64_le(c1.src_in.d() as i64)
        + i64_le(c1.speed.n() as i64);
    let a8_2 = u64_le(c2.id) + i64_le(c2.start.n() as i64) + i64_le(c2.start.d() as i64) + i64_le(
        c2.dur.n() as i64,
    ) + i64_le(c2.dur.d() as i64) + i64_le(c2.src_in.n() as i64) + i64_le(c2.src_in.d() as i64)
        + i64_le(c2.speed.n() as i64);
    lemma_peel(a8_1, i64_le(c1.speed.d() as i64), a8_2, i64_le(c2.speed.d() as i64));
    let a7_1 = u64_le(c1.id) + i64_le(c1.start.n() as i64) + i64_le(c1.start.d() as i64) + i64_le(
        c1.dur.n() as i64,
    ) + i64_le(c1.dur.d() as i64) + i64_le(c1.src_in.n() as i64) + i64_le(c1.src_in.d() as i64);
    let a7_2 = u64_le(c2.id) + i64_le(c2.start.n() as i64) + i64_le(c2.start.d() as i64) + i64_le(
        c2.dur.n() as i64,
    ) + i64_le(c2.dur.d() as i64) + i64_le(c2.src_in.n() as i64) + i64_le(c2.src_in.d() as i64);
    lemma_peel(a7_1, i64_le(c1.speed.n() as i64), a7_2, i64_le(c2.speed.n() as i64));
    lemma_i64_le_inj(c1.speed.n() as i64, c2.speed.n() as i64);
    lemma_i64_le_inj(c1.speed.d() as i64, c2.speed.d() as i64);
    c1.speed.lemma_eq_parts(c2.speed);
    let a6_1 = u64_le(c1.id) + i64_le(c1.start.n() as i64) + i64_le(c1.start.d() as i64) + i64_le(
        c1.dur.n() as i64,
    ) + i64_le(c1.dur.d() as i64) + i64_le(c1.src_in.n() as i64);
    let a6_2 = u64_le(c2.id) + i64_le(c2.start.n() as i64) + i64_le(c2.start.d() as i64) + i64_le(
        c2.dur.n() as i64,
    ) + i64_le(c2.dur.d() as i64) + i64_le(c2.src_in.n() as i64);
    lemma_peel(a6_1, i64_le(c1.src_in.d() as i64), a6_2, i64_le(c2.src_in.d() as i64));
    let a5_1 = u64_le(c1.id) + i64_le(c1.start.n() as i64) + i64_le(c1.start.d() as i64) + i64_le(
        c1.dur.n() as i64,
    ) + i64_le(c1.dur.d() as i64);
    let a5_2 = u64_le(c2.id) + i64_le(c2.start.n() as i64) + i64_le(c2.start.d() as i64) + i64_le(
        c2.dur.n() as i64,
    ) + i64_le(c2.dur.d() as i64);
    lemma_peel(a5_1, i64_le(c1.src_in.n() as i64), a5_2, i64_le(c2.src_in.n() as i64));
    lemma_i64_le_inj(c1.src_in.n() as i64, c2.src_in.n() as i64);
    lemma_i64_le_inj(c1.src_in.d() as i64, c2.src_in.d() as i64);
    c1.src_in.lemma_eq_parts(c2.src_in);
    let a4_1 = u64_le(c1.id) + i64_le(c1.start.n() as i64) + i64_le(c1.start.d() as i64) + i64_le(
        c1.dur.n() as i64,
    );
    let a4_2 = u64_le(c2.id) + i64_le(c2.start.n() as i64) + i64_le(c2.start.d() as i64) + i64_le(
        c2.dur.n() as i64,
    );
    lemma_peel(a4_1, i64_le(c1.dur.d() as i64), a4_2, i64_le(c2.dur.d() as i64));
    let a3_1 = u64_le(c1.id) + i64_le(c1.start.n() as i64) + i64_le(c1.start.d() as i64);
    let a3_2 = u64_le(c2.id) + i64_le(c2.start.n() as i64) + i64_le(c2.start.d() as i64);
    lemma_peel(a3_1, i64_le(c1.dur.n() as i64), a3_2, i64_le(c2.dur.n() as i64));
    lemma_i64_le_inj(c1.dur.n() as i64, c2.dur.n() as i64);
    lemma_i64_le_inj(c1.dur.d() as i64, c2.dur.d() as i64);
    c1.dur.lemma_eq_parts(c2.dur);
    let a2_1 = u64_le(c1.id) + i64_le(c1.start.n() as i64);
    let a2_2 = u64_le(c2.id) + i64_le(c2.start.n() as i64);
    lemma_peel(a2_1, i64_le(c1.start.d() as i64), a2_2, i64_le(c2.start.d() as i64));
    lemma_peel(u64_le(c1.id), i64_le(c1.start.n() as i64), u64_le(c2.id), i64_le(c2.start.n() as i64));
    lemma_i64_le_inj(c1.start.n() as i64, c2.start.n() as i64);
    lemma_i64_le_inj(c1.start.d() as i64, c2.start.d() as i64);
    c1.start.lemma_eq_parts(c2.start);
    lemma_u64_le_inj(c1.id, c2.id);
}

/// A clip's canonical bytes, whatever follows them, determine every field
/// they carry (id, start, duration, source in-point, speed, asset, label)
/// and where they end: if two strings that start with two clips' bytes are
/// equal, the clips agree on those fields and what follows is equal too. So
/// clips that differ in any of those fields have different bytes.
pub proof fn lemma_clip_bytes_determine(c1: ClipV, b1: Seq<u8>, c2: ClipV, b2: Seq<u8>)
    requires
        clip_bytes(c1) + b1 == clip_bytes(c2) + b2,
    ensures
        same_hashed_fields(c1, c2),
        b1 == b2,
{
    let h1 = clip_head(c1);
    let h2 = clip_head(c2);
    let u1 = encode_utf8(c1.label);
    let u2 = encode_utf8(c2.label);
    assert(clip_bytes(c1) == h1 + u1 + seq![0xffu8]);
    assert(clip_bytes(c2) == h2 + u2 + seq![0xffu8]);
    let s = clip_bytes(c1) + b1;
    assert(h1.len() == 80 && h2.len() == 80);
    assert(h1 =~= s.subrange(0, 80));
    assert(h2 =~= (clip_bytes(c2) + b2).subrange(0, 80));
    lemma_head_fields(c1, c2);
    let r1 = u1 + seq![0xffu8] + b1;
    let r2 = u2 + seq![0xffu8] + b2;
    assert(r1 =~= s.subrange(80, s.len() as int));
    assert(r2 =~= (clip_bytes(c2) + b2).subrange(80, s.len() as int));
    lemma_utf8_no_ff(c1.label);
    lemma_utf8_no_ff(c2.label);
    let l1 = u1.len() as int;
    let l2 = u2.len() as int;
    if l1 < l2 {
        assert(r1[l1] == 0xffu8);
        assert(r2[l1] == u2[l1]);
    }
    if l2 < l1 {
        assert(r2[l2] == 0xffu8);
        assert(r1[l2] == u1[l2]);
    }
    assert(l1 == l2);
    assert(u1 =~= r1.subrange(0, l1));
    assert(u2 =~= r2.subrange(0, l1));
    assert(b1 =~= r1.subrange(l1 + 1, r1.len() as int));
    assert(b2 =~= r2.subrange(l1 + 1, r1.len() as int));
    vstd::utf8::encode_utf8_decode_utf8(c1.label);
    vstd::utf8::encode_utf8_decode_utf8(c2.label);
}

/// Canonical bytes of the clips of a track sequence, in order.
pub open spec fn clips_bytes(v: TLView, seq: Seq<u64>) -> Seq<u8>
    decreases seq.len(),
{
    if seq.len() == 0 {
        Seq::empty()
    } else {
        clips_bytes(v, seq.drop_last()) + clip_bytes(v.clips[seq.last()])
    }
}

pub open spec fn kind_byte(k: TrackKind) -> u8 {
    match k {
        TrackKind::Video => 0u8,
        TrackKind::Audio => 1u8,
    }
}

/// Canonical bytes of track `t`: its kind, its length and its clips.
pub open spec fn track_bytes(v: TLView, t: int) -> Seq<u8> {
    seq![kind_byte(v.kinds[t])] + u32_le(v.tracks[t].len() as u32) + clips_bytes(v, v.tracks[t])
}

/// Canonical bytes of the first `n` tracks.
pub open spec fn tracks_bytes(v: TLView, n: int) -> Seq<u8>
    decreases n,
{
    if n <= 0 {
        Seq::empty()
    } else {
        tracks_bytes(v, n - 1) + track_bytes(v, n - 1)
    }
}

/// Canonical bytes of the timeline content (the id counter excluded).
pub open spec fn content_bytes(v: TLView) -> Seq<u8> {
    u32_le(v.tracks.len() as u32) + tracks_bytes(v, v.tracks.len() as int)
}

/// The content hash of a timeline.
pub open spec fn content_hash(v: TLView) -> u64 {
    fnv(FNV_OFFSET, content_bytes(v))
}

/// Hashing a concatenation is hashing the parts in turn.
pub proof fn lemma_fnv_append(h: u64, a: Seq<u8>, b: Seq<u8>)
    ensures
        fnv(h, a + b) == fnv(fnv(h, a), b),
    decreases b.len(),
{
    if b.len() == 0 {
        assert(a + b =~= a);
    } else {
        lemma_fnv_append(h, a, b.drop_last());
        assert((a + b).drop_last() =~= a + b.drop_last());
        assert((a + b).last() == b.last());
    }
}

/// Little-endian bytes determine the `u32`.
proof fn lemma_u32_le_inj(x: u32, y: u32)
    requires
        u32_le(x) == u32_le(y),
    ensures
        x == y,
{
    assert(u32_le(x)[0] == u32_le(y)[0]);
    assert(u32_le(x)[0] == ((x >> 0u32) & 0xff) as u8);
    assert(u32_le(y)[0] == ((y >> 0u32) & 0xff) as u8);
    assert(u32_le(x)[1] == u32_le(y)[1]);
    assert(u32_le(x)[1] == ((x >> 8u32) & 0xff) as u8);
    assert(u32_le(y)[1] == ((y >> 8u32) & 0xff) as u8);
    assert(u32_le(x)[2] == u32_le(y)[2]);
    assert(u32_le(x)[2] == ((x >> 16u32) & 0xff) as u8);
    assert(u32_le(y)[2] == ((y >> 16u32) & 0xff) as u8);
    assert(u32_le(x)[3] == u32_le(y)[3]);
    assert(u32_le(x)[3] == ((x >> 24u32) & 0xff) as u8);
    assert(u32_le(y)[3] == ((y >> 24u32) & 0xff) as u8);
    assert(x == y) by (bit_vector)
        requires
            ((x >> 0u32) & 0xff) as u8 == ((y >> 0u32) & 0xff) as u8,
            ((x >> 8u32) & 0xff) as u8 == ((y >> 8u32) & 0xff) as u8,
            ((x >> 16u32) & 0xff) as u8 == ((y >> 16u32) & 0xff) as u8,
            ((x >> 24u32) & 0xff) as u8 == ((y >> 24u32) & 0xff) as u8,
    ;
}

proof fn lemma_clips_bytes_determine(
    v: TLView,
    w: TLView,
    s1: Seq<u64>,
    s2: Seq<u64>,
    r1: Seq<u8>,
    r2: Seq<u8>,
)
    requires
        s1.len() == s2.len(),
        clips_bytes(v, s1) + r1 == clips_bytes(w, s2) + r2,
    ensures
        r1 == r2,
        forall|i: int|
            0 <= i < s1.len() ==> same_hashed_fields(v.clips[#[trigger] s1[i]], w.clips[s2[i]]),
    decreases s1.len(),
{
    if s1.len() > 0 {
        let p1 = s1.drop_last();
        let p2 = s2.drop_last();
        let x1 = clip_bytes(v.clips[s1.last()]);
        let x2 = clip_bytes(w.clips[s2.last()]);
        assert(clips_bytes(v, s1) + r1 =~= clips_bytes(v, p1) + (x1 + r1));
        assert(clips_bytes(w, s2) + r2 =~= clips_bytes(w, p2) + (x2 + r2));
        lemma_clips_bytes_determine(v, w, p1, p2, x1 + r1, x2 + r2);
        lemma_clip_bytes_determine(v.clips[s1.last()], r1, w.clips[s2.last()], r2);
        assert forall|i: int| 0 <= i < s1.len() implies same_hashed_fields(
            v.clips[#[trigger] s1[i]],
            w.clips[s2[i]],
        ) by {
            if i < p1.len() {
                assert(p1[i] == s1[i]);
                assert(p2[i] == s2[i]);
            }
        }
    }
}

/// Every track of the first `n` has fewer than 2^32 clips.
pub open spec fn lens_fit(v: TLView, n: int) -> bool {
    forall|t: int| 0 <= t < n ==> (#[trigger] v.tracks[t]).len() <= u32::MAX
}

proof fn lemma_tracks_bytes_determine(v: TLView, w: TLView, n: int, r1: Seq<u8>, r2: Seq<u8>)
    requires
        v.wf(),
        w.wf(),
        0 <= n <= v.tracks.len(),
        n <= w.tracks.len(),
        lens_fit(v, n),
        lens_fit(w, n),
        tracks_bytes(v, n) + r1 == tracks_bytes(w, n) + r2,
    ensures
        r1 == r2,
        forall|t: int| 0 <= t < n ==> #[trigger] v.kinds[t] == w.kinds[t],
        forall|t: int| 0 <= t < n ==> #[trigger] v.tracks[t] == w.tracks[t],
        forall|t: int, i: int|
            0 <= t < n && 0 <= i < v.tracks[t].len() ==> v.clips[#[trigger] v.tracks[t][i]]
                == w.clips[v.tracks[t][i]],
    decreases n,
{
    if n > 0 {
        let t = n - 1;
        let q1 = v.tracks[t];
        let q2 = w.tracks[t];
        let head1 = seq![kind_byte(v.kinds[t])] + u32_le(q1.len() as u32);
        let head2 = seq![kind_byte(w.kinds[t])] + u32_le(q2.len() as u32);
        assert(track_bytes(v, t) == head1 + clips_bytes(v, q1));
        assert(track_bytes(w, t) == head2 + clips_bytes(w, q2));
        let y1 = track_bytes(v, t) + r1;
        let y2 = track_bytes(w, t) + r2;
        assert(tracks_bytes(v, n) + r1 =~= tracks_bytes(v, t) + y1);
        assert(tracks_bytes(w, n) + r2 =~= tracks_bytes(w, t) + y2);
        lemma_tracks_bytes_determine(v, w, t, y1, y2);
        assert(y1 =~= head1 + (clips_bytes(v, q1) + r1));
        assert(y2 =~= head2 + (clips_bytes(w, q2) + r2));
        assert(head1 =~= y1.subrange(0, 5));
        assert(head2 =~= y2.subrange(0, 5));
        assert(y1[0] == kind_byte(v.kinds[t]) && y2[0] == kind_byte(w.kinds[t]));
        assert(v.kinds[t] == w.kinds[t]);
        lemma_peel(seq![kind_byte(v.kinds[t])], u32_le(q1.len() as u32), seq![kind_byte(w.kinds[t])], u32_le(q2.len() as u32));
        lemma_u32_le_inj(q1.len() as u32, q2.len() as u32);
        assert(q1.len() == q2.len());
        lemma_cancel_head(head1, clips_bytes(v, q1) + r1, clips_bytes(w, q2) + r2);
        lemma_clips_bytes_determine(v, w, q1, q2, r1, r2);
        assert(v.track_ok(t));
        assert(w.track_ok(t));
        assert forall|i: int| 0 <= i < q1.len() implies q1[i] == q2[i] && v.clips[q1[i]] == w.clips[q1[i]] by {
            assert(same_hashed_fields(v.clips[q1[i]], w.clips[q2[i]]));
            assert(v.clips[q1[i]].id == q1[i]);
            assert(w.clips[q2[i]].id == q2[i]);
        }
        assert(q1 =~= q2);
        assert forall|u: int, i: int|
            0 <= u < n && 0 <= i < v.tracks[u].len() implies v.clips[#[trigger] v.tracks[u][i]]
                == w.clips[v.tracks[u][i]] by {
            if u == t {
                assert(v.tracks[u][i] == q1[i]);
            }
        }
    }
}

/// The canonical content bytes determine the content: two well-formed
/// timelines (with fewer than 2^32 tracks and fewer than 2^32 clips per
/// track, the widths the bytes give the counts) whose content bytes are
/// equal have the same track kinds, the same clips on each track in the same
/// order, and identical clip tables. So two timelines whose content differs
/// anywhere, in any exact field of any clip (start, duration, source
/// in-point, speed, asset, label) or in their tracks, have different
/// content bytes.
pub proof fn lemma_content_bytes_determine(v: TLView, w: TLView)
    requires
        v.wf(),
        w.wf(),
        v.tracks.len() <= u32::MAX,
        w.tracks.len() <= u32::MAX,
        lens_fit(v, v.tracks.len() as int),
        lens_fit(w, w.tracks.len() as int),
        content_bytes(v) == content_bytes(w),
    ensures
        v.same_content(w),
{
    let n = v.tracks.len() as int;
    let m = w.tracks.len() as int;
    let e = Seq::<u8>::empty();
    assert(content_bytes(v) =~= u32_le(n as u32) + (tracks_bytes(v, n) + e));
    assert(content_bytes(w) =~= u32_le(m as u32) + (tracks_bytes(w, m) + e));
    assert(u32_le(n as u32) =~= content_bytes(v).subrange(0, 4));
    assert(u32_le(m as u32) =~= content_bytes(w).subrange(0, 4));
    lemma_u32_le_inj(n as u32, m as u32);
    assert(n == m);
    lemma_cancel_head(u32_le(n as u32), tracks_bytes(v, n) + e, tracks_bytes(w, n) + e);
    lemma_tracks_bytes_determine(v, w, n, e, e);
    assert(v.kinds =~= w.kinds);
    assert(v.tracks =~= w.tracks);
    assert forall|id: u64| v.clips.contains_key(id) implies w.clips.contains_key(id) && v.clips[id]
        == w.clips[id] by {
        let t = v.clips[id].track as int;
        assert(v.track_ok(t));
        let i = choose|i: int| 0 <= i < v.tracks[t].len() && v.tracks[t][i] == id;
        assert(w.track_ok(t));
        assert(w.tracks[t][i] == id);
        assert(v.clips[v.tracks[t][i]] == w.clips[v.tracks[t][i]]);
    }
    assert forall|id: u64| w.clips.contains_key(id) implies v.clips.contains_key(id) by {
        let t = w.clips[id].track as int;
        assert(w.track_ok(t));
        let i = choose|i: int| 0 <= i < w.tracks[t].len() && w.tracks[t][i] == id;
        assert(v.track_ok(t));
        assert(v.tracks[t][i] == id);
    }
    assert(v.clips =~= w.clips);
}

/// The content hash ignores the id counter.
pub proof fn lemma_hash_ignores_counter(v: TLView, w: TLView)
    requires
        v.same_content(w),
    ensures
        content_hash(v) == content_hash(w),
{
    assert(content_bytes(v) == content_bytes(w)) by {
        lemma_tracks_bytes_same(v, w, v.tracks.len() as int);
    }
}

proof fn lemma_clips_bytes_same(v: TLView, w: TLView, seq: Seq<u64>)
    requires
        v.clips == w.clips,
    ensures
        clips_bytes(v, seq) == clips_bytes(w, seq),
    decreases seq.len(),
{
    if seq.len() > 0 {
        lemma_clips_bytes_same(v, w, seq.drop_last());
    }
}

proof fn lemma_tracks_bytes_same(v: TLView, w: TLView, n: int)
    requires
        v.same_content(w),
    ensures
        tracks_bytes(v, n) == tracks_bytes(w, n),
    decreases n,
{
    if n > 0 {
        lemma_tracks_bytes_same(v, w, n - 1);
        lemma_clips_bytes_same(v, w, v.tracks[n - 1]);
    }
}

/// Feed one byte.
pub fn feed_byte(h: u64, b: u8) -> (r: u64)
    ensures
        r == fnv_step(h, b),
{
    (h ^ (b as u64)).wrapping_mul(FNV_PRIME)
}

/// Feed a byte slice.
pub fn feed_bytes(h: u64, bytes: &[u8]) -> (r: u64)
    ensures
        r == fnv(h, bytes@),
{
    let mut acc = h;
    let mut i: usize = 0;
    while i < bytes.len()
        invariant
            i <= bytes@.len(),
            acc == fnv(h, bytes@.take(i as int)),
        decreases bytes@.len() - i,
    {
        proof {
            assert(bytes@.take(i + 1).drop_last() =~= bytes@.take(i as int));
        }
        acc = feed_byte(acc, bytes[i]);
        i += 1;
    }
    proof {
        assert(bytes@.take(i as int) =~= bytes@);
    }
    acc
}

/// Feed the little-endian bytes of a `u64`.
pub fn feed_u64(h: u64, x: u64) -> (r: u64)
    ensures
        r == fnv(h, u64_le(x)),
{
    let mut acc = h;
    let mut k: u64 = 0;
    while k < 8
        invariant
            k <= 8,
            acc == fnv(h, u64_le(x).take(k as int)),
        decreases 8 - k,
    {
        proof {
            assert(u64_le(x).take(k + 1).drop_last() =~= u64_le(x).take(k as int));
        }
        let b = ((x >> (8 * k)) & 0xff) as u8;
        acc = feed_byte(acc, b);
        k += 1;
    }
    proof {
        assert(u64_le(x).take(8) =~= u64_le(x));
    }
    acc
}

/// Feed the little-endian bytes of a `u32`.
pub fn feed_u32(h: u64, x: u32) -> (r: u64)
    ensures
        r == fnv(h, u32_le(x)),
{
    let mut acc = h;
    let mut k: u32 = 0;
    while k < 4
        invariant
            k <= 4,
            acc == fnv(h, u32_le(x).take(k as int)),
        decreases 4 - k,
    {
        proof {
            assert(u32_le(x).take(k + 1).drop_last() =~= u32_le(x).take(k as int));
        }
        let b = ((x >> (8 * k)) & 0xff) as u8;
        acc = feed_byte(acc, b);
        k += 1;
    }
    proof {
        assert(u32_le(x).take(4) =~= u32_le(x));
    }
    acc
}

/// Feed the little-endian two's-complement bytes of an `i64`.
pub fn feed_i64(h: u64, x: i64) -> (r: u64)
    ensures
        r == fnv(h, i64_le(x)),
{
    feed_u64(h, x as u64)
}

} // verus!
