//! Asset identity: content-hash addressing (the asset is the cache key).
//! Every downstream cache keys by the BLAKE3 hash of the asset's bytes, so a
//! renamed, moved or deduplicated file is the same asset.
use crate::text::{digit_str, hex_digit};
use vstd::prelude::*;
use vstd::string::StringSliceAdditionalSpecFns;

verus! {

/// The BLAKE3 hash (32 bytes) of a byte sequence.
pub uninterp spec fn blake3_digest(data: Seq<u8>) -> Seq<u8>;

/// What a BLAKE3 hasher has absorbed so far.
pub uninterp spec fn absorbed(h: blake3::Hasher) -> Seq<u8>;

#[verifier::external_type_specification]
#[verifier::external_body]
pub struct ExHasher(blake3::Hasher);

/// `blake3::hash`: the 32-byte BLAKE3 digest of the input, a function of the
/// input bytes alone.
#[verifier::external_body]
fn blake3_hash(bytes: &[u8]) -> (r: [u8; 32])
    ensures
        r@ == blake3_digest(bytes@),
{
    blake3::hash(bytes).into()
}

/// `blake3::Hasher::new`: a hasher that has absorbed nothing.
#[verifier::external_body]
fn hasher_new() -> (r: blake3::Hasher)
    ensures
        absorbed(r) == Seq::<u8>::empty(),
{
    blake3::Hasher::new()
}

/// `blake3::Hasher::update`: absorbs the input after what came before.
#[verifier::external_body]
fn hasher_update(h: &mut blake3::Hasher, input: &[u8])
    ensures
        absorbed(*final(h)) == absorbed(*old(h)) + input@,
{
    h.update(input);
}

/// `blake3::Hasher::finalize`: the digest of everything absorbed, equal to
/// `blake3::hash` of the concatenated input (the crate documents this).
#[verifier::external_body]
fn hasher_finalize(h: &blake3::Hasher) -> (r: [u8; 32])
    ensures
        r@ == blake3_digest(absorbed(*h)),
{
    h.finalize().into()
}

/// BLAKE3 content hash (256 bits) of an asset's bytes.
#[derive(Clone, Copy, PartialEq, Eq, Hash, PartialOrd, Ord, Debug)]
pub struct ContentHash([u8; 32]);

impl View for ContentHash {
    type V = Seq<u8>;

    closed spec fn view(&self) -> Seq<u8> {
        self.0@
    }
}

/// Lower-case hex of a byte sequence, two digits per byte.
pub open spec fn hex_of(bytes: Seq<u8>) -> Seq<char>
    decreases bytes.len(),
{
    if bytes.len() == 0 {
        Seq::empty()
    } else {
        let b = bytes.last() as int;
        hex_of(bytes.drop_last()) + seq![hex_digit(b / 16), hex_digit(b % 16)]
    }
}

impl ContentHash {
    /// The hash of a byte slice.
    pub fn from_bytes(bytes: &[u8]) -> (r: Self)
        ensures
            r@ == blake3_digest(bytes@),
    {
        ContentHash(blake3_hash(bytes))
    }

    pub fn as_bytes(&self) -> (r: &[u8; 32])
        ensures
            r@ == self@,
    {
        &self.0
    }

    /// Lower-case hex, 64 characters.
    pub fn hex(&self) -> (r: String)
        ensures
            r@ == hex_of(self@),
            r@.len() == 64,
    {
        let mut s = String::new();
        let mut i: usize = 0;
        while i < 32
            invariant
                i <= 32,
                self@.len() == 32,
                s@ == hex_of(self@.take(i as int)),
                s@.len() == 2 * i,
            decreases 32 - i,
        {
            let b = self.0[i];
            s.append(digit_str(b / 16));
            s.append(digit_str(b % 16));
            proof {
                let t = self@.take(i as int + 1);
                assert(t.drop_last() =~= self@.take(i as int));
                assert(t.last() == b);
            }
            i += 1;
        }
        proof {
            assert(self@.take(32) =~= self@);
        }
        s
    }
}

/// The value of a hex digit byte (either case), if it is one.
pub open spec fn hex_val(c: u8) -> Option<u8> {
    if 48 <= c <= 57 {
        Some((c - 48) as u8)
    } else if 97 <= c <= 102 {
        Some((c - 87) as u8)
    } else if 65 <= c <= 70 {
        Some((c - 55) as u8)
    } else {
        None
    }
}

/// The byte a two-character chunk parses to as a base-16 `u8`: two hex
/// digits, or a plus sign and one digit.
pub open spec fn pair_val(a: u8, b: u8) -> Option<u8> {
    if a == 43 {
        hex_val(b)
    } else {
        match (hex_val(a), hex_val(b)) {
            (Some(x), Some(y)) => Some((x * 16 + y) as u8),
            _ => None,
        }
    }
}

/// The 32 bytes a 64-byte text parses to, if every chunk parses.
pub open spec fn parse_hex(t: Seq<u8>) -> Option<Seq<u8>> {
    if t.len() == 64 && forall|i: int| 0 <= i < 32 ==> (#[trigger] pair_val(t[2 * i], t[2 * i + 1]))
        is Some {
        Some(Seq::new(32, |i: int| pair_val(t[2 * i], t[2 * i + 1])->0))
    } else {
        None
    }
}

fn hex_value(c: u8) -> (r: Option<u8>)
    ensures
        r == hex_val(c),
{
    if 48 <= c && c <= 57 {
        Some(c - 48)
    } else if 97 <= c && c <= 102 {
        Some(c - 87)
    } else if 65 <= c && c <= 70 {
        Some(c - 55)
    } else {
        None
    }
}

fn pair_value(a: u8, b: u8) -> (r: Option<u8>)
    ensures
        r == pair_val(a, b),
{
    if a == 43 {
        hex_value(b)
    } else {
        match (hex_value(a), hex_value(b)) {
            (Some(x), Some(y)) => Some(x * 16 + y),
            _ => None,
        }
    }
}

/// Position by position: the hex text of `b` has length `2 * |b|`, and
/// byte `i` is spelled by the digits of its high and low nibble.
proof fn lemma_hex_of_at(b: Seq<u8>)
    ensures
        hex_of(b).len() == 2 * b.len(),
        forall|i: int| 0 <= i < b.len() ==> #[trigger] hex_of(b)[2 * i] == hex_digit((b[i] as int) / 16),
        forall|i: int| 0 <= i < b.len() ==> #[trigger] hex_of(b)[2 * i + 1] == hex_digit((b[i] as int) % 16),
    decreases b.len(),
{
    if b.len() > 0 {
        let p = b.drop_last();
        lemma_hex_of_at(p);
        let x = b.last() as int;
        let tail = seq![hex_digit(x / 16), hex_digit(x % 16)];
        assert(hex_of(b) == hex_of(p) + tail);
        assert forall|i: int| 0 <= i < b.len() implies #[trigger] hex_of(b)[2 * i] == hex_digit((b[i] as int) / 16) by {
            if i < p.len() {
                assert(b[i] == p[i]);
                assert(hex_of(b)[2 * i] == hex_of(p)[2 * i]);
            } else {
                assert(hex_of(b)[2 * i] == tail[0]);
            }
        }
        assert forall|i: int| 0 <= i < b.len() implies #[trigger] hex_of(b)[2 * i + 1] == hex_digit((b[i] as int) % 16) by {
            if i < p.len() {
                assert(b[i] == p[i]);
                assert(hex_of(b)[2 * i + 1] == hex_of(p)[2 * i + 1]);
            } else {
                assert(hex_of(b)[2 * i + 1] == tail[1]);
            }
        }
    }
}

/// A digit's character parses back to the digit.
proof fn lemma_digit_parses(n: int)
    requires
        0 <= n < 16,
    ensures
        hex_digit(n) as u8 != 43,
        hex_val(hex_digit(n) as u8) == Some(n as u8),
        '\0' <= hex_digit(n) <= '\u{7f}',
{
}

/// Parsing the hex text of a hash gives the hash back: for any text whose
/// characters are `hex_of` of the hash's bytes, `from_hex` returns the hash.
pub proof fn lemma_hex_roundtrip(h: ContentHash, s: &str)
    requires
        s@ == hex_of(h@),
    ensures
        parse_hex(s.spec_bytes()) == Some(h@),
{
    let b = h@;
    assert(b.len() == 32);
    lemma_hex_of_at(b);
    assert forall|i: int| 0 <= i < s@.len() implies '\0' <= #[trigger] s@[i] <= '\u{7f}' by {
        let j = i / 2;
        assert(0 <= j < 32);
        if i % 2 == 0 {
            assert(i == 2 * j);
            assert(s@[i] == hex_of(b)[2 * j]);
            lemma_digit_parses((b[j] as int) / 16);
        } else {
            assert(i == 2 * j + 1);
            assert(s@[i] == hex_of(b)[2 * j + 1]);
            lemma_digit_parses((b[j] as int) % 16);
        }
    }
    assert(vstd::string::is_ascii(s));
    vstd::string::is_ascii_spec_bytes(s);
    let t = s.spec_bytes();
    assert forall|i: int| 0 <= i < 32 implies (#[trigger] pair_val(t[2 * i], t[2 * i + 1])) is Some
        && pair_val(t[2 * i], t[2 * i + 1])->0 == b[i] by {
        lemma_digit_parses((b[i] as int) / 16);
        lemma_digit_parses((b[i] as int) % 16);
        assert(hex_of(b)[2 * i] == hex_digit((b[i] as int) / 16));
        assert(hex_of(b)[2 * i + 1] == hex_digit((b[i] as int) % 16));
        assert(t[2 * i] == hex_digit((b[i] as int) / 16) as u8);
        assert(t[2 * i + 1] == hex_digit((b[i] as int) % 16) as u8);
        assert(((b[i] as int) / 16) * 16 + (b[i] as int) % 16 == b[i]);
    }
    assert(parse_hex(t) is Some);
    assert(parse_hex(t)->0 =~= b);
}

impl ContentHash {
    /// Parse the 64-character hex text of a hash (each byte a base-16 `u8`,
    /// either case); None if the length is not 64 or a chunk does not parse.
    pub fn from_hex(s: &str) -> (r: Option<ContentHash>)
        ensures
            match parse_hex(s.spec_bytes()) {
                Some(b) => r is Some && r->0@ == b,
                None => r is None,
            },
    {
        let t = s.as_bytes();
        if t.len() != 64 {
            return None;
        }
        let mut out: [u8; 32] = [0u8; 32];
        let mut i: usize = 0;
        while i < 32
            invariant
                t@ == s.spec_bytes(),
                t@.len() == 64,
                i <= 32,
                out@.len() == 32,
                forall|j: int| 0 <= j < i ==> (#[trigger] pair_val(t@[2 * j], t@[2 * j + 1])) is Some
                    && out@[j] == pair_val(t@[2 * j], t@[2 * j + 1])->0,
            decreases 32 - i,
        {
            match pair_value(t[2 * i], t[2 * i + 1]) {
                Some(v) => {
                    out[i] = v;
                },
                None => {
                    proof {
                        let k = i as int;
                        assert(pair_val(t@[2 * k], t@[2 * k + 1]) is None);
                        assert(parse_hex(t@) is None);
                    }
                    return None;
                },
            }
            i += 1;
        }
        let r = ContentHash(out);
        proof {
            assert(r@ =~= Seq::new(32, |j: int| pair_val(t@[2 * j], t@[2 * j + 1])->0));
        }
        Some(r)
    }
}

/// Streaming content hashing: feed the bytes in any number of chunks; the
/// result equals the hash of their concatenation.
pub struct ContentHasher {
    inner: blake3::Hasher,
}

impl ContentHasher {
    /// The bytes absorbed so far.
    pub closed spec fn seen(&self) -> Seq<u8> {
        absorbed(self.inner)
    }

    pub fn new() -> (r: Self)
        ensures
            r.seen() == Seq::<u8>::empty(),
    {
        ContentHasher { inner: hasher_new() }
    }

    pub fn update(&mut self, chunk: &[u8])
        ensures
            final(self).seen() == old(self).seen() + chunk@,
    {
        hasher_update(&mut self.inner, chunk);
    }

    pub fn finish(&self) -> (r: ContentHash)
        ensures
            r@ == blake3_digest(self.seen()),
    {
        ContentHash(hasher_finalize(&self.inner))
    }
}

/// Reference to an immutable media asset: identity is the content hash; the
/// locator says how to reach the bytes and is not part of the identity.
#[derive(Clone, Debug, PartialEq, Eq)]
pub struct AssetRef {
    pub content_hash: ContentHash,
    pub locator: String,
}

/// Zero-based stream index inside an asset (container order).
#[derive(Clone, Copy, Debug, PartialEq, Eq, Hash, PartialOrd, Ord, Structural)]
pub struct StreamId(pub u32);

#[derive(Clone, Copy, Debug, PartialEq, Eq, Hash, Structural)]
pub enum StreamKind {
    Video,
    Audio,
    Data,
    Attachment,
    Unknown,
}

} // verus!
