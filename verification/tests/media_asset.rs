use ove::media::asset::{ContentHash, ContentHasher};

#[test]
fn hash_is_stable_and_hex_roundtrips() {
    let h = ContentHash::from_bytes(b"open-video-engine");
    let hex = h.hex();
    assert_eq!(hex.len(), 64);
    let text: String = serde_json::from_str(&format!("\"{}\"", hex)).unwrap();
    let de = ContentHash::from_hex(&text).unwrap();
    assert_eq!(de, h);
    assert_eq!(ContentHash::from_bytes(b"open-video-engine"), h);
    assert_ne!(ContentHash::from_bytes(b"other"), h);
}

#[test]
fn streaming_hash_equals_one_shot_hash() {
    let data: Vec<u8> = (0..3_000_000u32).map(|i| (i % 251) as u8).collect();
    let mut hasher = ContentHasher::new();
    for chunk in data.chunks(1 << 20) {
        hasher.update(chunk);
    }
    assert_eq!(hasher.finish(), ContentHash::from_bytes(&data));
}

#[test]
fn hex_parse_rejects_bad_text() {
    assert!(ContentHash::from_hex("abc").is_none());
    let bad = "g".repeat(64);
    assert!(ContentHash::from_hex(&bad).is_none());
    let upper = ContentHash::from_bytes(b"x").hex().to_uppercase();
    assert_eq!(ContentHash::from_hex(&upper), Some(ContentHash::from_bytes(b"x")));
    // the empty input hashes to the known BLAKE3 digest
    assert_eq!(
        ContentHash::from_bytes(b"").hex(),
        "af1349b9f5f9a1a6a0404dea36dcc9499bcb25c9adc112b7cc9a93cae41f3262"
    );
}
