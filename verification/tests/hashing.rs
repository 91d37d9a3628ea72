use c0mpute::hash::{self, HashParseError};
use c0mpute::hex;

#[test]
fn hex_encodes_lowercase_two_digits_per_byte() {
    assert_eq!(hex::encode(&[0x00, 0x0f, 0xa5, 0xff]), "000fa5ff");
    assert_eq!(hex::encode(&[]), "");
}

#[test]
fn blake3_of_empty_input() {
    let h = hash::Hash::of(b"");
    assert_eq!(
        h.to_hex(),
        "af1349b9f5f9a1a6a0404dea36dcc9499bcb25c9adc112b7cc9a93cae41f3262"
    );
}

#[test]
fn hash_hex_roundtrip() {
    let h = hash::Hash::of(b"hello c0mpute");
    let back = hash::Hash::from_hex(&h.to_hex()).unwrap();
    assert!(back == h);
    assert_eq!(hash::Hash::from_hex(&h.to_hex().to_uppercase()).unwrap().0, h.0);
}

#[test]
fn from_hex_rejects_bad_input() {
    assert_eq!(hash::Hash::from_hex("abcd").unwrap_err(), HashParseError::BadLength);
    let bad = "g".repeat(64);
    assert_eq!(hash::Hash::from_hex(&bad).unwrap_err(), HashParseError::BadDigit);
}

#[test]
fn hashes_compare_by_bytes() {
    assert!(hash::Hash([1; 32]) == hash::Hash([1; 32]));
    assert!(hash::Hash([1; 32]) != hash::Hash([2; 32]));
}
