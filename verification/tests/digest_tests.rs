use rush::digest::{Digest, HashMethod};
use rush::errors::RushError;
use rush::provider::{hash_bytes, hash_content};

fn hex_string(d: &Digest) -> String {
    String::from_utf8(d.to_hex()).unwrap()
}

#[test]
fn md5_of_hello_matches_reference() {
    let d = hash_bytes(&HashMethod::Md5, b"hello").unwrap();
    assert_eq!(hex_string(&d), "5d41402abc4b2a76b9719d911017c592");
}

#[test]
fn md5_of_empty_matches_reference() {
    let d = hash_bytes(&HashMethod::Md5, b"").unwrap();
    assert_eq!(hex_string(&d), "d41d8cd98f00b204e9800998ecf8427e");
}

#[test]
fn blake3_digest_is_32_bytes() {
    let d = hash_bytes(&HashMethod::Blake3, b"hello").unwrap();
    assert_eq!(d.len(), 32);
}

#[test]
fn blake3_of_empty_matches_reference() {
    let d = hash_bytes(&HashMethod::Blake3, b"").unwrap();
    assert_eq!(
        hex_string(&d),
        "af1349b9f5f9a1a6a0404dea36dcc9499bcb25c9adc112b7cc9a93cae41f3262"
    );
}

#[test]
fn zero_digest_is_all_zero_hex() {
    let z = Digest::zero(&HashMethod::Md5);
    assert_eq!(hex_string(&z), "00000000000000000000000000000000");
    let z32 = Digest::zero(&HashMethod::Blake3);
    assert_eq!(z32.len(), 32);
    assert!(hex_string(&z32).chars().all(|c| c == '0'));
}

#[test]
fn hex_round_trip() {
    let d = hash_bytes(&HashMethod::Md5, b"round trip").unwrap();
    let h = d.to_hex();
    let back = Digest::from_hex(&h).unwrap();
    assert!(back == d);
}

#[test]
fn from_hex_accepts_uppercase() {
    let h = b"5D41402ABC4B2A76B9719D911017C592".to_vec();
    let d = Digest::from_hex(&h).unwrap();
    assert_eq!(hex_string(&d), "5d41402abc4b2a76b9719d911017c592");
}

#[test]
fn from_hex_rejects_wrong_length() {
    assert_eq!(
        Digest::from_hex(&b"abcd".to_vec()).unwrap_err(),
        RushError::Format
    );
    assert_eq!(
        Digest::from_hex(&b"".to_vec()).unwrap_err(),
        RushError::Format
    );
    // 33 hex digits: neither family's width
    let h = vec![b'a'; 33];
    assert_eq!(Digest::from_hex(&h).unwrap_err(), RushError::Format);
}

#[test]
fn from_hex_rejects_bad_digit() {
    let mut h = vec![b'0'; 32];
    h[7] = b'g';
    assert_eq!(Digest::from_hex(&h).unwrap_err(), RushError::Format);
}

#[test]
fn digest_families_never_compare_equal() {
    let a = hash_bytes(&HashMethod::Md5, b"x").unwrap();
    let b = hash_bytes(&HashMethod::Blake3, b"x").unwrap();
    assert!(!(a == b));
}

#[test]
fn method_labels() {
    assert_eq!(HashMethod::Md5.as_str(), "md5");
    assert_eq!(HashMethod::Blake3.as_str(), "blake3");
    assert_eq!(HashMethod::Md5.width(), 16);
    assert_eq!(HashMethod::Blake3.width(), 32);
}

#[test]
fn byte_limit_hashes_only_the_prefix() {
    let full = hash_content(&HashMethod::Md5, b"hello world", 0).unwrap();
    let all = hash_content(&HashMethod::Md5, b"hello world", 100).unwrap();
    assert!(full == all);
    let first3 = hash_content(&HashMethod::Md5, b"hello world", 3).unwrap();
    let hel = hash_bytes(&HashMethod::Md5, b"hel").unwrap();
    assert!(first3 == hel);
    assert!(!(first3 == full));
}

#[test]
fn byte_limit_equal_to_length_hashes_everything() {
    let exact = hash_content(&HashMethod::Md5, b"hello", 5).unwrap();
    let full = hash_bytes(&HashMethod::Md5, b"hello").unwrap();
    assert!(exact == full);
}

#[test]
fn hex_round_trip_for_the_32_byte_family() {
    let d = hash_bytes(&HashMethod::Blake3, b"round trip").unwrap();
    let h = d.to_hex();
    assert_eq!(h.len(), 64);
    let back = Digest::from_hex(&h).unwrap();
    assert!(back == d);
}
