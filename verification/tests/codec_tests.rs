use rit::codec::{decode_object, encode_object, hash_content};
use rit::types::{RitError, Types};

#[test]
fn blob_canonical_bytes() {
    let enc = encode_object(Types::Blob, &b"hello".to_vec());
    assert_eq!(enc, b"blob 5\x00hello".to_vec());
}

#[test]
fn tree_and_commit_headers() {
    assert_eq!(encode_object(Types::Tree, &Vec::new()), b"tree 0\x00".to_vec());
    assert_eq!(encode_object(Types::Commit, &b"x".to_vec()), b"commit 1\x00x".to_vec());
}

#[test]
fn decimal_length_has_no_leading_zeros() {
    let payload = vec![7u8; 120];
    let enc = encode_object(Types::Blob, &payload);
    let header: Vec<u8> = enc.iter().cloned().take_while(|b| *b != 0).collect();
    assert_eq!(header, b"blob 120".to_vec());
}

#[test]
fn hash_matches_independent_digest() {
    let content = b"blob 5\x00hello".to_vec();
    let h = hash_content(&content);
    let expected = hex::encode(ring::digest::digest(
        &ring::digest::SHA1_FOR_LEGACY_USE_ONLY,
        &content,
    ));
    assert_eq!(h, expected);
    assert_eq!(h, "b6fc4c620b67d95f953a5c1c1230aaab5db5a1b0");
}

#[test]
fn hash_deterministic_across_calls() {
    let content = b"blob 3\x00abc".to_vec();
    let h1 = hash_content(&content);
    let h2 = hash_content(&content.clone());
    assert_eq!(h1, h2);
    assert_eq!(h1.len(), 40);
}

#[test]
fn round_trip_with_embedded_nul_bytes() {
    let payload = vec![1u8, 0, 2, 0, 255, 0, 42];
    let enc = encode_object(Types::Blob, &payload);
    let decoded = decode_object(&enc).unwrap();
    assert!(matches!(decoded.0, Types::Blob));
    assert_eq!(decoded.1, payload);
}

#[test]
fn round_trip_empty_payload() {
    let enc = encode_object(Types::Tree, &Vec::new());
    let decoded = decode_object(&enc).unwrap();
    assert!(matches!(decoded.0, Types::Tree));
    assert_eq!(decoded.1, Vec::<u8>::new());
}

#[test]
fn decode_rejects_unknown_kind() {
    let r = decode_object(&b"blub 5\x00hello".to_vec());
    assert_eq!(r, Err(RitError::Corrupt));
}

#[test]
fn decode_rejects_wrong_length() {
    let r = decode_object(&b"blob 6\x00hello".to_vec());
    assert_eq!(r, Err(RitError::Corrupt));
}

#[test]
fn decode_rejects_missing_nul() {
    let r = decode_object(&b"blob 5 hello".to_vec());
    assert_eq!(r, Err(RitError::Corrupt));
}

#[test]
fn decode_rejects_padded_length() {
    // same payload, but a non-canonical length field
    let r = decode_object(&b"blob 05\x00hello".to_vec());
    assert_eq!(r, Err(RitError::Corrupt));
}

#[test]
fn types_round_trip() {
    assert_eq!(Types::Blob.as_string(), "blob");
    assert_eq!(Types::Tree.as_string(), "tree");
    assert_eq!(Types::Commit.as_string(), "commit");
    assert!(matches!(Types::as_type("blob".to_string()), Types::Blob));
    assert!(matches!(Types::as_type("tree".to_string()), Types::Tree));
    assert!(matches!(Types::as_type("commit".to_string()), Types::Commit));
}
