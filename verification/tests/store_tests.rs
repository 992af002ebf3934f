use std::collections::HashMap;
use std::io::Read;

use rit::cat_file::decode_stored_object;
use rit::database::blob::Blob;
use rit::database::object::Object;
use rit::database::Database;
use rit::types::{RitError, Types};

#[test]
fn database_new_requires_present_directory() {
    assert!(Database::new("objects".to_string(), true).is_ok());
    assert_eq!(
        Database::new("objects".to_string(), false).err(),
        Some(RitError::NotFound)
    );
}

#[test]
fn store_sets_oid_and_plans_sharded_paths() {
    let db = Database::new("root/.git/objects".to_string(), true).unwrap();
    let mut blob = Blob::new(b"hello".to_vec());
    assert!(blob.get_oid().is_none());
    let req = db.store(&mut blob).unwrap();
    let oid = blob.get_oid().unwrap();
    assert_eq!(oid, "b6fc4c620b67d95f953a5c1c1230aaab5db5a1b0");
    assert_eq!(req.oid, oid);
    assert_eq!(req.dir_path, "root/.git/objects/b6");
    assert_eq!(
        req.object_path,
        "root/.git/objects/b6/fc4c620b67d95f953a5c1c1230aaab5db5a1b0"
    );
    assert!(req.temp_path.starts_with("root/.git/objects/b6/tmp_obj_"));
    assert_eq!(req.temp_path.len(), req.dir_path.len() + 15);
}

#[test]
fn stored_bytes_inflate_to_canonical_form() {
    let db = Database::new("objects".to_string(), true).unwrap();
    let mut blob = Blob::new(b"hello".to_vec());
    let req = db.store(&mut blob).unwrap();
    let mut decoder = flate2::read::ZlibDecoder::new(req.bytes.as_slice());
    let mut raw = Vec::new();
    decoder.read_to_end(&mut raw).unwrap();
    assert_eq!(raw, b"blob 5\x00hello".to_vec());
}

#[test]
fn decode_stored_object_round_trips() {
    let db = Database::new("objects".to_string(), true).unwrap();
    let payload = vec![9u8, 0, 8, 0, 7];
    let mut blob = Blob::new(payload.clone());
    let req = db.store(&mut blob).unwrap();
    let (kind, decoded) = decode_stored_object(&req.bytes).unwrap();
    assert!(matches!(kind, Types::Blob));
    assert_eq!(decoded, payload);
}

#[test]
fn decode_stored_object_rejects_garbage() {
    let r = decode_stored_object(&vec![1, 2, 3, 4]);
    assert_eq!(r.err(), Some(RitError::Corrupt));
}

#[test]
fn dedup_same_content_one_object_file() {
    let db = Database::new("objects".to_string(), true).unwrap();
    let mut disk: HashMap<String, Vec<u8>> = HashMap::new();

    let mut blob1 = Blob::new(b"same bytes".to_vec());
    let req1 = db.store(&mut blob1).unwrap();
    disk.insert(req1.object_path.clone(), req1.bytes.clone());

    let mut blob2 = Blob::new(b"same bytes".to_vec());
    let req2 = db.store(&mut blob2).unwrap();
    assert_eq!(req2.oid, req1.oid);
    assert_eq!(req2.object_path, req1.object_path);
    disk.insert(req2.object_path.clone(), req2.bytes.clone());

    assert_eq!(disk.len(), 1);
    assert_eq!(blob1.get_oid(), blob2.get_oid());
}

#[test]
fn different_content_different_paths() {
    let db = Database::new("objects".to_string(), true).unwrap();
    let mut b1 = Blob::new(b"one".to_vec());
    let mut b2 = Blob::new(b"two".to_vec());
    let r1 = db.store(&mut b1).unwrap();
    let r2 = db.store(&mut b2).unwrap();
    assert_ne!(r1.oid, r2.oid);
    assert_ne!(r1.object_path, r2.object_path);
}

#[test]
fn temp_names_are_unique_enough() {
    let db = Database::new("objects".to_string(), true).unwrap();
    let mut b1 = Blob::new(b"same".to_vec());
    let mut b2 = Blob::new(b"same".to_vec());
    let r1 = db.store(&mut b1).unwrap();
    let r2 = db.store(&mut b2).unwrap();
    // the final path is shared (dedup); the in-flight temp files are not
    assert_eq!(r1.object_path, r2.object_path);
    assert_ne!(r1.temp_path, r2.temp_path);
}
