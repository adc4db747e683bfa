use clippers::blob_store::BlobStore;
use clippers::codec::{decode_base64, decode_text, encode_base64};
use clippers::snapshot::{content_ref_for, payload_of, ContentRef, LoadError, Snapshot, SnapshotEntry};
use clippers::storage::{Storage, Timestamp};
use clippers::type_map::TypeMap;

const HASH_1025_A: &str = "4a82297889eb505cf6b5cbdf69977afab4632d6557539782f657bd7dc78091a5";
const HASH_1025_FF: &str = "cfa09fc62347a7862f3b24f964294a7a265302df4f360bc3b0881e6060d32e62";

#[test]
fn compute_hash_is_hex_sha256() {
    assert_eq!(
        Storage::compute_hash(b""),
        "e3b0c44298fc1c149afbf4c8996fb92427ae41e4649b934ca495991b7852b855"
    );
    assert_eq!(
        Storage::compute_hash(b"abc"),
        "ba7816bf8f01cfea414140de5dae2223b00361a396177a9cb410ff61f20015ad"
    );
}

#[test]
fn base64_both_ways() {
    assert_eq!(encode_base64(b"hello"), "aGVsbG8=");
    assert_eq!(decode_base64("aGVsbG8="), Some(b"hello".to_vec()));
    assert_eq!(decode_base64("not base64!"), None);
}

#[test]
fn utf8_text_check() {
    assert_eq!(decode_text("héllo".as_bytes()), Some("héllo".to_string()));
    assert_eq!(decode_text(&[0xc3]), None);
}

#[test]
fn exactly_threshold_is_inline() {
    let mut blobs = BlobStore::new();
    let content = vec![b'a'; 1024];
    match content_ref_for(&content, &mut blobs) {
        ContentRef::Inline(text) => assert_eq!(text, "a".repeat(1024)),
        _ => panic!("expected inline text"),
    }
    assert_eq!(blobs.len(), 0);
}

#[test]
fn one_past_threshold_is_external() {
    let mut blobs = BlobStore::new();
    let content = vec![b'a'; 1025];
    match content_ref_for(&content, &mut blobs) {
        ContentRef::External(hash) => assert_eq!(hash, HASH_1025_A),
        _ => panic!("expected external reference"),
    }
    assert_eq!(blobs.read(&HASH_1025_A.to_string()), Some(&content));
}

#[test]
fn long_binary_is_external_short_binary_is_base64() {
    let mut blobs = BlobStore::new();
    let long = vec![0xffu8; 1025];
    match content_ref_for(&long, &mut blobs) {
        ContentRef::External(hash) => assert_eq!(hash, HASH_1025_FF),
        _ => panic!("expected external reference"),
    }
    let short = vec![0xff, 0xfe, 0x00, 0x80];
    match content_ref_for(&short, &mut blobs) {
        ContentRef::InlineBase64(text) => assert_eq!(text, "//4AgA=="),
        _ => panic!("expected base64"),
    }
    assert_eq!(blobs.len(), 1);
}

fn sample_storage() -> Storage {
    let mut storage = Storage::new(10);
    let mut first = TypeMap::new();
    first.insert("text/plain".to_string(), b"hello".to_vec());
    first.insert("image/png".to_string(), vec![0x89, 0x50, 0x4e, 0x47, 0xff]);
    storage.add_entry_at(first, Timestamp { secs: 100, nanos: 7 });
    let mut second = TypeMap::new();
    second.insert("application/octet-stream".to_string(), (0..3000u32).map(|i| (i % 251) as u8).collect());
    second.insert("text/html".to_string(), b"<b>x</b>".to_vec());
    storage.add_entry_at(second, Timestamp { secs: 200, nanos: 0 });
    storage
}

#[test]
fn round_trip_gives_same_entries() {
    let storage = sample_storage();
    let mut blobs = BlobStore::new();
    let snapshot = storage.to_snapshot(&mut blobs);
    assert_eq!(snapshot.highest_id, 2);
    assert_eq!(blobs.len(), 1);
    let loaded = Storage::from_snapshot(&snapshot, 10, &blobs).expect("loads");
    assert_eq!(loaded.highest_id(), storage.highest_id());
    assert_eq!(loaded.len(), storage.len());
    for (a, b) in storage.get_entries().iter().zip(loaded.get_entries().iter()) {
        assert_eq!(a.id, b.id);
        assert_eq!(a.timestamp, b.timestamp);
        assert_eq!(a.get_available_types(), b.get_available_types());
        for t in a.get_available_types() {
            assert_eq!(a.get_content_by_type(&t), b.get_content_by_type(&t));
        }
    }
}

#[test]
fn loading_keeps_only_capacity() {
    let storage = sample_storage();
    let mut blobs = BlobStore::new();
    let snapshot = storage.to_snapshot(&mut blobs);
    let loaded = Storage::from_snapshot(&snapshot, 1, &blobs).expect("loads");
    assert_eq!(loaded.len(), 1);
    assert_eq!(loaded.get_entries()[0].id, 2);
    assert_eq!(loaded.max_entries(), 1);
}

#[test]
fn missing_blob_fails_naming_hash() {
    let storage = sample_storage();
    let mut blobs = BlobStore::new();
    let snapshot = storage.to_snapshot(&mut blobs);
    let empty = BlobStore::new();
    match Storage::from_snapshot(&snapshot, 10, &empty) {
        Err(LoadError::MissingBlob(hash)) => assert_eq!(hash, blobs.object_at(0).0.clone()),
        _ => panic!("expected a missing blob"),
    }
}

#[test]
fn invalid_base64_fails_naming_type() {
    let snapshot = Snapshot {
        entries: vec![SnapshotEntry {
            id: 1,
            timestamp: Timestamp { secs: 0, nanos: 0 },
            types: vec![("image/png".to_string(), ContentRef::InlineBase64("%%%".to_string()))],
        }],
        highest_id: 1,
    };
    match Storage::from_snapshot(&snapshot, 10, &BlobStore::new()) {
        Err(LoadError::InvalidBase64(t)) => assert_eq!(t, "image/png"),
        _ => panic!("expected invalid base64"),
    }
}

#[test]
fn payload_of_each_kind() {
    let mut blobs = BlobStore::new();
    blobs.write("k".to_string(), vec![9, 9]);
    let t = "text/plain".to_string();
    assert_eq!(payload_of(&t, &ContentRef::Inline("hé".to_string()), &blobs).unwrap(), "hé".as_bytes().to_vec());
    assert_eq!(payload_of(&t, &ContentRef::InlineBase64("aGVsbG8=".to_string()), &blobs).unwrap(), b"hello".to_vec());
    assert_eq!(payload_of(&t, &ContentRef::External("k".to_string()), &blobs).unwrap(), vec![9, 9]);
    assert!(matches!(
        payload_of(&t, &ContentRef::External("q".to_string()), &blobs),
        Err(LoadError::MissingBlob(_))
    ));
}

#[test]
fn duplicate_type_in_snapshot_keeps_last() {
    let snapshot = Snapshot {
        entries: vec![SnapshotEntry {
            id: 4,
            timestamp: Timestamp { secs: 1, nanos: 2 },
            types: vec![
                ("text/plain".to_string(), ContentRef::Inline("a".to_string())),
                ("text/plain".to_string(), ContentRef::Inline("b".to_string())),
            ],
        }],
        highest_id: 4,
    };
    let loaded = Storage::from_snapshot(&snapshot, 10, &BlobStore::new()).unwrap();
    let entry = loaded.get_entry_by_id(4).unwrap();
    assert_eq!(entry.types.len(), 1);
    assert_eq!(entry.get_content_by_type("text/plain"), Some(&b"b".to_vec()));
}

#[test]
fn external_hashes_each_once() {
    let mut storage = Storage::new(10);
    let big = vec![b'a'; 1025];
    for _ in 0..2 {
        let mut m = TypeMap::new();
        m.insert("text/plain".to_string(), big.clone());
        m.insert("text/html".to_string(), b"<i>".to_vec());
        storage.add_entry(m);
    }
    let mut blobs = BlobStore::new();
    let snapshot = storage.to_snapshot(&mut blobs);
    assert_eq!(snapshot.external_hashes(), vec![HASH_1025_A.to_string()]);
    assert_eq!(blobs.len(), 1);
}
