use clippers::blob_store::BlobStore;

#[test]
fn write_twice_keeps_one_object() {
    let mut blobs = BlobStore::new();
    let hash = "abc".to_string();
    blobs.write(hash.clone(), vec![1, 2, 3]);
    blobs.write(hash.clone(), vec![1, 2, 3]);
    assert_eq!(blobs.len(), 1);
    assert_eq!(blobs.read(&hash), Some(&vec![1, 2, 3]));
}

#[test]
fn write_never_overwrites() {
    let mut blobs = BlobStore::new();
    blobs.write("k".to_string(), vec![1]);
    blobs.write("k".to_string(), vec![2]);
    assert_eq!(blobs.read(&"k".to_string()), Some(&vec![1]));
    assert!(blobs.contains(&"k".to_string()));
}

#[test]
fn read_missing_is_none() {
    let blobs = BlobStore::new();
    assert_eq!(blobs.read(&"nothing".to_string()), None);
    assert!(!blobs.contains(&"nothing".to_string()));
}

#[test]
fn objects_can_be_walked() {
    let mut blobs = BlobStore::new();
    blobs.write("a".to_string(), vec![1]);
    blobs.write("b".to_string(), vec![2]);
    let mut seen: Vec<(String, Vec<u8>)> = (0..blobs.len())
        .map(|i| {
            let (k, v) = blobs.object_at(i);
            (k.clone(), v.clone())
        })
        .collect();
    seen.sort();
    assert_eq!(seen, vec![("a".to_string(), vec![1]), ("b".to_string(), vec![2])]);
}
