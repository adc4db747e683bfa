use clippers::preview::{size_unit, SizeUnit};
use clippers::storage::{ClipboardEntry, Timestamp};
use clippers::type_map::TypeMap;

fn png_header(width: u32, height: u32) -> Vec<u8> {
    let mut b = vec![0x89, b'P', b'N', b'G', 0x0d, 0x0a, 0x1a, 0x0a, 0, 0, 0, 13, b'I', b'H', b'D', b'R'];
    b.extend_from_slice(&width.to_be_bytes());
    b.extend_from_slice(&height.to_be_bytes());
    b.extend_from_slice(&[8, 6, 0, 0, 0, 0, 0, 0, 0]);
    b
}

fn entry(pairs: Vec<(&str, Vec<u8>)>) -> ClipboardEntry {
    let mut m = TypeMap::new();
    for (k, v) in pairs {
        m.insert(k.to_string(), v);
    }
    ClipboardEntry::new(1, m, Timestamp { secs: 0, nanos: 0 })
}

#[test]
fn image_payload_has_dimensions() {
    let e = entry(vec![("public.utf8-plain-text", b"x".to_vec()), ("public.png", png_header(640, 480))]);
    let info = e.get_binary_info().unwrap();
    assert_eq!(info.content_type, "public.png");
    assert_eq!(info.size, 33);
    assert_eq!(info.dimensions, Some((640, 480)));
}

#[test]
fn plain_binary_has_no_dimensions() {
    let e = entry(vec![("empty", Vec::new()), ("application/octet-stream", vec![1, 2, 3])]);
    let info = e.get_binary_info().unwrap();
    assert_eq!(info.content_type, "application/octet-stream");
    assert_eq!(info.size, 3);
    assert_eq!(info.dimensions, None);
}

#[test]
fn only_text_has_no_binary_info() {
    let e = entry(vec![("public.utf8-plain-text", b"x".to_vec()), ("empty", Vec::new())]);
    assert!(e.get_binary_info().is_none());
}

#[test]
fn size_units_at_their_bounds() {
    assert!(matches!(size_unit(0), SizeUnit::Bytes(0)));
    assert!(matches!(size_unit(1023), SizeUnit::Bytes(1023)));
    assert!(matches!(size_unit(1024), SizeUnit::KiB(1)));
    assert!(matches!(size_unit(1024 * 1024 - 1), SizeUnit::KiB(1023)));
    assert!(matches!(size_unit(1024 * 1024), SizeUnit::MiB(1048576)));
}
