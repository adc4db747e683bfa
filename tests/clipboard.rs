use clippers::clipboard::{collect_reads, record_reads, watch_step, ChangeWatch, Clipboard, ClipboardError};
use clippers::storage::Storage;
use clippers::type_map::TypeMap;

#[test]
fn collect_reads_skips_failures() {
    let reads = vec![
        ("text/plain".to_string(), Some(b"a".to_vec())),
        ("image/png".to_string(), None),
        ("text/html".to_string(), Some(b"<a>".to_vec())),
    ];
    let m = collect_reads(&reads);
    assert_eq!(m.keys(), vec!["text/plain".to_string(), "text/html".to_string()]);
    assert_eq!(m.get(&"text/html".to_string()), Some(&b"<a>".to_vec()));
}

#[test]
fn collect_reads_of_nothing_is_empty() {
    let reads = vec![("image/png".to_string(), None)];
    assert!(collect_reads(&reads).is_empty());
}

struct Scripted {
    types: Vec<String>,
    fail_wait: bool,
}

impl Clipboard for Scripted {
    fn get_by_type(&mut self, content_type: &str) -> Result<Vec<u8>, ClipboardError> {
        if content_type == "broken" {
            Err(ClipboardError { message: "unreadable".to_string() })
        } else {
            Ok(content_type.as_bytes().to_vec())
        }
    }
    fn get_string(&mut self) -> Option<String> {
        None
    }
    fn list_types(&self) -> Vec<String> {
        self.types.clone()
    }
    fn wait(&mut self) -> Result<(), ClipboardError> {
        if self.fail_wait {
            Err(ClipboardError { message: "gone".to_string() })
        } else {
            Ok(())
        }
    }
    fn set_types(&mut self, _types: &TypeMap) -> Result<(), ClipboardError> {
        Ok(())
    }
}

#[test]
fn watch_step_records_readable_types() {
    let mut clip = Scripted { types: vec!["text/plain".to_string(), "broken".to_string()], fail_wait: false };
    let mut storage = Storage::new(10);
    let waited = clip.wait();
    assert!(watch_step(&mut clip, &mut storage, waited).unwrap());
    let entry = storage.get_entry_by_id(1).unwrap();
    assert_eq!(entry.get_available_types(), vec!["text/plain".to_string()]);
    assert_eq!(entry.get_content_by_type("text/plain"), Some(&b"text/plain".to_vec()));
}

#[test]
fn watch_step_with_nothing_readable_records_nothing() {
    let mut clip = Scripted { types: vec!["broken".to_string()], fail_wait: false };
    let mut storage = Storage::new(10);
    let waited = clip.wait();
    assert!(!watch_step(&mut clip, &mut storage, waited).unwrap());
    assert_eq!(storage.len(), 0);
    assert_eq!(storage.highest_id(), 0);
}

#[test]
fn watch_step_passes_wait_failure_on() {
    let mut clip = Scripted { types: vec!["text/plain".to_string()], fail_wait: true };
    let mut storage = Storage::new(10);
    let waited = clip.wait();
    let err = watch_step(&mut clip, &mut storage, waited).unwrap_err();
    assert_eq!(err.message, "gone");
    assert_eq!(storage.len(), 0);
}

#[test]
fn change_watch_needs_a_baseline() {
    let mut w = ChangeWatch::new();
    assert!(!w.observe(5));
    assert!(!w.observe(5));
    assert!(w.observe(6));
    assert!(!w.observe(6));
}

#[test]
fn change_watch_zero_count_is_no_baseline() {
    let mut w = ChangeWatch::new();
    assert!(!w.observe(0));
    assert!(!w.observe(3));
    assert!(w.observe(0));
}

#[test]
fn record_reads_stores_successful_reads() {
    let mut storage = Storage::new(10);
    let reads = vec![
        ("text/plain".to_string(), Some(b"a".to_vec())),
        ("image/png".to_string(), None),
    ];
    assert!(record_reads(&mut storage, &reads));
    let entry = storage.get_entry_by_id(1).unwrap();
    assert_eq!(entry.get_available_types(), vec!["text/plain".to_string()]);
    assert_eq!(entry.get_content_by_type("text/plain"), Some(&b"a".to_vec()));
}

#[test]
fn record_reads_of_failures_stores_nothing() {
    let mut storage = Storage::new(10);
    let reads = vec![("image/png".to_string(), None)];
    assert!(!record_reads(&mut storage, &reads));
    assert!(!record_reads(&mut storage, &Vec::new()));
    assert_eq!(storage.len(), 0);
    assert_eq!(storage.highest_id(), 0);
}

#[test]
fn watch_step_skips_every_failed_read() {
    let mut clip = Scripted { types: vec!["broken".to_string(), "broken".to_string()], fail_wait: false };
    let mut storage = Storage::new(10);
    assert_eq!(watch_step(&mut clip, &mut storage, Ok(())).unwrap(), false);
}
