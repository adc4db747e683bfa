use clippers::clipboard::{Clipboard, ClipboardError};
use clippers::pick::{parse_pick_input, pick, pick_target, PickError};
use clippers::storage::Storage;
use clippers::type_map::TypeMap;

#[test]
fn parse_takes_text_before_bar() {
    assert_eq!(parse_pick_input("12|some text"), Some(12));
    assert_eq!(parse_pick_input("  7  \n"), Some(7));
    assert_eq!(parse_pick_input(" 9 | x | y"), Some(9));
    assert_eq!(parse_pick_input("+5"), Some(5));
    assert_eq!(parse_pick_input("18446744073709551615"), Some(u64::MAX));
}

#[test]
fn parse_rejects_bad_input() {
    assert_eq!(parse_pick_input(""), None);
    assert_eq!(parse_pick_input("   "), None);
    assert_eq!(parse_pick_input("|12"), None);
    assert_eq!(parse_pick_input("abc"), None);
    assert_eq!(parse_pick_input("1 2"), None);
    assert_eq!(parse_pick_input("-3"), None);
    assert_eq!(parse_pick_input("+"), None);
    assert_eq!(parse_pick_input("18446744073709551616"), None);
    assert_eq!(parse_pick_input("héllo|1"), None);
}

struct Recorder {
    published: Vec<(String, Vec<u8>)>,
    refuse: bool,
}

impl Clipboard for Recorder {
    fn get_by_type(&mut self, _content_type: &str) -> Result<Vec<u8>, ClipboardError> {
        Err(ClipboardError { message: "unused".to_string() })
    }
    fn get_string(&mut self) -> Option<String> {
        None
    }
    fn list_types(&self) -> Vec<String> {
        Vec::new()
    }
    fn wait(&mut self) -> Result<(), ClipboardError> {
        Ok(())
    }
    fn set_types(&mut self, types: &TypeMap) -> Result<(), ClipboardError> {
        if self.refuse {
            return Err(ClipboardError { message: "refused".to_string() });
        }
        self.published = (0..types.len())
            .map(|i| {
                let (k, v) = types.entry_at(i);
                (k.clone(), v.clone())
            })
            .collect();
        Ok(())
    }
}

fn history() -> Storage {
    let mut storage = Storage::new(10);
    let mut m = TypeMap::new();
    m.insert("text/plain".to_string(), b"x".to_vec());
    m.insert("text/html".to_string(), b"<b>x</b>".to_vec());
    storage.add_entry(m);
    storage
}

#[test]
fn pick_publishes_all_types() {
    let storage = history();
    let mut clip = Recorder { published: Vec::new(), refuse: false };
    assert!(pick(&mut clip, &storage, "1|x").is_ok());
    assert_eq!(
        clip.published,
        vec![
            ("text/plain".to_string(), b"x".to_vec()),
            ("text/html".to_string(), b"<b>x</b>".to_vec())
        ]
    );
}

#[test]
fn pick_unknown_id() {
    let storage = history();
    let mut clip = Recorder { published: Vec::new(), refuse: false };
    assert!(matches!(pick(&mut clip, &storage, "2"), Err(PickError::NotFound(2))));
    assert!(clip.published.is_empty());
}

#[test]
fn pick_invalid_input() {
    let storage = history();
    let mut clip = Recorder { published: Vec::new(), refuse: false };
    assert!(matches!(pick(&mut clip, &storage, "one"), Err(PickError::InvalidId)));
}

#[test]
fn pick_clipboard_refusal() {
    let storage = history();
    let mut clip = Recorder { published: Vec::new(), refuse: true };
    assert!(matches!(pick(&mut clip, &storage, "1"), Err(PickError::Clipboard(_))));
}

#[test]
fn pick_target_is_the_entry_types() {
    let mut storage = history();
    let mut newer = TypeMap::new();
    newer.insert("image/png".to_string(), vec![1, 2]);
    storage.add_entry(newer);
    let t = pick_target(&storage, "2|img").ok().expect("entry 2");
    assert_eq!(t.keys(), vec!["image/png".to_string()]);
    let t1 = pick_target(&storage, " 1 ").ok().expect("entry 1");
    assert_eq!(t1.keys(), vec!["text/plain".to_string(), "text/html".to_string()]);
    assert!(matches!(pick_target(&storage, "3"), Err(PickError::NotFound(3))));
    assert!(matches!(pick_target(&storage, "x"), Err(PickError::InvalidId)));
}
