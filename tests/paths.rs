use clippers::paths::{get_blobs_dir, get_history_file_path, linux_clippers_dir, macos_clippers_dir};

#[test]
fn linux_dir_prefers_xdg() {
    assert_eq!(linux_clippers_dir(Some("/data"), "/home/u"), "/data/clippers");
    assert_eq!(linux_clippers_dir(None, "/home/u"), "/home/u/.local/share/clippers");
    assert_eq!(linux_clippers_dir(Some(""), "/home/u"), "clippers");
    assert_eq!(linux_clippers_dir(Some("/data/"), "/home/u"), "/data/clippers");
    assert_eq!(linux_clippers_dir(None, ""), ".local/share/clippers");
}

#[test]
fn macos_dir() {
    assert_eq!(macos_clippers_dir("/Users/u"), "/Users/u/Library/Application Support/clippers");
}

#[test]
fn files_inside_dir() {
    assert_eq!(get_history_file_path("/d"), "/d/history.json");
    assert_eq!(get_blobs_dir("/d"), "/d/blobs");
    assert_eq!(get_history_file_path("/d/"), "/d/history.json");
    assert_eq!(get_blobs_dir(""), "blobs");
}
