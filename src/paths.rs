//! Where the history lives on disk, from the values of the environment.
use vstd::prelude::*;
use vstd::string::{StrSliceExecFns, StringExecFns};

verus! {

/// `part` appended to the path `base`, as a path join with a relative part
/// does: an empty base gives `part` alone, and a separator is added only
/// where `base` does not already end with one.
pub open spec fn joined(base: Seq<char>, part: Seq<char>) -> Seq<char> {
    if base.len() == 0 {
        part
    } else if base.last() == '/' {
        base + part
    } else {
        base + "/"@ + part
    }
}

/// Joins the relative path `part` to `base`; see `joined`.
fn join_path(base: &str, part: &str) -> (r: String)
    ensures
        r@ == joined(base@, part@),
{
    let n = base.unicode_len();
    let mut r = String::from_str(base);
    if n == 0 {
        return String::from_str(part);
    }
    if base.get_char(n - 1) != '/' {
        r.append("/");
    }
    r.append(part);
    r
}

/// The data directory on Linux: `$XDG_DATA_HOME` joined with `clippers`
/// where the variable is set (an empty value gives the relative path
/// `clippers`), else `$HOME/.local/share/clippers`.
pub fn linux_clippers_dir(xdg_data_home: Option<&str>, home: &str) -> (r: String)
    ensures
        xdg_data_home is Some ==> r@ == joined(xdg_data_home->Some_0@, "clippers"@),
        xdg_data_home is None ==> r@ == joined(
            joined(joined(home@, ".local"@), "share"@),
            "clippers"@,
        ),
{
    match xdg_data_home {
        Some(x) => join_path(x, "clippers"),
        None => {
            let local = join_path(home, ".local");
            let share = join_path(local.as_str(), "share");
            join_path(share.as_str(), "clippers")
        },
    }
}

/// The data directory on macOS: `$HOME/Library/Application Support/clippers`.
pub fn macos_clippers_dir(home: &str) -> (r: String)
    ensures
        r@ == joined(joined(joined(home@, "Library"@), "Application Support"@), "clippers"@),
{
    let library = join_path(home, "Library");
    let support = join_path(library.as_str(), "Application Support");
    join_path(support.as_str(), "clippers")
}

/// The snapshot file inside the data directory.
pub fn get_history_file_path(clippers_dir: &str) -> (r: String)
    ensures
        r@ == joined(clippers_dir@, "history.json"@),
{
    join_path(clippers_dir, "history.json")
}

/// The blob directory inside the data directory.
pub fn get_blobs_dir(clippers_dir: &str) -> (r: String)
    ensures
        r@ == joined(clippers_dir@, "blobs"@),
{
    join_path(clippers_dir, "blobs")
}

} // verus!
