//! What a listing shows of an entry that holds no text.
use vstd::prelude::*;
use crate::storage::ClipboardEntry;
use crate::type_map::Pair;

verus! {

/// The content type under which macOS keeps plain text.
pub const MACOS_TEXT_TYPE: &'static str = "public.utf8-plain-text";

/// Width and height in pixels of the image that `b` holds, where its header
/// is recognised.
pub uninterp spec fn image_size_of(b: Seq<u8>) -> Option<(usize, usize)>;

/// Relies on `imagesize::blob_size`: it reads the dimensions from the bytes
/// alone and reports an error for data it does not recognise.
#[verifier::external_body]
fn image_dimensions(b: &[u8]) -> (r: Option<(usize, usize)>)
    ensures
        r == image_size_of(b@),
{
    match imagesize::blob_size(b) {
        Ok(size) => Some((size.width, size.height)),
        Err(_) => None,
    }
}

/// The payload of an entry that a listing describes when it shows no text.
pub struct BinarySummary {
    pub content_type: String,
    pub size: usize,
    pub dimensions: Option<(usize, usize)>,
}

/// How a size in bytes is shown: whole bytes below one KiB, whole KiB below
/// one MiB, else MiB (carrying the byte count, shown with one decimal).
pub enum SizeUnit {
    Bytes(usize),
    KiB(usize),
    MiB(usize),
}

/// The unit and amount in which `size` bytes are shown.
pub fn size_unit(size: usize) -> (r: SizeUnit)
    ensures
        size < 1024 ==> r == SizeUnit::Bytes(size),
        1024 <= size < 1024 * 1024 ==> r == SizeUnit::KiB(size / 1024),
        size >= 1024 * 1024 ==> r == SizeUnit::MiB(size),
{
    if size < 1024 {
        SizeUnit::Bytes(size)
    } else if size < 1024 * 1024 {
        SizeUnit::KiB(size / 1024)
    } else {
        SizeUnit::MiB(size)
    }
}

/// Whether the pair at `j` is described: not the plain-text type, not empty.
pub open spec fn describable(t: Seq<Pair>, j: int) -> bool {
    t[j].0 != MACOS_TEXT_TYPE@ && t[j].1.len() > 0
}

impl ClipboardEntry {
    /// The first payload that is neither plain text nor empty: its content
    /// type, its size, and its dimensions where it is an image.
    pub fn get_binary_info(&self) -> (r: Option<BinarySummary>)
        ensures
            r is None <==> forall|j: int| 0 <= j < self@.types.len() ==> !describable(self@.types, j),
            r matches Some(s) ==> exists|j: int|
                0 <= j < self@.types.len() && describable(self@.types, j) && (forall|k: int|
                    0 <= k < j ==> !describable(self@.types, k)) && s.content_type@ == self@.types[j].0
                    && s.size == self@.types[j].1.len() && s.dimensions == image_size_of(
                    self@.types[j].1,
                ),
    {
        let ghost t = self@.types;
        let text_type = String::from_str(MACOS_TEXT_TYPE);
        let n = self.types.len();
        let mut j: usize = 0;
        while j < n
            invariant
                t == self@.types,
                n == t.len(),
                j <= n,
                text_type@ == MACOS_TEXT_TYPE@,
                forall|k: int| 0 <= k < j ==> !describable(t, k),
            decreases n - j,
        {
            let (key, content) = self.types.entry_at(j);
            if !(*key == text_type) && content.len() > 0 {
                let dims = image_dimensions(content.as_slice());
                let summary = BinarySummary {
                    content_type: key.clone(),
                    size: content.len(),
                    dimensions: dims,
                };
                assert(describable(t, j as int));
                return Some(summary);
            }
            j = j + 1;
        }
        None
    }
}

} // verus!
