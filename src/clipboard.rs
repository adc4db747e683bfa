//! The live clipboard as the history sees it, and the decisions of the watch
//! loop built on it.
use vstd::prelude::*;
use crate::storage::{added, Storage, Timestamp};
use crate::type_map::{inserted, Pair, TypeMap};

verus! {

/// A failed clipboard operation, with a message for the user.
#[derive(Debug)]
pub struct ClipboardError {
    pub message: String,
}

/// Access to the live clipboard of one platform.
pub trait Clipboard {
    /// The bytes of the current content in `content_type`.
    fn get_by_type(&mut self, content_type: &str) -> Result<Vec<u8>, ClipboardError>;

    /// The current content in the platform's plain-text type, as text.
    fn get_string(&mut self) -> Option<String>;

    /// The content types the current content is offered in.
    fn list_types(&self) -> Vec<String>;

    /// Blocks until the clipboard content changes.
    fn wait(&mut self) -> Result<(), ClipboardError>;

    /// Replaces the clipboard content with exactly these representations.
    fn set_types(&mut self, types: &TypeMap) -> Result<(), ClipboardError>;
}

/// A read of one content type: its bytes, or `None` where it failed.
pub type ReadView = (Seq<char>, Option<Seq<u8>>);

/// The content captured from a series of reads: failed reads are skipped,
/// and a later read of a content type replaces an earlier one.
pub open spec fn captured(reads: Seq<ReadView>) -> Seq<Pair>
    decreases reads.len(),
{
    if reads.len() == 0 {
        Seq::empty()
    } else {
        let p = captured(reads.drop_last());
        match reads.last().1 {
            Some(b) => inserted(p, reads.last().0, b),
            None => p,
        }
    }
}

pub open spec fn reads_view(reads: Seq<(String, Option<Vec<u8>>)>) -> Seq<ReadView> {
    reads.map_values(
        |r: (String, Option<Vec<u8>>)|
            (
                r.0@,
                match r.1 {
                    Some(b) => Some(b@),
                    None => None,
                },
            ),
    )
}

/// The content to record from the reads of one clipboard change.
pub fn collect_reads(reads: &Vec<(String, Option<Vec<u8>>)>) -> (r: TypeMap)
    ensures
        r.wf(),
        r@ == captured(reads_view(reads@)),
{
    let ghost all = reads_view(reads@);
    let mut m = TypeMap::new();
    let mut i: usize = 0;
    assert(all.take(0) =~= Seq::<ReadView>::empty());
    while i < reads.len()
        invariant
            all == reads_view(reads@),
            i <= reads@.len(),
            m.wf(),
            m@ == captured(all.take(i as int)),
        decreases reads@.len() - i,
    {
        assert(all.take(i + 1).drop_last() =~= all.take(i as int));
        match &reads[i].1 {
            Some(bytes) => {
                let b = bytes.clone();
                assert(b@ =~= bytes@);
                m.insert(reads[i].0.clone(), b);
            },
            None => {},
        }
        i = i + 1;
    }
    assert(all.take(reads@.len() as int) =~= all);
    m
}

/// Records the content captured by the reads of one clipboard change: an
/// entry holding exactly the successful reads is added if and only if at
/// least one read succeeded; otherwise the history is unchanged. Returns
/// whether an entry was added.
pub fn record_reads(storage: &mut Storage, reads: &Vec<(String, Option<Vec<u8>>)>) -> (r: bool)
    requires
        old(storage).wf(),
        old(storage)@.highest_id < u64::MAX,
    ensures
        final(storage).wf(),
        r == (captured(reads_view(reads@)).len() > 0),
        r ==> exists|ts: Timestamp|
            final(storage)@ == added(old(storage)@, captured(reads_view(reads@)), ts),
        !r ==> final(storage)@ == old(storage)@,
{
    let m = collect_reads(reads);
    if m.is_empty() {
        false
    } else {
        storage.add_entry(m);
        true
    }
}

/// The reads of one clipboard change, as values: each content type paired
/// with its bytes, or `None` where the read failed.
pub open spec fn reads_of(types: Seq<String>, reads: Seq<(String, Option<Vec<u8>>)>) -> bool {
    &&& reads.len() == types.len()
    &&& forall|i: int| 0 <= i < reads.len() ==> (#[trigger] reads[i]).0@ == types[i]@
}

/// One round of the watch loop, after the caller has waited for a change
/// and hands in the outcome `waited`. A failed wait is returned as is and
/// leaves the history unchanged; otherwise every content type offered is
/// read, a failed read is skipped, and the reads go to `record_reads`, whose
/// result is returned: exactly the successful reads are stored, as one new
/// entry, if and only if there is at least one. Nothing but the wait fails.
pub fn watch_step<C: Clipboard>(
    clipboard: &mut C,
    storage: &mut Storage,
    waited: Result<(), ClipboardError>,
) -> (r: Result<bool, ClipboardError>)
    requires
        old(storage).wf(),
        old(storage)@.highest_id < u64::MAX,
    ensures
        final(storage).wf(),
        r is Err <==> waited is Err,
        waited is Err ==> r->Err_0 == waited->Err_0 && final(storage)@ == old(storage)@,
        r is Ok ==> exists|types: Seq<String>, reads: Seq<(String, Option<Vec<u8>>)>|
            #[trigger] reads_of(types, reads) && {
                let c = captured(reads_view(reads));
                &&& r->Ok_0 == (c.len() > 0)
                &&& r->Ok_0 ==> exists|ts: Timestamp| final(storage)@ == added(old(storage)@, c, ts)
                &&& !r->Ok_0 ==> final(storage)@ == old(storage)@
            },
{
    match waited {
        Ok(()) => {},
        Err(e) => {
            return Err(e);
        },
    }
    let types = clipboard.list_types();
    let mut reads: Vec<(String, Option<Vec<u8>>)> = Vec::new();
    let mut i: usize = 0;
    while i < types.len()
        invariant
            i <= types@.len(),
            reads@.len() == i,
            forall|k: int| 0 <= k < i ==> (#[trigger] reads@[k]).0@ == types@[k]@,
        decreases types@.len() - i,
    {
        let content = match clipboard.get_by_type(types[i].as_str()) {
            Ok(bytes) => Some(bytes),
            Err(_) => None,
        };
        reads.push((types[i].clone(), content));
        i = i + 1;
    }
    assert(reads_of(types@, reads@));
    Ok(record_reads(storage, &reads))
}

/// Watches a change counter that the platform raises on every clipboard
/// change; a counter of zero means that nothing has been seen yet.
pub struct ChangeWatch {
    last: i64,
}

impl ChangeWatch {
    /// The last counter value seen, zero before any.
    pub closed spec fn last_count(&self) -> i64 {
        self.last
    }

    pub fn new() -> (r: ChangeWatch)
        ensures
            r.last_count() == 0,
    {
        ChangeWatch { last: 0 }
    }

    /// Takes in the counter's current value: a change is signalled where the
    /// value differs from the last one seen, unless none was seen before.
    pub fn observe(&mut self, count: i64) -> (changed: bool)
        ensures
            final(self).last_count() == count,
            changed == (old(self).last_count() != 0 && count != old(self).last_count()),
    {
        let changed = self.last != 0 && count != self.last;
        self.last = count;
        changed
    }
}

} // verus!
