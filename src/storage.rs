//! The bounded, newest-first clipboard history.
use vstd::prelude::*;
use vstd::utf8::decode_utf8;
use vstd::utf8::valid_utf8;
use std::collections::VecDeque;
use crate::codec::decode_text;
use crate::type_map::{has_key, keys_of, lookup, Pair, TypeMap};

verus! {

/// A point in time: whole seconds and nanoseconds since the Unix epoch.
#[derive(Clone, Copy, Debug, PartialEq, Eq, Structural)]
pub struct Timestamp {
    pub secs: u64,
    pub nanos: u32,
}

/// Relies on `std::time::SystemTime::now` and `duration_since`: the time
/// since the Unix epoch as whole seconds and nanoseconds, or `None` where
/// the clock reads earlier than the epoch. Nothing is known of the value but
/// the range of the nanoseconds.
#[verifier::external_body]
fn clock_since_epoch() -> (r: Option<(u64, u32)>)
    ensures
        r matches Some(t) ==> t.1 < 1_000_000_000,
{
    match std::time::SystemTime::now().duration_since(std::time::UNIX_EPOCH) {
        Ok(d) => Some((d.as_secs(), d.subsec_nanos())),
        Err(_) => None,
    }
}

/// The current time; a clock set before the epoch reads as the epoch.
pub fn now() -> (r: Timestamp)
    ensures
        r.nanos < 1_000_000_000,
{
    match clock_since_epoch() {
        Some((secs, nanos)) => Timestamp { secs, nanos },
        None => Timestamp { secs: 0, nanos: 0 },
    }
}

/// One captured clipboard state.
pub struct ClipboardEntry {
    pub id: u64,
    pub timestamp: Timestamp,
    pub types: TypeMap,
}

/// An entry as plain values.
pub struct EntryView {
    pub id: u64,
    pub timestamp: Timestamp,
    pub types: Seq<Pair>,
}

impl View for ClipboardEntry {
    type V = EntryView;

    open spec fn view(&self) -> EntryView {
        EntryView { id: self.id, timestamp: self.timestamp, types: self.types@ }
    }
}

/// The text of `types` under `text_type`, where that payload is valid UTF-8.
pub open spec fn text_of(types: Seq<Pair>, text_type: Seq<char>) -> Option<Seq<char>> {
    match lookup(types, text_type) {
        Some(b) => if valid_utf8(b) {
            Some(decode_utf8(b))
        } else {
            None
        },
        None => None,
    }
}

impl ClipboardEntry {
    pub fn new(id: u64, types: TypeMap, timestamp: Timestamp) -> (r: ClipboardEntry)
        ensures
            r@ == (EntryView { id, timestamp, types: types@ }),
    {
        ClipboardEntry { id, timestamp, types }
    }

    /// The payload stored for `mime_type`.
    pub fn get_content_by_type(&self, mime_type: &str) -> (r: Option<&Vec<u8>>)
        requires
            self.types.wf(),
        ensures
            r is Some <==> has_key(self@.types, mime_type@),
            r is Some ==> lookup(self@.types, mime_type@) == Some(r->Some_0@),
    {
        let key = String::from_str(mime_type);
        self.types.get(&key)
    }

    /// The payload under `text_type` read as text, where it is valid UTF-8.
    pub fn get_text_content(&self, text_type: &str) -> (r: Option<String>)
        requires
            self.types.wf(),
        ensures
            r is Some <==> text_of(self@.types, text_type@) is Some,
            r is Some ==> text_of(self@.types, text_type@) == Some(r->Some_0@),
    {
        match self.get_content_by_type(text_type) {
            Some(bytes) => decode_text(bytes.as_slice()),
            None => None,
        }
    }

    /// The content types of this entry, in order.
    pub fn get_available_types(&self) -> (r: Vec<String>)
        ensures
            r@.map_values(|s: String| s@) == keys_of(self@.types),
    {
        self.types.keys()
    }
}

/// The history as plain values.
pub struct StorageView {
    pub entries: Seq<EntryView>,
    pub highest_id: u64,
    pub max_entries: usize,
}

/// The history after one more entry with `types`, taken at `timestamp`: it
/// gets the next identifier, goes first, and the oldest entry leaves when
/// the capacity is exceeded.
pub open spec fn added(s: StorageView, types: Seq<Pair>, timestamp: Timestamp) -> StorageView {
    let id = (s.highest_id + 1) as u64;
    let all = seq![EntryView { id, timestamp, types }] + s.entries;
    StorageView {
        entries: if all.len() > s.max_entries {
            all.drop_last()
        } else {
            all
        },
        highest_id: id,
        max_entries: s.max_entries,
    }
}

/// The history after a series of additions, first to last.
pub open spec fn after_adds(s: StorageView, adds: Seq<(Seq<Pair>, Timestamp)>) -> StorageView
    decreases adds.len(),
{
    if adds.len() == 0 {
        s
    } else {
        added(after_adds(s, adds.drop_last()), adds.last().0, adds.last().1)
    }
}

/// An empty history of capacity `max_entries`.
pub open spec fn empty_history(max_entries: usize) -> StorageView {
    StorageView { entries: Seq::empty(), highest_id: 0, max_entries }
}

pub struct Storage {
    entries: VecDeque<ClipboardEntry>,
    highest_id: u64,
    max_entries: usize,
}

impl View for Storage {
    type V = StorageView;

    closed spec fn view(&self) -> StorageView {
        StorageView {
            entries: self.entries@.map_values(|e: ClipboardEntry| e@),
            highest_id: self.highest_id,
            max_entries: self.max_entries,
        }
    }
}

impl Storage {
    /// Within capacity, and every entry's content types unique.
    pub closed spec fn wf(&self) -> bool {
        &&& self.entries@.len() <= self.max_entries
        &&& forall|i: int| 0 <= i < self.entries@.len() ==> #[trigger] self.entries@[i].types.wf()
    }

    pub fn new(max_entries: usize) -> (r: Storage)
        ensures
            r.wf(),
            r@ == empty_history(max_entries),
    {
        let r = Storage { entries: VecDeque::new(), highest_id: 0, max_entries };
        assert(r@.entries =~= Seq::<EntryView>::empty());
        r
    }

    /// A history made of `entries`, newest first.
    pub(crate) fn from_parts(entries: VecDeque<ClipboardEntry>, highest_id: u64, max_entries: usize) -> (r: Storage)
        ensures
            r@ == (StorageView {
                entries: entries@.map_values(|e: ClipboardEntry| e@),
                highest_id,
                max_entries,
            }),
            (entries@.len() <= max_entries && forall|i: int|
                0 <= i < entries@.len() ==> #[trigger] entries@[i].types.wf()) ==> r.wf(),
    {
        Storage { entries, highest_id, max_entries }
    }

    pub fn highest_id(&self) -> (r: u64)
        ensures
            r == self@.highest_id,
    {
        self.highest_id
    }

    pub fn max_entries(&self) -> (r: usize)
        ensures
            r == self@.max_entries,
    {
        self.max_entries
    }

    pub fn len(&self) -> (r: usize)
        ensures
            r == self@.entries.len(),
    {
        self.entries.len()
    }

    /// Adds an entry with `types` taken at `timestamp`; see `added`.
    pub fn add_entry_at(&mut self, types: TypeMap, timestamp: Timestamp)
        requires
            old(self).wf(),
            types.wf(),
            old(self)@.highest_id < u64::MAX,
        ensures
            final(self).wf(),
            final(self)@ == added(old(self)@, types@, timestamp),
    {
        self.highest_id = self.highest_id + 1;
        let entry = ClipboardEntry::new(self.highest_id, types, timestamp);
        self.entries.push_front(entry);
        if self.entries.len() > self.max_entries {
            self.entries.pop_back();
        }
        proof {
            let goal = added(old(self)@, types@, timestamp);
            assert(self@.entries =~= goal.entries);
        }
    }

    /// Adds an entry with `types`, stamped with the current time.
    pub fn add_entry(&mut self, types: TypeMap)
        requires
            old(self).wf(),
            types.wf(),
            old(self)@.highest_id < u64::MAX,
        ensures
            final(self).wf(),
            exists|t: Timestamp| final(self)@ == added(old(self)@, types@, t),
    {
        let t = now();
        self.add_entry_at(types, t);
    }

    /// The newest entry with identifier `id`.
    pub fn get_entry_by_id(&self, id: u64) -> (r: Option<&ClipboardEntry>)
        ensures
            r is Some <==> exists|i: int| 0 <= i < self@.entries.len() && self@.entries[i].id == id,
            r is Some ==> exists|i: int|
                0 <= i < self@.entries.len() && self@.entries[i] == r->Some_0@ && r->Some_0.id == id
                    && forall|j: int| 0 <= j < i ==> self@.entries[j].id != id,
            self.wf() && r is Some ==> r->Some_0.types.wf(),
    {
        let mut i: usize = 0;
        while i < self.entries.len()
            invariant
                i <= self@.entries.len(),
                forall|j: int| 0 <= j < i ==> self@.entries[j].id != id,
            decreases self@.entries.len() - i,
        {
            if self.entries[i].id == id {
                assert(self@.entries[i as int] == self.entries@[i as int]@);
                return Some(&self.entries[i]);
            }
            i = i + 1;
        }
        None
    }

    /// All entries, newest first.
    pub fn get_entries(&self) -> (r: &VecDeque<ClipboardEntry>)
        ensures
            r@.map_values(|e: ClipboardEntry| e@) == self@.entries,
            self.wf() ==> forall|i: int| 0 <= i < r@.len() ==> #[trigger] r@[i].types.wf(),
    {
        &self.entries
    }

    /// Drops every entry; the identifier counter is kept.
    pub fn clear(&mut self)
        requires
            old(self).wf(),
        ensures
            final(self).wf(),
            final(self)@ == (StorageView {
                entries: Seq::empty(),
                highest_id: old(self)@.highest_id,
                max_entries: old(self)@.max_entries,
            }),
    {
        self.entries.clear();
        assert(self@.entries =~= Seq::<EntryView>::empty());
    }
}

/// After any series of `k` additions to an empty history of capacity `n`,
/// the history holds exactly the `min(k, n)` most recent additions, newest
/// first, numbered `k, k - 1, ...`, and the identifier counter equals `k`.
pub proof fn lemma_keeps_most_recent(n: usize, adds: Seq<(Seq<Pair>, Timestamp)>)
    requires
        adds.len() <= u64::MAX,
    ensures
        ({
            let r = after_adds(empty_history(n), adds);
            let k = adds.len() as int;
            let m = if k < n {
                k
            } else {
                n as int
            };
            &&& r.highest_id == k
            &&& r.max_entries == n
            &&& r.entries.len() == m
            &&& forall|i: int|
                0 <= i < m ==> #[trigger] r.entries[i] == (EntryView {
                    id: (k - i) as u64,
                    timestamp: adds[k - 1 - i].1,
                    types: adds[k - 1 - i].0,
                })
        }),
    decreases adds.len(),
{
    if adds.len() > 0 {
        let prev = adds.drop_last();
        lemma_keeps_most_recent(n, prev);
        let p = after_adds(empty_history(n), prev);
        let k = adds.len() as int;
        let r = after_adds(empty_history(n), adds);
        assert(r == added(p, adds.last().0, adds.last().1));
        assert forall|i: int| 1 <= i < r.entries.len() implies #[trigger] r.entries[i] == p.entries[i
            - 1] by {}
        assert forall|i: int| 1 <= i < r.entries.len() implies #[trigger] adds[k - 1 - i] == prev[(k
            - 1) - 1 - (i - 1)] by {}
    }
}

/// Every identifier the history holds is at most its counter.
pub open spec fn ids_bounded(s: StorageView) -> bool {
    forall|i: int| 0 <= i < s.entries.len() ==> #[trigger] s.entries[i].id <= s.highest_id
}

/// An addition raises the counter by one and gives the new entry, placed
/// first, that value: it is above every identifier still held, and so never
/// one assigned before; the counter stays an upper bound of the identifiers.
pub proof fn lemma_added_fresh_id(s: StorageView, types: Seq<Pair>, timestamp: Timestamp)
    requires
        ids_bounded(s),
        s.highest_id < u64::MAX,
        s.max_entries >= 1,
        s.entries.len() <= s.max_entries,
    ensures
        ({
            let r = added(s, types, timestamp);
            &&& r.highest_id == s.highest_id + 1
            &&& r.entries.len() >= 1
            &&& r.entries[0].id == r.highest_id
            &&& forall|i: int| 0 <= i < s.entries.len() ==> #[trigger] s.entries[i].id < r.entries[0].id
            &&& ids_bounded(r)
            &&& r.entries.len() <= r.max_entries
        }),
{
    let r = added(s, types, timestamp);
    assert forall|i: int| 0 <= i < r.entries.len() implies #[trigger] r.entries[i].id <= r.highest_id by {
        if i > 0 {
            assert(r.entries[i] == s.entries[i - 1]);
        }
    }
}

} // verus!
