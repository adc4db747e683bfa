//! The persisted form of the history: each payload becomes inline text,
//! inline base64, or a reference to an object of the blob area.
use vstd::prelude::*;
use vstd::string::StrSliceExecFns;
use vstd::utf8::decode_utf8;
use vstd::utf8::decode_utf8_encode_utf8;
use vstd::utf8::encode_utf8;
use vstd::utf8::valid_utf8;
use std::collections::VecDeque;
use crate::blob_store::{written, BlobStore};
use crate::codec::{
    base64_decoded, base64_of, content_key, lemma_hex_len, decode_base64, decode_text, encode_base64, hex_encode,
    sha256,
};
use crate::storage::{ClipboardEntry, EntryView, Storage, StorageView, Timestamp};
use crate::type_map::{has_key, inserted, keys_distinct, Pair, TypeMap};

verus! {

/// Payloads longer than this are kept in the blob area.
pub const EXTERNALIZE_THRESHOLD: usize = 1024;

/// How one payload is recorded in a snapshot.
pub enum ContentRef {
    /// The payload is valid UTF-8: its text.
    Inline(String),
    /// Any other short payload: its base64 text.
    InlineBase64(String),
    /// A long payload: its content key in the blob area.
    External(String),
}

/// A `ContentRef` as plain values.
pub enum RefView {
    Inline(Seq<char>),
    InlineBase64(Seq<char>),
    External(Seq<char>),
}

impl View for ContentRef {
    type V = RefView;

    open spec fn view(&self) -> RefView {
        match self {
            ContentRef::Inline(s) => RefView::Inline(s@),
            ContentRef::InlineBase64(s) => RefView::InlineBase64(s@),
            ContentRef::External(s) => RefView::External(s@),
        }
    }
}

/// A content type with its recorded payload, as plain values.
pub type RefPair = (Seq<char>, RefView);

/// One entry of a snapshot.
pub struct SnapshotEntry {
    pub id: u64,
    pub timestamp: Timestamp,
    pub types: Vec<(String, ContentRef)>,
}

pub struct SnapshotEntryView {
    pub id: u64,
    pub timestamp: Timestamp,
    pub types: Seq<RefPair>,
}

impl View for SnapshotEntry {
    type V = SnapshotEntryView;

    open spec fn view(&self) -> SnapshotEntryView {
        SnapshotEntryView {
            id: self.id,
            timestamp: self.timestamp,
            types: self.types@.map_values(|p: (String, ContentRef)| (p.0@, p.1@)),
        }
    }
}

/// The whole persisted history, newest entry first.
pub struct Snapshot {
    pub entries: Vec<SnapshotEntry>,
    pub highest_id: u64,
}

pub struct SnapshotView {
    pub entries: Seq<SnapshotEntryView>,
    pub highest_id: u64,
}

impl View for Snapshot {
    type V = SnapshotView;

    open spec fn view(&self) -> SnapshotView {
        SnapshotView {
            entries: self.entries@.map_values(|e: SnapshotEntry| e@),
            highest_id: self.highest_id,
        }
    }
}

/// Why a snapshot could not be turned back into a history.
#[derive(Debug)]
pub enum LoadError {
    /// No object of the blob area has this content key.
    MissingBlob(String),
    /// The base64 text recorded for this content type is not accepted.
    InvalidBase64(String),
}

// ----- writing -----

/// How a payload is recorded: long payloads by content key, short valid
/// UTF-8 as text, anything else as base64.
pub open spec fn ref_of(b: Seq<u8>) -> RefView {
    if b.len() > EXTERNALIZE_THRESHOLD {
        RefView::External(content_key(b))
    } else if valid_utf8(b) {
        RefView::Inline(decode_utf8(b))
    } else {
        RefView::InlineBase64(base64_of(b))
    }
}

pub open spec fn refs_of(t: Seq<Pair>) -> Seq<RefPair> {
    t.map_values(|p: Pair| (p.0, ref_of(p.1)))
}

pub open spec fn snapshot_entry_of(e: EntryView) -> SnapshotEntryView {
    SnapshotEntryView { id: e.id, timestamp: e.timestamp, types: refs_of(e.types) }
}

pub open spec fn snapshot_of(s: StorageView) -> SnapshotView {
    SnapshotView {
        entries: s.entries.map_values(|e: EntryView| snapshot_entry_of(e)),
        highest_id: s.highest_id,
    }
}

/// The payloads of `t` that go to the blob area.
pub open spec fn large(t: Seq<Pair>) -> Set<Seq<u8>> {
    Set::new(
        |b: Seq<u8>| exists|j: int| 0 <= j < t.len() && t[j].1 == b && b.len() > EXTERNALIZE_THRESHOLD,
    )
}

/// The payloads of all `es` that go to the blob area.
pub open spec fn large_in(es: Seq<EntryView>) -> Set<Seq<u8>> {
    Set::new(
        |b: Seq<u8>|
            exists|i: int| 0 <= i < es.len() && #[trigger] large(es[i].types).contains(b),
    )
}

/// `after` is the blob area `before` with objects for the payloads `p`
/// written: earlier objects stay as they were, each payload of `p` has an
/// object under its key, and each new object is one of `p` under its key.
pub open spec fn extends_with(
    before: Map<Seq<char>, Seq<u8>>,
    after: Map<Seq<char>, Seq<u8>>,
    p: Set<Seq<u8>>,
) -> bool {
    &&& forall|h: Seq<char>| #[trigger]
        before.contains_key(h) ==> after.contains_key(h) && after[h] == before[h]
    &&& forall|h: Seq<char>| #[trigger]
        after.contains_key(h) && !before.contains_key(h) ==> exists|b: Seq<u8>|
            p.contains(b) && content_key(b) == h && after[h] == b
    &&& forall|b: Seq<u8>| #[trigger] p.contains(b) ==> after.contains_key(content_key(b))
}

/// Each payload recorded as base64 in `t` decodes back to itself.
pub open spec fn base64_inverts(t: Seq<Pair>) -> bool {
    forall|j: int|
        0 <= j < t.len() && ref_of(t[j].1) is InlineBase64 ==> base64_decoded(base64_of(#[trigger] t[j].1))
            == Some(t[j].1)
}

proof fn lemma_extends_refl(m: Map<Seq<char>, Seq<u8>>)
    ensures
        extends_with(m, m, Set::empty()),
{
}

proof fn lemma_extends_write(
    before: Map<Seq<char>, Seq<u8>>,
    cur: Map<Seq<char>, Seq<u8>>,
    p: Set<Seq<u8>>,
    b: Seq<u8>,
)
    requires
        extends_with(before, cur, p),
    ensures
        extends_with(before, written(cur, content_key(b), b), p.insert(b)),
{
    let after = written(cur, content_key(b), b);
    assert forall|h: Seq<char>| #[trigger]
        after.contains_key(h) && !before.contains_key(h) implies exists|c: Seq<u8>|
        p.insert(b).contains(c) && content_key(c) == h && after[h] == c by {
        if cur.contains_key(h) {
            let c = choose|c: Seq<u8>| p.contains(c) && content_key(c) == h && cur[h] == c;
            assert(p.insert(b).contains(c));
        } else {
            assert(p.insert(b).contains(b));
        }
    }
}

proof fn lemma_extends_trans(
    a: Map<Seq<char>, Seq<u8>>,
    b: Map<Seq<char>, Seq<u8>>,
    c: Map<Seq<char>, Seq<u8>>,
    p: Set<Seq<u8>>,
    q: Set<Seq<u8>>,
)
    requires
        extends_with(a, b, p),
        extends_with(b, c, q),
    ensures
        extends_with(a, c, p.union(q)),
{
    assert forall|h: Seq<char>| #[trigger]
        c.contains_key(h) && !a.contains_key(h) implies exists|x: Seq<u8>|
        p.union(q).contains(x) && content_key(x) == h && c[h] == x by {
        if b.contains_key(h) {
            let x = choose|x: Seq<u8>| p.contains(x) && content_key(x) == h && b[h] == x;
            assert(p.union(q).contains(x));
        } else {
            let x = choose|x: Seq<u8>| q.contains(x) && content_key(x) == h && c[h] == x;
            assert(p.union(q).contains(x));
        }
    }
    assert forall|x: Seq<u8>| #[trigger] p.union(q).contains(x) implies c.contains_key(
        content_key(x),
    ) by {
        if p.contains(x) {
            assert(b.contains_key(content_key(x)));
        }
    }
}

/// The long payloads of a prefix grow by the next payload when it is long.
proof fn lemma_large_take(t: Seq<Pair>, j: int)
    requires
        0 <= j < t.len(),
    ensures
        large(t.take(j + 1)) == if t[j].1.len() > EXTERNALIZE_THRESHOLD {
            large(t.take(j)).insert(t[j].1)
        } else {
            large(t.take(j))
        },
{
    let a = t.take(j);
    let b = t.take(j + 1);
    let goal = if t[j].1.len() > EXTERNALIZE_THRESHOLD {
        large(a).insert(t[j].1)
    } else {
        large(a)
    };
    assert forall|c: Seq<u8>| large(b).contains(c) implies #[trigger] goal.contains(c) by {
        let k = choose|k: int| 0 <= k < b.len() && #[trigger] b[k].1 == c && c.len() > EXTERNALIZE_THRESHOLD;
        if k < j {
            assert(a[k].1 == c);
        }
    }
    assert forall|c: Seq<u8>| goal.contains(c) implies #[trigger] large(b).contains(c) by {
        if large(a).contains(c) {
            let k = choose|k: int| 0 <= k < a.len() && #[trigger] a[k].1 == c && c.len() > EXTERNALIZE_THRESHOLD;
            assert(b[k].1 == c);
        } else {
            assert(b[j].1 == c);
        }
    }
    assert(large(b) =~= goal);
}

impl Storage {
    /// The content key of `content`: lower-case hex of its SHA-256 digest.
    pub fn compute_hash(content: &[u8]) -> (r: String)
        ensures
            r@ == content_key(content@),
            r@.len() == 64,
    {
        let digest = sha256(content);
        proof {
            lemma_hex_len(digest@);
        }
        hex_encode(digest.as_slice())
    }
}

/// Records one payload, writing it to the blob area when it is long.
pub fn content_ref_for(content: &Vec<u8>, blobs: &mut BlobStore) -> (r: ContentRef)
    requires
        old(blobs).wf(),
    ensures
        final(blobs).wf(),
        r@ == ref_of(content@),
        content@.len() > EXTERNALIZE_THRESHOLD ==> final(blobs)@ == written(
            old(blobs)@,
            content_key(content@),
            content@,
        ),
        content@.len() <= EXTERNALIZE_THRESHOLD ==> final(blobs)@ == old(blobs)@,
        r@ is InlineBase64 ==> base64_decoded(base64_of(content@)) == Some(content@),
{
    if content.len() > EXTERNALIZE_THRESHOLD {
        let hash = Storage::compute_hash(content.as_slice());
        let bytes = content.clone();
        assert(bytes@ =~= content@);
        blobs.write(hash.clone(), bytes);
        ContentRef::External(hash)
    } else {
        match decode_text(content.as_slice()) {
            Some(text) => ContentRef::Inline(text),
            None => ContentRef::InlineBase64(encode_base64(content.as_slice())),
        }
    }
}

/// Where each kind of record starts: exactly at the threshold a payload is
/// still inline, one byte more and it goes to the blob area; a short payload
/// that is not valid UTF-8 is recorded as base64.
pub proof fn lemma_threshold(b: Seq<u8>)
    ensures
        b.len() <= 1024 ==> !(ref_of(b) is External),
        b.len() >= 1025 ==> ref_of(b) == RefView::External(content_key(b)),
        b.len() <= 1024 && !valid_utf8(b) ==> ref_of(b) == RefView::InlineBase64(base64_of(b)),
        b.len() <= 1024 && valid_utf8(b) ==> ref_of(b) == RefView::Inline(decode_utf8(b)),
{
}

impl ClipboardEntry {
    /// The snapshot form of this entry; long payloads are written to `blobs`.
    pub fn serialize(&self, blobs: &mut BlobStore) -> (r: SnapshotEntry)
        requires
            old(blobs).wf(),
        ensures
            final(blobs).wf(),
            r@ == snapshot_entry_of(self@),
            extends_with(old(blobs)@, final(blobs)@, large(self@.types)),
            base64_inverts(self@.types),
    {
        let ghost t = self@.types;
        let mut types: Vec<(String, ContentRef)> = Vec::new();
        let n = self.types.len();
        let mut j: usize = 0;
        proof {
            lemma_extends_refl(blobs@);
            assert(large(t.take(0)) =~= Set::<Seq<u8>>::empty());
        }
        while j < n
            invariant
                n == t.len(),
                t == self@.types,
                j <= n,
                blobs.wf(),
                types@.len() == j,
                forall|k: int|
                    0 <= k < j ==> (#[trigger] types@[k]).0@ == t[k].0 && types@[k].1@ == ref_of(
                        t[k].1,
                    ),
                forall|k: int|
                    0 <= k < j && ref_of(t[k].1) is InlineBase64 ==> base64_decoded(
                        base64_of(#[trigger] t[k].1),
                    ) == Some(t[k].1),
                extends_with(old(blobs)@, blobs@, large(t.take(j as int))),
            decreases n - j,
        {
            let (key, content) = self.types.entry_at(j);
            let ghost mid = blobs@;
            let r = content_ref_for(content, blobs);
            proof {
                let b = t[j as int].1;
                lemma_large_take(t, j as int);
                if b.len() > EXTERNALIZE_THRESHOLD {
                    lemma_extends_write(old(blobs)@, mid, large(t.take(j as int)), b);
                }
            }
            types.push((key.clone(), r));
            j = j + 1;
        }
        assert(t.take(n as int) =~= t);
        let r = SnapshotEntry { id: self.id, timestamp: self.timestamp, types };
        assert(r@.types =~= refs_of(t));
        r
    }
}

/// The long payloads of the first `i + 1` entries are those of the first `i`
/// and those of entry `i`.
proof fn lemma_large_in_take(es: Seq<EntryView>, i: int)
    requires
        0 <= i < es.len(),
    ensures
        large_in(es.take(i + 1)) == large_in(es.take(i)).union(large(es[i].types)),
{
    let a = es.take(i);
    let b = es.take(i + 1);
    let goal = large_in(a).union(large(es[i].types));
    assert forall|c: Seq<u8>| large_in(b).contains(c) implies #[trigger] goal.contains(c) by {
        let k = choose|k: int| 0 <= k < b.len() && #[trigger] large(b[k].types).contains(c);
        if k < i {
            assert(large(a[k].types).contains(c));
        }
    }
    assert forall|c: Seq<u8>| goal.contains(c) implies #[trigger] large_in(b).contains(c) by {
        if large_in(a).contains(c) {
            let k = choose|k: int| 0 <= k < a.len() && #[trigger] large(a[k].types).contains(c);
            assert(large(b[k].types).contains(c));
        } else {
            assert(large(b[i].types).contains(c));
        }
    }
    assert(large_in(b) =~= goal);
}

impl Storage {
    /// The snapshot of this history; long payloads are written to `blobs`.
    pub fn to_snapshot(&self, blobs: &mut BlobStore) -> (r: Snapshot)
        requires
            old(blobs).wf(),
        ensures
            final(blobs).wf(),
            r@ == snapshot_of(self@),
            extends_with(old(blobs)@, final(blobs)@, large_in(self@.entries)),
            forall|i: int|
                0 <= i < self@.entries.len() ==> base64_inverts(#[trigger] self@.entries[i].types),
    {
        let ghost es = self@.entries;
        let entries = self.get_entries();
        let n = entries.len();
        let mut out: Vec<SnapshotEntry> = Vec::new();
        let mut i: usize = 0;
        proof {
            lemma_extends_refl(blobs@);
            assert(large_in(es.take(0)) =~= Set::<Seq<u8>>::empty());
        }
        while i < n
            invariant
                es == self@.entries,
                entries@.map_values(|e: ClipboardEntry| e@) == es,
                n == es.len(),
                i <= n,
                blobs.wf(),
                out@.len() == i,
                forall|k: int| 0 <= k < i ==> (#[trigger] out@[k])@ == snapshot_entry_of(es[k]),
                forall|k: int| 0 <= k < i ==> base64_inverts(#[trigger] es[k].types),
                extends_with(old(blobs)@, blobs@, large_in(es.take(i as int))),
            decreases n - i,
        {
            let ghost mid = blobs@;
            assert(entries@[i as int]@ == es[i as int]);
            let e = entries[i].serialize(blobs);
            proof {
                lemma_extends_trans(
                    old(blobs)@,
                    mid,
                    blobs@,
                    large_in(es.take(i as int)),
                    large(es[i as int].types),
                );
                lemma_large_in_take(es, i as int);
            }
            out.push(e);
            i = i + 1;
        }
        assert(es.take(n as int) =~= es);
        let r = Snapshot { entries: out, highest_id: self.highest_id() };
        assert(r@.entries =~= snapshot_of(self@).entries);
        r
    }
}

// ----- reading -----

/// The bytes a record stands for, given the blob area; `None` where it
/// cannot be resolved.
pub open spec fn ref_bytes(r: RefView, blobs: Map<Seq<char>, Seq<u8>>) -> Option<Seq<u8>> {
    match r {
        RefView::Inline(t) => Some(encode_utf8(t)),
        RefView::InlineBase64(e) => base64_decoded(e),
        RefView::External(h) => if blobs.contains_key(h) {
            Some(blobs[h])
        } else {
            None
        },
    }
}

/// Every record of `t` can be resolved.
pub open spec fn resolves(t: Seq<RefPair>, blobs: Map<Seq<char>, Seq<u8>>) -> bool {
    forall|j: int| 0 <= j < t.len() ==> (#[trigger] ref_bytes(t[j].1, blobs)) is Some
}

/// The content types and payloads that the records of `t` stand for, a later
/// record of the same content type replacing an earlier one.
pub open spec fn decoded_types(t: Seq<RefPair>, blobs: Map<Seq<char>, Seq<u8>>) -> Seq<Pair>
    decreases t.len(),
{
    if t.len() == 0 {
        Seq::empty()
    } else {
        inserted(
            decoded_types(t.drop_last(), blobs),
            t.last().0,
            ref_bytes(t.last().1, blobs)->Some_0,
        )
    }
}

pub open spec fn decoded_entry(e: SnapshotEntryView, blobs: Map<Seq<char>, Seq<u8>>) -> EntryView {
    EntryView { id: e.id, timestamp: e.timestamp, types: decoded_types(e.types, blobs) }
}

pub open spec fn decoded_entries(es: Seq<SnapshotEntryView>, blobs: Map<Seq<char>, Seq<u8>>) -> Seq<
    EntryView,
> {
    es.map_values(|e: SnapshotEntryView| decoded_entry(e, blobs))
}

/// `err` is the error for the unresolvable record `p`: the missing content
/// key, or the content type whose base64 text is refused.
pub open spec fn fails_with(p: RefPair, blobs: Map<Seq<char>, Seq<u8>>, err: LoadError) -> bool {
    &&& ref_bytes(p.1, blobs) is None
    &&& match p.1 {
        RefView::External(h) => err is MissingBlob && err->MissingBlob_0@ == h,
        RefView::InlineBase64(_) => err is InvalidBase64 && err->InvalidBase64_0@ == p.0,
        RefView::Inline(_) => false,
    }
}

/// The bytes that `content` stands for.
pub fn payload_of(content_type: &String, content: &ContentRef, blobs: &BlobStore) -> (r: Result<
    Vec<u8>,
    LoadError,
>)
    requires
        blobs.wf(),
    ensures
        r is Ok <==> ref_bytes(content@, blobs@) is Some,
        r is Ok ==> ref_bytes(content@, blobs@) == Some(r->Ok_0@),
        r is Err ==> fails_with((content_type@, content@), blobs@, r->Err_0),
{
    match content {
        ContentRef::Inline(text) => Ok(text.as_str().as_bytes_vec()),
        ContentRef::InlineBase64(text) => match decode_base64(text.as_str()) {
            Some(bytes) => Ok(bytes),
            None => Err(LoadError::InvalidBase64(content_type.clone())),
        },
        ContentRef::External(hash) => match blobs.read(hash) {
            Some(bytes) => {
                let v = bytes.clone();
                assert(v@ =~= bytes@);
                Ok(v)
            },
            None => Err(LoadError::MissingBlob(hash.clone())),
        },
    }
}

impl ClipboardEntry {
    /// The entry that a snapshot entry stands for, its payloads resolved
    /// through `blobs`.
    pub fn deserialize(e: &SnapshotEntry, blobs: &BlobStore) -> (r: Result<ClipboardEntry, LoadError>)
        requires
            blobs.wf(),
        ensures
            r is Ok <==> resolves(e@.types, blobs@),
            r is Ok ==> r->Ok_0@ == decoded_entry(e@, blobs@) && r->Ok_0.types.wf(),
            r is Err ==> exists|j: int|
                0 <= j < e@.types.len() && fails_with(#[trigger] e@.types[j], blobs@, r->Err_0),
    {
        let ghost t = e@.types;
        let mut types = TypeMap::new();
        let n = e.types.len();
        let mut j: usize = 0;
        assert(t.take(0) =~= Seq::<RefPair>::empty());
        while j < n
            invariant
                t == e@.types,
                n == t.len(),
                j <= n,
                blobs.wf(),
                types.wf(),
                types@ == decoded_types(t.take(j as int), blobs@),
                forall|k: int| 0 <= k < j ==> (#[trigger] ref_bytes(t[k].1, blobs@)) is Some,
            decreases n - j,
        {
            let pair = &e.types[j];
            assert(t[j as int] == (pair.0@, pair.1@));
            match payload_of(&pair.0, &pair.1, blobs) {
                Ok(bytes) => {
                    assert(t.take(j + 1).drop_last() =~= t.take(j as int));
                    types.insert(pair.0.clone(), bytes);
                },
                Err(err) => {
                    return Err(err);
                },
            }
            j = j + 1;
        }
        assert(t.take(n as int) =~= t);
        Ok(ClipboardEntry::new(e.id, types, e.timestamp))
    }
}

/// The smaller of two lengths.
pub open spec fn min_len(a: nat, b: nat) -> nat {
    if a < b {
        a
    } else {
        b
    }
}

impl Storage {
    /// The history that a snapshot stands for, with capacity `max_entries`;
    /// only the `max_entries` newest entries are kept. Fails where a record
    /// cannot be resolved.
    pub fn from_snapshot(snap: &Snapshot, max_entries: usize, blobs: &BlobStore) -> (r: Result<
        Storage,
        LoadError,
    >)
        requires
            blobs.wf(),
        ensures
            r is Ok <==> forall|i: int|
                0 <= i < snap@.entries.len() ==> resolves(#[trigger] snap@.entries[i].types, blobs@),
            r is Ok ==> r->Ok_0.wf() && r->Ok_0@ == (StorageView {
                entries: decoded_entries(snap@.entries, blobs@).take(
                    min_len(snap@.entries.len(), max_entries as nat) as int,
                ),
                highest_id: snap@.highest_id,
                max_entries,
            }),
            r is Err ==> exists|i: int, j: int|
                0 <= i < snap@.entries.len() && 0 <= j < snap@.entries[i].types.len() && fails_with(
                    #[trigger] snap@.entries[i].types[j],
                    blobs@,
                    r->Err_0,
                ),
    {
        let ghost es = snap@.entries;
        let n = snap.entries.len();
        let mut out: VecDeque<ClipboardEntry> = VecDeque::new();
        let mut i: usize = 0;
        while i < n
            invariant
                es == snap@.entries,
                n == es.len(),
                i <= n,
                blobs.wf(),
                out@.len() == min_len(i as nat, max_entries as nat),
                forall|k: int| 0 <= k < out@.len() ==> (#[trigger] out@[k])@ == decoded_entry(es[k], blobs@),
                forall|k: int| 0 <= k < out@.len() ==> (#[trigger] out@[k]).types.wf(),
                forall|k: int| 0 <= k < i ==> resolves(#[trigger] es[k].types, blobs@),
            decreases n - i,
        {
            assert(snap.entries@[i as int]@ == es[i as int]);
            match ClipboardEntry::deserialize(&snap.entries[i], blobs) {
                Ok(entry) => {
                    if i < max_entries {
                        out.push_back(entry);
                    }
                },
                Err(err) => {
                    return Err(err);
                },
            }
            i = i + 1;
        }
        let r = Storage::from_parts(out, snap.highest_id, max_entries);
        assert(r@.entries =~= decoded_entries(es, blobs@).take(
            min_len(es.len(), max_entries as nat) as int,
        ));
        Ok(r)
    }
}

/// Whether `h` is the content key of some external record of `es`.
pub open spec fn refers_to(es: Seq<SnapshotEntryView>, h: Seq<char>) -> bool {
    exists|i: int, j: int|
        0 <= i < es.len() && 0 <= j < es[i].types.len() && (#[trigger] es[i].types[j]).1
            == RefView::External(h)
}

impl Snapshot {
    /// The content keys that the snapshot's external records name, each once.
    pub fn external_hashes(&self) -> (r: Vec<String>)
        ensures
            forall|k: int| 0 <= k < r@.len() ==> refers_to(self@.entries, #[trigger] r@[k]@),
            forall|h: Seq<char>| refers_to(self@.entries, h) ==> exists|k: int| 0 <= k < r@.len() && #[trigger] r@[k]@ == h,
            forall|a: int, b: int| 0 <= a < b < r@.len() ==> r@[a]@ != r@[b]@,
    {
        let ghost es = self@.entries;
        let mut out: Vec<String> = Vec::new();
        let mut i: usize = 0;
        while i < self.entries.len()
            invariant
                es == self@.entries,
                i <= es.len(),
                forall|k: int| 0 <= k < out@.len() ==> refers_to(es, #[trigger] out@[k]@),
                forall|a: int, b: int| 0 <= a < b < out@.len() ==> out@[a]@ != out@[b]@,
                forall|i2: int, j2: int|
                    0 <= i2 < i && 0 <= j2 < es[i2].types.len() && (#[trigger] es[i2].types[j2]).1 is External
                        ==> exists|k: int| 0 <= k < out@.len() && #[trigger] out@[k]@ == es[i2].types[j2].1->External_0,
            decreases es.len() - i,
        {
            let entry = &self.entries[i];
            assert(entry@ == es[i as int]);
            let mut j: usize = 0;
            while j < entry.types.len()
                invariant
                    es == self@.entries,
                    i < es.len(),
                    entry@ == es[i as int],
                    j <= es[i as int].types.len(),
                    forall|k: int| 0 <= k < out@.len() ==> refers_to(es, #[trigger] out@[k]@),
                    forall|a: int, b: int| 0 <= a < b < out@.len() ==> out@[a]@ != out@[b]@,
                    forall|i2: int, j2: int|
                        (0 <= i2 < i && 0 <= j2 < es[i2].types.len() || i2 == i && 0 <= j2 < j) && (
                        #[trigger] es[i2].types[j2]).1 is External ==> exists|k: int|
                            0 <= k < out@.len() && #[trigger] out@[k]@ == es[i2].types[j2].1->External_0,
                decreases es[i as int].types.len() - j,
            {
                assert(es[i as int].types[j as int] == (entry.types@[j as int].0@, entry.types@[j as int].1@));
                let ghost prev = out@;
                match &entry.types[j].1 {
                    ContentRef::External(hash) => {
                        let mut seen = false;
                        let mut k: usize = 0;
                        while k < out.len()
                            invariant
                                k <= out@.len(),
                                seen <==> exists|m: int| 0 <= m < k && out@[m]@ == hash@,
                            decreases out@.len() - k,
                        {
                            if out[k] == *hash {
                                seen = true;
                            }
                            k = k + 1;
                        }
                        if !seen {
                            out.push(hash.clone());
                            assert(out@[out@.len() - 1]@ == hash@);
                        }
                    },
                    _ => {},
                }
                proof {
                    assert forall|i2: int, j2: int|
                        (0 <= i2 < i && 0 <= j2 < es[i2].types.len() || i2 == i && 0 <= j2 < j + 1) && (
                        #[trigger] es[i2].types[j2]).1 is External implies exists|k: int|
                        0 <= k < out@.len() && #[trigger] out@[k]@ == es[i2].types[j2].1->External_0 by {
                        if !(i2 == i && j2 == j) {
                            let k = choose|k: int|
                                0 <= k < prev.len() && #[trigger] prev[k]@ == es[i2].types[j2].1->External_0;
                            assert(out@[k] == prev[k]);
                        }
                    }
                }
                j = j + 1;
            }
            i = i + 1;
        }
        out
    }
}

// ----- the round trip -----

/// Each object of the blob area is stored under its own content key.
pub open spec fn blobs_addressed(blobs: Map<Seq<char>, Seq<u8>>) -> bool {
    forall|h: Seq<char>| #[trigger] blobs.contains_key(h) ==> h == content_key(blobs[h])
}

/// Whether `b` is one of the payloads `ps` or an object of `blobs`.
pub open spec fn in_play(b: Seq<u8>, ps: Set<Seq<u8>>, blobs: Map<Seq<char>, Seq<u8>>) -> bool {
    ps.contains(b) || exists|h: Seq<char>| blobs.contains_key(h) && #[trigger] blobs[h] == b
}

/// No two different byte sequences among the payloads `ps` and the objects of
/// `blobs` have the same content key (no SHA-256 collision among them).
pub open spec fn keys_collision_free(ps: Set<Seq<u8>>, blobs: Map<Seq<char>, Seq<u8>>) -> bool {
    forall|p: Seq<u8>, q: Seq<u8>|
        #![trigger content_key(p), content_key(q)]
        in_play(p, ps, blobs) && in_play(q, ps, blobs) && content_key(p) == content_key(q) ==> p == q
}

proof fn lemma_payload_round_trip(
    b: Seq<u8>,
    before: Map<Seq<char>, Seq<u8>>,
    after: Map<Seq<char>, Seq<u8>>,
    ps: Set<Seq<u8>>,
)
    requires
        extends_with(before, after, ps),
        blobs_addressed(before),
        keys_collision_free(ps, before),
        b.len() > EXTERNALIZE_THRESHOLD ==> ps.contains(b),
        ref_of(b) is InlineBase64 ==> base64_decoded(base64_of(b)) == Some(b),
    ensures
        ref_bytes(ref_of(b), after) == Some(b),
{
    if b.len() > EXTERNALIZE_THRESHOLD {
        let h = content_key(b);
        assert(after.contains_key(h));
        if before.contains_key(h) {
            let w = before[h];
            assert(h == content_key(w));
            assert(in_play(w, ps, before));
            assert(in_play(b, ps, before));
            assert(w == b);
        } else {
            let c = choose|c: Seq<u8>| ps.contains(c) && content_key(c) == h && after[h] == c;
            assert(in_play(c, ps, before));
            assert(in_play(b, ps, before));
            assert(c == b);
        }
    } else if valid_utf8(b) {
        decode_utf8_encode_utf8(b);
    }
}

proof fn lemma_types_round_trip(
    t: Seq<Pair>,
    before: Map<Seq<char>, Seq<u8>>,
    after: Map<Seq<char>, Seq<u8>>,
    ps: Set<Seq<u8>>,
)
    requires
        keys_distinct(t),
        base64_inverts(t),
        extends_with(before, after, ps),
        blobs_addressed(before),
        keys_collision_free(ps, before),
        forall|j: int|
            0 <= j < t.len() && (#[trigger] t[j]).1.len() > EXTERNALIZE_THRESHOLD ==> ps.contains(t[j].1),
    ensures
        resolves(refs_of(t), after),
        decoded_types(refs_of(t), after) == t,
    decreases t.len(),
{
    assert forall|j: int| 0 <= j < t.len() implies ref_bytes(
        #[trigger] refs_of(t)[j].1,
        after,
    ) == Some(t[j].1) by {
        lemma_payload_round_trip(t[j].1, before, after, ps);
    }
    if t.len() > 0 {
        let p = t.drop_last();
        assert(refs_of(t).drop_last() =~= refs_of(p));
        assert forall|j: int|
            0 <= j < p.len() && (#[trigger] p[j]).1.len() > EXTERNALIZE_THRESHOLD implies ps.contains(
            p[j].1,
        ) by {
            assert(t[j] == p[j]);
        }
        assert forall|j: int|
            0 <= j < p.len() && ref_of(p[j].1) is InlineBase64 implies base64_decoded(
            base64_of(#[trigger] p[j].1),
        ) == Some(p[j].1) by {
            assert(t[j] == p[j]);
        }
        lemma_types_round_trip(p, before, after, ps);
        let k = t.last().0;
        assert(!has_key(p, k)) by {
            if has_key(p, k) {
                let i = choose|i: int| 0 <= i < p.len() && p[i].0 == k;
                assert(t[i].0 == t[t.len() - 1].0);
            }
        }
        assert(refs_of(t).last().0 == k);
        assert(ref_bytes(refs_of(t).last().1, after) == Some(t.last().1));
        assert(decoded_types(refs_of(t), after) =~= t);
    }
}

/// Writing a history to a snapshot and reading it back gives the same
/// entries, payload for payload, whether a payload was stored inline or in
/// the blob area. `before` and `after` are the blob area around
/// `to_snapshot`; its objects must sit under their own content keys, and no
/// two different payloads in play may share a SHA-256 digest.
pub proof fn lemma_round_trip(
    s: StorageView,
    before: Map<Seq<char>, Seq<u8>>,
    after: Map<Seq<char>, Seq<u8>>,
)
    requires
        s.entries.len() <= s.max_entries,
        forall|i: int| 0 <= i < s.entries.len() ==> keys_distinct(#[trigger] s.entries[i].types),
        forall|i: int| 0 <= i < s.entries.len() ==> base64_inverts(#[trigger] s.entries[i].types),
        extends_with(before, after, large_in(s.entries)),
        blobs_addressed(before),
        keys_collision_free(large_in(s.entries), before),
    ensures
        forall|i: int|
            0 <= i < snapshot_of(s).entries.len() ==> resolves(
                #[trigger] snapshot_of(s).entries[i].types,
                after,
            ),
        decoded_entries(snapshot_of(s).entries, after).take(
            min_len(snapshot_of(s).entries.len(), s.max_entries as nat) as int,
        ) == s.entries,
        snapshot_of(s).highest_id == s.highest_id,
{
    let ps = large_in(s.entries);
    let snap = snapshot_of(s);
    assert forall|i: int| 0 <= i < s.entries.len() implies resolves(
        #[trigger] snap.entries[i].types,
        after,
    ) && decoded_entry(snap.entries[i], after) == s.entries[i] by {
        let t = s.entries[i].types;
        assert forall|j: int|
            0 <= j < t.len() && (#[trigger] t[j]).1.len() > EXTERNALIZE_THRESHOLD implies ps.contains(
            t[j].1,
        ) by {
            assert(large(s.entries[i].types).contains(t[j].1));
        }
        lemma_types_round_trip(t, before, after, ps);
    }
    assert(decoded_entries(snap.entries, after).take(
        min_len(snap.entries.len(), s.max_entries as nat) as int,
    ) =~= s.entries);
}

} // verus!
