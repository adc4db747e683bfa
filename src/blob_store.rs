//! The content-addressed blob area: objects keyed by the hex digest of their
//! bytes, written once and never overwritten.
use vstd::prelude::*;
use crate::type_map::{has_key, inserted, key_index, keys_distinct, lookup, Pair, TypeMap};

verus! {

/// The objects of a pair list with unique keys, as a map.
pub open spec fn map_of(s: Seq<Pair>) -> Map<Seq<char>, Seq<u8>> {
    Map::new(|k: Seq<char>| has_key(s, k), |k: Seq<char>| lookup(s, k)->Some_0)
}

/// The blob area after `write(hash, bytes)`: unchanged where `hash` is
/// already stored.
pub open spec fn written(m: Map<Seq<char>, Seq<u8>>, hash: Seq<char>, bytes: Seq<u8>) -> Map<
    Seq<char>,
    Seq<u8>,
> {
    if m.contains_key(hash) {
        m
    } else {
        m.insert(hash, bytes)
    }
}

/// Adding a new key at the end of a pair list adds it to the map.
proof fn lemma_map_of_push(s: Seq<Pair>, k: Seq<char>, v: Seq<u8>)
    requires
        keys_distinct(s),
        !has_key(s, k),
    ensures
        keys_distinct(s.push((k, v))),
        map_of(s.push((k, v))) == map_of(s).insert(k, v),
{
    let t = s.push((k, v));
    assert forall|q: Seq<char>| has_key(t, q) <==> (has_key(s, q) || q == k) by {
        if has_key(s, q) {
            let i = key_index(s, q);
            assert(t[i].0 == q);
        }
        if q == k {
            assert(t[s.len() as int].0 == q);
        }
    }
    assert forall|q: Seq<char>| has_key(t, q) implies lookup(t, q)->Some_0 == map_of(s).insert(
        k,
        v,
    )[q] by {
        let i = key_index(t, q);
        if q == k {
            assert(i == s.len());
        } else {
            assert(has_key(s, q));
            let j = key_index(s, q);
            assert(t[j].0 == q);
            assert(i == j);
        }
    }
    assert(map_of(t) =~= map_of(s).insert(k, v));
}

pub struct BlobStore {
    objects: TypeMap,
}

impl View for BlobStore {
    type V = Map<Seq<char>, Seq<u8>>;

    closed spec fn view(&self) -> Map<Seq<char>, Seq<u8>> {
        map_of(self.objects@)
    }
}

impl BlobStore {
    /// The internal pair list has unique keys.
    pub closed spec fn wf(&self) -> bool {
        self.objects.wf()
    }

    /// An empty blob area.
    pub fn new() -> (r: BlobStore)
        ensures
            r.wf(),
            r@ == Map::<Seq<char>, Seq<u8>>::empty(),
    {
        let r = BlobStore { objects: TypeMap::new() };
        assert(r@ =~= Map::<Seq<char>, Seq<u8>>::empty());
        r
    }

    /// Whether an object is stored under `hash`.
    pub fn contains(&self, hash: &String) -> (r: bool)
        requires
            self.wf(),
        ensures
            r == self@.contains_key(hash@),
    {
        self.objects.get(hash).is_some()
    }

    /// Stores `content` under `hash` unless an object is already stored there.
    pub fn write(&mut self, hash: String, content: Vec<u8>)
        requires
            old(self).wf(),
        ensures
            final(self).wf(),
            final(self)@ == written(old(self)@, hash@, content@),
    {
        if !self.contains(&hash) {
            let ghost s = self.objects@;
            proof {
                lemma_map_of_push(s, hash@, content@);
            }
            self.objects.insert(hash, content);
            assert(self.objects@ == s.push((hash@, content@))) by {
                assert(!has_key(s, hash@));
                assert(inserted(s, hash@, content@) == s.push((hash@, content@)));
            }
        }
    }

    /// The object stored under `hash`, or `None` where there is none.
    pub fn read(&self, hash: &String) -> (r: Option<&Vec<u8>>)
        requires
            self.wf(),
        ensures
            r is Some <==> self@.contains_key(hash@),
            r is Some ==> r->Some_0@ == self@[hash@],
    {
        self.objects.get(hash)
    }

    /// Number of stored objects.
    pub fn len(&self) -> (r: usize)
        requires
            self.wf(),
        ensures
            r == self@.len(),
    {
        proof {
            lemma_map_of_len(self.objects@);
        }
        self.objects.len()
    }

    /// The key and bytes of the object at position `i`, for walking the area.
    pub fn object_at(&self, i: usize) -> (r: (&String, &Vec<u8>))
        requires
            self.wf(),
            i < self@.len(),
        ensures
            self@.contains_key(r.0@),
            self@[r.0@] == r.1@,
    {
        proof {
            lemma_map_of_len(self.objects@);
        }
        let r = self.objects.entry_at(i);
        proof {
            let s = self.objects@;
            assert(s[i as int].0 == r.0@);
            assert(has_key(s, r.0@));
            assert(key_index(s, r.0@) == i as int);
        }
        r
    }
}

/// A pair list with unique keys has as many objects as pairs.
proof fn lemma_map_of_len(s: Seq<Pair>)
    requires
        keys_distinct(s),
    ensures
        map_of(s).len() == s.len(),
        map_of(s).dom().finite(),
    decreases s.len(),
{
    if s.len() == 0 {
        assert(map_of(s) =~= Map::<Seq<char>, Seq<u8>>::empty());
    } else {
        let p = s.drop_last();
        assert(s == p.push(s.last()));
        assert(!has_key(p, s.last().0)) by {
            if has_key(p, s.last().0) {
                let i = key_index(p, s.last().0);
                assert(s[i].0 == s[s.len() - 1].0);
            }
        }
        lemma_map_of_len(p);
        lemma_map_of_push(p, s.last().0, s.last().1);
    }
}

/// Writing the same bytes under the same key a second time changes nothing:
/// the area keeps exactly one object under that key, the one first written;
/// where the key was absent or already held those bytes, the area is the
/// old one with that one object set.
pub proof fn lemma_write_idempotent(m: Map<Seq<char>, Seq<u8>>, hash: Seq<char>, bytes: Seq<u8>)
    ensures
        written(written(m, hash, bytes), hash, bytes) == written(m, hash, bytes),
        written(m, hash, bytes).contains_key(hash),
        written(m, hash, bytes).dom() == m.dom().insert(hash),
        (!m.contains_key(hash) || m[hash] == bytes) ==> written(m, hash, bytes) == m.insert(
            hash,
            bytes,
        ),
{
    if m.contains_key(hash) && m[hash] == bytes {
        assert(m.insert(hash, bytes) =~= m);
    }
    assert(written(m, hash, bytes).dom() =~= m.dom().insert(hash));
}

} // verus!
