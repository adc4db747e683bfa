//! A mapping from content type to payload bytes, with unique keys, kept in
//! the order in which the keys were first inserted.
use vstd::prelude::*;

verus! {

/// A content type paired with its payload, as plain values.
pub type Pair = (Seq<char>, Seq<u8>);

/// No content type occurs twice.
pub open spec fn keys_distinct(s: Seq<Pair>) -> bool {
    forall|i: int, j: int| 0 <= i < j < s.len() ==> s[i].0 != s[j].0
}

/// Whether `k` is one of the content types of `s`.
pub open spec fn has_key(s: Seq<Pair>, k: Seq<char>) -> bool {
    exists|i: int| 0 <= i < s.len() && s[i].0 == k
}

/// The position of content type `k` in `s`, where it occurs.
pub open spec fn key_index(s: Seq<Pair>, k: Seq<char>) -> int {
    choose|i: int| 0 <= i < s.len() && s[i].0 == k
}

/// The payload stored under `k`, if any.
pub open spec fn lookup(s: Seq<Pair>, k: Seq<char>) -> Option<Seq<u8>> {
    if has_key(s, k) {
        Some(s[key_index(s, k)].1)
    } else {
        None
    }
}

/// `s` after storing `v` under `k`: an existing payload is replaced in place,
/// a new content type goes last.
pub open spec fn inserted(s: Seq<Pair>, k: Seq<char>, v: Seq<u8>) -> Seq<Pair> {
    if has_key(s, k) {
        s.update(key_index(s, k), (k, v))
    } else {
        s.push((k, v))
    }
}

/// `s` without content type `k`.
pub open spec fn removed(s: Seq<Pair>, k: Seq<char>) -> Seq<Pair> {
    if has_key(s, k) {
        s.remove(key_index(s, k))
    } else {
        s
    }
}

/// The content types of `s`, in order.
pub open spec fn keys_of(s: Seq<Pair>) -> Seq<Seq<char>> {
    s.map_values(|p: Pair| p.0)
}

pub struct TypeMap {
    items: Vec<(String, Vec<u8>)>,
}

impl View for TypeMap {
    type V = Seq<Pair>;

    closed spec fn view(&self) -> Seq<Pair> {
        self.items@.map_values(|p: (String, Vec<u8>)| (p.0@, p.1@))
    }
}

impl TypeMap {
    /// Content types are unique.
    pub open spec fn wf(&self) -> bool {
        keys_distinct(self@)
    }

    /// An empty mapping.
    pub fn new() -> (r: TypeMap)
        ensures
            r@ == Seq::<Pair>::empty(),
            r.wf(),
    {
        let r = TypeMap { items: Vec::new() };
        assert(r@ =~= Seq::<Pair>::empty());
        r
    }

    /// Number of content types.
    pub fn len(&self) -> (r: usize)
        ensures
            r == self@.len(),
    {
        self.items.len()
    }

    /// Whether there is no content type at all.
    pub fn is_empty(&self) -> (r: bool)
        ensures
            r == (self@.len() == 0),
    {
        self.items.len() == 0
    }

    /// Position of `key`, if present.
    fn position(&self, key: &String) -> (r: Option<usize>)
        requires
            self.wf(),
        ensures
            r is Some <==> has_key(self@, key@),
            r is Some ==> r->Some_0 == key_index(self@, key@) && r->Some_0 < self@.len(),
    {
        let mut i: usize = 0;
        while i < self.items.len()
            invariant
                i <= self.items@.len(),
                self.wf(),
                forall|j: int| 0 <= j < i ==> self@[j].0 != key@,
            decreases self.items@.len() - i,
        {
            if self.items[i].0 == *key {
                assert(self@[i as int].0 == key@);
                return Some(i);
            }
            i = i + 1;
        }
        None
    }

    /// Stores `content` under `content_type`, replacing an earlier payload.
    pub fn insert(&mut self, content_type: String, content: Vec<u8>)
        requires
            old(self).wf(),
        ensures
            final(self).wf(),
            final(self)@ == inserted(old(self)@, content_type@, content@),
    {
        let ghost k = content_type@;
        let ghost v = content@;
        match self.position(&content_type) {
            Some(i) => {
                self.items.set(i, (content_type, content));
                assert(self@ =~= old(self)@.update(i as int, (k, v)));
            },
            None => {
                self.items.push((content_type, content));
                assert(self@ =~= old(self)@.push((k, v)));
            },
        }
        assert(keys_distinct(self@));
    }

    /// Takes out the payload stored under `content_type`, if any.
    pub fn remove(&mut self, content_type: &String) -> (r: Option<Vec<u8>>)
        requires
            old(self).wf(),
        ensures
            final(self).wf(),
            final(self)@ == removed(old(self)@, content_type@),
            r is Some <==> has_key(old(self)@, content_type@),
            r is Some ==> lookup(old(self)@, content_type@) == Some(r->Some_0@),
    {
        match self.position(content_type) {
            Some(i) => {
                let (_, bytes) = self.items.remove(i);
                assert(self@ =~= old(self)@.remove(i as int));
                assert(keys_distinct(self@)) by {
                    assert forall|a: int, b: int| 0 <= a < b < self@.len() implies self@[a].0
                        != self@[b].0 by {
                        let a2 = if a < i { a } else { a + 1 };
                        let b2 = if b < i { b } else { b + 1 };
                        assert(self@[a] == old(self)@[a2]);
                        assert(self@[b] == old(self)@[b2]);
                    }
                }
                Some(bytes)
            },
            None => None,
        }
    }

    /// The payload stored under `content_type`.
    pub fn get(&self, content_type: &String) -> (r: Option<&Vec<u8>>)
        requires
            self.wf(),
        ensures
            r is Some <==> has_key(self@, content_type@),
            r is Some ==> lookup(self@, content_type@) == Some(r->Some_0@),
    {
        match self.position(content_type) {
            Some(i) => Some(&self.items[i].1),
            None => None,
        }
    }

    /// The content type and payload at position `i`.
    pub fn entry_at(&self, i: usize) -> (r: (&String, &Vec<u8>))
        requires
            i < self@.len(),
        ensures
            r.0@ == self@[i as int].0,
            r.1@ == self@[i as int].1,
    {
        (&self.items[i].0, &self.items[i].1)
    }

    /// The content types, in order.
    pub fn keys(&self) -> (r: Vec<String>)
        ensures
            r@.map_values(|s: String| s@) == keys_of(self@),
    {
        let mut r: Vec<String> = Vec::new();
        let mut i: usize = 0;
        while i < self.items.len()
            invariant
                i <= self.items@.len(),
                r@.len() == i,
                forall|j: int| 0 <= j < i ==> r@[j]@ == self@[j].0,
            decreases self.items@.len() - i,
        {
            r.push(self.items[i].0.clone());
            i = i + 1;
        }
        assert(r@.map_values(|s: String| s@) =~= keys_of(self@));
        r
    }

    /// A copy with the same content types and payloads.
    pub fn copy(&self) -> (r: TypeMap)
        ensures
            r@ == self@,
    {
        let mut items: Vec<(String, Vec<u8>)> = Vec::new();
        let mut i: usize = 0;
        while i < self.items.len()
            invariant
                i <= self.items@.len(),
                items@.len() == i,
                forall|j: int|
                    0 <= j < i ==> items@[j].0@ == self@[j].0 && items@[j].1@ == self@[j].1,
            decreases self.items@.len() - i,
        {
            let bytes = self.items[i].1.clone();
            assert(bytes@ =~= self.items@[i as int].1@);
            items.push((self.items[i].0.clone(), bytes));
            i = i + 1;
        }
        let r = TypeMap { items };
        assert(r@ =~= self@);
        r
    }
}

} // verus!
