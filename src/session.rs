//! The decisions of a clipboard-control protocol session, as a state
//! machine: each event from the compositor moves the session state and may
//! ask for bytes to be written to a descriptor that came with the event.
use vstd::prelude::*;
use crate::type_map::{has_key, key_index, keys_distinct, keys_of, lookup, removed, Pair, TypeMap};

verus! {

/// At most this many offers are tracked at once.
pub const MAX_OFFERS: usize = 8;

/// A publication stops waiting for requests after this many dispatch steps.
pub const MAX_PUBLISH_DISPATCHES: u64 = 100;

/// An event of the session, offers named by their protocol object id.
pub enum Event {
    /// A new offer object exists; what it is for comes later.
    OfferAnnounced(u32),
    /// The offer can deliver this content type.
    OfferType(u32, String),
    /// The clipboard selection is now this offer, or nothing.
    SelectionChanged(Option<u32>),
    /// The primary selection is now this offer, or nothing.
    PrimarySelectionChanged(Option<u32>),
    /// The compositor wants the bytes of this content type of what we publish.
    SendRequested(String),
}

/// What the caller does after an event.
pub enum Action {
    /// Nothing to do.
    Ignore,
    /// Write these bytes to the descriptor of the request, then close it.
    Write(Vec<u8>),
}

/// An offer and the content types announced for it so far.
pub type OfferView = (u32, Seq<Seq<char>>);

pub struct SessionView {
    pub offers: Seq<OfferView>,
    pub current: Option<u32>,
    pub got_selection: bool,
    pub pending: Seq<Pair>,
}

/// Whether `id` is tracked.
pub open spec fn has_offer(offers: Seq<OfferView>, id: u32) -> bool {
    exists|i: int| 0 <= i < offers.len() && offers[i].0 == id
}

/// Where `id` is tracked.
pub open spec fn offer_index(offers: Seq<OfferView>, id: u32) -> int {
    choose|i: int| 0 <= i < offers.len() && offers[i].0 == id
}

pub open spec fn offer_ids_distinct(offers: Seq<OfferView>) -> bool {
    forall|i: int, j: int| 0 <= i < j < offers.len() ==> offers[i].0 != offers[j].0
}

/// `offers` without `id`.
pub open spec fn without_offer(offers: Seq<OfferView>, id: u32) -> Seq<OfferView> {
    if has_offer(offers, id) {
        offers.remove(offer_index(offers, id))
    } else {
        offers
    }
}

/// Which offer leaves when too many are tracked: the oldest one that is not
/// the current selection.
pub open spec fn evict_index(offers: Seq<OfferView>, current: Option<u32>) -> int {
    if current == Some(offers[0].0) {
        1
    } else {
        0
    }
}

/// The offers after `id` is announced: it is tracked afresh, last, with no
/// content type, and the oldest offer other than the selection leaves when
/// the bound is passed.
pub open spec fn announced(offers: Seq<OfferView>, current: Option<u32>, id: u32) -> Seq<OfferView> {
    let grown = without_offer(offers, id).push((id, Seq::<Seq<char>>::empty()));
    if grown.len() > MAX_OFFERS {
        grown.remove(evict_index(grown, current))
    } else {
        grown
    }
}

/// The offers after content type `t` is announced for `id`.
pub open spec fn typed(offers: Seq<OfferView>, id: u32, t: Seq<char>) -> Seq<OfferView> {
    if has_offer(offers, id) {
        let i = offer_index(offers, id);
        offers.update(i, (id, offers[i].1.push(t)))
    } else {
        offers
    }
}

/// The session after `ev`.
pub open spec fn next(s: SessionView, ev: Event) -> SessionView {
    match ev {
        Event::OfferAnnounced(id) => SessionView { offers: announced(s.offers, s.current, id), ..s },
        Event::OfferType(id, t) => SessionView { offers: typed(s.offers, id, t@), ..s },
        Event::SelectionChanged(id) => SessionView { current: id, got_selection: true, ..s },
        Event::PrimarySelectionChanged(id) => match id {
            Some(o) => if s.current == Some(o) {
                s
            } else {
                SessionView { offers: without_offer(s.offers, o), ..s }
            },
            None => s,
        },
        Event::SendRequested(t) => SessionView { pending: removed(s.pending, t@), ..s },
    }
}

/// The bytes to write after `ev`, if any: those still pending for the
/// content type that a send request names.
pub open spec fn reply(s: SessionView, ev: Event) -> Option<Seq<u8>> {
    match ev {
        Event::SendRequested(t) => lookup(s.pending, t@),
        _ => None,
    }
}

/// `s` without repeats, each element where it first occurs.
pub open spec fn dedup(s: Seq<Seq<char>>) -> Seq<Seq<char>>
    decreases s.len(),
{
    if s.len() == 0 {
        Seq::empty()
    } else {
        let p = dedup(s.drop_last());
        if p.contains(s.last()) {
            p
        } else {
            p.push(s.last())
        }
    }
}

/// The content types of the current selection, without repeats; none where
/// there is no selection or it is not tracked.
pub open spec fn selection_types(s: SessionView) -> Seq<Seq<char>> {
    match s.current {
        Some(id) => if has_offer(s.offers, id) {
            dedup(s.offers[offer_index(s.offers, id)].1)
        } else {
            Seq::empty()
        },
        None => Seq::empty(),
    }
}

/// Why the current selection cannot be read.
#[derive(Debug)]
pub enum SessionError {
    NoSelection,
}

pub struct Session {
    offers: Vec<(u32, Vec<String>)>,
    current_selection: Option<u32>,
    got_selection: bool,
    pending: TypeMap,
}

pub open spec fn strings_view(v: Seq<String>) -> Seq<Seq<char>> {
    v.map_values(|s: String| s@)
}

impl View for Session {
    type V = SessionView;

    closed spec fn view(&self) -> SessionView {
        SessionView {
            offers: self.offers@.map_values(|o: (u32, Vec<String>)| (o.0, strings_view(o.1@))),
            current: self.current_selection,
            got_selection: self.got_selection,
            pending: self.pending@,
        }
    }
}

impl Session {
    /// Offer ids are unique and within the bound; pending types are unique.
    pub open spec fn wf(&self) -> bool {
        &&& offer_ids_distinct(self@.offers)
        &&& self@.offers.len() <= MAX_OFFERS
        &&& keys_distinct(self@.pending)
    }

    /// A session with no offer, no selection and nothing published.
    pub fn new() -> (r: Session)
        ensures
            r.wf(),
            r@ == (SessionView {
                offers: Seq::empty(),
                current: None,
                got_selection: false,
                pending: Seq::empty(),
            }),
    {
        let r = Session {
            offers: Vec::new(),
            current_selection: None,
            got_selection: false,
            pending: TypeMap::new(),
        };
        assert(r@.offers =~= Seq::<OfferView>::empty());
        r
    }

    /// Position of offer `id`, if tracked.
    fn find_offer(&self, id: u32) -> (r: Option<usize>)
        requires
            self.wf(),
        ensures
            r is Some <==> has_offer(self@.offers, id),
            r is Some ==> r->Some_0 == offer_index(self@.offers, id) && r->Some_0 < self@.offers.len(),
    {
        let mut i: usize = 0;
        while i < self.offers.len()
            invariant
                i <= self.offers@.len(),
                self.wf(),
                forall|j: int| 0 <= j < i ==> self@.offers[j].0 != id,
            decreases self.offers@.len() - i,
        {
            if self.offers[i].0 == id {
                assert(self@.offers[i as int].0 == id);
                return Some(i);
            }
            i = i + 1;
        }
        None
    }

    /// Stops tracking offer `id`.
    fn drop_offer(&mut self, id: u32)
        requires
            old(self).wf(),
        ensures
            final(self).wf(),
            final(self)@ == (SessionView { offers: without_offer(old(self)@.offers, id), ..old(self)@ }),
    {
        match self.find_offer(id) {
            Some(i) => {
                self.offers.remove(i);
                let ghost o = old(self)@.offers;
                assert(self@.offers =~= o.remove(i as int));
                assert forall|a: int, b: int| 0 <= a < b < self@.offers.len() implies self@.offers[a].0
                    != self@.offers[b].0 by {
                    let a2 = if a < i { a } else { a + 1 };
                    let b2 = if b < i { b } else { b + 1 };
                    assert(self@.offers[a] == o[a2]);
                    assert(self@.offers[b] == o[b2]);
                }
            },
            None => {},
        }
    }

    /// Tracks offer `id` afresh; see `announced`.
    fn announce(&mut self, id: u32)
        requires
            old(self).wf(),
        ensures
            final(self).wf(),
            final(self)@ == (SessionView {
                offers: announced(old(self)@.offers, old(self)@.current, id),
                ..old(self)@
            }),
    {
        self.drop_offer(id);
        let ghost base = self@.offers;
        let fresh: Vec<String> = Vec::new();
        assert(strings_view(fresh@) =~= Seq::<Seq<char>>::empty());
        self.offers.push((id, fresh));
        assert(self@.offers =~= base.push((id, Seq::<Seq<char>>::empty())));
        assert forall|a: int, b: int| 0 <= a < b < self@.offers.len() implies self@.offers[a].0
            != self@.offers[b].0 by {
            if b == base.len() {
                if base[a].0 == id {
                    assert(has_offer(old(self)@.offers, id)) by {
                        let i = offer_index(old(self)@.offers, id);
                        let a2 = if a < i { a } else { a + 1 };
                        assert(old(self)@.offers[a2].0 == id);
                    }
                }
            }
        }
        if self.offers.len() > MAX_OFFERS {
            let ghost grown = self@.offers;
            let k: usize = if self.current_selection == Some(self.offers[0].0) {
                1
            } else {
                0
            };
            self.offers.remove(k);
            assert(self@.offers =~= grown.remove(k as int));
            assert forall|a: int, b: int| 0 <= a < b < self@.offers.len() implies self@.offers[a].0
                != self@.offers[b].0 by {
                let a2 = if a < k { a } else { a + 1 };
                let b2 = if b < k { b } else { b + 1 };
                assert(self@.offers[a] == grown[a2]);
                assert(self@.offers[b] == grown[b2]);
            }
        }
    }

    /// Records content type `t` for offer `id`, where it is tracked.
    fn add_offer_type(&mut self, id: u32, t: String)
        requires
            old(self).wf(),
        ensures
            final(self).wf(),
            final(self)@ == (SessionView { offers: typed(old(self)@.offers, id, t@), ..old(self)@ }),
    {
        match self.find_offer(id) {
            Some(i) => {
                let ghost o = old(self)@.offers;
                let ghost before = self.offers@[i as int].1@;
                let mut types: Vec<String> = Vec::new();
                std::mem::swap(&mut types, &mut self.offers[i].1);
                assert(types@ == before);
                let ghost tv = t@;
                types.push(t);
                assert(strings_view(types@) =~= strings_view(before).push(tv));
                self.offers.set(i, (id, types));
                assert(self@.offers =~= o.update(i as int, (id, o[i as int].1.push(t@))));
                assert forall|a: int, b: int| 0 <= a < b < self@.offers.len() implies self@.offers[a].0
                    != self@.offers[b].0 by {
                    assert(self@.offers[a].0 == o[a].0);
                    assert(self@.offers[b].0 == o[b].0);
                }
            },
            None => {},
        }
    }

    /// Handles one event of the session; see `next` and `reply`.
    pub fn handle_event(&mut self, ev: Event) -> (r: Action)
        requires
            old(self).wf(),
        ensures
            final(self).wf(),
            final(self)@ == next(old(self)@, ev),
            r is Write <==> reply(old(self)@, ev) is Some,
            r is Write ==> reply(old(self)@, ev) == Some(r->Write_0@),
    {
        match ev {
            Event::OfferAnnounced(id) => {
                self.announce(id);
                Action::Ignore
            },
            Event::OfferType(id, t) => {
                self.add_offer_type(id, t);
                Action::Ignore
            },
            Event::SelectionChanged(id) => {
                self.current_selection = id;
                self.got_selection = true;
                Action::Ignore
            },
            Event::PrimarySelectionChanged(id) => {
                match id {
                    Some(o) => {
                        if self.current_selection != Some(o) {
                            self.drop_offer(o);
                        }
                    },
                    None => {},
                }
                Action::Ignore
            },
            Event::SendRequested(t) => {
                match self.pending.remove(&t) {
                    Some(bytes) => Action::Write(bytes),
                    None => Action::Ignore,
                }
            },
        }
    }

    /// Starts waiting for a selection change: forgets any earlier one.
    pub fn begin_wait(&mut self)
        requires
            old(self).wf(),
        ensures
            final(self).wf(),
            final(self)@ == (SessionView { got_selection: false, ..old(self)@ }),
    {
        self.got_selection = false;
    }

    /// Whether a selection change arrived since `begin_wait`; a wait ends
    /// after the dispatch step in which this becomes true.
    pub fn selection_received(&self) -> (r: bool)
        ensures
            r == self@.got_selection,
    {
        self.got_selection
    }

    /// The offer to read the clipboard from.
    pub fn read_target(&self) -> (r: Result<u32, SessionError>)
        ensures
            r is Ok <==> self@.current is Some,
            r is Ok ==> self@.current == Some(r->Ok_0),
    {
        match self.current_selection {
            Some(id) => Ok(id),
            None => Err(SessionError::NoSelection),
        }
    }

    /// The content types of the current selection, without repeats.
    pub fn list_types(&self) -> (r: Vec<String>)
        requires
            self.wf(),
        ensures
            strings_view(r@) == selection_types(self@),
    {
        match self.current_selection {
            Some(id) => match self.find_offer(id) {
                Some(i) => {
                    let types = &self.offers[i].1;
                    assert(strings_view(types@) == self@.offers[i as int].1);
                    dedup_strings(types)
                },
                None => {
                    let r: Vec<String> = Vec::new();
                    assert(strings_view(r@) =~= Seq::<Seq<char>>::empty());
                    r
                },
            },
            None => {
                let r: Vec<String> = Vec::new();
                assert(strings_view(r@) =~= Seq::<Seq<char>>::empty());
                r
            },
        }
    }

    /// Publishes `types`: they become the pending set, and the content types
    /// to advertise are returned.
    pub fn begin_publish(&mut self, types: TypeMap) -> (r: Vec<String>)
        requires
            old(self).wf(),
            types.wf(),
        ensures
            final(self).wf(),
            final(self)@ == (SessionView { pending: types@, ..old(self)@ }),
            strings_view(r@) == keys_of(types@),
    {
        let r = types.keys();
        self.pending = types;
        assert(strings_view(r@) =~= r@.map_values(|s: String| s@));
        r
    }

    /// Whether every published content type has been sent at least once.
    pub fn publish_complete(&self) -> (r: bool)
        ensures
            r == (self@.pending.len() == 0),
    {
        self.pending.is_empty()
    }

    /// Whether a publication stops waiting after `dispatches` dispatch steps.
    pub fn publish_finished(&self, dispatches: u64) -> (r: bool)
        ensures
            r == (self@.pending.len() == 0 || dispatches >= MAX_PUBLISH_DISPATCHES),
    {
        self.pending.is_empty() || dispatches >= MAX_PUBLISH_DISPATCHES
    }
}

/// The session after a series of events, first to last.
pub open spec fn after_events(s: SessionView, evs: Seq<Event>) -> SessionView
    decreases evs.len(),
{
    if evs.len() == 0 {
        s
    } else {
        next(after_events(s, evs.drop_last()), evs.last())
    }
}

/// Whether one of `evs` changes the clipboard selection.
pub open spec fn changes_selection(evs: Seq<Event>) -> bool {
    exists|i: int| 0 <= i < evs.len() && #[trigger] evs[i] is SelectionChanged
}

/// Whether `e` asks for content type `t`.
pub open spec fn asks_for(e: Event, t: Seq<char>) -> bool {
    match e {
        Event::SendRequested(u) => u@ == t,
        _ => false,
    }
}

/// Whether one of `evs` asks for content type `t`.
pub open spec fn requests(evs: Seq<Event>, t: Seq<char>) -> bool {
    exists|i: int| 0 <= i < evs.len() && asks_for(#[trigger] evs[i], t)
}

/// After any series of events, a selection change has been received exactly
/// when one had been before or one of the events changes the selection: a
/// wait ends at the dispatch step that delivers the first selection change,
/// and at no earlier one.
pub proof fn lemma_selection_flag(s: SessionView, evs: Seq<Event>)
    ensures
        after_events(s, evs).got_selection == (s.got_selection || changes_selection(evs)),
    decreases evs.len(),
{
    if evs.len() > 0 {
        let p = evs.drop_last();
        lemma_selection_flag(s, p);
        if changes_selection(p) {
            let i = choose|i: int| 0 <= i < p.len() && #[trigger] p[i] is SelectionChanged;
            assert(evs[i] == p[i]);
        }
        if changes_selection(evs) && !(evs.last() is SelectionChanged) {
            let i = choose|i: int| 0 <= i < evs.len() && #[trigger] evs[i] is SelectionChanged;
            assert(p[i] == evs[i]);
        }
        if evs.last() is SelectionChanged {
            assert(evs[evs.len() - 1] is SelectionChanged);
        }
    }
}

proof fn lemma_removed_keys(p: Seq<Pair>, t: Seq<char>)
    requires
        keys_distinct(p),
    ensures
        keys_distinct(removed(p, t)),
        forall|k: Seq<char>| has_key(removed(p, t), k) <==> (has_key(p, k) && k != t),
{
    if has_key(p, t) {
        let i = key_index(p, t);
        let q = p.remove(i);
        assert forall|a: int, b: int| 0 <= a < b < q.len() implies q[a].0 != q[b].0 by {
            let a2 = if a < i { a } else { a + 1 };
            let b2 = if b < i { b } else { b + 1 };
            assert(q[a] == p[a2] && q[b] == p[b2]);
        }
        assert forall|k: Seq<char>| has_key(q, k) <==> (has_key(p, k) && k != t) by {
            if has_key(q, k) {
                let j = choose|j: int| 0 <= j < q.len() && q[j].0 == k;
                let j2 = if j < i { j } else { j + 1 };
                assert(p[j2].0 == k);
            }
            if has_key(p, k) && k != t {
                let j = choose|j: int| 0 <= j < p.len() && p[j].0 == k;
                assert(j != i);
                let j2 = if j < i { j } else { j - 1 };
                assert(q[j2].0 == k);
            }
        }
    }
}

/// A series of send requests takes out of the pending set exactly the
/// content types it asks for; once every published type has been asked
/// for, nothing is pending, and further requests change nothing.
pub proof fn lemma_sends_drain(s: SessionView, evs: Seq<Event>)
    requires
        keys_distinct(s.pending),
        forall|i: int| 0 <= i < evs.len() ==> #[trigger] evs[i] is SendRequested,
    ensures
        keys_distinct(after_events(s, evs).pending),
        forall|k: Seq<char>|
            #[trigger] has_key(after_events(s, evs).pending, k) <==> (has_key(s.pending, k)
                && !requests(evs, k)),
        (forall|k: Seq<char>| has_key(s.pending, k) ==> requests(evs, k)) ==> after_events(
            s,
            evs,
        ).pending.len() == 0,
    decreases evs.len(),
{
    if evs.len() > 0 {
        let p = evs.drop_last();
        assert forall|i: int| 0 <= i < p.len() implies #[trigger] p[i] is SendRequested by {
            assert(evs[i] == p[i]);
        }
        lemma_sends_drain(s, p);
        let prev = after_events(s, p);
        let last = evs.last();
        assert(evs[evs.len() - 1] is SendRequested);
        let t = last->SendRequested_0@;
        lemma_removed_keys(prev.pending, t);
        assert forall|k: Seq<char>| requests(evs, k) <==> (requests(p, k) || k == t) by {
            if requests(evs, k) {
                let i = choose|i: int| 0 <= i < evs.len() && asks_for(#[trigger] evs[i], k);
                if i < p.len() {
                    assert(p[i] == evs[i]);
                }
            }
            if requests(p, k) {
                let i = choose|i: int| 0 <= i < p.len() && asks_for(#[trigger] p[i], k);
                assert(evs[i] == p[i]);
            }
            if k == t {
                assert(asks_for(evs[evs.len() - 1], k));
            }
        }
        assert(after_events(s, evs) == next(prev, last));
        assert(after_events(s, evs).pending == removed(prev.pending, t));
        assert forall|k: Seq<char>|
            #[trigger] has_key(after_events(s, evs).pending, k) <==> (has_key(s.pending, k)
                && !requests(evs, k)) by {
            assert(has_key(removed(prev.pending, t), k) <==> (has_key(prev.pending, k) && k != t));
            assert(has_key(prev.pending, k) <==> (has_key(s.pending, k) && !requests(p, k)));
            assert(requests(evs, k) <==> (requests(p, k) || k == t));
        }
    }
    if evs.len() == 0 {
        assert(after_events(s, evs) == s);
        assert forall|k: Seq<char>|
            #[trigger] has_key(after_events(s, evs).pending, k) <==> (has_key(s.pending, k)
                && !requests(evs, k)) by {
            assert(!requests(evs, k));
        }
    }
    let r = after_events(s, evs).pending;
    if forall|k: Seq<char>| has_key(s.pending, k) ==> requests(evs, k) {
        if r.len() > 0 {
            assert(has_key(r, r[0].0));
        }
    }
}

/// `types` without repeats, each where it first occurs.
fn dedup_strings(types: &Vec<String>) -> (r: Vec<String>)
    ensures
        strings_view(r@) == dedup(strings_view(types@)),
{
    let ghost all = strings_view(types@);
    let mut out: Vec<String> = Vec::new();
    let mut i: usize = 0;
    assert(all.take(0) =~= Seq::<Seq<char>>::empty());
    assert(strings_view(out@) =~= Seq::<Seq<char>>::empty());
    while i < types.len()
        invariant
            all == strings_view(types@),
            i <= types@.len(),
            strings_view(out@) == dedup(all.take(i as int)),
        decreases types@.len() - i,
    {
        let t = &types[i];
        let mut found = false;
        let mut k: usize = 0;
        while k < out.len()
            invariant
                k <= out@.len(),
                found <==> exists|m: int| 0 <= m < k && out@[m]@ == t@,
            decreases out@.len() - k,
        {
            if out[k] == *t {
                found = true;
            }
            k = k + 1;
        }
        let ghost p = strings_view(out@);
        assert(all.take(i + 1).drop_last() =~= all.take(i as int));
        assert(all.take(i + 1).last() == t@);
        assert(found <==> p.contains(t@)) by {
            if found {
                let m = choose|m: int| 0 <= m < out@.len() && out@[m]@ == t@;
                assert(p[m] == t@);
            }
            if p.contains(t@) {
                let m = choose|m: int| 0 <= m < p.len() && p[m] == t@;
                assert(out@[m]@ == t@);
            }
        }
        if !found {
            out.push(t.clone());
            assert(strings_view(out@) =~= p.push(t@));
        }
        i = i + 1;
    }
    assert(all.take(types@.len() as int) =~= all);
    out
}

} // verus!
