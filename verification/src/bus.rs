//! The event bus: a registry of listeners keyed by event name.

use std::sync::Arc;
use vstd::prelude::*;

use crate::model::{
    lemma_after_emit_valid, lemma_with_listener_valid, lemma_without_event_valid,
    lemma_without_events_valid, lemma_without_listener_valid, other_than, persistent,
    shared_contents, BusView, ListenerId, Registration,
};
use crate::order::{law_sorted_distinct_is_increasing, name_before, sort_names, sorted_names, string_views};
use crate::seq_facts::{lemma_filter_all, lemma_filter_one_out};

verus! {

/// `Arc::clone`: makes a new handle to the same allocation, so the new
/// handle's contents are those of `a`. Nothing else is claimed of it.
#[verifier::external_body]
fn share<T>(a: &Arc<T>) -> (r: Arc<T>)
    ensures
        *r == **a,
{
    Arc::clone(a)
}

struct Listener<C> {
    id: ListenerId,
    callback: Arc<C>,
    once: bool,
}

struct EventEntry<C> {
    name: String,
    listeners: Vec<Listener<C>>,
}

/// What an emission hands back: the callbacks to invoke, in order, and the
/// error handler in place at the time.
pub struct Emission<C, H> {
    pub callbacks: Vec<Arc<C>>,
    pub error_handler: Option<Arc<H>>,
}

/// An event bus that supports persistent and one-shot listeners.
///
/// `C` is the type of the listeners' callbacks and `H` that of the error
/// handler; the bus stores them and hands them back, it never calls them.
pub struct EventBus<C, H> {
    entries: Vec<EventEntry<C>>,
    max_listeners: usize,
    next_id: u64,
    error_handler: Option<Arc<H>>,
}

spec fn registration_of<C>(l: Listener<C>) -> Registration<C> {
    Registration { id: l.id, callback: *l.callback, once: l.once }
}

spec fn registrations_of<C>(s: Seq<Listener<C>>) -> Seq<Registration<C>> {
    s.map_values(|l: Listener<C>| registration_of(l))
}

spec fn entry_names<C>(s: Seq<EventEntry<C>>) -> Seq<Seq<char>> {
    s.map_values(|e: EventEntry<C>| e.name@)
}

spec fn events_of<C>(s: Seq<EventEntry<C>>) -> Map<Seq<char>, Seq<Registration<C>>> {
    Map::new(
        |k: Seq<char>| entry_names(s).contains(k),
        |k: Seq<char>| registrations_of(s[entry_names(s).index_of(k)].listeners@),
    )
}

impl<C, H> View for EventBus<C, H> {
    type V = BusView<C, H>;

    closed spec fn view(&self) -> BusView<C, H> {
        BusView {
            events: events_of(self.entries@),
            max_listeners: self.max_listeners,
            next_id: self.next_id,
            error_handler: shared_contents(self.error_handler),
        }
    }
}

/// The entry at `j` is what the map holds for its name.
proof fn lemma_events_at<C>(s: Seq<EventEntry<C>>, j: int)
    requires
        entry_names(s).no_duplicates(),
        0 <= j < s.len(),
    ensures
        events_of(s).contains_key(s[j].name@),
        events_of(s)[s[j].name@] == registrations_of(s[j].listeners@),
{
    let names = entry_names(s);
    assert(names[j] == s[j].name@);
    assert(names.contains(s[j].name@));
    let i = names.index_of(s[j].name@);
    assert(names[i] == names[j]);
}

/// A map with the entries' names as its keys, holding what each entry holds,
/// is the map of the entries.
proof fn lemma_events_eq<C>(s: Seq<EventEntry<C>>, m: Map<Seq<char>, Seq<Registration<C>>>)
    requires
        entry_names(s).no_duplicates(),
        forall|k: Seq<char>| m.contains_key(k) <==> entry_names(s).contains(k),
        forall|j: int| 0 <= j < s.len() ==> m[#[trigger] s[j].name@] == registrations_of(s[j].listeners@),
    ensures
        events_of(s) == m,
{
    assert forall|k: Seq<char>| #[trigger] events_of(s).contains_key(k) implies events_of(s)[k]
        == m[k] by {
        let j = entry_names(s).index_of(k);
        assert(entry_names(s)[j] == s[j].name@);
        lemma_events_at(s, j);
    }
    assert(events_of(s) =~= m);
}

/// Appending an entry under a new name adds that name to the map.
proof fn lemma_events_push<C>(s: Seq<EventEntry<C>>, entry: EventEntry<C>)
    requires
        entry_names(s).no_duplicates(),
        !entry_names(s).contains(entry.name@),
    ensures
        entry_names(s.push(entry)).no_duplicates(),
        events_of(s.push(entry)) == events_of(s).insert(
            entry.name@,
            registrations_of(entry.listeners@),
        ),
{
    let t = s.push(entry);
    let ns = entry_names(s);
    let nt = entry_names(t);
    assert(nt =~= ns.push(entry.name@));
    assert forall|a: int, b: int| 0 <= a < nt.len() && 0 <= b < nt.len() && a != b implies nt[a]
        != nt[b] by {
        if a == s.len() {
            assert(nt[b] == ns[b]);
        } else if b == s.len() {
            assert(nt[a] == ns[a]);
        }
    }
    let m = events_of(s).insert(entry.name@, registrations_of(entry.listeners@));
    assert forall|j: int| 0 <= j < t.len() implies m[#[trigger] t[j].name@] == registrations_of(
        t[j].listeners@,
    ) by {
        if j < s.len() {
            assert(t[j] == s[j]);
            assert(ns[j] == s[j].name@);
            lemma_events_at(s, j);
        }
    }
    assert forall|k: Seq<char>| m.contains_key(k) <==> nt.contains(k) by {
        if nt.contains(k) {
            let a = choose|a: int| 0 <= a < nt.len() && nt[a] == k;
            if a < s.len() {
                assert(ns[a] == k);
            }
        }
        if ns.contains(k) {
            let a = choose|a: int| 0 <= a < ns.len() && ns[a] == k;
            assert(nt[a] == k);
        }
        if k == entry.name@ {
            assert(nt[s.len() as int] == k);
        }
    }
    lemma_events_eq(t, m);
}

/// Replacing the entry at `i` by one of the same name replaces what the map
/// holds for that name.
proof fn lemma_events_update<C>(s: Seq<EventEntry<C>>, i: int, entry: EventEntry<C>)
    requires
        entry_names(s).no_duplicates(),
        0 <= i < s.len(),
        entry.name@ == s[i].name@,
    ensures
        entry_names(s.update(i, entry)) == entry_names(s),
        events_of(s.update(i, entry)) == events_of(s).insert(
            s[i].name@,
            registrations_of(entry.listeners@),
        ),
{
    let t = s.update(i, entry);
    assert(entry_names(t) =~= entry_names(s));
    let m = events_of(s).insert(s[i].name@, registrations_of(entry.listeners@));
    assert forall|j: int| 0 <= j < t.len() implies m[#[trigger] t[j].name@] == registrations_of(
        t[j].listeners@,
    ) by {
        if j != i {
            lemma_events_at(s, j);
            assert(entry_names(s)[j] != entry_names(s)[i]);
        }
    }
    assert forall|k: Seq<char>| m.contains_key(k) <==> entry_names(t).contains(k) by {
        if k == s[i].name@ {
            assert(entry_names(s)[i] == k);
        }
    }
    lemma_events_eq(t, m);
}

/// Removing the entry at `i` removes its name from the map.
proof fn lemma_events_remove<C>(s: Seq<EventEntry<C>>, i: int)
    requires
        entry_names(s).no_duplicates(),
        0 <= i < s.len(),
    ensures
        entry_names(s.remove(i)).no_duplicates(),
        events_of(s.remove(i)) == events_of(s).remove(s[i].name@),
{
    let t = s.remove(i);
    let ns = entry_names(s);
    let nt = entry_names(t);
    assert(nt =~= ns.remove(i));
    assert forall|a: int, b: int| 0 <= a < nt.len() && 0 <= b < nt.len() && a != b implies nt[a]
        != nt[b] by {
        let a2 = if a < i { a } else { a + 1 };
        let b2 = if b < i { b } else { b + 1 };
        assert(nt[a] == ns[a2] && nt[b] == ns[b2]);
    }
    let m = events_of(s).remove(s[i].name@);
    assert forall|j: int| 0 <= j < t.len() implies m[#[trigger] t[j].name@] == registrations_of(
        t[j].listeners@,
    ) by {
        let j2 = if j < i { j } else { j + 1 };
        assert(t[j] == s[j2]);
        assert(ns[j2] != ns[i]);
        lemma_events_at(s, j2);
    }
    assert forall|k: Seq<char>| m.contains_key(k) <==> nt.contains(k) by {
        if nt.contains(k) {
            let a = choose|a: int| 0 <= a < nt.len() && nt[a] == k;
            let a2 = if a < i { a } else { a + 1 };
            assert(ns[a2] == k);
            assert(ns[i] == s[i].name@);
        }
        if m.contains_key(k) {
            let a = choose|a: int| 0 <= a < ns.len() && ns[a] == k;
            assert(a != i);
            if a < i {
                assert(nt[a] == k);
            } else {
                assert(nt[a - 1] == k);
            }
        }
    }
    lemma_events_eq(t, m);
}

impl<C, H> EventBus<C, H> {
    /// The internal invariant: entry names are distinct, and the abstract
    /// state is valid.
    pub closed spec fn wf(&self) -> bool {
        &&& entry_names(self.entries@).no_duplicates()
        &&& self@.valid()
    }

    /// A well-formed bus has a valid abstract state.
    pub proof fn lemma_wf_valid(&self)
        requires
            self.wf(),
        ensures
            self@.valid(),
    {
    }

    /// Create a new event bus with a default max-listeners limit of 10.
    pub fn new() -> (bus: Self)
        ensures
            bus.wf(),
            bus@ == BusView::<C, H>::initial(),
            bus@.events == Map::<Seq<char>, Seq<Registration<C>>>::empty(),
            bus@.next_id == 0,
            bus@.max_listeners == 10,
            bus@.error_handler is None,
    {
        let bus = EventBus {
            entries: Vec::new(),
            max_listeners: 10,
            next_id: 0,
            error_handler: None,
        };
        assert(bus@.events =~= Map::<Seq<char>, Seq<Registration<C>>>::empty());
        bus
    }

    /// Whether every listener id has been handed out, so that no listener can
    /// be registered any more.
    pub fn ids_exhausted(&self) -> (r: bool)
        ensures
            r == (self@.next_id == u64::MAX),
    {
        self.next_id == u64::MAX
    }

    fn allocate_id(&mut self) -> (id: ListenerId)
        requires
            old(self).next_id < u64::MAX,
        ensures
            id@ == old(self).next_id,
            final(self).next_id == old(self).next_id + 1,
            final(self).entries == old(self).entries,
            final(self).max_listeners == old(self).max_listeners,
            final(self).error_handler == old(self).error_handler,
    {
        let id = ListenerId::from_number(self.next_id);
        self.next_id = self.next_id + 1;
        id
    }

    /// The position of the entry named `name`, if there is one.
    fn find(&self, name: &String) -> (r: Option<usize>)
        ensures
            match r {
                Some(i) => i < self.entries@.len() && self.entries@[i as int].name@ == name@,
                None => !entry_names(self.entries@).contains(name@),
            },
    {
        let mut i: usize = 0;
        while i < self.entries.len()
            invariant
                i <= self.entries@.len(),
                forall|j: int| 0 <= j < i ==> self.entries@[j].name@ != name@,
            decreases self.entries@.len() - i,
        {
            if self.entries[i].name == *name {
                return Some(i);
            }
            i = i + 1;
        }
        proof {
            if entry_names(self.entries@).contains(name@) {
                let j = choose|j: int|
                    0 <= j < entry_names(self.entries@).len() && entry_names(self.entries@)[j]
                        == name@;
                assert(self.entries@[j].name@ == name@);
            }
        }
        None
    }

    fn add_listener(&mut self, event: &str, callback: C, once: bool) -> (id: ListenerId)
        requires
            old(self).wf(),
            old(self)@.next_id < u64::MAX,
        ensures
            final(self).wf(),
            id@ == old(self)@.next_id,
            final(self)@ == old(self)@.with_listener(event@, id, callback, once),
    {
        let ghost pre = self@;
        let ghost pre_entries = self.entries@;
        let id = self.allocate_id();
        let listener = Listener { id, callback: Arc::new(callback), once };
        let key = event.to_owned();
        let ghost reg = Registration { id, callback, once };
        assert(registration_of(listener) == reg);
        match self.find(&key) {
            Some(i) => {
                proof {
                    lemma_events_at(pre_entries, i as int);
                }
                self.entries[i].listeners.push(listener);
                proof {
                    let entry = self.entries@[i as int];
                    assert(self.entries@ == pre_entries.update(i as int, entry));
                    assert(registrations_of(entry.listeners@) =~= registrations_of(
                        pre_entries[i as int].listeners@,
                    ).push(reg));
                    lemma_events_update(pre_entries, i as int, entry);
                }
            },
            None => {
                let mut listeners: Vec<Listener<C>> = Vec::new();
                listeners.push(listener);
                let entry = EventEntry { name: key, listeners };
                proof {
                    assert(registrations_of(entry.listeners@) =~= Seq::<Registration<C>>::empty().push(
                        reg,
                    ));
                    lemma_events_push(pre_entries, entry);
                }
                self.entries.push(entry);
            },
        }
        proof {
            lemma_with_listener_valid(pre, event@, id, callback, once);
        }
        id
    }

    /// The view that `entries` and the other fields of `self` give.
    spec fn view_with(&self, entries: Seq<EventEntry<C>>) -> BusView<C, H> {
        BusView {
            events: events_of(entries),
            max_listeners: self.max_listeners,
            next_id: self.next_id,
            error_handler: shared_contents(self.error_handler),
        }
    }

    proof fn lemma_off_absent(&self, pre: BusView<C, H>, id: ListenerId)
        requires
            self@ == pre,
            self.wf(),
            forall|j: int, q: int|
                0 <= j < self.entries@.len() && 0 <= q < self.entries@[j].listeners@.len()
                    ==> #[trigger] self.entries@[j].listeners@[q].id != id,
        ensures
            !pre.has_listener(id),
            pre.without_listener(id) == pre,
    {
        let s = self.entries@;
        assert forall|e: Seq<char>, k: int|
            #![trigger pre.events[e][k]]
            pre.events.contains_key(e) && 0 <= k < pre.events[e].len() implies pre.events[e][k].id
            != id by {
            let j = entry_names(s).index_of(e);
            lemma_events_at(s, j);
            assert(pre.events[e][k] == registration_of(s[j].listeners@[k]));
        }
        let w = pre.without_listener(id);
        assert forall|e: Seq<char>| #[trigger] w.events.contains_key(e) implies w.events[e]
            == pre.events[e] by {
            lemma_filter_all(pre.events[e], other_than::<C>(id));
        }
        assert(w.events =~= pre.events);
    }

    proof fn lemma_off_found(
        &self,
        pre: BusView<C, H>,
        pre_entries: Seq<EventEntry<C>>,
        id: ListenerId,
        i: int,
        p: int,
    )
        requires
            pre == self.view_with(pre_entries),
            pre.valid(),
            entry_names(pre_entries).no_duplicates(),
            0 <= i < pre_entries.len(),
            0 <= p < pre_entries[i].listeners@.len(),
            pre_entries[i].listeners@[p].id == id,
            self.entries@.len() == pre_entries.len(),
            forall|j: int| 0 <= j < pre_entries.len() && j != i ==> self.entries@[j] == pre_entries[j],
            self.entries@[i].name == pre_entries[i].name,
            self.entries@[i].listeners@ == pre_entries[i].listeners@.remove(p),
        ensures
            self.wf(),
            pre.has_listener(id),
            self@ == pre.without_listener(id),
    {
        let s = self.entries@;
        let target = pre.without_listener(id);
        let pred = other_than::<C>(id);
        let ei = pre_entries[i].name@;
        lemma_events_at(pre_entries, i);
        assert(pre.events[ei][p] == registration_of(pre_entries[i].listeners@[p]));
        assert(entry_names(s) =~= entry_names(pre_entries));
        assert forall|j: int| 0 <= j < s.len() implies target.events[#[trigger] s[j].name@]
            == registrations_of(s[j].listeners@) by {
            lemma_events_at(pre_entries, j);
            let rs = registrations_of(pre_entries[j].listeners@);
            if j != i {
                assert(entry_names(pre_entries)[j] != entry_names(pre_entries)[i]);
                assert forall|q: int| 0 <= q < rs.len() implies pred(#[trigger] rs[q]) by {
                    assert(pre.events[s[j].name@][q] == rs[q]);
                }
                lemma_filter_all(rs, pred);
            } else {
                assert forall|q: int| 0 <= q < rs.len() && q != p implies pred(#[trigger] rs[q]) by {
                    assert(pre.events[ei][q] == rs[q]);
                }
                lemma_filter_one_out(rs, pred, p);
                assert(registrations_of(s[i].listeners@) =~= rs.remove(p));
            }
        }
        lemma_events_eq(s, target.events);
        lemma_without_listener_valid(pre, id);
    }

    /// Remove the listener identified by `id` from any event. Returns `true`
    /// if the listener was found and removed.
    pub fn off(&mut self, id: ListenerId) -> (removed: bool)
        requires
            old(self).wf(),
        ensures
            final(self).wf(),
            removed == old(self)@.has_listener(id),
            final(self)@ == old(self)@.without_listener(id),
    {
        let ghost pre = self@;
        let ghost pre_entries = self.entries@;
        let ghost target = pre.without_listener(id);
        proof {
            lemma_without_listener_valid(pre, id);
        }
        let mut i: usize = 0;
        while i < self.entries.len()
            invariant
                self.entries@ == pre_entries,
                self@ == pre,
                old(self)@ == pre,
                self.wf(),
                i <= pre_entries.len(),
                forall|j: int, q: int|
                    0 <= j < i && 0 <= q < pre_entries[j].listeners@.len()
                        ==> #[trigger] pre_entries[j].listeners@[q].id != id,
            decreases pre_entries.len() - i,
        {
            let n = self.entries[i].listeners.len();
            let mut p: usize = 0;
            while p < n
                invariant
                    self.entries@ == pre_entries,
                    self@ == pre,
                    old(self)@ == pre,
                    self.wf(),
                    i < pre_entries.len(),
                    n == pre_entries[i as int].listeners@.len(),
                    p <= n,
                    forall|q: int| 0 <= q < p ==> #[trigger] pre_entries[i as int].listeners@[q].id != id,
                decreases n - p,
            {
                if self.entries[i].listeners[p].id == id {
                    self.entries[i].listeners.remove(p);
                    proof {
                        self.lemma_off_found(pre, pre_entries, id, i as int, p as int);
                    }
                    return true;
                }
                p = p + 1;
            }
            i = i + 1;
        }
        proof {
            self.lemma_off_absent(pre, id);
        }
        false
    }

    /// Emit an event: hand back, in registration order, the callback of every
    /// listener registered for it, with the error handler in place. One-shot
    /// listeners are removed, and so is the entry when nothing is left of it.
    /// The number of listeners invoked is the number of callbacks.
    pub fn emit(&mut self, event: &str) -> (emission: Emission<C, H>)
        requires
            old(self).wf(),
        ensures
            final(self).wf(),
            emission.callbacks@.len() == old(self)@.fired(event@).len(),
            forall|i: int|
                0 <= i < emission.callbacks@.len() ==> *#[trigger] emission.callbacks@[i] == old(
                    self,
                )@.fired(event@)[i],
            shared_contents(emission.error_handler) == old(self)@.error_handler,
            final(self)@ == old(self)@.after_emit(event@),
    {
        let ghost pre = self@;
        let ghost pre_entries = self.entries@;
        proof {
            lemma_after_emit_valid(pre, event@);
        }
        let error_handler = match &self.error_handler {
            Some(h) => Some(share(h)),
            None => None,
        };
        let key = event.to_owned();
        match self.find(&key) {
            None => {
                assert(pre.fired(event@) =~= Seq::<C>::empty());
                let callbacks: Vec<Arc<C>> = Vec::new();
                assert(callbacks@.map_values(|a: Arc<C>| *a) =~= Seq::<C>::empty());
                Emission { callbacks, error_handler }
            },
            Some(i) => {
                proof {
                    lemma_events_at(pre_entries, i as int);
                }
                let ghost ls = pre_entries[i as int].listeners@;
                let ghost regs = registrations_of(ls);
                let n = self.entries[i].listeners.len();
                let mut callbacks: Vec<Arc<C>> = Vec::new();
                let mut kept: Vec<Listener<C>> = Vec::new();
                let mut j: usize = 0;
                while j < n
                    invariant
                        self.entries@ == pre_entries,
                        i < pre_entries.len(),
                        n == ls.len(),
                        ls == pre_entries[i as int].listeners@,
                        regs == registrations_of(ls),
                        j <= n,
                        callbacks@.map_values(|a: Arc<C>| *a) == regs.take(j as int).map_values(
                            |r: Registration<C>| r.callback,
                        ),
                        registrations_of(kept@) == regs.take(j as int).filter(persistent::<C>()),
                    decreases n - j,
                {
                    let listener = &self.entries[i].listeners[j];
                    callbacks.push(share(&listener.callback));
                    proof {
                        assert(regs.take(j as int + 1) =~= regs.take(j as int).push(regs[j as int]));
                        regs.take(j as int).lemma_filter_push(regs[j as int], persistent::<C>());
                        assert(regs.take(j as int + 1).map_values(|r: Registration<C>| r.callback)
                            =~= regs.take(j as int).map_values(|r: Registration<C>| r.callback).push(
                            regs[j as int].callback,
                        ));
                    }
                    if !listener.once {
                        kept.push(
                            Listener {
                                id: listener.id,
                                callback: share(&listener.callback),
                                once: false,
                            },
                        );
                    }
                    j = j + 1;
                }
                assert(regs.take(n as int) =~= regs);
                assert(pre.fired(event@) == regs.map_values(|r: Registration<C>| r.callback));
                assert forall|k: int| 0 <= k < callbacks@.len() implies *#[trigger] callbacks@[k]
                    == pre.fired(event@)[k] by {
                    assert(callbacks@.map_values(|a: Arc<C>| *a)[k] == *callbacks@[k]);
                }
                if kept.len() == 0 {
                    self.entries.remove(i);
                    proof {
                        lemma_events_remove(pre_entries, i as int);
                        assert(self@.events == pre.after_emit(event@).events);
                    }
                } else {
                    self.entries[i].listeners = kept;
                    proof {
                        lemma_events_update(pre_entries, i as int, self.entries@[i as int]);
                        assert(self.entries@ == pre_entries.update(i as int, self.entries@[i as int]));
                        assert(self@.events == pre.after_emit(event@).events);
                    }
                }
                Emission { callbacks, error_handler }
            },
        }
    }

    /// Register a persistent listener for `event`. Returns a [`ListenerId`]
    /// that can be passed to [`off`](Self::off) to remove it later.
    pub fn on(&mut self, event: &str, callback: C) -> (id: ListenerId)
        requires
            old(self).wf(),
            old(self)@.next_id < u64::MAX,
        ensures
            final(self).wf(),
            id@ == old(self)@.next_id,
            final(self)@ == old(self)@.with_listener(event@, id, callback, false),
            final(self)@.listeners(event@) == old(self)@.listeners(event@).push(
                Registration { id, callback, once: false },
            ),
            forall|other: Seq<char>|
                other != event@ ==> #[trigger] final(self)@.listeners(other) == old(
                    self,
                )@.listeners(other),
            final(self)@.next_id == old(self)@.next_id + 1,
            final(self)@.max_listeners == old(self)@.max_listeners,
            final(self)@.error_handler == old(self)@.error_handler,
    {
        self.add_listener(event, callback, false)
    }

    /// Register a one-shot listener for `event`. The listener is removed after
    /// it fires once.
    pub fn once(&mut self, event: &str, callback: C) -> (id: ListenerId)
        requires
            old(self).wf(),
            old(self)@.next_id < u64::MAX,
        ensures
            final(self).wf(),
            id@ == old(self)@.next_id,
            final(self)@ == old(self)@.with_listener(event@, id, callback, true),
            final(self)@.listeners(event@) == old(self)@.listeners(event@).push(
                Registration { id, callback, once: true },
            ),
            forall|other: Seq<char>|
                other != event@ ==> #[trigger] final(self)@.listeners(other) == old(
                    self,
                )@.listeners(other),
            final(self)@.next_id == old(self)@.next_id + 1,
            final(self)@.max_listeners == old(self)@.max_listeners,
            final(self)@.error_handler == old(self)@.error_handler,
    {
        self.add_listener(event, callback, true)
    }
    /// Return the number of listeners registered for `event`.
    pub fn listener_count(&self, event: &str) -> (n: usize)
        requires
            self.wf(),
        ensures
            n == self@.listener_count(event@),
    {
        let key = event.to_owned();
        match self.find(&key) {
            Some(i) => {
                proof {
                    lemma_events_at(self.entries@, i as int);
                }
                self.entries[i].listeners.len()
            },
            None => 0,
        }
    }

    /// The names of the entries, each once, in entry order; only those with
    /// listeners where `active_only` holds.
    fn names_where(&self, active_only: bool) -> (names: Vec<String>)
        requires
            self.wf(),
        ensures
            string_views(names@).no_duplicates(),
            forall|k: Seq<char>|
                string_views(names@).contains(k) <==> (self@.events.contains_key(k) && (
                !active_only || self@.events[k].len() > 0)),
    {
        let ghost s = self.entries@;
        let mut names: Vec<String> = Vec::new();
        let mut j: usize = 0;
        while j < self.entries.len()
            invariant
                s == self.entries@,
                self.wf(),
                j <= s.len(),
                forall|a: int|
                    #![trigger names@[a]]
                    0 <= a < names@.len() ==> exists|q: int|
                        #![trigger s[q]]
                        0 <= q < j && s[q].name@ == names@[a]@,
                string_views(names@).no_duplicates(),
                forall|k: Seq<char>|
                    string_views(names@).contains(k) <==> exists|q: int|
                        0 <= q < j && #[trigger] s[q].name@ == k && (!active_only
                            || s[q].listeners@.len() > 0),
            decreases s.len() - j,
        {
            let ghost before = string_views(names@);
            if !active_only || self.entries[j].listeners.len() > 0 {
                let name = self.entries[j].name.clone();
                names.push(name);
                proof {
                    assert(string_views(names@) =~= before.push(s[j as int].name@));
                    assert forall|a: int, b: int|
                        0 <= a < string_views(names@).len() && 0 <= b < string_views(names@).len()
                            && a != b implies string_views(names@)[a] != string_views(names@)[b] by {
                        if b == names@.len() - 1 && a < b {
                            let q = choose|q: int| 0 <= q < j && s[q].name@ == names@[a]@;
                            assert(entry_names(s)[q] != entry_names(s)[j as int]);
                        } else if a == names@.len() - 1 && b < a {
                            let q = choose|q: int| 0 <= q < j && s[q].name@ == names@[b]@;
                            assert(entry_names(s)[q] != entry_names(s)[j as int]);
                        } else {
                            assert(string_views(names@)[a] == before[a]);
                            assert(string_views(names@)[b] == before[b]);
                        }
                    }
                    assert forall|k: Seq<char>|
                        string_views(names@).contains(k) <==> exists|q: int|
                            0 <= q < j + 1 && #[trigger] s[q].name@ == k && (!active_only
                                || s[q].listeners@.len() > 0) by {
                        if string_views(names@).contains(k) {
                            let a = choose|a: int|
                                0 <= a < string_views(names@).len() && string_views(names@)[a] == k;
                            if a < before.len() {
                                assert(before[a] == k);
                                assert(before.contains(k));
                            } else {
                                assert(s[j as int].name@ == k);
                            }
                        }
                        if exists|q: int|
                            0 <= q < j + 1 && #[trigger] s[q].name@ == k && (!active_only
                                || s[q].listeners@.len() > 0) {
                            let q = choose|q: int|
                                0 <= q < j + 1 && #[trigger] s[q].name@ == k && (!active_only
                                    || s[q].listeners@.len() > 0);
                            if q < j {
                                assert(before.contains(k));
                                let a = choose|a: int| 0 <= a < before.len() && before[a] == k;
                                assert(string_views(names@)[a] == k);
                            } else {
                                assert(string_views(names@)[names@.len() - 1] == k);
                            }
                        }
                    }
                }
            } else {
                proof {
                    assert forall|k: Seq<char>|
                        string_views(names@).contains(k) <==> exists|q: int|
                            0 <= q < j + 1 && #[trigger] s[q].name@ == k && (!active_only
                                || s[q].listeners@.len() > 0) by {
                        if exists|q: int|
                            0 <= q < j + 1 && #[trigger] s[q].name@ == k && (!active_only
                                || s[q].listeners@.len() > 0) {
                            let q = choose|q: int|
                                0 <= q < j + 1 && #[trigger] s[q].name@ == k && (!active_only
                                    || s[q].listeners@.len() > 0);
                            assert(q < j);
                        }
                    }
                }
            }
            proof {
                assert forall|a: int| #![trigger names@[a]] 0 <= a < names@.len() implies exists|q: int|
                    #![trigger s[q]]
                    0 <= q < j + 1 && s[q].name@ == names@[a]@ by {
                    if a < before.len() {
                        assert(before[a] == names@[a]@);
                        let q = choose|q: int| 0 <= q < j && s[q].name@ == before[a];
                    } else {
                        assert(s[j as int].name@ == names@[a]@);
                    }
                }
            }
            j = j + 1;
        }
        proof {
            assert forall|k: Seq<char>|
                string_views(names@).contains(k) <==> (self@.events.contains_key(k) && (!active_only
                    || self@.events[k].len() > 0)) by {
                if string_views(names@).contains(k) {
                    let q = choose|q: int|
                        0 <= q < j && #[trigger] s[q].name@ == k && (!active_only
                            || s[q].listeners@.len() > 0);
                    lemma_events_at(s, q);
                }
                if self@.events.contains_key(k) {
                    let q = entry_names(s).index_of(k);
                    assert(s[q].name@ == k);
                    lemma_events_at(s, q);
                }
            }
        }
        names
    }

    /// Return a sorted list of event names that have at least one listener.
    pub fn event_names(&self) -> (names: Vec<String>)
        requires
            self.wf(),
        ensures
            string_views(names@).no_duplicates(),
            sorted_names(string_views(names@)),
            forall|i: int, j: int|
                0 <= i < j < names@.len() ==> name_before(#[trigger] names@[i]@, #[trigger] names@[j]@),
            forall|k: Seq<char>| string_views(names@).contains(k) <==> self@.is_active(k),
    {
        let names = sort_names(self.names_where(true));
        proof {
            law_sorted_distinct_is_increasing(string_views(names@));
            assert forall|i: int, j: int| 0 <= i < j < names@.len() implies name_before(
                #[trigger] names@[i]@,
                #[trigger] names@[j]@,
            ) by {
                assert(string_views(names@)[i] == names@[i]@);
                assert(string_views(names@)[j] == names@[j]@);
            }
        }
        names
    }

    /// Every entry's name with its number of listeners, sorted by name. An
    /// entry is listed though its last listener was removed by id.
    pub fn entry_sizes(&self) -> (sizes: Vec<(String, usize)>)
        requires
            self.wf(),
        ensures
            string_views(sizes@.map_values(|p: (String, usize)| p.0)).no_duplicates(),
            sorted_names(string_views(sizes@.map_values(|p: (String, usize)| p.0))),
            forall|k: Seq<char>|
                string_views(sizes@.map_values(|p: (String, usize)| p.0)).contains(k)
                    <==> self@.events.contains_key(k),
            forall|i: int|
                0 <= i < sizes@.len() ==> #[trigger] sizes@[i].1 == self@.listener_count(
                    sizes@[i].0@,
                ),
    {
        let names = sort_names(self.names_where(false));
        let mut sizes: Vec<(String, usize)> = Vec::new();
        let mut j: usize = 0;
        while j < names.len()
            invariant
                self.wf(),
                j <= names@.len(),
                sizes@.len() == j,
                forall|a: int| 0 <= a < j ==> #[trigger] sizes@[a].0 == names@[a],
                forall|a: int|
                    0 <= a < j ==> #[trigger] sizes@[a].1 == self@.listener_count(sizes@[a].0@),
            decreases names@.len() - j,
        {
            let name = names[j].clone();
            let count = self.listener_count(name.as_str());
            sizes.push((name, count));
            j = j + 1;
        }
        assert(sizes@.map_values(|p: (String, usize)| p.0) =~= names@);
        sizes
    }

    /// Removes all listeners for a specific event.
    pub fn clear_event(&mut self, event_name: &str)
        requires
            old(self).wf(),
        ensures
            final(self).wf(),
            final(self)@ == old(self)@.without_event(event_name@),
    {
        let ghost pre = self@;
        proof {
            lemma_without_event_valid(pre, event_name@);
        }
        let key = event_name.to_owned();
        match self.find(&key) {
            Some(i) => {
                proof {
                    lemma_events_remove(self.entries@, i as int);
                }
                self.entries.remove(i);
            },
            None => {
                assert(pre.events.remove(event_name@) =~= pre.events);
            },
        }
    }

    /// Set a handler to be called when a listener panics during emission.
    /// The bus keeps it and hands it back with each emission.
    pub fn set_error_handler(&mut self, handler: H)
        requires
            old(self).wf(),
        ensures
            final(self).wf(),
            final(self)@ == (BusView { error_handler: Some(handler), ..old(self)@ }),
    {
        self.error_handler = Some(Arc::new(handler));
    }

    /// Remove listeners. If `event` is `Some`, only listeners for that event
    /// are removed. If `None`, all listeners for every event are removed.
    pub fn remove_all_listeners(&mut self, event: Option<&str>)
        requires
            old(self).wf(),
        ensures
            final(self).wf(),
            final(self)@ == match event {
                Some(name) => old(self)@.without_event(name@),
                None => old(self)@.without_events(),
            },
    {
        match event {
            Some(name) => {
                self.clear_event(name);
            },
            None => {
                proof {
                    lemma_without_events_valid(self@);
                }
                self.entries.clear();
                assert(self@.events =~= Map::<Seq<char>, Seq<Registration<C>>>::empty());
            },
        }
    }

    /// Return the current max-listeners setting.
    pub fn max_listeners(&self) -> (max: usize)
        ensures
            max == self@.max_listeners,
    {
        self.max_listeners
    }

    /// Set the max-listeners limit.
    pub fn set_max_listeners(&mut self, max: usize)
        requires
            old(self).wf(),
        ensures
            final(self).wf(),
            final(self)@ == (BusView { max_listeners: max, ..old(self)@ }),
    {
        self.max_listeners = max;
    }
}

impl<C, H> Default for EventBus<C, H> {
    /// A new event bus, as [`new`](EventBus::new) makes it.
    fn default() -> (bus: Self)
        ensures
            bus.wf(),
            bus@ == BusView::<C, H>::initial(),
            bus@.events == Map::<Seq<char>, Seq<Registration<C>>>::empty(),
            bus@.next_id == 0,
            bus@.max_listeners == 10,
            bus@.error_handler is None,
    {
        Self::new()
    }
}

} // verus!
