//! The abstract state of an event bus, the changes its operations make to
//! it, and the invariant that every change keeps.

use std::sync::Arc;
use vstd::prelude::*;

use crate::seq_facts::{lemma_filter_from, lemma_filter_keeps_distinct};

verus! {

/// Opaque identifier for a registered listener.
#[derive(Debug, Clone, Copy, PartialEq, Eq, Hash, Structural)]
pub struct ListenerId(u64);

impl ListenerId {
    /// The id that carries the number `n`.
    pub(crate) fn from_number(n: u64) -> (id: ListenerId)
        ensures
            id@ == n,
    {
        ListenerId(n)
    }
}

impl View for ListenerId {
    type V = u64;

    closed spec fn view(&self) -> u64 {
        self.0
    }
}

/// What the bus knows of one registered listener.
pub struct Registration<C> {
    pub id: ListenerId,
    pub callback: C,
    pub once: bool,
}

/// The abstract state of an event bus.
pub struct BusView<C, H> {
    /// For each event that has an entry, its listeners in registration order.
    /// An entry may be left empty when its last listener is removed by id.
    pub events: Map<Seq<char>, Seq<Registration<C>>>,
    pub max_listeners: usize,
    /// The number that the next listener id will carry.
    pub next_id: u64,
    pub error_handler: Option<H>,
}

/// Keeps the listeners that are not one-shot.
pub open spec fn persistent<C>() -> spec_fn(Registration<C>) -> bool {
    |r: Registration<C>| !r.once
}

/// Keeps the listeners whose id is not `id`.
pub open spec fn other_than<C>(id: ListenerId) -> spec_fn(Registration<C>) -> bool {
    |r: Registration<C>| r.id != id
}

/// The contents of optional shared handles.
pub open spec fn shared_contents<H>(h: Option<Arc<H>>) -> Option<H> {
    match h {
        Some(a) => Some(*a),
        None => None,
    }
}

impl<C, H> BusView<C, H> {
    /// A fresh bus: no listeners, a limit of 10, ids from 0, no error handler.
    pub open spec fn initial() -> Self {
        BusView { events: Map::empty(), max_listeners: 10, next_id: 0, error_handler: None }
    }

    /// The listeners registered for `event`, in registration order.
    pub open spec fn listeners(self, event: Seq<char>) -> Seq<Registration<C>> {
        if self.events.contains_key(event) {
            self.events[event]
        } else {
            Seq::empty()
        }
    }

    /// The number of listeners registered for `event`.
    pub open spec fn listener_count(self, event: Seq<char>) -> nat {
        self.listeners(event).len()
    }

    /// `event` has at least one listener.
    pub open spec fn is_active(self, event: Seq<char>) -> bool {
        self.listener_count(event) > 0
    }

    /// Some event has a listener with id `id`.
    pub open spec fn has_listener(self, id: ListenerId) -> bool {
        exists|e: Seq<char>, i: int|
            #![trigger self.events[e][i]]
            self.events.contains_key(e) && 0 <= i < self.events[e].len() && self.events[e][i].id
                == id
    }

    /// The bus after a listener with id `id` is appended to the listeners of
    /// `event`, and the next id moves on by one.
    pub open spec fn with_listener(
        self,
        event: Seq<char>,
        id: ListenerId,
        callback: C,
        once: bool,
    ) -> Self {
        BusView {
            events: self.events.insert(
                event,
                self.listeners(event).push(Registration { id, callback, once }),
            ),
            next_id: (self.next_id + 1) as u64,
            ..self
        }
    }

    /// The bus after the listener with id `id` is removed, wherever it is;
    /// entries stay, even when emptied.
    pub open spec fn without_listener(self, id: ListenerId) -> Self {
        BusView {
            events: self.events.map_values(
                |s: Seq<Registration<C>>| s.filter(other_than::<C>(id)),
            ),
            ..self
        }
    }

    /// The callbacks that an emission of `event` invokes, in order.
    pub open spec fn fired(self, event: Seq<char>) -> Seq<C> {
        self.listeners(event).map_values(|r: Registration<C>| r.callback)
    }

    /// The bus after `event` is emitted: its one-shot listeners are gone, and
    /// its entry too where nothing is left.
    pub open spec fn after_emit(self, event: Seq<char>) -> Self {
        if self.events.contains_key(event) {
            let kept = self.events[event].filter(persistent::<C>());
            if kept.len() == 0 {
                BusView { events: self.events.remove(event), ..self }
            } else {
                BusView { events: self.events.insert(event, kept), ..self }
            }
        } else {
            self
        }
    }

    /// The bus without the entry for `event`.
    pub open spec fn without_event(self, event: Seq<char>) -> Self {
        BusView { events: self.events.remove(event), ..self }
    }

    /// The bus without any entry.
    pub open spec fn without_events(self) -> Self {
        BusView { events: Map::empty(), ..self }
    }

    /// Every listener has an id below the next one, and no two listeners
    /// share an id.
    pub open spec fn valid(self) -> bool {
        &&& forall|e: Seq<char>, i: int|
            #![trigger self.events[e][i]]
            self.events.contains_key(e) && 0 <= i < self.events[e].len() ==> self.events[e][i].id@
                < self.next_id
        &&& forall|e1: Seq<char>, i1: int, e2: Seq<char>, i2: int|
            #![trigger self.events[e1][i1], self.events[e2][i2]]
            self.events.contains_key(e1) && self.events.contains_key(e2) && 0 <= i1
                < self.events[e1].len() && 0 <= i2 < self.events[e2].len() && self.events[e1][i1].id
                == self.events[e2][i2].id ==> e1 == e2 && i1 == i2
    }
}

/// Registering a listener under the next id keeps the bus valid.
pub proof fn lemma_with_listener_valid<C, H>(
    v: BusView<C, H>,
    event: Seq<char>,
    id: ListenerId,
    callback: C,
    once: bool,
)
    requires
        v.valid(),
        v.next_id < u64::MAX,
        id@ == v.next_id,
    ensures
        v.with_listener(event, id, callback, once).valid(),
{
    let w = v.with_listener(event, id, callback, once);
    assert forall|e: Seq<char>, i: int|
        #![trigger w.events[e][i]]
        w.events.contains_key(e) && 0 <= i < w.events[e].len() implies w.events[e][i].id@
        < w.next_id by {
        if e == event && i < w.events[e].len() - 1 {
            assert(w.events[e][i] == v.events[e][i]);
        } else if e != event {
            assert(w.events[e][i] == v.events[e][i]);
        }
    }
    assert forall|e1: Seq<char>, i1: int, e2: Seq<char>, i2: int|
        #![trigger w.events[e1][i1], w.events[e2][i2]]
        w.events.contains_key(e1) && w.events.contains_key(e2) && 0 <= i1 < w.events[e1].len() && 0
            <= i2 < w.events[e2].len() && w.events[e1][i1].id == w.events[e2][i2].id implies e1
        == e2 && i1 == i2 by {
        let last1 = e1 == event && i1 == w.events[e1].len() - 1;
        let last2 = e2 == event && i2 == w.events[e2].len() - 1;
        if !last1 {
            assert(w.events[e1][i1] == v.events[e1][i1]);
        }
        if !last2 {
            assert(w.events[e2][i2] == v.events[e2][i2]);
        }
    }
}

/// Filtering one event's listeners keeps the bus valid.
proof fn lemma_filtered_entry_valid<C, H>(
    v: BusView<C, H>,
    w: BusView<C, H>,
    pred: spec_fn(Registration<C>) -> bool,
)
    requires
        v.valid(),
        w.next_id == v.next_id,
        forall|k: Seq<char>| #[trigger] w.events.contains_key(k) ==> v.events.contains_key(k),
        forall|k: Seq<char>|
            #[trigger] w.events.contains_key(k) ==> w.events[k] == v.events[k]
                || w.events[k] == v.events[k].filter(pred),
    ensures
        w.valid(),
{
    assert forall|e: Seq<char>, i: int|
        w.events.contains_key(e) && 0 <= i < w.events[e].len() implies exists|j: int|
        0 <= j < v.events[e].len() && v.events[e][j] == #[trigger] w.events[e][i] by {
        lemma_filter_from(v.events[e], pred);
        if w.events[e] != v.events[e] {
            assert(v.events[e].contains(v.events[e].filter(pred)[i]));
        } else {
            assert(v.events[e][i] == w.events[e][i]);
        }
    }
    assert forall|e: Seq<char>, i: int|
        #![trigger w.events[e][i]]
        w.events.contains_key(e) && 0 <= i < w.events[e].len() implies w.events[e][i].id@
        < w.next_id by {
        let j = choose|j: int| 0 <= j < v.events[e].len() && v.events[e][j] == w.events[e][i];
        assert(v.events[e][j].id@ < v.next_id);
    }
    assert forall|e1: Seq<char>, i1: int, e2: Seq<char>, i2: int|
        #![trigger w.events[e1][i1], w.events[e2][i2]]
        w.events.contains_key(e1) && w.events.contains_key(e2) && 0 <= i1 < w.events[e1].len() && 0
            <= i2 < w.events[e2].len() && w.events[e1][i1].id == w.events[e2][i2].id implies e1
        == e2 && i1 == i2 by {
        let j1 = choose|j: int| 0 <= j < v.events[e1].len() && v.events[e1][j] == w.events[e1][i1];
        let j2 = choose|j: int| 0 <= j < v.events[e2].len() && v.events[e2][j] == w.events[e2][i2];
        assert(v.events[e1][j1].id == v.events[e2][j2].id);
        if i1 != i2 {
            let key = |r: Registration<C>| r.id;
            let s = v.events[e1];
            assert forall|a: int, b: int|
                0 <= a < s.len() && 0 <= b < s.len() && a != b implies key(#[trigger] s[a]) != key(
                #[trigger] s[b],
            ) by {
                assert(v.events[e1][a] == s[a]);
                assert(v.events[e1][b] == s[b]);
            }
            lemma_filter_keeps_distinct(s, pred, key);
            if w.events[e1] != s {
                assert(key(w.events[e1][i1]) != key(w.events[e1][i2]));
            } else {
                assert(v.events[e1][i1] == w.events[e1][i1]);
                assert(v.events[e1][i2] == w.events[e1][i2]);
            }
        }
    }
}

/// Removing a listener by id keeps the bus valid.
pub proof fn lemma_without_listener_valid<C, H>(v: BusView<C, H>, id: ListenerId)
    requires
        v.valid(),
    ensures
        v.without_listener(id).valid(),
{
    lemma_filtered_entry_valid(v, v.without_listener(id), other_than::<C>(id));
}

/// Emitting an event keeps the bus valid.
pub proof fn lemma_after_emit_valid<C, H>(v: BusView<C, H>, event: Seq<char>)
    requires
        v.valid(),
    ensures
        v.after_emit(event).valid(),
{
    lemma_filtered_entry_valid(v, v.after_emit(event), persistent::<C>());
}

/// Dropping the entry of an event keeps the bus valid.
pub proof fn lemma_without_event_valid<C, H>(v: BusView<C, H>, event: Seq<char>)
    requires
        v.valid(),
    ensures
        v.without_event(event).valid(),
{
    lemma_filtered_entry_valid(v, v.without_event(event), persistent::<C>());
}

/// Dropping every entry keeps the bus valid.
pub proof fn lemma_without_events_valid<C, H>(v: BusView<C, H>)
    requires
        v.valid(),
    ensures
        v.without_events().valid(),
{
}

} // verus!
