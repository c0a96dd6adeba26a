//! What holds of the bus across its operations.

use vstd::prelude::*;

use crate::model::{
    lemma_with_listener_valid, other_than, persistent, BusView, ListenerId, Registration,
};
use crate::seq_facts::{lemma_filter_all, lemma_filter_one_out};

verus! {

/// The listeners of an event after a registration there.
#[verifier::spinoff_prover]
proof fn lemma_registered_listeners<C, H>(
    v: BusView<C, H>,
    event: Seq<char>,
    id: ListenerId,
    callback: C,
    once: bool,
)
    ensures
        v.with_listener(event, id, callback, once).listeners(event) == v.listeners(event).push(
            Registration { id, callback, once },
        ),
{
}

/// Registering a listener for an event adds exactly that listener, with the
/// given id, callback and one-shot flag, after the event's listeners; it
/// leaves every other event as it was, and moves the next id on by one.
#[verifier::spinoff_prover]
pub proof fn law_register_appends<C, H>(
    v: BusView<C, H>,
    event: Seq<char>,
    id: ListenerId,
    callback: C,
    once: bool,
)
    requires
        v.next_id < u64::MAX,
    ensures
        v.with_listener(event, id, callback, once).listeners(event) == v.listeners(event).push(
            Registration { id, callback, once },
        ),
        v.with_listener(event, id, callback, once).listener_count(event) == v.listener_count(event)
            + 1,
        v.with_listener(event, id, callback, once).fired(event) == v.fired(event).push(callback),
        forall|other: Seq<char>|
            other != event ==> #[trigger] v.with_listener(event, id, callback, once).listeners(other)
                == v.listeners(other),
        v.with_listener(event, id, callback, once).next_id == v.next_id + 1,
        v.with_listener(event, id, callback, once).max_listeners == v.max_listeners,
{
    let w = v.with_listener(event, id, callback, once);
    assert(w.fired(event) =~= v.fired(event).push(callback));
}

/// An emission keeps a listener of its event exactly when that listener is
/// not one-shot.
#[verifier::spinoff_prover]
pub proof fn law_emit_removes_exactly_one_shot<C, H>(v: BusView<C, H>, event: Seq<char>, i: int)
    requires
        v.valid(),
        0 <= i < v.listeners(event).len(),
    ensures
        v.after_emit(event).has_listener(v.listeners(event)[i].id) <==> !v.listeners(event)[i].once,
{
    let s = v.events[event];
    let r = s[i];
    let a = v.after_emit(event);
    let p = persistent::<C>();
    let kept = s.filter(p);
    if !r.once {
        s.lemma_filter_contains(p, i);
        let j = choose|j: int| 0 <= j < kept.len() && kept[j] == r;
        assert(a.events[event] == kept);
        assert(a.events[event][j].id == r.id);
    } else if a.has_listener(r.id) {
        let (e2, j) = choose|e2: Seq<char>, j: int|
            #![trigger a.events[e2][j]]
            a.events.contains_key(e2) && 0 <= j < a.events[e2].len() && a.events[e2][j].id == r.id;
        if e2 == event {
            assert(a.events[e2] == kept);
            s.lemma_filter_pred(p, j);
            assert(kept.contains(kept[j]));
            s.lemma_filter_contains_rev(p, kept[j]);
            let m = choose|m: int| 0 <= m < s.len() && s[m] == kept[j];
            assert(v.events[event][m].id == v.events[event][i].id);
        } else {
            assert(a.events[e2] == v.events[e2]);
            assert(v.events[e2][j].id == v.events[event][i].id);
        }
    }
}

/// A listener registered with `on` outlives an emission of its event: after
/// the emission it is still there, with its callback, for the next one.
#[verifier::spinoff_prover]
pub proof fn law_persistent_listener_survives_emit<C, H>(
    v: BusView<C, H>,
    event: Seq<char>,
    id: ListenerId,
    callback: C,
)
    requires
        v.valid(),
        v.next_id < u64::MAX,
        id@ == v.next_id,
    ensures
        v.with_listener(event, id, callback, false).after_emit(event).has_listener(id),
        v.with_listener(event, id, callback, false).after_emit(event).listeners(event).contains(
            Registration { id, callback, once: false },
        ),
{
    let w = v.with_listener(event, id, callback, false);
    lemma_registered_listeners(v, event, id, callback, false);
    lemma_with_listener_valid(v, event, id, callback, false);
    let n = v.listeners(event).len() as int;
    assert(w.listeners(event)[n] == Registration { id, callback, once: false });
    law_emit_removes_exactly_one_shot(w, event, n);
    let s = w.events[event];
    let p = persistent::<C>();
    s.lemma_filter_contains(p, n);
}

/// A fresh bus has no listeners, a max-listeners setting of 10, no error
/// handler, and hands out ids from 0.
#[verifier::spinoff_prover]
pub proof fn law_fresh_bus<C, H>()
    ensures
        BusView::<C, H>::initial().next_id == 0,
        BusView::<C, H>::initial().max_listeners == 10,
        BusView::<C, H>::initial().error_handler is None,
        forall|e: Seq<char>| #[trigger] BusView::<C, H>::initial().listener_count(e) == 0,
        BusView::<C, H>::initial().valid(),
{
}

/// Removing the listener registered under the next id leaves `k` with the
/// listeners it had before that registration.
#[verifier::spinoff_prover]
proof fn lemma_unregister_at<C, H>(
    v: BusView<C, H>,
    event: Seq<char>,
    id: ListenerId,
    callback: C,
    once: bool,
    k: Seq<char>,
)
    requires
        id@ == v.next_id,
        forall|i: int| 0 <= i < v.listeners(k).len() ==> (#[trigger] v.listeners(k)[i]).id@ < v.next_id,
    ensures
        v.with_listener(event, id, callback, once).without_listener(id).listeners(k)
            == v.listeners(k),
{
    let w = v.with_listener(event, id, callback, once);
    let pred = other_than::<C>(id);
    let s = v.listeners(k);
    assert forall|i: int| 0 <= i < s.len() implies pred(#[trigger] s[i]) by {
        assert(s[i].id@ < v.next_id);
    }
    lemma_filter_all(s, pred);
    if k == event {
        let t = w.events[k];
        assert(t == s.push(Registration { id, callback, once }));
        lemma_filter_one_out(t, pred, s.len() as int);
        assert(t.remove(s.len() as int) =~= s);
    }
}

/// Removing a listener by id undoes its registration: every event has the
/// listeners it had before.
#[verifier::spinoff_prover]
pub proof fn law_off_undoes_register<C, H>(
    v: BusView<C, H>,
    event: Seq<char>,
    id: ListenerId,
    callback: C,
    once: bool,
)
    requires
        v.valid(),
        id@ == v.next_id,
    ensures
        forall|k: Seq<char>| #[trigger]
            v.with_listener(event, id, callback, once).without_listener(id).listeners(k)
                == v.listeners(k),
{
    assert forall|k: Seq<char>| #[trigger]
        v.with_listener(event, id, callback, once).without_listener(id).listeners(k)
            == v.listeners(k) by {
        assert forall|i: int| 0 <= i < v.listeners(k).len() implies (
        #[trigger] v.listeners(k)[i]).id@ < v.next_id by {
            assert(v.events[k][i] == v.listeners(k)[i]);
        }
        lemma_unregister_at(v, event, id, callback, once, k);
    }
}

/// After a listener is removed by id, no listener has that id: removing it
/// a second time finds nothing.
#[verifier::spinoff_prover]
pub proof fn law_off_is_final<C, H>(v: BusView<C, H>, id: ListenerId)
    ensures
        !v.without_listener(id).has_listener(id),
{
    let u = v.without_listener(id);
    if u.has_listener(id) {
        let (e, i) = choose|e: Seq<char>, i: int|
            #![trigger u.events[e][i]]
            u.events.contains_key(e) && 0 <= i < u.events[e].len() && u.events[e][i].id == id;
        v.events[e].lemma_filter_pred(other_than::<C>(id), i);
    }
}

/// An emission invokes as many listeners as the event has, and hands back
/// their callbacks in registration order.
#[verifier::spinoff_prover]
pub proof fn law_emit_count<C, H>(v: BusView<C, H>, event: Seq<char>)
    ensures
        v.fired(event).len() == v.listener_count(event),
        forall|i: int|
            0 <= i < v.listener_count(event) ==> #[trigger] v.fired(event)[i] == v.listeners(
                event,
            )[i].callback,
{
}

/// An emission changes no other event.
#[verifier::spinoff_prover]
pub proof fn law_emit_touches_only_its_event<C, H>(
    v: BusView<C, H>,
    event: Seq<char>,
    other: Seq<char>,
)
    requires
        other != event,
    ensures
        v.after_emit(event).listeners(other) == v.listeners(other),
{
}

/// A one-shot listener fires at the next emission of its event, last of the
/// listeners there, and never again.
#[verifier::spinoff_prover]
pub proof fn law_once_fires_once<C, H>(
    v: BusView<C, H>,
    event: Seq<char>,
    id: ListenerId,
    callback: C,
)
    requires
        v.valid(),
        v.next_id < u64::MAX,
        id@ == v.next_id,
    ensures
        !v.with_listener(event, id, callback, true).after_emit(event).has_listener(id),
{
    let w = v.with_listener(event, id, callback, true);
    lemma_registered_listeners(v, event, id, callback, true);
    lemma_with_listener_valid(v, event, id, callback, true);
    let n = v.listeners(event).len() as int;
    assert(w.listeners(event)[n].id == id);
    law_emit_removes_exactly_one_shot(w, event, n);
}

/// An emission keeps the persistent listeners of its event, in order, and
/// drops the one-shot ones.
#[verifier::spinoff_prover]
pub proof fn law_emit_keeps_persistent<C, H>(v: BusView<C, H>, event: Seq<char>)
    ensures
        v.after_emit(event).listeners(event) == v.listeners(event).filter(persistent::<C>()),
        forall|i: int|
            0 <= i < v.after_emit(event).listener_count(event) ==> !(
            #[trigger] v.after_emit(event).listeners(event)[i]).once,
{
    let s = v.listeners(event);
    if !v.events.contains_key(event) {
        reveal(Seq::filter);
        assert(s.filter(persistent::<C>()) =~= s);
    }
    assert forall|i: int| 0 <= i < v.after_emit(event).listener_count(event) implies !(
    #[trigger] v.after_emit(event).listeners(event)[i]).once by {
        s.lemma_filter_pred(persistent::<C>(), i);
    }
}

/// Emitting an event that has no listener invokes nothing and changes no
/// event's listeners.
#[verifier::spinoff_prover]
pub proof fn law_emit_without_listeners<C, H>(v: BusView<C, H>, event: Seq<char>)
    requires
        !v.is_active(event),
    ensures
        v.fired(event).len() == 0,
        forall|k: Seq<char>| #[trigger] v.after_emit(event).listeners(k) == v.listeners(k),
{
    if v.events.contains_key(event) {
        reveal(Seq::filter);
        assert(v.events[event].filter(persistent::<C>()).len() == 0);
    }
    assert forall|k: Seq<char>| #[trigger] v.after_emit(event).listeners(k) == v.listeners(k) by {
        if k == event && v.events.contains_key(event) {
            assert(v.events[event] =~= Seq::empty());
        }
    }
}

/// Clearing an event leaves it without listeners and every other event as
/// it was.
#[verifier::spinoff_prover]
pub proof fn law_clear_event<C, H>(v: BusView<C, H>, event: Seq<char>)
    ensures
        v.without_event(event).listener_count(event) == 0,
        !v.without_event(event).is_active(event),
        forall|other: Seq<char>|
            other != event ==> #[trigger] v.without_event(event).listeners(other) == v.listeners(
                other,
            ),
{
}

/// Removing all listeners leaves every event without listeners, and keeps
/// the limit, the next id and the error handler.
#[verifier::spinoff_prover]
pub proof fn law_remove_all<C, H>(v: BusView<C, H>)
    ensures
        forall|k: Seq<char>| #[trigger] v.without_events().listener_count(k) == 0,
        v.without_events().next_id == v.next_id,
        v.without_events().max_listeners == v.max_listeners,
        v.without_events().error_handler == v.error_handler,
{
}

} // verus!
