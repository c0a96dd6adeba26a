# event_bus

An event bus with persistent and one-shot listeners, verified with Verus.

- `src/model.rs`: the abstract state of a bus (`BusView`: the listeners of
  each event in registration order, the max-listeners setting, the next
  listener id, the error handler), the change each operation makes to it, and
  the proof that every change keeps listener ids unique and below the next id.
- `src/bus.rs`: `EventBus<C, H>`, the registry itself, generic in the callback
  type `C` and the error-handler type `H`. Its operations are proved against
  the model. `emit` hands back the callbacks to invoke, in order, with the
  error handler; it never calls them.
- `src/order.rs`: the byte-wise order of names (the order of `String`) and the
  sort that `event_names` uses.
- `src/laws.rs`: properties across operations (what `off` undoes, that a
  one-shot listener fires once, what an emission keeps).
- `src/seq_facts.rs`: facts about filtering sequences.
- `app/lib.rs`: the thread-safe, cloneable handle (`Arc<RwLock<..>>`) with the
  `&self` API, which invokes callbacks outside the lock and catches their
  panics when an error handler is set.
