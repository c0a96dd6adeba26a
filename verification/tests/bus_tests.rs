use event_bus::{Emission, EventBus};
use std::sync::atomic::{AtomicUsize, Ordering};
use std::sync::Arc;

type Callback = Box<dyn Fn() + Send + Sync>;
type Handler = Box<dyn Fn(&str, String) + Send + Sync>;
type Bus = EventBus<Callback, Handler>;

/// Invokes what an emission hands back, in order, and returns how many
/// listeners were invoked.
fn run(emission: Emission<Callback, Handler>) -> usize {
    for cb in &emission.callbacks {
        (**cb)();
    }
    emission.callbacks.len()
}

fn counting(counter: &Arc<AtomicUsize>) -> Callback {
    let c = counter.clone();
    Box::new(move || {
        c.fetch_add(1, Ordering::SeqCst);
    })
}

#[test]
fn on_and_emit() {
    let mut bus = Bus::new();
    let counter = Arc::new(AtomicUsize::new(0));
    let c = counter.clone();
    bus.on(
        "test",
        Box::new(move || {
            c.fetch_add(1, Ordering::SeqCst);
        }),
    );
    run(bus.emit("test"));
    assert_eq!(counter.load(Ordering::SeqCst), 1);
}

#[test]
fn once_fires_once() {
    let mut bus = Bus::new();
    let counter = Arc::new(AtomicUsize::new(0));
    let c = counter.clone();
    bus.once(
        "test",
        Box::new(move || {
            c.fetch_add(1, Ordering::SeqCst);
        }),
    );
    run(bus.emit("test"));
    run(bus.emit("test"));
    assert_eq!(counter.load(Ordering::SeqCst), 1);
}

#[test]
fn off_removes() {
    let mut bus = Bus::new();
    let counter = Arc::new(AtomicUsize::new(0));
    let c = counter.clone();
    let id = bus.on(
        "test",
        Box::new(move || {
            c.fetch_add(1, Ordering::SeqCst);
        }),
    );
    assert!(bus.off(id));
    run(bus.emit("test"));
    assert_eq!(counter.load(Ordering::SeqCst), 0);
}

#[test]
fn emit_returns_count() {
    let mut bus = Bus::new();
    bus.on("test", Box::new(|| {}));
    bus.on("test", Box::new(|| {}));
    assert_eq!(run(bus.emit("test")), 2);
}

#[test]
fn remove_all_for_event() {
    let mut bus = Bus::new();
    let counter_a = Arc::new(AtomicUsize::new(0));
    let counter_b = Arc::new(AtomicUsize::new(0));

    bus.on("a", counting(&counter_a));
    bus.on("b", counting(&counter_b));

    bus.remove_all_listeners(Some("a"));
    run(bus.emit("a"));
    run(bus.emit("b"));

    assert_eq!(counter_a.load(Ordering::SeqCst), 0);
    assert_eq!(counter_b.load(Ordering::SeqCst), 1);
}

#[test]
fn remove_all_global() {
    let mut bus = Bus::new();
    let counter = Arc::new(AtomicUsize::new(0));

    bus.on("a", counting(&counter));
    bus.on("b", counting(&counter));

    bus.remove_all_listeners(None);
    run(bus.emit("a"));
    run(bus.emit("b"));

    assert_eq!(counter.load(Ordering::SeqCst), 0);
}

#[test]
fn listener_count() {
    let mut bus = Bus::new();
    let id1 = bus.on("test", Box::new(|| {}));
    bus.on("test", Box::new(|| {}));
    bus.on("test", Box::new(|| {}));
    assert_eq!(bus.listener_count("test"), 3);

    bus.off(id1);
    assert_eq!(bus.listener_count("test"), 2);
}

#[test]
fn event_names() {
    let mut bus = Bus::new();
    bus.on("b", Box::new(|| {}));
    bus.on("a", Box::new(|| {}));
    assert_eq!(bus.event_names(), vec!["a".to_string(), "b".to_string()]);
}

#[test]
fn max_listeners() {
    let mut bus = Bus::new();
    assert_eq!(bus.max_listeners(), 10);
    bus.set_max_listeners(50);
    assert_eq!(bus.max_listeners(), 50);
}

#[test]
fn emit_no_listeners() {
    let mut bus = Bus::new();
    assert_eq!(run(bus.emit("nonexistent")), 0);
}

#[test]
fn clear_event_removes_all_for_event() {
    let mut bus = Bus::new();
    let counter_a = Arc::new(AtomicUsize::new(0));
    let counter_b = Arc::new(AtomicUsize::new(0));

    bus.on("a", counting(&counter_a));
    bus.on("a", Box::new(move || {}));
    bus.on("b", counting(&counter_b));

    assert_eq!(bus.listener_count("a"), 2);
    bus.clear_event("a");
    assert_eq!(bus.listener_count("a"), 0);
    run(bus.emit("a"));
    run(bus.emit("b"));

    assert_eq!(counter_a.load(Ordering::SeqCst), 0);
    assert_eq!(counter_b.load(Ordering::SeqCst), 1);
}

#[test]
fn clear_event_nonexistent_is_noop() {
    let mut bus = Bus::new();
    bus.clear_event("nope"); // should not panic
}
