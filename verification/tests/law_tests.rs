use event_bus::EventBus;

type Bus = EventBus<u32, u32>;

fn fired(bus: &mut Bus, event: &str) -> Vec<u32> {
    bus.emit(event).callbacks.iter().map(|c| **c).collect()
}

fn sizes(bus: &Bus) -> Vec<(String, usize)> {
    bus.entry_sizes()
}

#[test]
fn new_bus_is_empty() {
    let bus = Bus::new();
    assert_eq!(bus.max_listeners(), 10);
    assert!(!bus.ids_exhausted());
    assert!(bus.event_names().is_empty());
    assert!(sizes(&bus).is_empty());
    assert_eq!(bus.listener_count("anything"), 0);
}

#[test]
fn default_is_new() {
    let bus: Bus = Default::default();
    assert_eq!(bus.max_listeners(), 10);
    assert!(bus.event_names().is_empty());
}

#[test]
fn ids_are_distinct() {
    let mut bus = Bus::new();
    let a = bus.on("x", 1);
    let b = bus.once("x", 2);
    let c = bus.on("y", 3);
    assert_ne!(a, b);
    assert_ne!(b, c);
    assert_ne!(a, c);
}

#[test]
fn emission_follows_registration_order() {
    let mut bus = Bus::new();
    bus.on("e", 1);
    bus.once("e", 2);
    bus.on("e", 3);
    assert_eq!(fired(&mut bus, "e"), vec![1, 2, 3]);
    assert_eq!(fired(&mut bus, "e"), vec![1, 3]);
    assert_eq!(fired(&mut bus, "e"), vec![1, 3]);
}

#[test]
fn emit_count_is_listener_count() {
    let mut bus = Bus::new();
    bus.on("e", 1);
    bus.once("e", 2);
    let before = bus.listener_count("e");
    assert_eq!(bus.emit("e").callbacks.len(), before);
    assert_eq!(bus.listener_count("e"), 1);
}

#[test]
fn off_twice_finds_nothing_the_second_time() {
    let mut bus = Bus::new();
    let id = bus.on("e", 1);
    assert!(bus.off(id));
    assert!(!bus.off(id));
}

#[test]
fn off_of_unknown_id_changes_nothing() {
    let mut bus = Bus::new();
    let id = bus.on("e", 1);
    let mut other = Bus::new();
    other.on("f", 9);
    let foreign = other.on("f", 10);
    assert_ne!(id, foreign);
    assert!(!bus.off(foreign));
    assert_eq!(fired(&mut bus, "e"), vec![1]);
}

#[test]
fn off_undoes_on() {
    let mut bus = Bus::new();
    bus.on("e", 1);
    bus.on("f", 2);
    let names = bus.event_names();
    let id = bus.once("e", 3);
    assert_eq!(bus.listener_count("e"), 2);
    assert!(bus.off(id));
    assert_eq!(bus.listener_count("e"), 1);
    assert_eq!(bus.listener_count("f"), 1);
    assert_eq!(bus.event_names(), names);
    assert_eq!(fired(&mut bus, "e"), vec![1]);
}

#[test]
fn off_keeps_an_emptied_entry_until_emit() {
    let mut bus = Bus::new();
    let id = bus.on("e", 1);
    assert!(bus.off(id));
    assert_eq!(sizes(&bus), vec![("e".to_string(), 0)]);
    assert!(bus.event_names().is_empty());
    assert!(fired(&mut bus, "e").is_empty());
    assert!(sizes(&bus).is_empty());
}

#[test]
fn once_only_event_disappears_after_emit() {
    let mut bus = Bus::new();
    bus.once("e", 1);
    assert_eq!(bus.event_names(), vec!["e".to_string()]);
    assert_eq!(fired(&mut bus, "e"), vec![1]);
    assert!(bus.event_names().is_empty());
    assert!(sizes(&bus).is_empty());
    assert!(fired(&mut bus, "e").is_empty());
}

#[test]
fn emit_touches_only_its_event() {
    let mut bus = Bus::new();
    bus.once("e", 1);
    bus.once("f", 2);
    assert_eq!(fired(&mut bus, "e"), vec![1]);
    assert_eq!(bus.listener_count("f"), 1);
    assert_eq!(fired(&mut bus, "f"), vec![2]);
}

#[test]
fn clear_event_touches_only_its_event() {
    let mut bus = Bus::new();
    bus.on("e", 1);
    bus.on("f", 2);
    bus.clear_event("e");
    assert_eq!(bus.listener_count("e"), 0);
    assert_eq!(bus.listener_count("f"), 1);
    assert_eq!(bus.event_names(), vec!["f".to_string()]);
}

#[test]
fn remove_all_keeps_settings() {
    let mut bus = Bus::new();
    bus.set_max_listeners(3);
    bus.set_error_handler(5);
    bus.on("e", 1);
    bus.on("f", 2);
    bus.remove_all_listeners(None);
    assert!(bus.event_names().is_empty());
    assert_eq!(bus.max_listeners(), 3);
    assert_eq!(bus.emit("e").error_handler.map(|h| *h), Some(5));
}

#[test]
fn error_handler_is_handed_back() {
    let mut bus = Bus::new();
    assert!(bus.emit("e").error_handler.is_none());
    bus.set_error_handler(7);
    bus.on("e", 1);
    let emission = bus.emit("e");
    assert_eq!(emission.error_handler.map(|h| *h), Some(7));
    bus.set_error_handler(8);
    assert_eq!(bus.emit("e").error_handler.map(|h| *h), Some(8));
}

#[test]
fn event_names_sort_by_bytes() {
    let mut bus = Bus::new();
    for (i, name) in ["b", "\u{e9}", "a", "B", "ab", ""].iter().enumerate() {
        bus.on(name, i as u32);
    }
    assert_eq!(
        bus.event_names(),
        vec![
            "".to_string(),
            "B".to_string(),
            "a".to_string(),
            "ab".to_string(),
            "b".to_string(),
            "\u{e9}".to_string()
        ]
    );
}

#[test]
fn entry_sizes_are_sorted_counts() {
    let mut bus = Bus::new();
    bus.on("z", 1);
    bus.on("m", 2);
    bus.on("m", 3);
    let id = bus.on("a", 4);
    bus.off(id);
    assert_eq!(
        sizes(&bus),
        vec![("a".to_string(), 0), ("m".to_string(), 2), ("z".to_string(), 1)]
    );
}

#[test]
fn set_max_listeners_is_read_back() {
    let mut bus = Bus::new();
    bus.set_max_listeners(0);
    assert_eq!(bus.max_listeners(), 0);
    bus.set_max_listeners(usize::MAX);
    assert_eq!(bus.max_listeners(), usize::MAX);
}
