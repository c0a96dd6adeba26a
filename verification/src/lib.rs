//! An event bus: listeners registered by event name, one-shot and persistent,
//! removed by id, and handed back in registration order when their event is
//! emitted.

pub mod bus;
pub mod laws;
pub mod model;
pub mod order;
pub mod seq_facts;

pub use bus::{Emission, EventBus};
pub use model::{BusView, ListenerId, Registration};
