//! Readiness events, and a registry of tasks that wait for them.

pub mod events;
pub mod ring;
pub mod set;

pub use self::events::{IoEvents, Pollable};
pub use self::ring::{Inner, Ring, POLL_SET_CAPACITY};
pub use self::set::PollSet;
