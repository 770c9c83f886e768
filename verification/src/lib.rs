//! Waste-collection pickup calendar: feed normalization, an event store with
//! atomic future-window synchronization, subscription management, and the
//! hourly notification matcher.

pub mod clock;
pub mod date;
pub mod dispatch;
pub mod ical;
pub mod laws;
pub mod render;
pub mod store;
pub mod text;
pub mod waste;
