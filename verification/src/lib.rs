//! Presence tracking for wireless devices.
//!
//! Repeated sightings of a device are folded into presence intervals: spans
//! during which the device was observed at least once every `threshold`
//! seconds. Around the tracker stand the vendor lookup, the assembly of the
//! report records and the schedule of a scan run.

pub mod history;
pub mod lemmas;
pub mod model;
pub mod oui;
pub mod report;
pub mod schedule;
pub mod text;
pub mod tracker;
pub mod types;
