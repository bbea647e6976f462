//! A personal time-tracking log: an append-only, human-readable record of
//! timestamped activity entries, plus a completion engine that suggests
//! task labels from the recorded history.

pub mod date;
pub mod helper;
pub mod store;
pub mod text;
mod clock;
