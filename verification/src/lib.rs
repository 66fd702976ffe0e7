//! Transformation module for blockchain transaction records.
//!
//! Decodes a serialized transaction into changes and events, derives one
//! routable segment per entry, and re-encodes the segment list. A small
//! arena keeps track of every buffer handed across the module boundary so
//! that all of them can be reclaimed at teardown.

pub mod arena;
pub mod json;
pub mod short_type;
pub mod transform;
