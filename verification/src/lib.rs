//! A publish/subscribe gateway core for keyed hash records.
//!
//! Clients subscribe to named hashes held in a backing key/value store. A
//! single-owner broker polls the store round-robin and pushes, to each
//! subscriber, either a full snapshot (first delivery) or a delta against
//! what that subscriber last saw.
//!
//! Everything here is pure state-transition logic with machine-checked
//! contracts; sockets, channels and the store connection live with the caller.

pub mod json;
pub mod server;
pub mod session;
pub mod shape;
pub mod string_map;
pub mod string_set;
