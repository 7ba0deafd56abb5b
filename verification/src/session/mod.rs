//! The state of a client's session and the quality-of-service exchanges in it.

pub mod client;
pub mod delivery;
pub mod inbound;
pub mod laws;
pub mod model;
pub mod outbound;
