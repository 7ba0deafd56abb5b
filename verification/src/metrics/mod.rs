//! What the broker tells of itself.

pub mod census;
pub mod http;
pub mod page;
