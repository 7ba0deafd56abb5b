//! Batches of simple messages that go through the broker without being decoded one by one.

pub mod egress;
pub mod fast;
pub mod forward;
pub mod laws;
pub mod scan;
