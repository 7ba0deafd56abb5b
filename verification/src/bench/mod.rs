//! The benchmark client: its packets, what it reads, its arguments, and what it sends.

pub mod args;
pub mod frames;
pub mod plan;
pub mod reader;
pub mod worker;
