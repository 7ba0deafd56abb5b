//! What a network connection decides: how much is read at a time, what is written next, and what
//! happens when a queue is full.

pub mod aliases;
pub mod bytes;
pub mod frames;
pub mod queues;
pub mod reading;
pub mod taking;
pub mod writing;
