//! Which subscriptions a topic reaches.

pub mod laws;
pub mod table;
pub mod topic_router;
pub mod trie;
