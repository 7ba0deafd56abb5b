//! The logic of an MQTT 5 broker: wire codec, topic routing, sessions, quality-of-service
//! state machines, access control and the decisions of a client connection.

pub mod access;
pub mod bench;
pub mod bridge;
pub mod broker;
pub mod certificates;
pub mod codec;
pub mod config;
pub mod connection;
pub mod crypto;
pub mod ingest;
pub mod latency;
pub mod matching;
pub mod message;
pub mod metrics;
pub mod policy;
pub mod registry;
pub mod router;
pub mod session;
pub mod slots;
pub mod startup;
pub mod text;
pub mod topic;
