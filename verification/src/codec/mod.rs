//! The MQTT 5 wire format.

pub mod decode;
pub mod encode;
pub mod layout;
pub mod packet;
pub mod properties;
pub mod property;
pub mod roundtrip;
pub mod wire;
