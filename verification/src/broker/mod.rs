//! The state that all clients share: routes, sessions, retained messages and Wills.

pub mod accepted;
pub mod answered;
pub mod connect;
pub mod delivered;
pub mod handshake;
pub mod installed;
pub mod kept;
pub mod lapsed;
pub mod laws;
pub mod lifecycle;
pub mod model;
pub mod packets;
pub mod process;
pub mod publish;
pub mod reach;
pub mod restart;
pub mod restore;
pub mod rights;
pub mod stale;
pub mod state;
pub mod subscribe;
pub mod turns;
pub mod wills;
