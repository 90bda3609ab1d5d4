//! Authoritative state, wire messages and sync decisions of a LAN file
//! collaboration service: one host, many mirroring clients.

pub mod client;
pub mod fingerprint;
pub mod host;
pub mod manifest;
pub mod paths;
pub mod protocol;
pub mod snapshot;
pub mod state;
pub mod text;
pub mod watch;
