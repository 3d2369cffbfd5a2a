//! A peer-to-peer message relay core: configuration, wire framing,
//! reconnect backoff, peer-session state machine, broadcast fan-out,
//! and the inbound client table. All I/O lives outside this crate;
//! the functions here are the decisions and data transformations of
//! the relay, each with a verified contract.

pub mod backoff;
pub mod broadcaster;
pub mod config;
pub mod frame;
pub mod node;
pub mod session;
