//! The peer-wire protocol: message framing, per-peer state, and the
//! strategy that decides what to send.

pub mod action;
pub mod msg;
pub mod peer_info;
pub mod peer;
pub mod strategy;
