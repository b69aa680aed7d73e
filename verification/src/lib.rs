//! A BitTorrent peer client's verified core: the bencode value model and
//! its canonical codec, the metainfo projection, the tracker dialogue, the
//! piece store with SHA-1 verification, and the peer-wire protocol with
//! its framing, per-peer state, and scheduling policy.
//!
//! Sockets, files, clocks and threads stay outside; the library works on
//! plain bytes and values and states what it does in its contracts.

pub mod bencode;
pub mod bits;
pub mod convert;
pub mod file;
pub mod hashing;
pub mod metainfo;
pub mod text;
pub mod tracker;
pub mod wire;
