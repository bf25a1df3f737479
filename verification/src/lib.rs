//! Tracker library for a peer-to-peer content network.
//!
//! Peers identify content by opaque binary hashes and announce themselves to
//! the tracker, which maintains a bidirectional index of peers and hashes.
//! The library holds the address model, the peer database, the per-connection
//! request handler and the janitor's cleanup decisions; transport, clocks and
//! persistence live with the caller.

pub mod address;
pub mod args;
pub mod assoc;
pub mod base32;
pub mod handler;
pub mod janitor;
pub mod laws;
pub mod parse;
pub mod peer_db;
pub mod shared_state;
pub mod text;
