//! Peer-reputation scoring for a fixed group of peers.
//!
//! The heart of the crate is an asymmetric trust/distrust propagation
//! engine: a pre-trust-anchored power iteration spreads positive opinions
//! to a global trust score per peer, a single-hop pass spreads negative
//! opinions, and the difference of the two classifies third-party claims
//! ("snaps") as endorsed, reported, contested, or unverified.
//!
//! All quantities are fixed-point numbers: an `i64` holds a real value
//! scaled by [`fixed::SCALE`], so `SCALE` itself stands for `1.0`.

pub mod fixed;
pub mod utils;
pub mod validate;
pub mod engine;
pub mod classify;
pub mod pqueue;
pub mod trust_graph;
pub mod page_rank;
pub mod hubs_and_auth;
