//! A minimal node for a simulated distributed-systems harness: it exchanges
//! typed request/reply messages as single lines of structured text, keeps a
//! grow-only counter as its local state, and correlates every reply with the
//! request that triggered it.
//!
//! The crate is split into three layers:
//! - [`protocol`]: the envelope and payload types and pure reply construction;
//! - [`codec`]: the line format, with an encoder and a decoder proved to be
//!   inverses of each other;
//! - [`node`]: the session state machine that dispatches decoded requests and
//!   produces replies.

pub mod codec;
pub mod node;
pub mod protocol;
