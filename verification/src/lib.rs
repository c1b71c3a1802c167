//! Codecs, selection rules and protocol responders for Leios nodes.

pub mod behaviour;
pub mod block;
pub mod cbor;
pub mod consensus;
pub mod eb;
pub mod header;
pub mod laws;
pub mod partition;
pub mod peer;
pub mod types;
