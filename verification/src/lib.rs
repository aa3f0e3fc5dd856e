//! Block-request protocol handling for a peer-to-peer blockchain node.
//!
//! The crate serves requests for historical block data from remote peers and
//! keeps track of the requests issued to them. Every exchange occupies one
//! substream: a single length-prefixed protobuf request answered by a single
//! length-prefixed protobuf response.
//!
//! All decisions are taken here, on plain values; reading and writing
//! substreams, timers and the connection manager stay with the caller, which
//! feeds the behaviour with events and the current time and carries out the
//! actions it hands back.

pub mod octets;
pub mod types;
pub mod varint;
pub mod framing;
pub mod message;
pub mod scale;
pub mod wire;
pub mod schema;
pub mod chain;
pub mod responder;
pub mod behaviour;
pub mod laws;
pub mod weights;
