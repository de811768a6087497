//! A single node of a harness-driven distributed-systems exercise: it is
//! initialized once, then answers `echo` requests, speaking line-delimited
//! JSON messages.
//!
//! The crate is split into the wire-level message model ([`msg`]), the
//! JSON codec for that model ([`codec`]), and the node's lifecycle state
//! machine ([`node`]).

pub mod codec;
pub mod msg;
pub mod node;
