//! A verified core for Raft-style leader election.
//!
//! A cluster is a fixed set of nodes exchanging three message kinds over an
//! unreliable datagram transport: vote requests, vote grants, and empty
//! `AppendEntries` heartbeats. Each node runs a state machine
//! (Follower / Candidate / Leader) driven by inbound messages and by an
//! election timer with a randomized timeout.
//!
//! The crate provides:
//! - the node state machine with full functional contracts ([`node`]);
//! - the JSON wire codec for the three message kinds ([`codec`]);
//! - an abstract model of a whole cluster's election history, with a proof
//!   that at most one leader arises per term ([`safety`]).
//!
//! All I/O (sockets, timers, task scheduling) lives outside this crate; the
//! library works on plain values: a monotonic clock reading is a `u64`
//! millisecond count supplied by the caller.

pub mod codec;
pub mod msg;
pub mod node;
pub mod safety;
pub mod validation;
