//! A minimal peer-to-peer session layer.
//!
//! The crate tracks the peers of a session over an unreliable,
//! message-oriented transport: each known peer has an outbound sequence
//! counter and a record of the last sequence number received from it.
//! Heartbeat messages are built on a fixed cadence for every known peer,
//! and inbound messages update the sender's record.  The transport itself
//! (discovery, byte send, byte receive) is an external collaborator: the
//! functions here compute on plain values that a driver hands in and out.

pub mod codec;
pub mod common;
pub mod network;
pub mod table;
