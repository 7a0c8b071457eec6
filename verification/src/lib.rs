//! Presence monitoring for an IPv4 subnet.
//!
//! The crate holds the decision logic of a LAN presence monitor: which
//! addresses of a subnet are probed, how the outcome of the probes of one
//! scan cycle becomes an ordered stream of cycle events, and how a consumer
//! of that stream reports the hosts that appeared or vanished since the
//! previous cycle. Everything here is pure computation on plain values; the
//! caller performs the probes, the waiting and the printing.

pub mod address;
pub mod event;
pub mod monitor;
pub mod probe;
pub mod range;
pub mod render;
pub mod scan;
pub mod schedule;
pub mod settings;
pub mod text;
