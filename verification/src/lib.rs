//! A message fan-out broker: merges messages arriving on any number of
//! independent inbound channels and broadcasts each message to every
//! outbound connection sink currently registered.
//!
//! The broker selects among inbound receivers with round-robin fairness,
//! prunes receivers whose queues are exhausted, and isolates per-sink
//! write failures so that one failing connection never affects delivery
//! to the others.

pub mod broker;
pub mod channel;
pub mod fairness;
pub mod message;
pub mod registry;
