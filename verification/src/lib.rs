//! Core of a distributed elevator control system: the per-node elevator
//! state machine, the master's hall-call queue and assignment algorithm,
//! the role election rules, and the wire codec for the broadcast envelope.
//!
//! Everything here is pure logic on plain values. Sockets, threads,
//! channels and the hardware driver live outside the library and feed it
//! events; the library hands back decisions.

pub mod fsm;
pub mod master;
pub mod net;
pub mod orders;
pub mod roles;
pub mod types;
pub mod wire;
