//! Netlist simulation engine for digital-logic circuits.
//!
//! A [`circuit::Circuit`] owns a table of gates, a table of wires and two
//! Boolean level buffers indexed by wire key. Gates are joined by
//! `connect_wire` and separated by `disconnect`; `tick` advances every wire
//! by one unit delay. Every operation is total: on a circuit whose
//! references are damaged it returns an error and changes nothing.
//!
//! The contracts speak of the mathematical model in [`model`]. The
//! consistency rules of a circuit, and the proofs that every operation
//! keeps them, are in [`invariants`]; further theorems about connecting,
//! disconnecting and ticking are in [`laws`]. A part of a circuit can be
//! written down without keys ([`blueprint`]) and built again from that
//! ([`assemble`]); circuits with one description tick alike ([`alike`]).
//!
//! The three tables store their items in maps of the `slotmap` crate. What
//! is assumed of that crate is stated in the contracts of the private
//! functions at the head of [`gate_table`], [`wire_table`] and
//! [`level_table`].

pub mod keys;
pub mod seq_facts;
pub mod error;
pub mod pin_type;
pub mod pins;
pub mod gate_type;
pub mod wires;
pub mod gate;
pub mod gate_table;
pub mod wire_table;
pub mod level_table;
pub mod model;
pub mod frame;
pub mod invariants;
pub mod laws;
pub mod circuit;
pub mod blueprint;
pub mod assemble;
pub mod alike;
