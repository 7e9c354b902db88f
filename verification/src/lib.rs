//! A digital-logic netlist simulator.
//!
//! A circuit is a [`ComponentStore`](component_store::ComponentStore): an
//! ordered, id-keyed collection of components (constants, wires, muxes,
//! arithmetic units, registers, register files, probes).  A
//! [`Simulator`](simulator::Simulator) compiles a store into a flat signal
//! state vector with a fixed evaluation schedule and steps it forward (and
//! backward) one clock cycle at a time.

pub mod common;
pub mod component_store;
pub mod components;
pub mod menu;
pub mod persist;
pub mod simulator;
