//! Quantum circuits and unitary gates.

pub mod quantum_circuit;
pub mod unitary_gate;
