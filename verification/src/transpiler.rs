//! Transpilation of circuits onto a backend: decomposition into `U3 + CX`,
//! placement of virtual qubits, routing with SWAPs, and QASM generation.

pub mod coupling_map;
pub mod gate_decomposer;
pub mod placement;
pub mod router;
pub mod transpiler;
pub mod unitary;
