//! A quantum circuit framework: circuit construction, transpilation onto a
//! backend's coupling map, OpenQASM reading and writing, and the data model of
//! the IBM Quantum service.

pub mod api;
pub mod circuit;
pub mod instruction;
pub mod simulator;
pub mod text;
pub mod transpiler;
pub mod visualizer;
