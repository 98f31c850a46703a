//! Reading OpenQASM 3 programs into circuit instructions, and the parts of a
//! statevector simulation that only move amplitudes.

pub mod parser;
pub mod read_back;
pub mod simulator;
