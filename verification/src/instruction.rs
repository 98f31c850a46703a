//! Quantum instructions: the instruction enumeration, its mathematical model, and the
//! traits through which gates and sub-circuits are turned into instructions.

pub mod display;
pub mod i_struct;
pub mod q_logic;
pub mod to_gate;
