//! The IBM Quantum service: OpenQASM generation, devices and backends, jobs,
//! their payloads and their results.

pub mod generator;
pub mod job_struct;
pub mod device;
pub mod iam;
pub mod structs;
pub mod backend_manager;
pub mod job;
pub mod service;
pub mod connection;
pub mod job_builder;
