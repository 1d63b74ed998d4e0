//! Work over several devices.

pub mod average;
pub mod coordinator;
pub mod hardware_parallel;
pub mod ring;
pub mod wire;
