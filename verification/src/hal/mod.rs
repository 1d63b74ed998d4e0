//! How the framework sees hardware: devices, buffers, backends and topologies.

pub mod backend;
pub mod device;
pub mod kernels;
pub mod topology;
