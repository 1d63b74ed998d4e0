//! Training while serving: two sets of parameters, samples in small batches, a watch on the
//! loss, and the loop that ties them together.

pub mod double_buffer;
pub mod ewc;
pub mod incremental;
pub mod monitor;
pub mod runtime;
