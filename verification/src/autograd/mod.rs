//! Gradients through graphs of operations, and checks of them.

pub mod check;
pub mod graph;
