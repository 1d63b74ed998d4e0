//! Learning rates, gradients and descent.

pub mod adamw;
pub mod grads;
pub mod schedule;
pub mod sgd;
