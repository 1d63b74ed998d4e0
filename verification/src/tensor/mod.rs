//! What tensors are made of, whatever their numbers are.

pub mod arith;
pub mod dispatch;
pub mod dtype;
pub mod gated;
pub mod grad;
pub mod grad_mode;
pub mod half;
pub mod layout;
pub mod linalg;
pub mod number;
pub mod ops;
pub mod partial_loss;
pub mod reals;
pub mod rows;
pub mod shape;
pub mod softmax;
pub mod storage;
pub mod tensor;
