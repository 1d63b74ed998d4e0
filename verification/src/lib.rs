//! Verified core of the SPTorch framework.

pub mod autograd;
pub mod bytes;
pub mod data;
pub mod distributed;
pub mod hal;
pub mod live;
pub mod nn;
pub mod optim;
pub mod probe;
pub mod serial;
pub mod tensor;
pub mod text;
