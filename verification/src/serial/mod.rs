//! The Tang9k serial protocol, version 1: frames, commands, stream framing and planning.

pub mod command;
pub mod dry_run;
pub mod error;
pub mod frame;
pub mod loopback;
pub mod opcode;
pub mod plan;
pub mod queue;
pub mod status;
pub mod stream;
