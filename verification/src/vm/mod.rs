//! The virtual machine's instruction set.

pub mod opcode;
pub mod executor;
