//! LLVM IR text for PVM programs.
//!
//! The IR uses allocas for PVM registers, a global byte array for PVM memory, and keeps
//! the structure of the control flow graph.

pub mod body;
pub mod layout;
pub mod lines;
pub mod module;
pub mod ops;
pub mod run;

pub use crate::llvm_lift::body::emit_indirect_jump;
pub use crate::llvm_lift::module::lift_program;
