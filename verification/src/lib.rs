//! Decompiler for PVM (Polkadot Virtual Machine) bytecode.

pub mod boundaries;
pub mod cfg;
pub mod dataflow;
pub mod decoder;
pub mod decompile;
pub mod dominators;
pub mod driver;
pub mod encoding;
pub mod functions;
pub mod graph;
pub mod instruction;
pub mod ir;
pub mod lifting;
pub mod llm_refine;
pub mod llvm_lift;
pub mod loops;
pub mod machine;
pub mod names;
pub mod ordered;
pub mod pvm;
pub mod reach;
pub mod scan;
pub mod structuring;
pub mod text;
pub mod varint;

pub use crate::driver::output::{
    decompile_program, decompile_to_pseudocode, DecompileOutput, FunctionInfo,
};
pub use crate::driver::setup::{
    prune_unreachable_trivial_functions, redundant_call_setup_pcs_for_function,
    redundant_halt_setup_pcs_for_function,
};
pub use crate::driver::suppress::{
    apply_heap_alloc_suppression, expr_uses_var, unsuppress_blocks_with_live_incoming_edges,
};
