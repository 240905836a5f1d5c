//! Structural analysis: recover high-level control structures from the control flow
//! graph, and write them as pseudo-code.

pub mod analysis;
pub mod claims;
pub mod coverage;
pub mod emit;
pub mod heads;
pub mod lines;
pub mod page;
pub mod pseudo;

pub use crate::dominators::DominatorTree;
pub use crate::structuring::analysis::{
    CondOp, Condition, FunctionSignature, Operand, StructuralAnalysis, Structure,
};
