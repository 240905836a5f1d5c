//! Register lifting: variable recovery and expression simplification.

pub mod assign;
pub mod execution;
pub mod expr;
pub mod fold;
pub mod meaning;
pub mod naming;
pub mod passes;
pub mod pipeline;
pub mod program;
pub mod propagate;
pub mod reading;
pub mod render;
pub mod simplify;
pub mod statements;
pub mod stores;

pub use crate::lifting::expr::Expression;
pub use crate::lifting::render::{format_expression, FormatContext};
pub use crate::lifting::program::{LiftedProgram, VarType, Variable};
pub use crate::lifting::simplify::{is_boolean_expr, simplify_expression};
