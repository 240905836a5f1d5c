//! Intermediate representations.

pub mod ssa;
