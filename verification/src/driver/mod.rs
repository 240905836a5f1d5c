//! From bytes to pseudo-code.

pub mod output;
pub mod report;
pub mod setup;
pub mod suppress;
pub mod unknown;
