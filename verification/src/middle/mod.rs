//! From the syntax tree to low-level code.

pub mod hir;
pub mod lir;
pub mod optimization;
pub mod primitive;
pub mod resolve;
pub mod ty;
pub mod type_check;
