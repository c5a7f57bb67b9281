//! From low-level code to assembly.

use vstd::prelude::*;

pub mod assemblers;
pub mod edges;
pub mod parallel_copies;
pub mod ssa_destruction;
pub mod targets;

verus! {

/// How code is generated.
#[derive(Debug, Clone, Copy, PartialEq, Eq, Structural)]
pub struct CodegenOptions {
    /// Whether the remarks in the code are written out.
    pub emit_debug_info: bool,
}

} // verus!
