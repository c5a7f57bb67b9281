//! Passes that simplify LIR.

use vstd::prelude::*;

pub mod meaning;
pub mod pre_ssa;

verus! {

/// How much work is put into making programs better.
#[derive(Debug, Clone, Copy, PartialEq, Eq, Structural)]
pub enum OptimizationLevel {
    Zero,
    One,
    Two,
    Three,
}

} // verus!
