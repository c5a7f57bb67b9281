//! Writing assembly.

pub mod registers;
pub mod x86_64;
