//! The stages of a compiler for the drip language: from source text to assembly.

pub mod backend;
pub mod collections;
pub mod frontend;
pub mod index;
pub mod middle;
pub mod session;
pub mod style;
pub mod text;
