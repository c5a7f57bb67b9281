//! The machines that code is generated for.

pub mod instructions;
pub mod meaning;
pub mod nasm;
pub mod x86_64_linux_gnu;
