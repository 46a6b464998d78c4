//! A minimal two-stage native-code generator: a line-oriented textual
//! assembly front end that emits raw x86-64 machine bytes, and a minimal
//! static ELF64 linker that wraps those bytes into a runnable Linux image.
//!
//! The supported instruction set is deliberately tiny: 64-bit register
//! moves (immediate, register, and label-relative forms), `syscall`, and
//! raw data directives. Every stage is specified against a mathematical
//! model of the byte stream it produces.

pub mod assembler;
pub mod bytes;
pub mod elf;
pub mod err;
pub mod modrm;
pub mod parse;
pub mod rex;
pub mod x64;
