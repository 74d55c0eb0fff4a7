//! A front end and two back ends for the eight-symbol tape language: a
//! parser that filters, merges and resolves brackets, an interpreter, and a
//! code generator for 32-bit x86 assembly.
//!
//! `parser` turns text into `op::Op` instructions, `vm` runs them on a tape,
//! `compiler` writes them out as assembly, and `equivalence` proves that the
//! merging done by the parser does not change what a program writes.
pub mod op;
pub mod error;
pub mod parser;
pub mod vm;
pub mod compiler;
pub mod equivalence;
