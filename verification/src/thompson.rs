//! Engines built on Thompson's construction: the syntax tree they read, the
//! bytecode it is lowered to, the interpreter that runs the bytecode, and
//! what the host computes for the engine that runs it as machine code.

pub mod ast;
pub mod bytecode;
pub mod pike_jit;
pub mod pike_vm;
pub mod syntax;
