//! Devirtualization of code protected by a bytecode virtual machine: a symbolic
//! expression arena, the machine state it is evaluated over, the recovered control
//! flow graph, and the passes that turn it back into straight-line code.

pub mod args;
pub mod ir;
pub mod vm;
