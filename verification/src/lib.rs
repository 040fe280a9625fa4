//! A small stack virtual machine, its assembler, and a Fenwick tree.
pub mod opcodes;
pub mod encoding;
pub mod vm;
pub mod data_structures;
pub mod text;
pub mod assembler;
pub mod assembled;
pub mod machine_laws;
