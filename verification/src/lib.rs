//! A software model of the Hack computer: gate-level hardware that grows
//! out of a single NAND primitive, a two-pass symbolic assembler, and a
//! stack-VM translator.

pub mod adder;
pub mod alu;
pub mod assembler;
pub mod blackbox;
pub mod cpu;
pub mod dest;
pub mod gate;
pub mod given;
pub mod inst;
pub mod machine;
pub mod ram;
pub mod text;
pub mod vm;
