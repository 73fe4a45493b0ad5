//! A stack-based virtual machine with an assembler, a disassembler and the
//! command logic of an interactive debugger, each verified against its
//! contract.
pub mod vm;
pub mod text;
pub mod scan;
pub mod assembler;
pub mod disasm;
pub mod debugger;
