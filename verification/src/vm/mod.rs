pub mod cpu;
pub mod instruction;
pub mod memory;
pub mod opcode;
pub mod stack;
pub mod trap;

pub use cpu::CPU;
pub use instruction::Instruction;
pub use memory::Memory;
pub use opcode::Opcode;
pub use stack::Stack;
pub use trap::Trap;
