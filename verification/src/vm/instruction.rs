use vstd::prelude::*;

verus! {

/// An instruction of the 32-bit register encoding: four bits of opcode, then
/// three four-bit register fields and a sixteen-bit immediate.
#[derive(Debug, Clone, Copy, PartialEq, Eq, Structural)]
pub enum Instruction {
    Load(usize, u32),
    Store(usize, usize),
    Add(usize, usize, usize),
    Sub(usize, usize, usize),
    Mul(usize, usize, usize),
    Div(usize, usize, usize),
    Jump(u32),
    JumpIfZero(u32),
    JumpIfNegative(u32),
    Push(usize),
    Pop(usize),
    Call(u32),
    Return,
    Halt,
}

/// The four-bit field of `word` that starts at bit `shift`.
pub open spec fn nibble(word: u32, shift: u32) -> u32 {
    (word >> shift) & 0xF
}

/// Whether the opcode field of `word` names an instruction (all but 13 and 14).
pub open spec fn is_valid_word(word: u32) -> bool {
    nibble(word, 28) != 13 && nibble(word, 28) != 14
}

/// The instruction that a valid `word` encodes.
pub open spec fn instruction_of_word(word: u32) -> Instruction {
    let r1 = nibble(word, 24) as usize;
    let r2 = nibble(word, 20) as usize;
    let r3 = nibble(word, 16) as usize;
    let imm = word & 0xFFFF;
    let op = nibble(word, 28);
    if op == 0 {
        Instruction::Load(r1, imm)
    } else if op == 1 {
        Instruction::Store(r1, imm as usize)
    } else if op == 2 {
        Instruction::Add(r1, r2, r3)
    } else if op == 3 {
        Instruction::Sub(r1, r2, r3)
    } else if op == 4 {
        Instruction::Mul(r1, r2, r3)
    } else if op == 5 {
        Instruction::Div(r1, r2, r3)
    } else if op == 6 {
        Instruction::Jump(imm)
    } else if op == 7 {
        Instruction::JumpIfZero(imm)
    } else if op == 8 {
        Instruction::JumpIfNegative(imm)
    } else if op == 9 {
        Instruction::Push(r1)
    } else if op == 10 {
        Instruction::Pop(r1)
    } else if op == 11 {
        Instruction::Call(imm)
    } else if op == 12 {
        Instruction::Return
    } else {
        Instruction::Halt
    }
}

impl Instruction {
    /// Decodes a 32-bit instruction word; the opcode field must not be 13 or 14.
    pub fn decode(value: u32) -> (i: Instruction)
        requires
            is_valid_word(value),
        ensures
            i == instruction_of_word(value),
    {
        let opcode = (value >> 28u32) & 0xF;
        let reg1 = ((value >> 24u32) & 0xF) as usize;
        let reg2 = ((value >> 20u32) & 0xF) as usize;
        let reg3 = ((value >> 16u32) & 0xF) as usize;
        let immediate = value & 0xFFFF;
        if opcode == 0 {
            Instruction::Load(reg1, immediate)
        } else if opcode == 1 {
            Instruction::Store(reg1, immediate as usize)
        } else if opcode == 2 {
            Instruction::Add(reg1, reg2, reg3)
        } else if opcode == 3 {
            Instruction::Sub(reg1, reg2, reg3)
        } else if opcode == 4 {
            Instruction::Mul(reg1, reg2, reg3)
        } else if opcode == 5 {
            Instruction::Div(reg1, reg2, reg3)
        } else if opcode == 6 {
            Instruction::Jump(immediate)
        } else if opcode == 7 {
            Instruction::JumpIfZero(immediate)
        } else if opcode == 8 {
            Instruction::JumpIfNegative(immediate)
        } else if opcode == 9 {
            Instruction::Push(reg1)
        } else if opcode == 10 {
            Instruction::Pop(reg1)
        } else if opcode == 11 {
            Instruction::Call(immediate)
        } else if opcode == 12 {
            Instruction::Return
        } else {
            Instruction::Halt
        }
    }
}

} // verus!
