use vstd::prelude::*;

verus! {

/// The operations of the machine, each encoded as one byte.
#[derive(Debug, Clone, Copy, PartialEq, Eq, Structural)]
pub enum Opcode {
    Nop,
    Halt,
    Push,
    Pop,
    Dup,
    Swap,
    Load,
    Store,
    Add,
    Sub,
    Mul,
    Div,
    Mod,
    And,
    Or,
    Not,
    Eq,
    Lt,
    Gt,
    Jmp,
    Jz,
    Jnz,
    Call,
    Ret,
    Trap,
}

/// The byte that encodes `op`.
pub open spec fn opcode_byte(op: Opcode) -> u8 {
    match op {
        Opcode::Nop => 0x00,
        Opcode::Halt => 0x01,
        Opcode::Push => 0x02,
        Opcode::Pop => 0x03,
        Opcode::Dup => 0x04,
        Opcode::Swap => 0x05,
        Opcode::Load => 0x10,
        Opcode::Store => 0x11,
        Opcode::Add => 0x20,
        Opcode::Sub => 0x21,
        Opcode::Mul => 0x22,
        Opcode::Div => 0x23,
        Opcode::Mod => 0x24,
        Opcode::And => 0x25,
        Opcode::Or => 0x26,
        Opcode::Not => 0x27,
        Opcode::Eq => 0x30,
        Opcode::Lt => 0x31,
        Opcode::Gt => 0x32,
        Opcode::Jmp => 0x40,
        Opcode::Jz => 0x41,
        Opcode::Jnz => 0x42,
        Opcode::Call => 0x50,
        Opcode::Ret => 0x51,
        Opcode::Trap => 0x60,
    }
}

/// The opcode that `b` encodes, if any.
pub open spec fn opcode_of_byte(b: u8) -> Option<Opcode> {
    if b == 0x00 {
        Some(Opcode::Nop)
    } else if b == 0x01 {
        Some(Opcode::Halt)
    } else if b == 0x02 {
        Some(Opcode::Push)
    } else if b == 0x03 {
        Some(Opcode::Pop)
    } else if b == 0x04 {
        Some(Opcode::Dup)
    } else if b == 0x05 {
        Some(Opcode::Swap)
    } else if b == 0x10 {
        Some(Opcode::Load)
    } else if b == 0x11 {
        Some(Opcode::Store)
    } else if b == 0x20 {
        Some(Opcode::Add)
    } else if b == 0x21 {
        Some(Opcode::Sub)
    } else if b == 0x22 {
        Some(Opcode::Mul)
    } else if b == 0x23 {
        Some(Opcode::Div)
    } else if b == 0x24 {
        Some(Opcode::Mod)
    } else if b == 0x25 {
        Some(Opcode::And)
    } else if b == 0x26 {
        Some(Opcode::Or)
    } else if b == 0x27 {
        Some(Opcode::Not)
    } else if b == 0x30 {
        Some(Opcode::Eq)
    } else if b == 0x31 {
        Some(Opcode::Lt)
    } else if b == 0x32 {
        Some(Opcode::Gt)
    } else if b == 0x40 {
        Some(Opcode::Jmp)
    } else if b == 0x41 {
        Some(Opcode::Jz)
    } else if b == 0x42 {
        Some(Opcode::Jnz)
    } else if b == 0x50 {
        Some(Opcode::Call)
    } else if b == 0x51 {
        Some(Opcode::Ret)
    } else if b == 0x60 {
        Some(Opcode::Trap)
    } else {
        None
    }
}

/// The number of operand bytes that follow the opcode byte of `op`.
pub open spec fn operand_size(op: Opcode) -> nat {
    match op {
        Opcode::Push | Opcode::Jmp | Opcode::Jz | Opcode::Jnz | Opcode::Call => 8,
        Opcode::Trap => 1,
        _ => 0,
    }
}

/// The assembler mnemonic of `op`.
pub open spec fn opcode_name(op: Opcode) -> Seq<char> {
    match op {
        Opcode::Nop => "nop"@,
        Opcode::Halt => "halt"@,
        Opcode::Push => "push"@,
        Opcode::Pop => "pop"@,
        Opcode::Dup => "dup"@,
        Opcode::Swap => "swap"@,
        Opcode::Load => "load"@,
        Opcode::Store => "store"@,
        Opcode::Add => "add"@,
        Opcode::Sub => "sub"@,
        Opcode::Mul => "mul"@,
        Opcode::Div => "div"@,
        Opcode::Mod => "mod"@,
        Opcode::And => "and"@,
        Opcode::Or => "or"@,
        Opcode::Not => "not"@,
        Opcode::Eq => "eq"@,
        Opcode::Lt => "lt"@,
        Opcode::Gt => "gt"@,
        Opcode::Jmp => "jmp"@,
        Opcode::Jz => "jz"@,
        Opcode::Jnz => "jnz"@,
        Opcode::Call => "call"@,
        Opcode::Ret => "ret"@,
        Opcode::Trap => "trap"@,
    }
}

impl Opcode {
    /// Decodes an opcode byte.
    pub fn from_byte(b: u8) -> (r: Option<Opcode>)
        ensures
            r == opcode_of_byte(b),
    {
        match b {
            0x00 => Some(Opcode::Nop),
            0x01 => Some(Opcode::Halt),
            0x02 => Some(Opcode::Push),
            0x03 => Some(Opcode::Pop),
            0x04 => Some(Opcode::Dup),
            0x05 => Some(Opcode::Swap),
            0x10 => Some(Opcode::Load),
            0x11 => Some(Opcode::Store),
            0x20 => Some(Opcode::Add),
            0x21 => Some(Opcode::Sub),
            0x22 => Some(Opcode::Mul),
            0x23 => Some(Opcode::Div),
            0x24 => Some(Opcode::Mod),
            0x25 => Some(Opcode::And),
            0x26 => Some(Opcode::Or),
            0x27 => Some(Opcode::Not),
            0x30 => Some(Opcode::Eq),
            0x31 => Some(Opcode::Lt),
            0x32 => Some(Opcode::Gt),
            0x40 => Some(Opcode::Jmp),
            0x41 => Some(Opcode::Jz),
            0x42 => Some(Opcode::Jnz),
            0x50 => Some(Opcode::Call),
            0x51 => Some(Opcode::Ret),
            0x60 => Some(Opcode::Trap),
            _ => None,
        }
    }

    /// The byte that encodes this opcode.
    pub fn to_byte(self) -> (b: u8)
        ensures
            b == opcode_byte(self),
    {
        match self {
            Opcode::Nop => 0x00,
            Opcode::Halt => 0x01,
            Opcode::Push => 0x02,
            Opcode::Pop => 0x03,
            Opcode::Dup => 0x04,
            Opcode::Swap => 0x05,
            Opcode::Load => 0x10,
            Opcode::Store => 0x11,
            Opcode::Add => 0x20,
            Opcode::Sub => 0x21,
            Opcode::Mul => 0x22,
            Opcode::Div => 0x23,
            Opcode::Mod => 0x24,
            Opcode::And => 0x25,
            Opcode::Or => 0x26,
            Opcode::Not => 0x27,
            Opcode::Eq => 0x30,
            Opcode::Lt => 0x31,
            Opcode::Gt => 0x32,
            Opcode::Jmp => 0x40,
            Opcode::Jz => 0x41,
            Opcode::Jnz => 0x42,
            Opcode::Call => 0x50,
            Opcode::Ret => 0x51,
            Opcode::Trap => 0x60,
        }
    }

    /// The assembler mnemonic of this opcode.
    pub fn name(self) -> (s: &'static str)
        ensures
            s@ == opcode_name(self),
    {
        match self {
            Opcode::Nop => "nop",
            Opcode::Halt => "halt",
            Opcode::Push => "push",
            Opcode::Pop => "pop",
            Opcode::Dup => "dup",
            Opcode::Swap => "swap",
            Opcode::Load => "load",
            Opcode::Store => "store",
            Opcode::Add => "add",
            Opcode::Sub => "sub",
            Opcode::Mul => "mul",
            Opcode::Div => "div",
            Opcode::Mod => "mod",
            Opcode::And => "and",
            Opcode::Or => "or",
            Opcode::Not => "not",
            Opcode::Eq => "eq",
            Opcode::Lt => "lt",
            Opcode::Gt => "gt",
            Opcode::Jmp => "jmp",
            Opcode::Jz => "jz",
            Opcode::Jnz => "jnz",
            Opcode::Call => "call",
            Opcode::Ret => "ret",
            Opcode::Trap => "trap",
        }
    }
}

/// Every opcode is decoded from its own byte, and a byte decodes to an
/// opcode only if that opcode encodes to it.
pub proof fn lemma_opcode_byte_roundtrip(op: Opcode, b: u8)
    ensures
        opcode_of_byte(opcode_byte(op)) == Some(op),
        opcode_of_byte(b) == Some(op) ==> opcode_byte(op) == b,
{
}

} // verus!
