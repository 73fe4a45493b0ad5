use vstd::prelude::*;

use crate::text::{dec_digits, push_dec, push_signed_dec, signed_dec};

verus! {

/// The input/output services a program can request with the trap opcode.
#[derive(Debug, Clone, Copy, PartialEq, Eq, Structural)]
pub enum Trap {
    Putc,
    Getc,
    Puts,
    Putu,
    Puti,
}

/// The code byte that selects `t`.
pub open spec fn trap_code(t: Trap) -> u8 {
    match t {
        Trap::Putc => 0x01,
        Trap::Getc => 0x02,
        Trap::Puts => 0x03,
        Trap::Putu => 0x04,
        Trap::Puti => 0x05,
    }
}

/// The trap that code byte `b` selects, if any.
pub open spec fn trap_of_byte(b: u8) -> Option<Trap> {
    if b == 0x01 {
        Some(Trap::Putc)
    } else if b == 0x02 {
        Some(Trap::Getc)
    } else if b == 0x03 {
        Some(Trap::Puts)
    } else if b == 0x04 {
        Some(Trap::Putu)
    } else if b == 0x05 {
        Some(Trap::Puti)
    } else {
        None
    }
}

/// The assembler mnemonic of `t`.
pub open spec fn trap_name(t: Trap) -> Seq<char> {
    match t {
        Trap::Putc => "putc"@,
        Trap::Getc => "getc"@,
        Trap::Puts => "puts"@,
        Trap::Putu => "putu"@,
        Trap::Puti => "puti"@,
    }
}

impl Trap {
    /// Decodes a trap code byte.
    pub fn from_byte(byte: u8) -> (r: Option<Self>)
        ensures
            r == trap_of_byte(byte),
    {
        match byte {
            0x01 => Some(Trap::Putc),
            0x02 => Some(Trap::Getc),
            0x03 => Some(Trap::Puts),
            0x04 => Some(Trap::Putu),
            0x05 => Some(Trap::Puti),
            _ => None,
        }
    }

    /// The code byte of this trap.
    pub fn to_byte(self) -> (b: u8)
        ensures
            b == trap_code(self),
    {
        match self {
            Trap::Putc => 0x01,
            Trap::Getc => 0x02,
            Trap::Puts => 0x03,
            Trap::Putu => 0x04,
            Trap::Puti => 0x05,
        }
    }

    /// The assembler mnemonic of this trap.
    pub fn name(self) -> (s: &'static str)
        ensures
            s@ == trap_name(self),
    {
        match self {
            Trap::Putc => "putc",
            Trap::Getc => "getc",
            Trap::Puts => "puts",
            Trap::Putu => "putu",
            Trap::Puti => "puti",
        }
    }
}

/// Every trap is decoded from its own code, and a code decodes to a trap
/// only if that trap has that code.
pub proof fn lemma_trap_code_roundtrip(t: Trap, b: u8)
    ensures
        trap_of_byte(trap_code(t)) == Some(t),
        trap_of_byte(b) == Some(t) ==> trap_code(t) == b,
{
}

/// The bytes of `mem` from `i` up to the first zero byte or the end.
pub open spec fn c_string(mem: Seq<u8>, i: int) -> Seq<u8>
    decreases mem.len() - i,
{
    if i < 0 || i >= mem.len() || mem[i] == 0 {
        Seq::empty()
    } else {
        seq![mem[i]] + c_string(mem, i + 1)
    }
}

/// The characters of Latin-1 bytes.
pub open spec fn latin1(bytes: Seq<u8>) -> Seq<char> {
    bytes.map_values(|b: u8| b as char)
}

/// What trap `t` does to the value stack and the output, given memory:
/// the new stack, the characters it writes, and whether it waits for an
/// input byte, which `Getc` leaves to whoever supplies input.
pub open spec fn trap_effect(t: Trap, stack: Seq<i64>, mem: Seq<u8>) -> (Seq<i64>, Seq<char>, bool) {
    match t {
        Trap::Getc => (stack, Seq::empty(), true),
        _ => {
            if stack.len() == 0 {
                (stack, Seq::empty(), false)
            } else {
                let v = stack.last();
                let rest = stack.drop_last();
                let text = match t {
                    Trap::Putc => seq![(v as u8) as char],
                    Trap::Puts => latin1(c_string(mem, (v as usize) as int)),
                    Trap::Putu => dec_digits((v as u64) as nat),
                    _ => signed_dec(v as int),
                };
                (rest, text, false)
            }
        },
    }
}

/// Performs an output trap: pops its operand from `stack` and appends the
/// text it prints to `output`. For `Getc` nothing changes and the result is
/// `true`: the caller must push the byte that was read, or -1 at the end of
/// input.
pub fn execute_trap(trap: Trap, stack: &mut Vec<i64>, memory: &[u8], output: &mut Vec<char>) -> (wants_input: bool)
    ensures
        ({
            let (st, text, w) = trap_effect(trap, old(stack)@, memory@);
            &&& final(stack)@ == st
            &&& final(output)@ == old(output)@ + text
            &&& wants_input == w
        }),
{
    match trap {
        Trap::Getc => {
            return true;
        },
        _ => {},
    }
    let v = match stack.pop() {
        Some(v) => v,
        None => {
            return false;
        },
    };
    match trap {
        Trap::Putc => {
            output.push((v as u8) as char);
        },
        Trap::Puts => {
            let start = v as usize;
            let ghost out0 = output@;
            let mut i = start;
            while i < memory.len() && memory[i] != 0
                invariant
                    start <= i <= memory@.len() || (i == start && start > memory@.len()),
                    out0 + latin1(c_string(memory@, start as int)) == output@ + latin1(
                        c_string(memory@, i as int),
                    ),
                decreases memory@.len() - i,
            {
                let ghost before = output@;
                output.push(memory[i] as char);
                assert(latin1(c_string(memory@, i as int)) =~= seq![memory@[i as int] as char]
                    + latin1(c_string(memory@, i + 1)));
                i = i + 1;
                assert(before + latin1(c_string(memory@, i - 1)) =~= output@ + latin1(
                    c_string(memory@, i as int),
                ));
            }
            assert(latin1(c_string(memory@, i as int)) =~= Seq::<char>::empty());
            assert(output@ =~= out0 + latin1(c_string(memory@, start as int)));
        },
        Trap::Putu => {
            push_dec(output, v as u64);
        },
        _ => {
            push_signed_dec(output, v);
        },
    }
    false
}

} // verus!
