use vstd::prelude::*;

use crate::text::{
    dec_digits, digit_char, hex4, push_hex4, push_signed_dec, push_str, signed_dec, string_from_chars,
};
use crate::assembler::{
    all_digits, ascii_lower_all, assemble_spec, concat_bytes, digit_value, digits_value, emit,
    join_lines, jump_op, lemma_join_lines_assemble, line_code, line_effect, mnemonic_of,
    parse_number, plain_op, trap_op, AsmOutcome, AsmState,
};
use crate::scan::{
    find_char, first_token, is_ws, lemma_find_char_bounds, lemma_skip_ws_shift, lemma_token_end_shift,
    lemma_token_end_word, second_token, skip_ws, token_end, trim, trim_back,
};
use crate::vm::memory::{byte_at, lemma_u64_le_roundtrip, u64_from_le, u64_to_le, window};
use crate::vm::opcode::opcode_byte;
use crate::vm::trap::trap_code;
use crate::vm::opcode::{opcode_name, opcode_of_byte, operand_size, Opcode};
use crate::vm::trap::{trap_name, trap_of_byte, Trap};

verus! {

/// The text of the instruction at `addr` of `data` and its size in bytes;
/// `None` past the end, at a byte that is no opcode, or when the operand
/// runs past the end.
#[verifier::opaque]
pub open spec fn disasm_at(data: Seq<u8>, addr: int) -> Option<(Seq<char>, nat)> {
    if addr < 0 || addr >= data.len() {
        None
    } else {
        match opcode_of_byte(data[addr]) {
            None => None,
            Some(op) => if addr + 1 + operand_size(op) > data.len() {
                None
            } else if operand_size(op) == 0 {
                Some((opcode_name(op), 1))
            } else if op == Opcode::Trap {
                let name = match trap_of_byte(data[addr + 1]) {
                    Some(t) => trap_name(t),
                    None => "trap?"@,
                };
                Some((name, 2))
            } else {
                let w = u64_from_le(window(data, addr + 1));
                let text = if op == Opcode::Push {
                    signed_dec(w as i64 as int)
                } else {
                    opcode_name(op) + " 0x"@ + hex4(w as nat)
                };
                Some((if op == Opcode::Push {
                    "push "@ + text
                } else {
                    text
                }, 9))
            },
        }
    }
}

/// The instructions of `data` from `pos` on, each with its address, up to
/// the end or the first place where decoding fails.
pub open spec fn listing(data: Seq<u8>, pos: int) -> Seq<(usize, Seq<char>)>
    decreases data.len() - pos,
{
    if pos < 0 || pos >= data.len() {
        Seq::empty()
    } else {
        match disasm_at(data, pos) {
            None => Seq::empty(),
            Some((text, size)) => if size >= 1 {
                proof {
                    lemma_disasm_size(data, pos);
                }
                seq![(pos as usize, text)] + listing(data, pos + size)
            } else {
                Seq::empty()
            },
        }
    }
}

/// Where a listing from `pos` stops.
pub open spec fn listing_end(data: Seq<u8>, pos: int) -> int
    decreases data.len() - pos,
{
    if pos < 0 || pos >= data.len() {
        pos
    } else {
        match disasm_at(data, pos) {
            None => pos,
            Some((text, size)) => if size >= 1 {
                proof {
                    lemma_disasm_size(data, pos);
                }
                listing_end(data, pos + size)
            } else {
                pos
            },
        }
    }
}

/// The text of a listing: one line "aaaa:  text" per instruction, the
/// address in zero-padded hexadecimal.
pub open spec fn listing_text(lines: Seq<(usize, Seq<char>)>) -> Seq<char>
    decreases lines.len(),
{
    if lines.len() == 0 {
        Seq::empty()
    } else {
        hex4(lines[0].0 as nat) + ":  "@ + lines[0].1 + "\n"@ + listing_text(lines.drop_first())
    }
}

/// The decoded instruction sizes agree with the opcodes: one byte, two for
/// a trap, nine with an eight-byte operand.
pub proof fn lemma_disasm_size(data: Seq<u8>, addr: int)
    ensures
        disasm_at(data, addr) matches Some((t, size)) ==> size == 1 + operand_size(
            opcode_of_byte(data[addr])->0,
        ) && addr + size <= data.len(),
{
    reveal(disasm_at);
}

/// A mnemonic without operand names the opcode whose byte the
/// disassembler shows under that same mnemonic.
pub proof fn lemma_plain_instruction_roundtrip(op: Opcode, rest: Seq<u8>)
    requires
        operand_size(op) == 0,
    ensures
        plain_op(opcode_name(op)) == Some(op),
        disasm_at(seq![opcode_byte(op)] + rest, 0) == Some((opcode_name(op), 1nat)),
{
    reveal(disasm_at);
    reveal_strlit("nop");
    reveal_strlit("halt");
    reveal_strlit("pop");
    reveal_strlit("dup");
    reveal_strlit("swap");
    reveal_strlit("load");
    reveal_strlit("store");
    reveal_strlit("add");
    reveal_strlit("sub");
    reveal_strlit("mul");
    reveal_strlit("div");
    reveal_strlit("mod");
    reveal_strlit("and");
    reveal_strlit("or");
    reveal_strlit("not");
    reveal_strlit("eq");
    reveal_strlit("lt");
    reveal_strlit("gt");
    reveal_strlit("ret");
    let b = seq![opcode_byte(op)] + rest;
    assert(b[0] == opcode_byte(op));
    match op {
        Opcode::Nop => {

        },
        Opcode::Halt => {
            assert("halt"@.len() != "nop"@.len());
        },
        Opcode::Pop => {
            assert("pop"@[0] != "nop"@[0]);
            assert("pop"@.len() != "halt"@.len());
        },
        Opcode::Dup => {
            assert("dup"@[0] != "nop"@[0]);
            assert("dup"@.len() != "halt"@.len());
            assert("dup"@[0] != "pop"@[0]);
        },
        Opcode::Swap => {
            assert("swap"@.len() != "nop"@.len());
            assert("swap"@[0] != "halt"@[0]);
            assert("swap"@.len() != "pop"@.len());
            assert("swap"@.len() != "dup"@.len());
        },
        Opcode::Load => {
            assert("load"@.len() != "nop"@.len());
            assert("load"@[0] != "halt"@[0]);
            assert("load"@.len() != "pop"@.len());
            assert("load"@.len() != "dup"@.len());
            assert("load"@[0] != "swap"@[0]);
        },
        Opcode::Store => {
            assert("store"@.len() != "nop"@.len());
            assert("store"@.len() != "halt"@.len());
            assert("store"@.len() != "pop"@.len());
            assert("store"@.len() != "dup"@.len());
            assert("store"@.len() != "swap"@.len());
            assert("store"@.len() != "load"@.len());
        },
        Opcode::Add => {
            assert("add"@[0] != "nop"@[0]);
            assert("add"@.len() != "halt"@.len());
            assert("add"@[0] != "pop"@[0]);
            assert("add"@[0] != "dup"@[0]);
            assert("add"@.len() != "swap"@.len());
            assert("add"@.len() != "load"@.len());
            assert("add"@.len() != "store"@.len());
        },
        Opcode::Sub => {
            assert("sub"@[0] != "nop"@[0]);
            assert("sub"@.len() != "halt"@.len());
            assert("sub"@[0] != "pop"@[0]);
            assert("sub"@[0] != "dup"@[0]);
            assert("sub"@.len() != "swap"@.len());
            assert("sub"@.len() != "load"@.len());
            assert("sub"@.len() != "store"@.len());
            assert("sub"@[0] != "add"@[0]);
        },
        Opcode::Mul => {
            assert("mul"@[0] != "nop"@[0]);
            assert("mul"@.len() != "halt"@.len());
            assert("mul"@[0] != "pop"@[0]);
            assert("mul"@[0] != "dup"@[0]);
            assert("mul"@.len() != "swap"@.len());
            assert("mul"@.len() != "load"@.len());
            assert("mul"@.len() != "store"@.len());
            assert("mul"@[0] != "add"@[0]);
            assert("mul"@[0] != "sub"@[0]);
        },
        Opcode::Div => {
            assert("div"@[0] != "nop"@[0]);
            assert("div"@.len() != "halt"@.len());
            assert("div"@[0] != "pop"@[0]);
            assert("div"@[1] != "dup"@[1]);
            assert("div"@.len() != "swap"@.len());
            assert("div"@.len() != "load"@.len());
            assert("div"@.len() != "store"@.len());
            assert("div"@[0] != "add"@[0]);
            assert("div"@[0] != "sub"@[0]);
            assert("div"@[0] != "mul"@[0]);
        },
        Opcode::Mod => {
            assert("mod"@[0] != "nop"@[0]);
            assert("mod"@.len() != "halt"@.len());
            assert("mod"@[0] != "pop"@[0]);
            assert("mod"@[0] != "dup"@[0]);
            assert("mod"@.len() != "swap"@.len());
            assert("mod"@.len() != "load"@.len());
            assert("mod"@.len() != "store"@.len());
            assert("mod"@[0] != "add"@[0]);
            assert("mod"@[0] != "sub"@[0]);
            assert("mod"@[1] != "mul"@[1]);
            assert("mod"@[0] != "div"@[0]);
        },
        Opcode::And => {
            assert("and"@[0] != "nop"@[0]);
            assert("and"@.len() != "halt"@.len());
            assert("and"@[0] != "pop"@[0]);
            assert("and"@[0] != "dup"@[0]);
            assert("and"@.len() != "swap"@.len());
            assert("and"@.len() != "load"@.len());
            assert("and"@.len() != "store"@.len());
            assert("and"@[1] != "add"@[1]);
            assert("and"@[0] != "sub"@[0]);
            assert("and"@[0] != "mul"@[0]);
            assert("and"@[0] != "div"@[0]);
            assert("and"@[0] != "mod"@[0]);
        },
        Opcode::Or => {
            assert("or"@.len() != "nop"@.len());
            assert("or"@.len() != "halt"@.len());
            assert("or"@.len() != "pop"@.len());
            assert("or"@.len() != "dup"@.len());
            assert("or"@.len() != "swap"@.len());
            assert("or"@.len() != "load"@.len());
            assert("or"@.len() != "store"@.len());
            assert("or"@.len() != "add"@.len());
            assert("or"@.len() != "sub"@.len());
            assert("or"@.len() != "mul"@.len());
            assert("or"@.len() != "div"@.len());
            assert("or"@.len() != "mod"@.len());
            assert("or"@.len() != "and"@.len());
        },
        Opcode::Not => {
            assert("not"@[2] != "nop"@[2]);
            assert("not"@.len() != "halt"@.len());
            assert("not"@[0] != "pop"@[0]);
            assert("not"@[0] != "dup"@[0]);
            assert("not"@.len() != "swap"@.len());
            assert("not"@.len() != "load"@.len());
            assert("not"@.len() != "store"@.len());
            assert("not"@[0] != "add"@[0]);
            assert("not"@[0] != "sub"@[0]);
            assert("not"@[0] != "mul"@[0]);
            assert("not"@[0] != "div"@[0]);
            assert("not"@[0] != "mod"@[0]);
            assert("not"@[0] != "and"@[0]);
            assert("not"@.len() != "or"@.len());
        },
        Opcode::Eq => {
            assert("eq"@.len() != "nop"@.len());
            assert("eq"@.len() != "halt"@.len());
            assert("eq"@.len() != "pop"@.len());
            assert("eq"@.len() != "dup"@.len());
            assert("eq"@.len() != "swap"@.len());
            assert("eq"@.len() != "load"@.len());
            assert("eq"@.len() != "store"@.len());
            assert("eq"@.len() != "add"@.len());
            assert("eq"@.len() != "sub"@.len());
            assert("eq"@.len() != "mul"@.len());
            assert("eq"@.len() != "div"@.len());
            assert("eq"@.len() != "mod"@.len());
            assert("eq"@.len() != "and"@.len());
            assert("eq"@[0] != "or"@[0]);
            assert("eq"@.len() != "not"@.len());
        },
        Opcode::Lt => {
            assert("lt"@.len() != "nop"@.len());
            assert("lt"@.len() != "halt"@.len());
            assert("lt"@.len() != "pop"@.len());
            assert("lt"@.len() != "dup"@.len());
            assert("lt"@.len() != "swap"@.len());
            assert("lt"@.len() != "load"@.len());
            assert("lt"@.len() != "store"@.len());
            assert("lt"@.len() != "add"@.len());
            assert("lt"@.len() != "sub"@.len());
            assert("lt"@.len() != "mul"@.len());
            assert("lt"@.len() != "div"@.len());
            assert("lt"@.len() != "mod"@.len());
            assert("lt"@.len() != "and"@.len());
            assert("lt"@[0] != "or"@[0]);
            assert("lt"@.len() != "not"@.len());
            assert("lt"@[0] != "eq"@[0]);
        },
        Opcode::Gt => {
            assert("gt"@.len() != "nop"@.len());
            assert("gt"@.len() != "halt"@.len());
            assert("gt"@.len() != "pop"@.len());
            assert("gt"@.len() != "dup"@.len());
            assert("gt"@.len() != "swap"@.len());
            assert("gt"@.len() != "load"@.len());
            assert("gt"@.len() != "store"@.len());
            assert("gt"@.len() != "add"@.len());
            assert("gt"@.len() != "sub"@.len());
            assert("gt"@.len() != "mul"@.len());
            assert("gt"@.len() != "div"@.len());
            assert("gt"@.len() != "mod"@.len());
            assert("gt"@.len() != "and"@.len());
            assert("gt"@[0] != "or"@[0]);
            assert("gt"@.len() != "not"@.len());
            assert("gt"@[0] != "eq"@[0]);
            assert("gt"@[0] != "lt"@[0]);
        },
        Opcode::Ret => {
            assert("ret"@[0] != "nop"@[0]);
            assert("ret"@.len() != "halt"@.len());
            assert("ret"@[0] != "pop"@[0]);
            assert("ret"@[0] != "dup"@[0]);
            assert("ret"@.len() != "swap"@.len());
            assert("ret"@.len() != "load"@.len());
            assert("ret"@.len() != "store"@.len());
            assert("ret"@[0] != "add"@[0]);
            assert("ret"@[0] != "sub"@[0]);
            assert("ret"@[0] != "mul"@[0]);
            assert("ret"@[0] != "div"@[0]);
            assert("ret"@[0] != "mod"@[0]);
            assert("ret"@[0] != "and"@[0]);
            assert("ret"@.len() != "or"@.len());
            assert("ret"@[0] != "not"@[0]);
            assert("ret"@.len() != "eq"@.len());
            assert("ret"@.len() != "lt"@.len());
            assert("ret"@.len() != "gt"@.len());
        },
        _ => {},
    }
}

/// The operand of an instruction reads back as the word that was written.
proof fn lemma_operand_window(first: u8, w: u64, rest: Seq<u8>)
    ensures
        window(seq![first] + u64_to_le(w) + rest, 1) == u64_to_le(w),
        (seq![first] + u64_to_le(w) + rest).len() >= 9,
{
    lemma_u64_le_roundtrip(w);
    assert(window(seq![first] + u64_to_le(w) + rest, 1) =~= u64_to_le(w));
}

/// A jump mnemonic names the opcode that the disassembler shows under the
/// same mnemonic, with the target that the assembler wrote.
pub proof fn lemma_jump_instruction_roundtrip(op: Opcode, target: u64, rest: Seq<u8>)
    requires
        op == Opcode::Jmp || op == Opcode::Jz || op == Opcode::Jnz || op == Opcode::Call,
    ensures
        jump_op(opcode_name(op)) == Some(op),
        disasm_at(seq![opcode_byte(op)] + u64_to_le(target) + rest, 0) == Some(
            (opcode_name(op) + " 0x"@ + hex4(target as nat), 9nat),
        ),
{
    reveal(disasm_at);
    reveal_strlit("jmp");
    reveal_strlit("jz");
    reveal_strlit("jnz");
    reveal_strlit("call");
    lemma_operand_window(opcode_byte(op), target, rest);
    lemma_u64_le_roundtrip(target);
    let b = seq![opcode_byte(op)] + u64_to_le(target) + rest;
    assert(b[0] == opcode_byte(op));
    match op {
        Opcode::Jmp => {

        },
        Opcode::Jz => {
            assert("jz"@.len() != "jmp"@.len());
        },
        Opcode::Jnz => {
            assert("jnz"@[1] != "jmp"@[1]);
            assert("jnz"@.len() != "jz"@.len());
        },
        Opcode::Call => {
            assert("call"@.len() != "jmp"@.len());
            assert("call"@.len() != "jz"@.len());
            assert("call"@.len() != "jnz"@.len());
        },
        _ => {},
    }
}

/// The disassembler shows a pushed value as the signed number that the
/// assembler's operand encodes.
pub proof fn lemma_push_instruction_roundtrip(v: u64, rest: Seq<u8>)
    ensures
        disasm_at(seq![opcode_byte(Opcode::Push)] + u64_to_le(v) + rest, 0) == Some(
            ("push "@ + signed_dec(v as i64 as int), 9nat),
        ),
{
    reveal(disasm_at);
    lemma_operand_window(opcode_byte(Opcode::Push), v, rest);
    lemma_u64_le_roundtrip(v);
    let b = seq![opcode_byte(Opcode::Push)] + u64_to_le(v) + rest;
    assert(b[0] == opcode_byte(Opcode::Push));
}

/// A trap mnemonic names the trap that the disassembler shows under the same
/// mnemonic.
pub proof fn lemma_trap_instruction_roundtrip(t: Trap, rest: Seq<u8>)
    ensures
        trap_op(trap_name(t)) == Some(t),
        disasm_at(seq![opcode_byte(Opcode::Trap), trap_code(t)] + rest, 0) == Some((trap_name(t), 2nat)),
{
    reveal(disasm_at);
    reveal_strlit("putc");
    reveal_strlit("getc");
    reveal_strlit("puts");
    reveal_strlit("putu");
    reveal_strlit("puti");
    let b = seq![opcode_byte(Opcode::Trap), trap_code(t)] + rest;
    assert(b[0] == opcode_byte(Opcode::Trap));
    assert(b[1] == trap_code(t));
    match t {
        Trap::Putc => {

        },
        Trap::Getc => {
            assert("getc"@[0] != "putc"@[0]);
        },
        Trap::Puts => {
            assert("puts"@[3] != "putc"@[3]);
            assert("puts"@[0] != "getc"@[0]);
        },
        Trap::Putu => {
            assert("putu"@[3] != "putc"@[3]);
            assert("putu"@[0] != "getc"@[0]);
            assert("putu"@[3] != "puts"@[3]);
        },
        Trap::Puti => {
            assert("puti"@[3] != "putc"@[3]);
            assert("puti"@[0] != "getc"@[0]);
            assert("puti"@[3] != "puts"@[3]);
            assert("puti"@[3] != "putu"@[3]);
        },
    }
}

/// Turns machine code back into assembly text.
pub struct Disassembler {
    data: Vec<u8>,
    pos: usize,
}

impl View for Disassembler {
    type V = (Seq<u8>, usize);

    /// The code and the position of the next instruction to decode.
    closed spec fn view(&self) -> (Seq<u8>, usize) {
        (self.data@, self.pos)
    }
}

impl Disassembler {
    /// A disassembler positioned at the start of `data`.
    pub fn new(data: Vec<u8>) -> (d: Self)
        ensures
            d@ == (data@, 0usize),
    {
        Disassembler { data, pos: 0 }
    }

    /// The code being disassembled.
    pub(crate) fn code(&self) -> (s: &[u8])
        ensures
            s@ == self@.0,
    {
        self.data.as_slice()
    }

    /// The instruction at `addr` as text, and its size in bytes.
    pub fn disassemble_at(&self, addr: usize) -> (r: Option<(String, usize)>)
        ensures
            match disasm_at(self@.0, addr as int) {
                None => r is None,
                Some((text, size)) => r matches Some((s, n)) && s@ == text && n == size,
            },
            self@.0.len() <= usize::MAX,
    {
        proof {
            reveal(disasm_at);
        }
        assert(self.data@.len() == self.data.len());
        let len = self.data.len();
        if addr >= len {
            return None;
        }
        let opcode = match Opcode::from_byte(self.data[addr]) {
            Some(op) => op,
            None => {
                return None;
            },
        };
        let mut text: Vec<char> = Vec::new();
        match opcode {
            Opcode::Push | Opcode::Jmp | Opcode::Jz | Opcode::Jnz | Opcode::Call => {
                let val = match self.read_u64_at(addr + 1) {
                    Some(v) => v,
                    None => {
                        return None;
                    },
                };
                if opcode == Opcode::Push {
                    push_str(&mut text, "push ");
                    push_signed_dec(&mut text, val as i64);
                } else {
                    push_str(&mut text, opcode.name());
                    push_str(&mut text, " 0x");
                    push_hex4(&mut text, val);
                }
                proof {
                    let w = u64_from_le(window(self@.0, addr + 1));
                    if opcode == Opcode::Push {
                        assert(text@ =~= "push "@ + signed_dec(w as i64 as int));
                    } else {
                        assert(text@ =~= opcode_name(opcode) + " 0x"@ + hex4(w as nat));
                    }
                }
                Some((string_from_chars(text.as_slice()), 9))
            },
            Opcode::Trap => {
                if addr + 1 >= len {
                    return None;
                }
                let code = self.data[addr + 1];
                match Trap::from_byte(code) {
                    Some(t) => push_str(&mut text, t.name()),
                    None => push_str(&mut text, "trap?"),
                }
                Some((string_from_chars(text.as_slice()), 2))
            },
            _ => {
                push_str(&mut text, opcode.name());
                Some((string_from_chars(text.as_slice()), 1))
            },
        }
    }

    /// Decodes the instruction at the current position and moves past it.
    fn decode_instruction(&mut self) -> (r: Option<String>)
        ensures
            match disasm_at(old(self)@.0, old(self)@.1 as int) {
                None => r is None && final(self)@ == old(self)@,
                Some((text, size)) => r matches Some(s) && s@ == text && final(self)@ == (
                    old(self)@.0,
                    (old(self)@.1 + size) as usize,
                ),
            },
    {
        let addr = self.pos;
        match self.disassemble_at(addr) {
            Some((instruction, size)) => {
                proof {
                    lemma_disasm_size(self@.0, addr as int);
                    let (t, n) = disasm_at(self@.0, addr as int)->0;
                    assert(n == size);
                    assert(addr + n <= self@.0.len());
                    assert(self.data@.len() == self.data.len());
                }
                self.pos = self.pos + size;
                Some(instruction)
            },
            None => None,
        }
    }

    /// The little-endian word at `addr`, if all its bytes are there.
    fn read_u64_at(&self, addr: usize) -> (r: Option<u64>)
        ensures
            r == (if addr + 8 > self@.0.len() {
                None
            } else {
                Some(u64_from_le(window(self@.0, addr as int)))
            }),
    {
        proof {
            reveal(u64_from_le);
        }
        let len = self.data.len();
        if addr > len || len - addr < 8 {
            return None;
        }
        let b = |k: usize| -> (v: u64)
            requires
                k < 8,
                addr + 8 <= self.data@.len(),
            ensures
                v == self.data@[addr + k] as u64,
            { self.data[addr + k] as u64 };
        Some(
            b(0) | (b(1) << 8u64) | (b(2) << 16u64) | (b(3) << 24u64) | (b(4) << 32u64) | (b(5)
                << 40u64) | (b(6) << 48u64) | (b(7) << 56u64),
        )
    }

    /// Decodes instructions from the current position to the end of the
    /// code, or up to the first that cannot be decoded; each comes with its
    /// address.
    pub fn disassemble(&mut self) -> (r: Vec<(usize, String)>)
        ensures
            r@.map_values(|e: (usize, String)| (e.0, e.1@)) == listing(old(self)@.0, old(self)@.1 as int),
            final(self)@ == (old(self)@.0, listing_end(old(self)@.0, old(self)@.1 as int) as usize),
    {
        let mut output: Vec<(usize, String)> = Vec::new();
        let ghost start = self.pos;
        while self.pos < self.data.len()
            invariant_except_break
                self@.0 == old(self)@.0,
                start == old(self)@.1,
                output@.map_values(|e: (usize, String)| (e.0, e.1@)) + listing(self@.0, self@.1 as int)
                    == listing(self@.0, start as int),
                listing_end(self@.0, self@.1 as int) == listing_end(self@.0, start as int),
            ensures
                self@.0 == old(self)@.0,
                output@.map_values(|e: (usize, String)| (e.0, e.1@)) == listing(self@.0, start as int),
                self@.1 as int == listing_end(self@.0, start as int),
            decreases self.data@.len() - self.pos,
        {
            let addr = self.pos;
            let ghost before = output@.map_values(|e: (usize, String)| (e.0, e.1@));
            match self.decode_instruction() {
                Some(line) => {
                    let ghost text = line@;
                    output.push((addr, line));
                    proof {
                        lemma_disasm_size(self@.0, addr as int);
                        assert(output@.map_values(|e: (usize, String)| (e.0, e.1@)) =~= before.push(
                            (addr, text),
                        ));
                        assert(listing(self@.0, addr as int) =~= seq![(addr, text)] + listing(
                            self@.0,
                            self@.1 as int,
                        ));
                    }
                },
                None => {
                    break;
                },
            }
        }
        output
    }
}

/// The listing of `data` as text, one instruction per line.
pub fn disassemble_program(data: &[u8]) -> (text: String)
    ensures
        text@ == listing_text(listing(data@, 0)),
{
    let mut disasm = Disassembler::new(vstd::slice::slice_to_vec(data));
    let instructions = disasm.disassemble();
    let ghost lines = instructions@.map_values(|e: (usize, String)| (e.0, e.1@));
    let mut out: Vec<char> = Vec::new();
    let mut i: usize = 0;
    assert(lines.skip(0) =~= lines);
    while i < instructions.len()
        invariant
            i <= instructions@.len(),
            lines == instructions@.map_values(|e: (usize, String)| (e.0, e.1@)),
            out@ + listing_text(lines.skip(i as int)) == listing_text(lines),
        decreases instructions@.len() - i,
    {
        let addr = instructions[i].0;
        let ghost before = out@;
        push_hex4(&mut out, addr as u64);
        push_str(&mut out, ":  ");
        push_str(&mut out, instructions[i].1.as_str());
        push_str(&mut out, "\n");
        proof {
            assert(lines.skip(i as int)[0] == lines[i as int]);
            assert(lines.skip(i as int).drop_first() =~= lines.skip(i + 1));
        }
        i = i + 1;
        assert(out@ + listing_text(lines.skip(i as int)) =~= before + listing_text(lines.skip(i - 1)));
    }
    assert(lines.skip(i as int) =~= Seq::<(usize, Seq<char>)>::empty());
    string_from_chars(out.as_slice())
}


/// Whether `s` is a nonempty word of small ASCII letters.
pub open spec fn lower_word(s: Seq<char>) -> bool {
    s.len() > 0 && forall|k: int| 0 <= k < s.len() ==> 97 <= #[trigger] (s[k] as u32) <= 122
}

/// The length, first and last character of a name: enough to tell apart
/// the mnemonics that the assembler compares.
spec fn name_key(s: Seq<char>) -> (nat, char, char) {
    (s.len(), s[0], s[s.len() - 1])
}

proof fn lemma_name_keys()
    ensures
        name_key("nop"@) == (3nat, 'n', 'p'),
        name_key("halt"@) == (4nat, 'h', 't'),
        name_key("push"@) == (4nat, 'p', 'h'),
        name_key("pop"@) == (3nat, 'p', 'p'),
        name_key("dup"@) == (3nat, 'd', 'p'),
        name_key("swap"@) == (4nat, 's', 'p'),
        name_key("load"@) == (4nat, 'l', 'd'),
        name_key("store"@) == (5nat, 's', 'e'),
        name_key("add"@) == (3nat, 'a', 'd'),
        name_key("sub"@) == (3nat, 's', 'b'),
        name_key("mul"@) == (3nat, 'm', 'l'),
        name_key("div"@) == (3nat, 'd', 'v'),
        name_key("mod"@) == (3nat, 'm', 'd'),
        name_key("and"@) == (3nat, 'a', 'd'),
        name_key("or"@) == (2nat, 'o', 'r'),
        name_key("not"@) == (3nat, 'n', 't'),
        name_key("eq"@) == (2nat, 'e', 'q'),
        name_key("lt"@) == (2nat, 'l', 't'),
        name_key("gt"@) == (2nat, 'g', 't'),
        name_key("ret"@) == (3nat, 'r', 't'),
        name_key("jmp"@) == (3nat, 'j', 'p'),
        name_key("jz"@) == (2nat, 'j', 'z'),
        name_key("jnz"@) == (3nat, 'j', 'z'),
        name_key("call"@) == (4nat, 'c', 'l'),
        name_key("putc"@) == (4nat, 'p', 'c'),
        name_key("getc"@) == (4nat, 'g', 'c'),
        name_key("puts"@) == (4nat, 'p', 's'),
        name_key("putu"@) == (4nat, 'p', 'u'),
        name_key("puti"@) == (4nat, 'p', 'i'),
        name_key("db"@) == (2nat, 'd', 'b'),
{
    reveal_strlit("nop");
    reveal_strlit("halt");
    reveal_strlit("push");
    reveal_strlit("pop");
    reveal_strlit("dup");
    reveal_strlit("swap");
    reveal_strlit("load");
    reveal_strlit("store");
    reveal_strlit("add");
    reveal_strlit("sub");
    reveal_strlit("mul");
    reveal_strlit("div");
    reveal_strlit("mod");
    reveal_strlit("and");
    reveal_strlit("or");
    reveal_strlit("not");
    reveal_strlit("eq");
    reveal_strlit("lt");
    reveal_strlit("gt");
    reveal_strlit("ret");
    reveal_strlit("jmp");
    reveal_strlit("jz");
    reveal_strlit("jnz");
    reveal_strlit("call");
    reveal_strlit("putc");
    reveal_strlit("getc");
    reveal_strlit("puts");
    reveal_strlit("putu");
    reveal_strlit("puti");
    reveal_strlit("db");
}

proof fn lemma_names_lower(op: Opcode)
    requires
        operand_size(op) == 0,
    ensures
        lower_word(opcode_name(op)),
        lower_word("push"@),
        plain_op("push"@) is None,
{
    lemma_name_keys();
    reveal_strlit("nop");
    reveal_strlit("halt");
    reveal_strlit("push");
    reveal_strlit("pop");
    reveal_strlit("dup");
    reveal_strlit("swap");
    reveal_strlit("load");
    reveal_strlit("store");
    reveal_strlit("add");
    reveal_strlit("sub");
    reveal_strlit("mul");
    reveal_strlit("div");
    reveal_strlit("mod");
    reveal_strlit("and");
    reveal_strlit("or");
    reveal_strlit("not");
    reveal_strlit("eq");
    reveal_strlit("lt");
    reveal_strlit("gt");
    reveal_strlit("ret");
}

proof fn lemma_trap_names_lower(t: Trap)
    ensures
        lower_word(trap_name(t)),
        plain_op(trap_name(t)) is None,
        jump_op(trap_name(t)) is None,
        trap_name(t) != "push"@,
        trap_name(t) != "db"@,
{
    lemma_name_keys();
    reveal_strlit("putc");
    reveal_strlit("getc");
    reveal_strlit("puts");
    reveal_strlit("putu");
    reveal_strlit("puti");
    reveal_strlit("nop");
    reveal_strlit("halt");
    reveal_strlit("push");
    reveal_strlit("pop");
    reveal_strlit("dup");
    reveal_strlit("swap");
    reveal_strlit("load");
    reveal_strlit("store");
    reveal_strlit("add");
    reveal_strlit("sub");
    reveal_strlit("mul");
    reveal_strlit("div");
    reveal_strlit("mod");
    reveal_strlit("and");
    reveal_strlit("or");
    reveal_strlit("not");
    reveal_strlit("eq");
    reveal_strlit("lt");
    reveal_strlit("gt");
    reveal_strlit("ret");
    reveal_strlit("jmp");
    reveal_strlit("jz");
    reveal_strlit("jnz");
    reveal_strlit("call");
    reveal_strlit("db");
}

/// A word of small letters is a whole line's code, its first token and
/// mnemonic, with no second token.
proof fn lemma_word_line(w: Seq<char>)
    requires
        lower_word(w),
    ensures
        line_code(w) == w,
        first_token(w) == Some(w),
        second_token(w) == None::<Seq<char>>,
        mnemonic_of(w) == w,
        forall|k: int| 0 <= k < w.len() ==> w[k] != '\n',
{
    assert forall|k: int| 0 <= k < w.len() implies w[k] != ';' && w[k] != '\n' && !is_ws(
        #[trigger] w[k],
    ) && !(65 <= (w[k] as u32) <= 90) && (w[k] as u32) < 128 by {
        assert(97 <= w[k] as u32 <= 122);
    }
    lemma_find_char_bounds(w, ';', 0);
    assert(w.take(w.len() as int) =~= w);
    assert(w.subrange(0, w.len() as int) =~= w);
    assert(w + Seq::<char>::empty() =~= w);
    lemma_token_end_word(w, Seq::<char>::empty(), 0);
    assert(ascii_lower_all(w) =~= w);
}

/// The decimal digits of `n` are digits, and read back as `n`.
proof fn lemma_dec_digits(n: nat)
    ensures
        dec_digits(n).len() > 0,
        forall|k: int| 0 <= k < dec_digits(n).len() ==> 48 <= (#[trigger] dec_digits(n)[k] as u32) <= 57,
        all_digits(dec_digits(n), 10),
        digits_value(dec_digits(n), 10) == n,
    decreases n,
{
    let s = dec_digits(n);
    if n < 10 {
        assert(digit_char(n) as u32 == 48 + n);
        assert(s.drop_last() =~= Seq::<char>::empty());
        assert(digit_value(s[0]) == Some(n));
        assert(digits_value(Seq::<char>::empty(), 10) == 0);
        assert(digits_value(s, 10) == digits_value(s.drop_last(), 10) * 10 + n);
    } else {
        lemma_dec_digits(n / 10);
        let d = n % 10;
        assert(digit_char(d) as u32 == 48 + d);
        assert(digit_value(digit_char(d)) == Some(d));
        assert(s.drop_last() =~= dec_digits(n / 10));
        assert(s.last() == digit_char(d));
        assert(digits_value(s, 10) == digits_value(s.drop_last(), 10) * 10 + d);
        assert(digits_value(s, 10) == (n / 10) * 10 + d);
        assert forall|k: int| 0 <= k < s.len() implies 48 <= (#[trigger] s[k] as u32) <= 57 by {
            if k < s.len() - 1 {
                assert(s[k] == dec_digits(n / 10)[k]);
            }
        }
        assert forall|k: int| 0 <= k < s.len() implies (#[trigger] digit_value(s[k])) is Some
            && digit_value(s[k])->0 < 10 by {
            if k < s.len() - 1 {
                assert(s[k] == dec_digits(n / 10)[k]);
            }
        }
    }
}

/// The characters of a signed decimal: a leading '-' (on a negative value
/// only) and digits, at least one.
proof fn lemma_signed_dec_chars(v: int)
    ensures
        signed_dec(v).len() > 0,
        forall|k: int|
            0 <= k < signed_dec(v).len() ==> (#[trigger] signed_dec(v)[k] == '-' && k == 0 && v < 0)
                || 48 <= (signed_dec(v)[k] as u32) <= 57,
        48 <= (signed_dec(v).last() as u32) <= 57,
{
    if v < 0 {
        lemma_dec_digits((-v) as nat);
        let s = signed_dec(v);
        assert forall|k: int| 0 < k < s.len() implies s[k] == dec_digits((-v) as nat)[k - 1] by {}
    } else {
        lemma_dec_digits(v as nat);
    }
}

/// `push` with a number in decimal assembles to the push opcode and the
/// number's eight bytes.
proof fn lemma_push_line(st: AsmState, v: i64, n: nat)
    ensures
        line_effect(st, "push "@ + signed_dec(v as int), n) == AsmOutcome::Next(
            emit(st, seq![opcode_byte(Opcode::Push)] + u64_to_le(v as u64)),
        ),
        forall|k: int| 0 <= k < ("push "@ + signed_dec(v as int)).len() ==> #[trigger] (
        "push "@ + signed_dec(v as int))[k] != '\n',
{
    reveal_strlit("push ");
    reveal_strlit("push");
    lemma_names_lower(Opcode::Nop);
    lemma_word_line("push"@);
    let sd = signed_dec(v as int);
    let p = "push "@;
    let t = p + sd;
    lemma_signed_dec_chars(v as int);
    assert(p =~= "push"@ + seq![' ']);
    assert forall|k: int| 0 <= k < t.len() implies #[trigger] t[k] != ';' && t[k] != '\n' && (k != 4
        ==> !is_ws(t[k])) by {
        if k >= 5 {
            assert(t[k] == sd[k - 5]);
        } else {
            assert(t[k] == p[k]);
        }
    }
    lemma_find_char_bounds(t, ';', 0);
    assert(t.take(t.len() as int) =~= t);
    assert(t[t.len() - 1] == sd.last());
    assert(t.subrange(0, t.len() as int) =~= t);
    assert(line_code(t) == t);
    assert(t =~= "push"@ + (seq![' '] + sd));
    assert forall|k: int| 0 <= k < "push"@.len() implies !is_ws(#[trigger] "push"@[k]) by {
        assert("push"@[k] == t[k]);
    }
    lemma_token_end_word("push"@, seq![' '] + sd, 0);
    assert(t.subrange(0, 4) =~= "push"@);
    assert(first_token(t) == Some("push"@));
    assert forall|k: int| 0 <= k < sd.len() implies !is_ws(#[trigger] sd[k]) by {}
    lemma_skip_ws_shift(p, sd, 0);
    lemma_token_end_shift(p, sd, 0);
    lemma_token_end_word(sd, Seq::<char>::empty(), 0);
    assert(sd + Seq::<char>::empty() =~= sd);
    assert(is_ws(t[4]));
    assert(skip_ws(t, 4) == skip_ws(t, 5));
    assert(t.subrange(5, t.len() as int) =~= sd);
    assert(second_token(t) == Some(sd));
    lemma_parse_signed(v, n);
}

/// A signed decimal reads back, as a number operand, as its value.
proof fn lemma_parse_signed(v: i64, n: nat)
    ensures
        parse_number(signed_dec(v as int), n) == Ok::<u64, Seq<char>>(v as u64),
{
    let sd = signed_dec(v as int);
    lemma_signed_dec_chars(v as int);
    assert forall|k: int| 0 <= k < sd.len() implies !is_ws(#[trigger] sd[k]) by {}
    assert(sd.subrange(0, sd.len() as int) =~= sd);
    assert(trim(sd) == sd);
    if sd.len() >= 2 {
        assert(48 <= (sd[1] as u32) <= 57);
    }
    if v < 0 {
        lemma_dec_digits((-v) as nat);
        assert(sd.drop_first() =~= dec_digits((-v) as nat));
        assert((v as u64) as int == v as int + 0x1_0000_0000_0000_0000) by (bit_vector)
            requires
                v < 0,
        ;
        let w = ((-v) as nat) as u64;
        assert(w as int == -(v as int));
        assert(0u64.wrapping_sub(w) == v as u64);
    } else {
        lemma_dec_digits(v as nat);
        assert(sd[0] != '+');
    }
}

/// An instruction that the assembler takes without a label and that the
/// disassembler writes back as it was written: one without an operand,
/// `push` with a number, or a trap.
pub enum SourceLine {
    Plain(Opcode),
    Push(i64),
    Trap(Trap),
}

/// Whether `l` is such an instruction (a `Plain` one takes no operand).
pub open spec fn source_line_ok(l: SourceLine) -> bool {
    match l {
        SourceLine::Plain(op) => operand_size(op) == 0,
        _ => true,
    }
}

/// The text of `l`: the mnemonic, and for `push` a space and the number in
/// decimal.
pub open spec fn source_text(l: SourceLine) -> Seq<char> {
    match l {
        SourceLine::Plain(op) => opcode_name(op),
        SourceLine::Push(v) => "push "@ + signed_dec(v as int),
        SourceLine::Trap(t) => trap_name(t),
    }
}

/// The machine code of `l`.
pub open spec fn source_bytes(l: SourceLine) -> Seq<u8> {
    match l {
        SourceLine::Plain(op) => seq![opcode_byte(op)],
        SourceLine::Push(v) => seq![opcode_byte(Opcode::Push)] + u64_to_le(v as u64),
        SourceLine::Trap(t) => seq![opcode_byte(Opcode::Trap), trap_code(t)],
    }
}

/// The listing that the lines `ls` give from address `pos` on: each text
/// at its running offset.
pub open spec fn listing_of(ls: Seq<SourceLine>, pos: int) -> Seq<(usize, Seq<char>)>
    decreases ls.len(),
{
    if ls.len() == 0 {
        Seq::empty()
    } else {
        seq![(pos as usize, source_text(ls[0]))] + listing_of(
            ls.drop_first(),
            pos + source_bytes(ls[0]).len(),
        )
    }
}

proof fn lemma_source_line_assembles(st: AsmState, l: SourceLine, n: nat)
    requires
        source_line_ok(l),
    ensures
        line_effect(st, source_text(l), n) == AsmOutcome::Next(emit(st, source_bytes(l))),
        forall|k: int| 0 <= k < source_text(l).len() ==> #[trigger] source_text(l)[k] != '\n',
{
    match l {
        SourceLine::Plain(op) => {
            lemma_names_lower(op);
            lemma_word_line(opcode_name(op));
            lemma_plain_instruction_roundtrip(op, Seq::<u8>::empty());
        },
        SourceLine::Push(v) => {
            lemma_push_line(st, v, n);
        },
        SourceLine::Trap(t) => {
            lemma_trap_names_lower(t);
            lemma_word_line(trap_name(t));
            lemma_trap_instruction_roundtrip(t, Seq::<u8>::empty());
        },
    }
}

proof fn lemma_disasm_at_shift(p: Seq<u8>, q: Seq<u8>)
    ensures
        disasm_at(p + q, p.len() as int) == disasm_at(q, 0),
{
    reveal(disasm_at);
    let d = p + q;
    if q.len() > 0 {
        assert(d[p.len() as int] == q[0]);
        if q.len() > 1 {
            assert(d[p.len() + 1int] == q[1]);
        }
        assert(window(d, p.len() + 1int) =~= window(q, 1));
    }
}

proof fn lemma_source_line_disassembles(l: SourceLine, rest: Seq<u8>)
    requires
        source_line_ok(l),
    ensures
        disasm_at(source_bytes(l) + rest, 0) == Some((source_text(l), source_bytes(l).len())),
{
    match l {
        SourceLine::Plain(op) => {
            lemma_plain_instruction_roundtrip(op, rest);
        },
        SourceLine::Push(v) => {
            lemma_push_instruction_roundtrip(v as u64, rest);
            assert((v as u64) as i64 == v) by (bit_vector);
        },
        SourceLine::Trap(t) => {
            lemma_trap_instruction_roundtrip(t, rest);
        },
    }
}

proof fn lemma_listing_of(ls: Seq<SourceLine>, p: Seq<u8>)
    requires
        forall|i: int| 0 <= i < ls.len() ==> source_line_ok(#[trigger] ls[i]),
    ensures
        listing(p + concat_bytes(ls.map_values(|l: SourceLine| source_bytes(l))), p.len() as int)
            == listing_of(ls, p.len() as int),
    decreases ls.len(),
{
    let bs = ls.map_values(|l: SourceLine| source_bytes(l));
    if ls.len() > 0 {
        let b0 = source_bytes(ls[0]);
        let rest = ls.drop_first();
        let q = concat_bytes(rest.map_values(|l: SourceLine| source_bytes(l)));
        assert(bs.drop_first() =~= rest.map_values(|l: SourceLine| source_bytes(l)));
        assert(concat_bytes(bs) == b0 + q);
        assert(source_line_ok(ls[0]));
        lemma_source_line_disassembles(ls[0], q);
        lemma_disasm_at_shift(p, b0 + q);
        let d = p + (b0 + q);
        assert(d =~= (p + b0) + q);
        assert forall|i: int| 0 <= i < rest.len() implies source_line_ok(#[trigger] rest[i]) by {
            assert(rest[i] == ls[i + 1]);
        }
        lemma_listing_of(rest, p + b0);
        lemma_disasm_size(d, p.len() as int);
    } else {
        assert(concat_bytes(bs) =~= Seq::<u8>::empty());
    }
}

/// What the assembler makes of instructions written one per line, the
/// disassembler lists again: the source assembles to the instructions'
/// machine code one after another, and that code disassembles to the same
/// lines, each at its running offset.
pub proof fn lemma_assemble_then_disassemble(ls: Seq<SourceLine>)
    requires
        forall|i: int| 0 <= i < ls.len() ==> source_line_ok(#[trigger] ls[i]),
    ensures
        assemble_spec(join_lines(ls.map_values(|l: SourceLine| source_text(l)))) == Ok::<
            Seq<u8>,
            Seq<char>,
        >(concat_bytes(ls.map_values(|l: SourceLine| source_bytes(l)))),
        listing(concat_bytes(ls.map_values(|l: SourceLine| source_bytes(l))), 0) == listing_of(
            ls,
            0,
        ),
{
    let texts = ls.map_values(|l: SourceLine| source_text(l));
    let bs = ls.map_values(|l: SourceLine| source_bytes(l));
    assert forall|i: int, k: int|
        0 <= i < texts.len() && 0 <= k < texts[i].len() implies #[trigger] texts[i][k] != '\n' by {
        lemma_source_line_assembles(AsmState { out: Seq::empty(), labels: Map::empty(), unresolved: Seq::empty() }, ls[i], 0);
    }
    assert forall|i: int, s0: AsmState, m: nat|
        0 <= i < texts.len() implies #[trigger] line_effect(s0, texts[i], m) == AsmOutcome::Next(
        emit(s0, bs[i]),
    ) by {
        lemma_source_line_assembles(s0, ls[i], m);
    }
    lemma_join_lines_assemble(texts, bs);
    lemma_listing_of(ls, Seq::<u8>::empty());
    assert(Seq::<u8>::empty() + concat_bytes(bs) =~= concat_bytes(bs));
}

} // verus!
