use mini_vm::assembler::Assembler;
use mini_vm::disasm::{disassemble_program, Disassembler};
use mini_vm::vm::instruction::Instruction;
use mini_vm::vm::memory::{Memory, MEMORY_SIZE};
use mini_vm::vm::opcode::Opcode;
use mini_vm::vm::stack::Stack;
use mini_vm::vm::trap::{execute_trap, Trap};

const ALL_OPCODES: [Opcode; 25] = [
    Opcode::Nop, Opcode::Halt, Opcode::Push, Opcode::Pop, Opcode::Dup, Opcode::Swap,
    Opcode::Load, Opcode::Store, Opcode::Add, Opcode::Sub, Opcode::Mul, Opcode::Div,
    Opcode::Mod, Opcode::And, Opcode::Or, Opcode::Not, Opcode::Eq, Opcode::Lt, Opcode::Gt,
    Opcode::Jmp, Opcode::Jz, Opcode::Jnz, Opcode::Call, Opcode::Ret, Opcode::Trap,
];

#[test]
fn opcode_bytes_round_trip() {
    for op in ALL_OPCODES {
        assert_eq!(Opcode::from_byte(op.to_byte()), Some(op));
    }
    assert_eq!(Opcode::Push.to_byte(), 0x02);
    assert_eq!(Opcode::Gt.to_byte(), 0x32);
    assert_eq!(Opcode::from_byte(0x06), None);
    assert_eq!(Opcode::Jnz.name(), "jnz");
}

#[test]
fn trap_codes_round_trip() {
    for t in [Trap::Putc, Trap::Getc, Trap::Puts, Trap::Putu, Trap::Puti] {
        assert_eq!(Trap::from_byte(t.to_byte()), Some(t));
    }
    assert_eq!(Trap::from_byte(0), None);
    assert_eq!(Trap::from_byte(6), None);
    assert_eq!(Trap::Puts.name(), "puts");
}

#[test]
fn execute_trap_effects() {
    let mut stack = vec![1, 2, -5];
    let mut out = Vec::new();
    assert!(!execute_trap(Trap::Puti, &mut stack, &[], &mut out));
    assert_eq!(stack, vec![1, 2]);
    assert!(execute_trap(Trap::Getc, &mut stack, &[], &mut out));
    assert_eq!(stack, vec![1, 2]);
    let mut empty: Vec<i64> = Vec::new();
    assert!(!execute_trap(Trap::Putc, &mut empty, &[], &mut out));
    let mut addr = vec![1i64];
    assert!(!execute_trap(Trap::Puts, &mut addr, b"xyz", &mut out));
    assert_eq!(out.into_iter().collect::<String>(), "-5yz");
}

#[test]
fn memory_words_read_back() {
    let mut m = Memory::new();
    assert_eq!(m.as_slice().len(), MEMORY_SIZE);
    m.write_u64(40, 0x0102_0304_0506_0708);
    assert_eq!(m.read_u64(40), 0x0102_0304_0506_0708);
    assert_eq!(m.read_byte(40), 0x08);
    assert_eq!(m.read_byte(47), 0x01);
    assert_eq!(m.read_u64(48), 0);
    m.write_u64(MEMORY_SIZE - 4, u64::MAX);
    assert_eq!(m.read_u64(MEMORY_SIZE - 4), 0xffff_ffff);
    m.write_byte(MEMORY_SIZE, 9);
    assert_eq!(m.read_byte(MEMORY_SIZE), 0);
    m.load_program(&[1, 2, 3], MEMORY_SIZE - 2);
    assert_eq!(m.read_byte(MEMORY_SIZE - 2), 1);
    assert_eq!(m.read_byte(MEMORY_SIZE - 1), 2);
}

#[test]
fn stack_push_pop_peek() {
    let mut s = Stack::new();
    assert!(s.is_empty());
    assert_eq!(s.peek(), None);
    s.push(3);
    s.push(9);
    assert_eq!(s.size(), 2);
    assert_eq!(s.peek(), Some(&9));
    assert_eq!(s.iter().copied().collect::<Vec<u32>>(), vec![3, 9]);
    assert_eq!(s.pop(), 9);
    assert_eq!(s.pop(), 3);
    assert!(s.is_empty());
}

#[test]
fn register_instruction_words() {
    assert_eq!(Instruction::decode(0x0312_abcd), Instruction::Load(3, 0xabcd));
    assert_eq!(Instruction::decode(0x2123_0000), Instruction::Add(1, 2, 3));
    assert_eq!(Instruction::decode(0x6000_0010), Instruction::Jump(0x10));
    assert_eq!(Instruction::decode(0xC000_0000), Instruction::Return);
    assert_eq!(Instruction::decode(0xF000_0000), Instruction::Halt);
}

#[test]
fn disassembly_names_what_was_assembled() {
    let bin = Assembler::new()
        .assemble("push -5\njmp 0x10\ncall 300\nputc\nswap\ndb 0x60\ndb 9\ndb 2")
        .unwrap();
    assert_eq!(
        disassemble_program(&bin),
        "0000:  push -5\n0009:  jmp 0x0010\n0012:  call 0x012c\n001b:  putc\n001d:  swap\n001e:  trap?\n"
    );
    let mut d = Disassembler::new(bin.clone());
    let lines = d.disassemble();
    assert_eq!(lines.len(), 6);
    assert_eq!(lines[2], (18, "call 0x012c".to_string()));
    assert_eq!(d.disassemble_at(0), Some(("push -5".to_string(), 9)));
    assert_eq!(d.disassemble_at(bin.len() - 1), None);
    assert_eq!(d.disassemble_at(100), None);
}
