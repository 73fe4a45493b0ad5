use mini_vm::vm::cpu::CPU;
use mini_vm::vm::opcode::Opcode;
use mini_vm::vm::trap::Trap;

fn op(o: Opcode) -> u8 {
    o.to_byte()
}

#[test]
fn test_push_pop() {
    let mut cpu = CPU::new();
    cpu.load_program(&vec![op(Opcode::Push), 10, 0, 0, 0, 0, 0, 0, 0, op(Opcode::Halt)]);
    cpu.run();
    assert_eq!(cpu.stack.len(), 1);
    assert_eq!(cpu.stack[0], 10);
}

#[test]
fn test_add() {
    let mut cpu = CPU::new();
    cpu.load_program(&vec![
        op(Opcode::Push), 5, 0, 0, 0, 0, 0, 0, 0,
        op(Opcode::Push), 3, 0, 0, 0, 0, 0, 0, 0,
        op(Opcode::Add),
        op(Opcode::Halt),
    ]);
    cpu.run();
    assert_eq!(cpu.stack.last(), Some(&8));
}

#[test]
fn test_jmp() {
    let mut cpu = CPU::new();
    cpu.load_program(&vec![
        op(Opcode::Jmp), 18, 0, 0, 0, 0, 0, 0, 0,
        op(Opcode::Push), 1, 0, 0, 0, 0, 0, 0, 0,
        op(Opcode::Halt),
    ]);
    cpu.run();
    assert_eq!(cpu.stack.len(), 0);
    assert_eq!(cpu.ip, 19);
}

#[test]
fn test_call_ret() {
    let mut cpu = CPU::new();
    let mut program = vec![0; 32];
    program[0] = op(Opcode::Call);
    let target = 10u64.to_le_bytes();
    program[1..9].copy_from_slice(&target);
    program[9] = op(Opcode::Halt);
    program[10] = op(Opcode::Push);
    let val = 42u64.to_le_bytes();
    program[11..19].copy_from_slice(&val);
    program[19] = op(Opcode::Ret);

    cpu.load_program(&program);
    cpu.run();
    assert_eq!(cpu.stack.last(), Some(&42));
}

fn push(v: i64) -> Vec<u8> {
    let mut b = vec![op(Opcode::Push)];
    b.extend_from_slice(&(v as u64).to_le_bytes());
    b
}

fn run_program(parts: &[Vec<u8>]) -> CPU {
    let mut program = Vec::new();
    for p in parts {
        program.extend_from_slice(p);
    }
    let mut cpu = CPU::new();
    cpu.load_program(&program);
    cpu.run();
    cpu
}

#[test]
fn arithmetic_wraps_and_divides_toward_zero() {
    let cpu = run_program(&[
        push(i64::MAX), push(1), vec![op(Opcode::Add)],
        push(-7), push(2), vec![op(Opcode::Div)],
        push(-7), push(2), vec![op(Opcode::Mod)],
        push(5), push(0), vec![op(Opcode::Div)],
        push(5), push(0), vec![op(Opcode::Mod)],
        push(i64::MIN), push(1), vec![op(Opcode::Div)],
        push(6), push(7), vec![op(Opcode::Mul)],
        push(3), push(10), vec![op(Opcode::Sub)],
        vec![op(Opcode::Halt)],
    ]);
    assert_eq!(cpu.stack, vec![i64::MIN, -3, -1, 0, 0, i64::MIN, 42, -7]);
    assert!(cpu.halted);
}

#[test]
fn overflowing_division_faults() {
    for o in [Opcode::Div, Opcode::Mod] {
        let mut cpu = CPU::new();
        let mut program = push(i64::MIN);
        program.extend(push(-1));
        program.extend([op(o), op(Opcode::Halt)]);
        cpu.load_program(&program);
        assert!(!cpu.run_checked());
        assert!(cpu.would_fault());
        assert_eq!(cpu.ip, 18);
        assert_eq!(cpu.stack, vec![i64::MIN, -1]);
        assert!(!cpu.halted);
    }
}

#[test]
fn address_overflow_faults() {
    let mut cpu = CPU::new();
    let mut program = push(-1);
    program.extend([op(Opcode::Load), op(Opcode::Halt)]);
    cpu.load_program(&program);
    assert!(cpu.step());
    assert!(cpu.would_fault());
    assert!(!cpu.run_checked());
    assert_eq!(cpu.ip, 9);

    let mut cpu = CPU::new();
    cpu.load_program(&[op(Opcode::Nop)]);
    cpu.ip = usize::MAX;
    assert!(cpu.would_fault());
    cpu.ip = usize::MAX - 8;
    assert!(!cpu.would_fault());
    cpu.halted = true;
    assert!(!cpu.would_fault());
    assert!(cpu.run_checked());
}

#[test]
fn bitwise_and_comparisons() {
    let cpu = run_program(&[
        push(12), push(10), vec![op(Opcode::And)],
        push(12), push(10), vec![op(Opcode::Or)],
        push(0), vec![op(Opcode::Not)],
        push(3), push(3), vec![op(Opcode::Eq)],
        push(2), push(3), vec![op(Opcode::Lt)],
        push(2), push(3), vec![op(Opcode::Gt)],
        vec![op(Opcode::Halt)],
    ]);
    assert_eq!(cpu.stack, vec![8, 14, -1, 1, 1, 0]);
}

#[test]
fn stack_operations_on_short_stacks() {
    let cpu = run_program(&[
        vec![op(Opcode::Pop), op(Opcode::Dup), op(Opcode::Swap)],
        push(1), vec![op(Opcode::Swap), op(Opcode::Dup)],
        push(2), vec![op(Opcode::Swap)],
        vec![op(Opcode::Add), op(Opcode::Add), op(Opcode::Add)],
        vec![op(Opcode::Halt)],
    ]);
    assert_eq!(cpu.stack, vec![4]);
}

#[test]
fn load_and_store_round_trip() {
    let cpu = run_program(&[
        push(-123456789), push(1000), vec![op(Opcode::Store)],
        push(1000), vec![op(Opcode::Load)],
        push(70000), vec![op(Opcode::Load)],
        vec![op(Opcode::Halt)],
    ]);
    assert_eq!(cpu.stack, vec![-123456789, 0]);
    assert_eq!(cpu.memory.read_u64(1000), (-123456789i64) as u64);
}

#[test]
fn conditional_jumps() {
    // 0: push 0; 9: jz 27; 18: push 111; 27: push 5; 36: jnz 54; 45: push 222; 54: halt
    let mut program = Vec::new();
    program.extend(push(0));
    program.push(op(Opcode::Jz));
    program.extend_from_slice(&27u64.to_le_bytes());
    program.extend(push(111));
    program.extend(push(5));
    program.push(op(Opcode::Jnz));
    program.extend_from_slice(&54u64.to_le_bytes());
    program.extend(push(222));
    program.push(op(Opcode::Halt));
    let mut cpu = CPU::new();
    cpu.load_program(&program);
    cpu.run();
    assert!(cpu.stack.is_empty());
    assert_eq!(cpu.ip, 55);
}

#[test]
fn step_after_getc_reports_not_halted() {
    let mut cpu = CPU::new();
    cpu.load_program(&[op(Opcode::Trap), Trap::Getc.to_byte(), op(Opcode::Halt)]);
    assert!(cpu.step());
    assert!(cpu.awaiting_input);
    cpu.provide_input(Some(7));
    assert!(!cpu.step());
    assert!(cpu.halted);
    assert_eq!(cpu.stack, vec![7]);
}

#[test]
fn invalid_opcode_halts() {
    let mut cpu = CPU::new();
    cpu.load_program(&[0xff, op(Opcode::Halt)]);
    assert!(!cpu.step());
    assert!(cpu.halted);
    assert_eq!(cpu.ip, 1);
    assert!(!cpu.step());
    assert_eq!(cpu.ip, 1);
}

#[test]
fn return_with_empty_call_stack_halts() {
    let cpu = run_program(&[vec![op(Opcode::Ret)]]);
    assert!(cpu.halted);
    assert_eq!(cpu.ip, 1);
}

#[test]
fn output_traps_write_text() {
    let mut program = Vec::new();
    program.extend(push(72));
    program.extend([op(Opcode::Trap), Trap::Putc.to_byte()]);
    program.extend(push(-42));
    program.extend([op(Opcode::Trap), Trap::Puti.to_byte()]);
    program.extend(push(-1));
    program.extend([op(Opcode::Trap), Trap::Putu.to_byte()]);
    program.extend(push(100));
    program.extend([op(Opcode::Trap), Trap::Puts.to_byte()]);
    program.extend([op(Opcode::Trap), Trap::Putc.to_byte()]);
    program.push(op(Opcode::Halt));
    let mut cpu = CPU::new();
    cpu.load_program(&program);
    cpu.memory.write_byte(100, b'o');
    cpu.memory.write_byte(101, b'k');
    cpu.memory.write_byte(102, 0xe9);
    cpu.run();
    let text: String = cpu.take_output().into_iter().collect();
    assert_eq!(text, "H-4218446744073709551615ok\u{e9}");
    assert!(cpu.output.is_empty());
    assert!(cpu.stack.is_empty());
}

#[test]
fn getc_waits_for_input() {
    let mut program = Vec::new();
    program.extend([op(Opcode::Trap), Trap::Getc.to_byte()]);
    program.extend([op(Opcode::Trap), Trap::Getc.to_byte()]);
    program.push(op(Opcode::Halt));
    let mut cpu = CPU::new();
    cpu.load_program(&program);
    cpu.run();
    assert!(cpu.awaiting_input);
    assert!(!cpu.halted);
    assert!(cpu.step());
    assert_eq!(cpu.ip, 2);
    cpu.provide_input(Some(b'x'));
    cpu.run();
    assert!(cpu.awaiting_input);
    cpu.provide_input(None);
    cpu.run();
    assert!(cpu.halted);
    assert_eq!(cpu.stack, vec![120, -1]);
}

#[test]
fn push_then_pop_restores_stack() {
    let cpu = run_program(&[push(9), push(77), vec![op(Opcode::Pop), op(Opcode::Halt)]]);
    assert_eq!(cpu.stack, vec![9]);
    assert_eq!(cpu.ip, 20);
}
