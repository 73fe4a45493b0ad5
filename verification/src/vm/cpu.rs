use vstd::prelude::*;

use super::memory::{byte_at, u64_from_le, u64_to_le, window, write_bytes, Memory, MEMORY_SIZE};
use super::opcode::{lemma_opcode_byte_roundtrip, opcode_byte, opcode_of_byte, Opcode};
use super::trap::{execute_trap, trap_effect, trap_of_byte, Trap};

verus! {

/// The machine state as the contracts see it.
pub struct CpuState {
    pub ip: usize,
    pub stack: Seq<i64>,
    pub call_stack: Seq<usize>,
    pub memory: Seq<u8>,
    pub halted: bool,
    pub output: Seq<char>,
    pub awaiting_input: bool,
}

/// The stack machine: an instruction pointer, a value stack, a stack of
/// return addresses and a byte memory that holds the program. The output
/// traps append their text to `output`; the input trap sets
/// `awaiting_input` until a byte is supplied with `provide_input`.
pub struct CPU {
    pub ip: usize,
    pub stack: Vec<i64>,
    pub call_stack: Vec<usize>,
    pub memory: Memory,
    pub halted: bool,
    pub output: Vec<char>,
    pub awaiting_input: bool,
}

impl View for CPU {
    type V = CpuState;

    open spec fn view(&self) -> CpuState {
        CpuState {
            ip: self.ip,
            stack: self.stack@,
            call_stack: self.call_stack@,
            memory: self.memory@,
            halted: self.halted,
            output: self.output@,
            awaiting_input: self.awaiting_input,
        }
    }
}

/// Whether the machine can execute another instruction without outside help.
pub open spec fn is_running(s: CpuState) -> bool {
    !s.halted && !s.awaiting_input
}

/// `s` with `v` pushed on the value stack.
pub open spec fn push_value(s: CpuState, v: i64) -> CpuState {
    CpuState { stack: s.stack.push(v), ..s }
}

/// `s` with its top value popped, and that value; an empty stack pops 0.
pub open spec fn pop_value(s: CpuState) -> (CpuState, i64) {
    if s.stack.len() == 0 {
        (s, 0)
    } else {
        (CpuState { stack: s.stack.drop_last(), ..s }, s.stack.last())
    }
}

/// The eight-byte operand at the instruction pointer, and `s` with the
/// instruction pointer moved past it.
pub open spec fn fetch_word(s: CpuState) -> (CpuState, u64) {
    (CpuState { ip: (s.ip + 8) as usize, ..s }, u64_from_le(window(s.memory, s.ip as int)))
}

/// The result of a two-operand instruction on `a` (pushed first) and `b`.
/// Addition, subtraction and multiplication wrap; division and remainder
/// truncate, and by zero give 0 (`i64::MIN` by -1 is a fault, see
/// `execute_faults`).
pub open spec fn alu_result(op: Opcode, a: i64, b: i64) -> i64 {
    match op {
        Opcode::Add => a.wrapping_add(b),
        Opcode::Sub => a.wrapping_sub(b),
        Opcode::Mul => a.wrapping_mul(b),
        Opcode::Div => match a.checked_div(b) {
            Some(q) => q,
            None => 0,
        },
        Opcode::Mod => match a.checked_rem(b) {
            Some(r) => r,
            None => 0,
        },
        Opcode::And => a & b,
        Opcode::Or => a | b,
        Opcode::Eq => if a == b {
            1
        } else {
            0
        },
        Opcode::Lt => if a < b {
            1
        } else {
            0
        },
        _ => if a > b {
            1
        } else {
            0
        },
    }
}

/// Whether `op` pops two values and pushes `alu_result` of them.
pub open spec fn is_binary(op: Opcode) -> bool {
    match op {
        Opcode::Add | Opcode::Sub | Opcode::Mul | Opcode::Div | Opcode::Mod | Opcode::And
        | Opcode::Or | Opcode::Eq | Opcode::Lt | Opcode::Gt => true,
        _ => false,
    }
}

/// Executes `op`, whose opcode byte has already been read (the
/// instruction pointer of `s` is just past it).
pub open spec fn execute_state(s: CpuState, op: Opcode) -> CpuState {
    match op {
        Opcode::Nop => s,
        Opcode::Halt => CpuState { halted: true, ..s },
        Opcode::Push => {
            let (s1, w) = fetch_word(s);
            push_value(s1, w as i64)
        },
        Opcode::Pop => pop_value(s).0,
        Opcode::Dup => if s.stack.len() > 0 {
            push_value(s, s.stack.last())
        } else {
            s
        },
        Opcode::Swap => {
            let n = s.stack.len();
            if n >= 2 {
                CpuState {
                    stack: s.stack.update(n - 1, s.stack[n - 2]).update(n - 2, s.stack[n - 1]),
                    ..s
                }
            } else {
                s
            }
        },
        Opcode::Load => {
            let (s1, a) = pop_value(s);
            push_value(s1, u64_from_le(window(s1.memory, (a as usize) as int)) as i64)
        },
        Opcode::Store => {
            let (s1, a) = pop_value(s);
            let (s2, v) = pop_value(s1);
            CpuState {
                memory: write_bytes(s2.memory, (a as usize) as int, u64_to_le(v as u64)),
                ..s2
            }
        },
        Opcode::Not => {
            let (s1, a) = pop_value(s);
            push_value(s1, !a)
        },
        Opcode::Jmp => {
            let (s1, w) = fetch_word(s);
            CpuState { ip: w as usize, ..s1 }
        },
        Opcode::Jz | Opcode::Jnz => {
            let (s1, w) = fetch_word(s);
            let (s2, v) = pop_value(s1);
            if (v == 0) == (op == Opcode::Jz) {
                CpuState { ip: w as usize, ..s2 }
            } else {
                s2
            }
        },
        Opcode::Call => {
            let (s1, w) = fetch_word(s);
            CpuState { ip: w as usize, call_stack: s1.call_stack.push(s1.ip), ..s1 }
        },
        Opcode::Ret => {
            let n = s.call_stack.len();
            if n > 0 {
                CpuState { ip: s.call_stack[n - 1], call_stack: s.call_stack.drop_last(), ..s }
            } else {
                CpuState { halted: true, ..s }
            }
        },
        Opcode::Trap => {
            let code = byte_at(s.memory, s.ip as int);
            let s1 = CpuState { ip: (s.ip + 1) as usize, ..s };
            match trap_of_byte(code) {
                None => s1,
                Some(t) => {
                    let (st, text, w) = trap_effect(t, s1.stack, s1.memory);
                    CpuState {
                        stack: st,
                        output: s1.output + text,
                        awaiting_input: w,
                        ..s1
                    }
                },
            }
        },
        _ => {
            let (s1, b) = pop_value(s);
            let (s2, a) = pop_value(s1);
            push_value(s2, alu_result(op, a, b))
        },
    }
}

/// Whether executing `op`, whose opcode byte has been read, overflows: an
/// operand or trap code that would be read past `usize::MAX`, a word loaded
/// or stored at an address whose last byte lies past `usize::MAX`, or the
/// one quotient that does not fit, `i64::MIN` by -1.
pub open spec fn execute_faults(s: CpuState, op: Opcode) -> bool {
    match op {
        Opcode::Push | Opcode::Jmp | Opcode::Jz | Opcode::Jnz | Opcode::Call => s.ip > usize::MAX
            - 8,
        Opcode::Trap => s.ip == usize::MAX,
        Opcode::Load | Opcode::Store => (pop_value(s).1 as usize) > usize::MAX - 7,
        Opcode::Div | Opcode::Mod => {
            let (s1, b) = pop_value(s);
            b == -1 && pop_value(s1).1 == i64::MIN
        },
        _ => false,
    }
}

/// Whether the next step of a running machine overflows (its instruction
/// pointer is `usize::MAX`, or `execute_faults` holds of its instruction):
/// such a step cannot be taken.
pub open spec fn step_faults(s: CpuState) -> bool {
    is_running(s) && (s.ip == usize::MAX || match opcode_of_byte(
        byte_at(s.memory, s.ip as int),
    ) {
        Some(op) => execute_faults(CpuState { ip: (s.ip + 1) as usize, ..s }, op),
        None => false,
    })
}

/// One step of the machine: nothing happens once it has halted or while it
/// waits for input; otherwise the byte at the instruction pointer is read
/// and executed, and a byte that is no opcode halts the machine. Memory is
/// read and written only within its size (bytes beyond it read as zero,
/// writes beyond it are dropped).
#[verifier::opaque]
pub open spec fn step_state(s: CpuState) -> CpuState {
    if !is_running(s) {
        s
    } else {
        let b = byte_at(s.memory, s.ip as int);
        let s1 = CpuState { ip: (s.ip + 1) as usize, ..s };
        match opcode_of_byte(b) {
            None => CpuState { halted: true, ..s1 },
            Some(op) => execute_state(s1, op),
        }
    }
}

/// The state after stepping from `s` until the machine stops running or
/// reaches a step that faults, or until `fuel` steps have been taken.
pub open spec fn run_state(s: CpuState, fuel: nat) -> CpuState
    decreases fuel,
{
    if fuel == 0 || !is_running(s) || step_faults(s) {
        s
    } else {
        run_state(step_state(s), (fuel - 1) as nat)
    }
}

/// `s` once the input it waits for has come: the byte read, or -1 at the
/// end of input, is pushed. A machine that does not wait is left as it is.
pub open spec fn input_state(s: CpuState, byte: Option<u8>) -> CpuState {
    if s.awaiting_input {
        CpuState {
            stack: s.stack.push(
                match byte {
                    Some(b) => b as i64,
                    None => -1i64,
                },
            ),
            awaiting_input: false,
            ..s
        }
    } else {
        s
    }
}

/// A machine that has halted, or that waits for input, does not change
/// when stepped or run.
pub proof fn lemma_stopped_is_fixed(s: CpuState, fuel: nat)
    requires
        !is_running(s),
    ensures
        step_state(s) == s,
        run_state(s, fuel) == s,
{
    reveal(step_state);
}

/// No instruction changes the size of memory.
pub proof fn lemma_step_keeps_memory_size(s: CpuState)
    ensures
        step_state(s).memory.len() == s.memory.len(),
{
    reveal(step_state);
}

/// Running never changes the size of memory.
pub proof fn lemma_run_keeps_memory_size(s: CpuState, fuel: nat)
    ensures
        run_state(s, fuel).memory.len() == s.memory.len(),
    decreases fuel,
{
    if fuel > 0 && is_running(s) && !step_faults(s) {
        lemma_step_keeps_memory_size(s);
        lemma_run_keeps_memory_size(step_state(s), (fuel - 1) as nat);
    }
}

/// `jz` and `jnz` pop the top value and jump to their operand exactly when
/// that value is zero (`jz`) or not zero (`jnz`); otherwise execution goes
/// on right after the eight-byte operand.
pub proof fn lemma_conditional_jump(s: CpuState, op: Opcode)
    requires
        op == Opcode::Jz || op == Opcode::Jnz,
        is_running(s),
        s.ip + 9 <= usize::MAX,
        byte_at(s.memory, s.ip as int) == opcode_byte(op),
        s.stack.len() > 0,
    ensures
        ({
            let v = s.stack.last();
            let target = u64_from_le(window(s.memory, s.ip + 1)) as usize;
            let jumps = if op == Opcode::Jz {
                v == 0
            } else {
                v != 0
            };
            let t = step_state(s);
            &&& t.ip == (if jumps {
                target
            } else {
                (s.ip + 9) as usize
            })
            &&& t.stack == s.stack.drop_last()
            &&& t.memory == s.memory
            &&& t.call_stack == s.call_stack
            &&& !t.halted
        }),
{
    reveal(step_state);
    lemma_opcode_byte_roundtrip(op, 0);
}

/// `swap` on a stack of at least two values exchanges the top two and
/// leaves the values below them as they were.
pub proof fn lemma_swap_exchanges_top(s: CpuState)
    requires
        is_running(s),
        s.ip < usize::MAX,
        byte_at(s.memory, s.ip as int) == opcode_byte(Opcode::Swap),
        s.stack.len() >= 2,
    ensures
        ({
            let n = s.stack.len();
            let t = step_state(s);
            &&& t.stack.len() == n
            &&& t.stack[n - 1] == s.stack[n - 2]
            &&& t.stack[n - 2] == s.stack[n - 1]
            &&& forall|i: int| 0 <= i < n - 2 ==> t.stack[i] == s.stack[i]
            &&& t.ip == s.ip + 1
        }),
{
    reveal(step_state);
    lemma_opcode_byte_roundtrip(Opcode::Swap, 0);
}

/// The comparisons pop `b` (the top) and `a` (below it) and push 1 when
/// `a == b`, `a < b` or `a > b` holds respectively, and 0 otherwise.
pub proof fn lemma_comparison_results(s: CpuState, op: Opcode)
    requires
        op == Opcode::Eq || op == Opcode::Lt || op == Opcode::Gt,
        is_running(s),
        s.ip < usize::MAX,
        byte_at(s.memory, s.ip as int) == opcode_byte(op),
        s.stack.len() >= 2,
    ensures
        ({
            let n = s.stack.len();
            let a = s.stack[n - 2];
            let b = s.stack[n - 1];
            let t = step_state(s);
            let holds = if op == Opcode::Eq {
                a == b
            } else if op == Opcode::Lt {
                a < b
            } else {
                a > b
            };
            &&& t.stack.len() == n - 1
            &&& forall|i: int| 0 <= i < n - 2 ==> t.stack[i] == s.stack[i]
            &&& t.stack[n - 2] == (if holds {
                1i64
            } else {
                0i64
            })
        }),
{
    reveal(step_state);
    lemma_opcode_byte_roundtrip(op, 0);
}

/// `gt` of two values is `lt` of them the other way round, neither holds
/// of equal values, and exactly one of `lt`, `eq` and `gt` gives 1.
pub proof fn lemma_comparisons_relate(a: i64, b: i64)
    ensures
        alu_result(Opcode::Gt, a, b) == alu_result(Opcode::Lt, b, a),
        alu_result(Opcode::Gt, a, a) == 0,
        alu_result(Opcode::Lt, a, a) == 0,
        alu_result(Opcode::Eq, a, a) == 1,
        alu_result(Opcode::Lt, a, b) + alu_result(Opcode::Eq, a, b) + alu_result(Opcode::Gt, a, b)
            == 1,
{
}

/// The state after `n` steps from `s`.
pub open spec fn steps(s: CpuState, n: nat) -> CpuState
    decreases n,
{
    if n == 0 {
        s
    } else {
        steps(step_state(s), (n - 1) as nat)
    }
}

/// A run ends in one of three ways: the machine has halted or waits for
/// input, its next step would fault, or it has taken all `fuel` steps.
pub proof fn lemma_run_end(s: CpuState, fuel: nat)
    ensures
        !is_running(run_state(s, fuel)) || step_faults(run_state(s, fuel)) || run_state(s, fuel)
            == steps(s, fuel),
    decreases fuel,
{
    if fuel > 0 && is_running(s) && !step_faults(s) {
        lemma_run_end(step_state(s), (fuel - 1) as nat);
    }
}

/// Running for `n + m` steps is running for `n` steps, then for `m`.
pub proof fn lemma_run_compose(s: CpuState, n: nat, m: nat)
    ensures
        run_state(run_state(s, n), m) == run_state(s, n + m),
    decreases n,
{
    if n > 0 && is_running(s) && !step_faults(s) {
        lemma_run_compose(step_state(s), (n - 1) as nat, m);
        assert((n - 1) as nat + m == (n + m - 1) as nat);
    } else if n == 0 {
    } else if !is_running(s) {
        lemma_stopped_is_fixed(s, m);
        lemma_stopped_is_fixed(s, n + m);
    } else {
        assert(run_state(s, m) == s);
    }
}

/// A call followed by a return at the call's target resumes right after
/// the call instruction, with the value stack and memory untouched and the
/// return-address stack back as it was.
pub proof fn lemma_call_then_return(s: CpuState)
    requires
        is_running(s),
        s.memory.len() == MEMORY_SIZE,
        s.ip + 9 <= s.memory.len(),
        byte_at(s.memory, s.ip as int) == opcode_byte(Opcode::Call),
        byte_at(s.memory, (u64_from_le(window(s.memory, s.ip + 1)) as usize) as int)
            == opcode_byte(Opcode::Ret),
    ensures
        step_state(step_state(s)) == (CpuState { ip: (s.ip + 9) as usize, ..s }),
{
    reveal(step_state);
    let t = step_state(s);
    assert(t.call_stack == s.call_stack.push((s.ip + 9) as usize));
    assert(t.call_stack.drop_last() =~= s.call_stack);
}

/// Executing `push v` and then `pop` leaves the value stack as it was.
pub proof fn lemma_push_then_pop(s: CpuState)
    requires
        is_running(s),
        s.memory.len() == MEMORY_SIZE,
        s.ip + 10 <= s.memory.len(),
        byte_at(s.memory, s.ip as int) == opcode_byte(Opcode::Push),
        byte_at(s.memory, s.ip + 9) == opcode_byte(Opcode::Pop),
    ensures
        step_state(s).stack == s.stack.push(u64_from_le(window(s.memory, s.ip + 1)) as i64),
        step_state(step_state(s)) == (CpuState { ip: (s.ip + 10) as usize, ..s }),
{
    reveal(step_state);
    let t = step_state(s);
    assert(t.stack.drop_last() =~= s.stack);
}

/// The result of a two-operand instruction.
fn alu(op: Opcode, a: i64, b: i64) -> (r: i64)
    requires
        is_binary(op),
    ensures
        r == alu_result(op, a, b),
{
    match op {
        Opcode::Add => a.wrapping_add(b),
        Opcode::Sub => a.wrapping_sub(b),
        Opcode::Mul => a.wrapping_mul(b),
        Opcode::Div => match a.checked_div(b) {
            Some(q) => q,
            None => 0,
        },
        Opcode::Mod => match a.checked_rem(b) {
            Some(r) => r,
            None => 0,
        },
        Opcode::And => a & b,
        Opcode::Or => a | b,
        Opcode::Eq => if a == b {
            1
        } else {
            0
        },
        Opcode::Lt => if a < b {
            1
        } else {
            0
        },
        _ => if a > b {
            1
        } else {
            0
        },
    }
}

impl CPU {
    /// A machine at address 0 with empty stacks, zeroed memory and no output.
    pub fn new() -> (cpu: Self)
        ensures
            cpu@ == (CpuState {
                ip: 0,
                stack: Seq::empty(),
                call_stack: Seq::empty(),
                memory: Seq::new(MEMORY_SIZE as nat, |i: int| 0u8),
                halted: false,
                output: Seq::empty(),
                awaiting_input: false,
            }),
    {
        CPU {
            ip: 0,
            stack: Vec::with_capacity(1024),
            call_stack: Vec::with_capacity(256),
            memory: Memory::new(),
            halted: false,
            output: Vec::new(),
            awaiting_input: false,
        }
    }

    /// Copies `program` into memory from address 0, as far as memory reaches.
    pub fn load_program(&mut self, program: &[u8])
        ensures
            final(self)@ == (CpuState {
                memory: write_bytes(
                    old(self)@.memory,
                    0,
                    program@.take(
                        if program@.len() <= old(self)@.memory.len() {
                            program@.len() as int
                        } else {
                            old(self)@.memory.len() as int
                        },
                    ),
                ),
                ..old(self)@
            }),
    {
        assert(program@.len() == program.len());
        self.memory.load_program(program, 0);
    }

    fn fetch_byte(&mut self) -> (b: u8)
        requires
            old(self).ip < usize::MAX,
        ensures
            b == byte_at(old(self)@.memory, old(self)@.ip as int),
            final(self)@ == (CpuState { ip: (old(self)@.ip + 1) as usize, ..old(self)@ }),
    {
        let byte = self.memory.read_byte(self.ip);
        self.ip = self.ip + 1;
        byte
    }

    fn fetch_u64(&mut self) -> (w: u64)
        requires
            old(self).ip <= usize::MAX - 8,
        ensures
            (final(self)@, w) == fetch_word(old(self)@),
    {
        let val = self.memory.read_u64(self.ip);
        self.ip = self.ip + 8;
        val
    }

    fn pop(&mut self) -> (v: i64)
        ensures
            (final(self)@, v) == pop_value(old(self)@),
    {
        match self.stack.pop() {
            Some(v) => v,
            None => 0,
        }
    }

    fn push(&mut self, val: i64)
        ensures
            final(self)@ == push_value(old(self)@, val),
    {
        self.stack.push(val);
    }

    fn execute(&mut self, op: Opcode)
        requires
            !execute_faults(old(self)@, op),
        ensures
            final(self)@ == execute_state(old(self)@, op),
    {
        match op {
            Opcode::Nop => {},
            Opcode::Halt => {
                self.halted = true;
            },
            Opcode::Push => {
                let val = self.fetch_u64() as i64;
                self.push(val);
            },
            Opcode::Pop => {
                self.pop();
            },
            Opcode::Dup => {
                let n = self.stack.len();
                if n > 0 {
                    let val = self.stack[n - 1];
                    self.push(val);
                }
            },
            Opcode::Swap => {
                let n = self.stack.len();
                if n >= 2 {
                    let top = self.stack[n - 1];
                    let below = self.stack[n - 2];
                    self.stack.set(n - 1, below);
                    self.stack.set(n - 2, top);
                }
            },
            Opcode::Load => {
                let addr = self.pop() as usize;
                let val = self.memory.read_u64(addr) as i64;
                self.push(val);
            },
            Opcode::Store => {
                let addr = self.pop() as usize;
                let val = self.pop();
                self.memory.write_u64(addr, val as u64);
            },
            Opcode::Not => {
                let a = self.pop();
                self.push(!a);
            },
            Opcode::Jmp => {
                let addr = self.fetch_u64() as usize;
                self.ip = addr;
            },
            Opcode::Jz => {
                let addr = self.fetch_u64() as usize;
                let val = self.pop();
                if val == 0 {
                    self.ip = addr;
                }
            },
            Opcode::Jnz => {
                let addr = self.fetch_u64() as usize;
                let val = self.pop();
                if val != 0 {
                    self.ip = addr;
                }
            },
            Opcode::Call => {
                let addr = self.fetch_u64() as usize;
                self.call_stack.push(self.ip);
                self.ip = addr;
            },
            Opcode::Ret => {
                match self.call_stack.pop() {
                    Some(addr) => {
                        self.ip = addr;
                    },
                    None => {
                        self.halted = true;
                    },
                }
            },
            Opcode::Trap => {
                let trap_code = self.fetch_byte();
                match Trap::from_byte(trap_code) {
                    Some(trap) => {
                        let wants_input = execute_trap(
                            trap,
                            &mut self.stack,
                            self.memory.as_slice(),
                            &mut self.output,
                        );
                        self.awaiting_input = wants_input;
                    },
                    None => {},
                }
            },
            _ => {
                let b = self.pop();
                let a = self.pop();
                self.push(alu(op, a, b));
            },
        }
    }

    /// Executes one instruction; returns whether the machine has not
    /// halted (it may now wait for input, see `awaiting_input`). The step
    /// must not fault (see `would_fault`).
    pub fn step(&mut self) -> (running: bool)
        requires
            !step_faults(old(self)@),
        ensures
            final(self)@ == step_state(old(self)@),
            running == !final(self)@.halted,
    {
        proof {
            reveal(step_state);
        }
        if self.halted || self.awaiting_input {
            return !self.halted;
        }
        let opcode_byte = self.fetch_byte();
        match Opcode::from_byte(opcode_byte) {
            Some(op) => self.execute(op),
            None => {
                self.halted = true;
            },
        }
        !self.halted
    }

    /// Whether the next step would fault (`step_faults`).
    pub fn would_fault(&self) -> (f: bool)
        ensures
            f == step_faults(self@),
    {
        if self.halted || self.awaiting_input {
            return false;
        }
        if self.ip == usize::MAX {
            return true;
        }
        let next = self.ip + 1;
        let ghost s1 = CpuState { ip: next, ..self@ };
        match Opcode::from_byte(self.memory.read_byte(self.ip)) {
            None => false,
            Some(op) => match op {
                Opcode::Push | Opcode::Jmp | Opcode::Jz | Opcode::Jnz | Opcode::Call => next
                    > usize::MAX - 8,
                Opcode::Trap => next == usize::MAX,
                Opcode::Load | Opcode::Store => {
                    let n = self.stack.len();
                    let top: i64 = if n > 0 {
                        self.stack[n - 1]
                    } else {
                        0
                    };
                    (top as usize) > usize::MAX - 7
                },
                Opcode::Div | Opcode::Mod => {
                    let n = self.stack.len();
                    proof {
                        if n >= 2 {
                            assert(pop_value(pop_value(s1).0).1 == self.stack@[n - 2]);
                        }
                    }
                    n >= 2 && self.stack[n - 1] == -1 && self.stack[n - 2] == i64::MIN
                },
                _ => false,
            },
        }
    }

    /// Steps until the machine halts, waits for input or reaches a step
    /// that would fault (or after `u64::MAX` steps); returns whether it
    /// stopped without a fault ahead.
    pub fn run_checked(&mut self) -> (ok: bool)
        ensures
            final(self)@ == run_state(old(self)@, u64::MAX as nat),
            ok == !step_faults(final(self)@),
    {
        let mut fuel: u64 = u64::MAX;
        while fuel > 0
            invariant
                run_state(self@, fuel as nat) == run_state(old(self)@, u64::MAX as nat),
            decreases fuel,
        {
            if self.would_fault() {
                return false;
            }
            let ghost before = self@;
            self.step();
            let running = !self.halted && !self.awaiting_input;
            proof {
                if !is_running(before) {
                    lemma_stopped_is_fixed(before, (fuel - 1) as nat);
                }
            }
            assert(run_state(before, fuel as nat) == run_state(self@, (fuel - 1) as nat));
            if !running {
                assert(run_state(self@, (fuel - 1) as nat) == self@);
                return true;
            }
            fuel = fuel - 1;
        }
        !self.would_fault()
    }

    /// Steps until the machine halts or waits for input (or after
    /// `u64::MAX` steps); no step on the way may fault.
    pub fn run(&mut self)
        requires
            !step_faults(run_state(old(self)@, u64::MAX as nat)),
        ensures
            final(self)@ == run_state(old(self)@, u64::MAX as nat),
    {
        self.run_checked();
    }

    /// Ends a wait for input: pushes the byte read, or -1 when the input has
    /// ended. Does nothing unless the machine waits for input.
    pub fn provide_input(&mut self, byte: Option<u8>)
        ensures
            final(self)@ == input_state(old(self)@, byte),
    {
        if self.awaiting_input {
            let v: i64 = match byte {
                Some(b) => b as i64,
                None => -1,
            };
            self.stack.push(v);
            self.awaiting_input = false;
        }
    }

    /// Hands out the text written so far and clears it.
    pub fn take_output(&mut self) -> (text: Vec<char>)
        ensures
            text@ == old(self)@.output,
            final(self)@ == (CpuState { output: Seq::empty(), ..old(self)@ }),
    {
        let mut text: Vec<char> = Vec::new();
        std::mem::swap(&mut text, &mut self.output);
        text
    }
}

impl Default for CPU {
    fn default() -> (cpu: Self)
        ensures
            cpu@ == (CpuState {
                ip: 0,
                stack: Seq::empty(),
                call_stack: Seq::empty(),
                memory: Seq::new(MEMORY_SIZE as nat, |i: int| 0u8),
                halted: false,
                output: Seq::empty(),
                awaiting_input: false,
            }),
    {
        Self::new()
    }
}

} // verus!
