use vstd::prelude::*;

use crate::assembler::{parse_unsigned, parse_unsigned_chars};
use crate::disasm::{disasm_at, Disassembler};
use crate::scan::{first_token, second_token, third_token, tokens3, trim, trim_chars};
use crate::text::{
    chars_of, dec_digits, hex4, hex_digits, hex_padded, is_word, push_chars, push_dec, push_hex,
    push_hex4, push_hex_padded, push_signed_dec, push_str, signed_dec, string_from_chars,
};
use std::collections::HashSet;
use vstd::std_specs::iter::IteratorSpec;
use crate::vm::cpu::{input_state, step_faults, step_state, CpuState, CPU};
use crate::vm::memory::{byte_at, u64_from_le, window, write_bytes, MEMORY_SIZE};

verus! {

broadcast use vstd::std_specs::hash::group_hash_axioms;

/// A command that stopped because the program waits for input; it goes on
/// once the input has come.
#[derive(Clone, Copy)]
pub enum Pending {
    Nothing,
    /// A step, whose machine state and watches are still to be shown.
    Step,
    /// A `next` command with this many steps left.
    Next(usize),
    /// A `run` command.
    Run,
}

/// How a sequence of steps ended: as the command asked, at a wait for input
/// (with the number of steps left), or before a step that faults.
pub enum StepsEnd {
    Finished,
    Waiting(usize),
    Faulted,
}

/// The debugger as its contracts see it: the machine, the set of
/// breakpoints, the code it was started with (which the disassembly
/// shows), the watched addresses, the commands entered so far and the
/// command that waits for input.
pub struct DebugState {
    pub cpu: CpuState,
    pub breakpoints: Set<usize>,
    pub code: Seq<u8>,
    pub watches: Seq<usize>,
    pub history: Seq<Seq<char>>,
    pub pending: Pending,
}

/// What a command does: the new state, the text it prints and whether the
/// session goes on; or `Panics` on a command that overflows: a step that
/// faults (`step_faults`), a word read at an address whose last byte lies
/// beyond `usize::MAX`, or a memory dump past `usize::MAX`.
pub enum CommandOutcome {
    Done { state: DebugState, text: Seq<char>, keep_going: bool },
    Panics,
}

/// An address as the debugger reads it: hexadecimal after "0x" or "0X",
/// decimal otherwise; either may start with '+'.
pub open spec fn parse_addr_spec(s: Seq<char>) -> Option<usize> {
    let v = if s.len() >= 2 && s[0] == '0' && (s[1] == 'x' || s[1] == 'X') {
        parse_unsigned(s.subrange(2, s.len() as int), 16)
    } else {
        parse_unsigned(s, 10)
    };
    match v {
        Some(n) => if n <= usize::MAX {
            Some(n as usize)
        } else {
            None
        },
        None => None,
    }
}

/// A count as `str::parse::<usize>` reads it.
pub open spec fn parse_count(s: Seq<char>) -> Option<usize> {
    match parse_unsigned(s, 10) {
        Some(n) => if n <= usize::MAX {
            Some(n as usize)
        } else {
            None
        },
        None => None,
    }
}

/// The optional argument read with `parse`, or `default`.
pub open spec fn arg_or<T>(arg: Option<Seq<char>>, parse: spec_fn(Seq<char>) -> Option<T>, default: T) -> T {
    match arg {
        Some(a) => match parse(a) {
            Some(v) => v,
            None => default,
        },
        None => default,
    }
}

/// The one-line machine summary, followed by the next instruction while
/// the machine has not halted.
pub open spec fn state_text(cpu: CpuState, code: Seq<u8>) -> Seq<char> {
    "ip: 0x"@ + hex4(cpu.ip as nat) + "  stack: "@ + dec_digits(cpu.stack.len()) + "  status: "@ + (
    if cpu.halted {
        "HALTED"@
    } else {
        "running"@
    }) + "\n"@ + if cpu.halted {
        Seq::empty()
    } else {
        match disasm_at(code, cpu.ip as int) {
            Some((instr, _)) => "next: "@ + instr + "\n"@,
            None => Seq::empty(),
        }
    }
}

/// Whether some watched address has its last byte beyond `usize::MAX`.
pub open spec fn watch_overflows(watches: Seq<usize>) -> bool {
    exists|i: int| 0 <= i < watches.len() && #[trigger] watches[i] > usize::MAX - 7
}

/// One line per watched address with the word stored there.
pub open spec fn watch_lines(mem: Seq<u8>, watches: Seq<usize>) -> Seq<char>
    decreases watches.len(),
{
    if watches.len() == 0 {
        Seq::empty()
    } else {
        let a = watches[0];
        let v = u64_from_le(window(mem, a as int));
        "  0x"@ + hex4(a as nat) + " = "@ + signed_dec(v as i64 as int) + " (0x"@ + hex_digits(
            v as nat,
        ) + ")\n"@ + watch_lines(mem, watches.drop_first())
    }
}

/// The watch report printed after the machine has run.
pub open spec fn watches_text(mem: Seq<u8>, watches: Seq<usize>) -> Seq<char> {
    if watches.len() == 0 {
        Seq::empty()
    } else {
        "watches:\n"@ + watch_lines(mem, watches)
    }
}

/// `cpu` with its output taken away.
pub open spec fn drained(cpu: CpuState) -> CpuState {
    CpuState { output: Seq::empty(), ..cpu }
}

/// Steps `n` times, stopping early with a note once the machine has
/// halted, at a wait for input, or before a step that faults; the text is
/// what the program printed, then the note.
pub open spec fn step_n_effect(cpu: CpuState, n: usize) -> (CpuState, Seq<char>, StepsEnd)
    decreases n,
{
    if cpu.awaiting_input {
        (cpu, Seq::empty(), StepsEnd::Waiting(n))
    } else if n == 0 {
        (cpu, Seq::empty(), StepsEnd::Finished)
    } else if cpu.halted {
        (cpu, "program halted\n"@, StepsEnd::Finished)
    } else if step_faults(cpu) {
        (cpu, Seq::empty(), StepsEnd::Faulted)
    } else {
        let c1 = step_state(cpu);
        let (c2, t, e) = step_n_effect(drained(c1), (n - 1) as usize);
        (c2, c1.output + t, e)
    }
}

/// Runs until the machine halts, reaches a breakpoint (reported with the
/// machine state) or `fuel` steps have been taken, stopping early at a
/// wait for input or before a step that faults.
pub open spec fn run_effect(cpu: CpuState, bps: Set<usize>, code: Seq<u8>, fuel: nat) -> (
    CpuState,
    Seq<char>,
    StepsEnd,
)
    decreases fuel,
{
    if cpu.awaiting_input {
        (cpu, Seq::empty(), StepsEnd::Waiting(0))
    } else if cpu.halted {
        (cpu, "program halted\n"@, StepsEnd::Finished)
    } else if bps.contains(cpu.ip) {
        (
            cpu,
            "breakpoint at 0x"@ + hex4(cpu.ip as nat) + "\n"@ + state_text(cpu, code),
            StepsEnd::Finished,
        )
    } else if fuel == 0 {
        (cpu, Seq::empty(), StepsEnd::Finished)
    } else if step_faults(cpu) {
        (cpu, Seq::empty(), StepsEnd::Faulted)
    } else {
        let c1 = step_state(cpu);
        let (c2, t, e) = run_effect(drained(c1), bps, code, (fuel - 1) as nat);
        (c2, c1.output + t, e)
    }
}

/// `s` with `x` put in its place before the first larger element (nothing
/// changes when `x` is met first).
pub open spec fn insert_sorted(s: Seq<usize>, x: usize) -> Seq<usize>
    decreases s.len(),
{
    if s.len() == 0 {
        seq![x]
    } else if x < s[0] {
        seq![x] + s
    } else if x == s[0] {
        s
    } else {
        seq![s[0]] + insert_sorted(s.drop_first(), x)
    }
}

/// Whether `s` is strictly increasing.
pub open spec fn strictly_increasing(s: Seq<usize>) -> bool {
    forall|i: int, j: int| 0 <= i < j < s.len() ==> s[i] < s[j]
}

/// The breakpoints in increasing order, each once.
pub open spec fn sorted_breakpoints(bps: Set<usize>) -> Seq<usize> {
    choose|s: Seq<usize>| strictly_increasing(s) && s.to_set() == bps
}

/// One line per breakpoint with the instruction there.
pub open spec fn breakpoint_lines(bps: Seq<usize>, code: Seq<u8>) -> Seq<char>
    decreases bps.len(),
{
    if bps.len() == 0 {
        Seq::empty()
    } else {
        "  0x"@ + hex4(bps[0] as nat) + (match disasm_at(code, bps[0] as int) {
            Some((instr, _)) => "  "@ + instr,
            None => Seq::empty(),
        }) + "\n"@ + breakpoint_lines(bps.drop_first(), code)
    }
}

/// The character shown for byte `b` in a memory dump.
pub open spec fn shown_char(b: u8) -> char {
    if 0x20 <= b < 0x7f {
        b as char
    } else {
        '.'
    }
}

/// The hexadecimal bytes of a dump row, each followed by a space.
pub open spec fn row_hex(mem: Seq<u8>, addr: int, count: nat) -> Seq<char>
    decreases count,
{
    if count == 0 {
        Seq::empty()
    } else {
        row_hex(mem, addr, (count - 1) as nat) + hex_padded(
            byte_at(mem, addr + count - 1) as nat,
            2,
        ) + " "@
    }
}

/// The characters of a dump row.
pub open spec fn row_chars(mem: Seq<u8>, addr: int, count: nat) -> Seq<char>
    decreases count,
{
    if count == 0 {
        Seq::empty()
    } else {
        row_chars(mem, addr, (count - 1) as nat).push(shown_char(byte_at(mem, addr + count - 1)))
    }
}

/// How many bytes row `r` of a dump of `length` bytes shows.
pub open spec fn row_count(length: nat, r: nat) -> nat {
    if length >= r * 16 + 16 {
        16
    } else if length >= r * 16 {
        (length - r * 16) as nat
    } else {
        0
    }
}

/// The rows `r` and on (of `rows`) of a dump of `length` bytes from `start`.
pub open spec fn dump_rows(mem: Seq<u8>, start: nat, length: nat, r: nat, rows: nat) -> Seq<char>
    decreases rows - r,
{
    if r >= rows {
        Seq::empty()
    } else {
        let addr = start + r * 16;
        "  "@ + hex4(addr) + ": "@ + row_hex(mem, addr as int, row_count(length, r)) + " |"@
            + row_chars(mem, addr as int, row_count(length, r)) + "|\n"@ + dump_rows(
            mem,
            start,
            length,
            r + 1,
            rows,
        )
    }
}

/// The number of rows a dump of `length` bytes shows: enough rows of 16
/// for all of them, and one (empty) row for none.
pub open spec fn dump_row_total(length: nat) -> nat {
    if length == 0 {
        1
    } else if length % 16 == 0 {
        length / 16
    } else {
        length / 16 + 1
    }
}

/// Whether a dump of `length` bytes from `start` reaches an address past
/// `usize::MAX`.
pub open spec fn dump_overflows(start: nat, length: nat) -> bool {
    length > 0 && start + length - 1 > usize::MAX
}

/// Up to `n` disassembled lines from `addr`, marking the instruction
/// pointer with '>' and breakpoints with '*'.
pub open spec fn dis_lines(st: DebugState, addr: nat, n: nat) -> Seq<char>
    decreases n,
{
    if n == 0 {
        Seq::empty()
    } else {
        match disasm_at(st.code, addr as int) {
            None => Seq::empty(),
            Some((instr, size)) => (if addr == st.cpu.ip {
                ">"@
            } else {
                " "@
            }) + (if st.breakpoints.contains(addr as usize) {
                "*"@
            } else {
                " "@
            }) + " "@ + hex4(addr) + ":  "@ + instr + "\n"@ + dis_lines(st, addr + size, (n - 1) as nat),
        }
    }
}

/// The value-stack lines from the top down; the first is marked as the top
/// when `top` holds.
pub open spec fn stack_lines(s: Seq<i64>, top: bool) -> Seq<char>
    decreases s.len(),
{
    if s.len() == 0 {
        Seq::empty()
    } else {
        let v = s.last();
        "  ["@ + dec_digits((s.len() - 1) as nat) + "] "@ + signed_dec(v as int) + " (0x"@
            + hex_digits((v as u64) as nat) + ")"@ + (if top {
            " <- top"@
        } else {
            Seq::empty()
        }) + "\n"@ + stack_lines(s.drop_last(), false)
    }
}

/// The return-address lines from the top down.
pub open spec fn call_lines(s: Seq<usize>) -> Seq<char>
    decreases s.len(),
{
    if s.len() == 0 {
        Seq::empty()
    } else {
        "  ["@ + dec_digits((s.len() - 1) as nat) + "] 0x"@ + hex4(s.last() as nat) + "\n"@
            + call_lines(s.drop_last())
    }
}

/// The text of the stack command.
pub open spec fn stack_text(cpu: CpuState) -> Seq<char> {
    (if cpu.stack.len() == 0 {
        "stack: (empty)\n"@
    } else {
        "stack ("@ + dec_digits(cpu.stack.len()) + " items):\n"@ + stack_lines(cpu.stack, true)
    }) + if cpu.call_stack.len() == 0 {
        Seq::empty()
    } else {
        "call stack:\n"@ + call_lines(cpu.call_stack)
    }
}

/// A new machine with `code` loaded at address 0 (as far as memory
/// reaches): the machine the debugger starts with, and the one the reset
/// command goes back to.
pub open spec fn initial_cpu(code: Seq<u8>) -> CpuState {
    CpuState {
        ip: 0,
        stack: Seq::empty(),
        call_stack: Seq::empty(),
        memory: write_bytes(
            Seq::new(MEMORY_SIZE as nat, |i: int| 0u8),
            0,
            code.take(
                if code.len() <= MEMORY_SIZE {
                    code.len() as int
                } else {
                    MEMORY_SIZE as int
                },
            ),
        ),
        halted: false,
        output: Seq::empty(),
        awaiting_input: false,
    }
}

/// The help text.
pub open spec fn help_text() -> Seq<char> {
    "debugger commands:\n  s, step          step one instruction\n  n, next [N]      step N instructions (default 10)\n  r, run, c        run until breakpoint or halt\n  b, break ADDR    set breakpoint at address\n  d, delete [ADDR] delete breakpoint (all if no addr)\n  bl, breaklist    list all breakpoints\n  m, memory [ADDR] [LEN]  show memory\n  w, watch ADDR    watch memory address\n  uw, unwatch ADDR unwatch address\n  x, examine ADDR  examine 64-bit value at address\n  dis [ADDR] [N]   disassemble N instructions\n  st, stack        show stack\n  reg, state       show current state\n  reset            reset VM to initial state\n  q, quit          exit debugger\n\naddresses can be decimal or hex (0x prefix)\npress enter to repeat last command\n"@
}

/// The text shown when the debugger starts.
pub open spec fn start_text_spec(st: DebugState) -> Seq<char> {
    "mini-vm debugger\ntype 'help' for commands\n\n"@ + state_text(st.cpu, st.code)
}

/// A command that leaves the session going with state `st` and text `text`.
pub open spec fn done(st: DebugState, text: Seq<char>) -> CommandOutcome {
    CommandOutcome::Done { state: st, text, keep_going: true }
}

/// `o` with `t` printed before its text.
pub open spec fn text_before(t: Seq<char>, o: CommandOutcome) -> CommandOutcome {
    match o {
        CommandOutcome::Done { state, text, keep_going } => CommandOutcome::Done {
            state,
            text: t + text,
            keep_going,
        },
        CommandOutcome::Panics => CommandOutcome::Panics,
    }
}

/// The machine state and the watches, shown once a command has stepped.
pub open spec fn shown_after_steps(st: DebugState) -> CommandOutcome {
    if watch_overflows(st.watches) {
        CommandOutcome::Panics
    } else {
        done(st, state_text(st.cpu, st.code) + watches_text(st.cpu.memory, st.watches))
    }
}

/// The step command: one instruction, then the state and the watches; at a
/// wait for input, the state and watches are shown once the input has come.
pub open spec fn step_command(st: DebugState) -> CommandOutcome {
    if st.cpu.halted {
        done(st, "program halted\n"@)
    } else if step_faults(st.cpu) {
        CommandOutcome::Panics
    } else {
        let c1 = step_state(st.cpu);
        let st1 = DebugState { cpu: drained(c1), ..st };
        if c1.awaiting_input {
            done(DebugState { pending: Pending::Step, ..st1 }, c1.output)
        } else {
            text_before(c1.output, shown_after_steps(st1))
        }
    }
}

/// `n` steps, then the state and the watches; at a wait for input, the
/// rest goes on once the input has come.
pub open spec fn next_steps(st: DebugState, n: usize) -> CommandOutcome {
    let (c, t, e) = step_n_effect(st.cpu, n);
    let st1 = DebugState { cpu: c, ..st };
    match e {
        StepsEnd::Faulted => CommandOutcome::Panics,
        StepsEnd::Waiting(k) => done(DebugState { pending: Pending::Next(k), ..st1 }, t),
        StepsEnd::Finished => text_before(t, shown_after_steps(st1)),
    }
}

/// The next command: `arg` steps (10 by default).
pub open spec fn next_command(st: DebugState, arg: Option<Seq<char>>) -> CommandOutcome {
    next_steps(st, arg_or(arg, |a: Seq<char>| parse_count(a), 10usize))
}

/// The run command: run to a halt or a breakpoint, then the watches; at a
/// wait for input, the run goes on once the input has come.
pub open spec fn run_command(st: DebugState) -> CommandOutcome {
    let (c, t, e) = run_effect(st.cpu, st.breakpoints, st.code, u64::MAX as nat);
    let st1 = DebugState { cpu: c, ..st };
    match e {
        StepsEnd::Faulted => CommandOutcome::Panics,
        StepsEnd::Waiting(_) => done(DebugState { pending: Pending::Run, ..st1 }, t),
        StepsEnd::Finished => if watch_overflows(st.watches) {
            CommandOutcome::Panics
        } else {
            done(st1, t + watches_text(c.memory, st.watches))
        },
    }
}

/// How the command that waited for input goes on, once the input is in
/// the machine.
pub open spec fn resume_effect(st: DebugState) -> CommandOutcome {
    let st0 = DebugState { pending: Pending::Nothing, ..st };
    match st.pending {
        Pending::Nothing => done(st0, Seq::empty()),
        Pending::Step => shown_after_steps(st0),
        Pending::Next(k) => next_steps(st0, k),
        Pending::Run => run_command(st0),
    }
}

/// What supplying an input byte (`None` at the end of input) does.
pub open spec fn input_byte_effect(st: DebugState, byte: Option<u8>) -> CommandOutcome {
    resume_effect(DebugState { cpu: input_state(st.cpu, byte), ..st })
}

/// The break command: sets a breakpoint.
pub open spec fn break_command(st: DebugState, arg: Option<Seq<char>>) -> CommandOutcome {
    match arg {
        None => done(st, "usage: break <address>\n"@),
        Some(a) => match parse_addr_spec(a) {
            None => done(st, "invalid address: "@ + a + "\n"@),
            Some(x) => done(
                DebugState { breakpoints: st.breakpoints.insert(x), ..st },
                "breakpoint set at 0x"@ + hex4(x as nat) + "\n"@,
            ),
        },
    }
}

/// The delete command: removes one breakpoint, or all without an argument.
pub open spec fn delete_command(st: DebugState, arg: Option<Seq<char>>) -> CommandOutcome {
    match arg {
        None => done(DebugState { breakpoints: Set::empty(), ..st }, "all breakpoints cleared\n"@),
        Some(a) => match parse_addr_spec(a) {
            None => done(st, Seq::empty()),
            Some(x) => if st.breakpoints.contains(x) {
                done(
                    DebugState { breakpoints: st.breakpoints.remove(x), ..st },
                    "breakpoint removed at 0x"@ + hex4(x as nat) + "\n"@,
                )
            } else {
                done(st, "no breakpoint at 0x"@ + hex4(x as nat) + "\n"@)
            },
        },
    }
}

/// The breaklist command.
pub open spec fn list_command(st: DebugState) -> CommandOutcome {
    let bps = sorted_breakpoints(st.breakpoints);
    if bps.len() == 0 {
        done(st, "no breakpoints set\n"@)
    } else {
        done(st, "breakpoints:\n"@ + breakpoint_lines(bps, st.code))
    }
}

/// The watch command: watches an address (once).
pub open spec fn watch_command(st: DebugState, arg: Option<Seq<char>>) -> CommandOutcome {
    match arg {
        None => done(st, "usage: watch <address>\n"@),
        Some(a) => match parse_addr_spec(a) {
            None => done(st, Seq::empty()),
            Some(x) => done(
                DebugState {
                    watches: if st.watches.contains(x) {
                        st.watches
                    } else {
                        st.watches.push(x)
                    },
                    ..st
                },
                "watching 0x"@ + hex4(x as nat) + "\n"@,
            ),
        },
    }
}

/// The unwatch command: stops watching an address, or all without an
/// argument.
pub open spec fn unwatch_command(st: DebugState, arg: Option<Seq<char>>) -> CommandOutcome {
    match arg {
        None => done(DebugState { watches: Seq::empty(), ..st }, "all watches cleared\n"@),
        Some(a) => match parse_addr_spec(a) {
            None => done(st, Seq::empty()),
            Some(x) => done(
                DebugState { watches: st.watches.filter(|y: usize| y != x), ..st },
                "unwatched 0x"@ + hex4(x as nat) + "\n"@,
            ),
        },
    }
}

/// The memory command: a dump of `arg2` bytes (64 by default) from `arg1`
/// (0 by default).
pub open spec fn memory_command(st: DebugState, arg1: Option<Seq<char>>, arg2: Option<Seq<char>>) -> CommandOutcome {
    let start = arg_or(arg1, |a: Seq<char>| parse_addr_spec(a), 0usize) as nat;
    let length = arg_or(arg2, |a: Seq<char>| parse_count(a), 64usize) as nat;
    if dump_overflows(start, length) {
        CommandOutcome::Panics
    } else {
        done(
            st,
            "memory at 0x"@ + hex4(start) + ":\n"@ + dump_rows(
                st.cpu.memory,
                start,
                length,
                0,
                dump_row_total(length),
            ),
        )
    }
}

/// The examine command: the word at an address.
pub open spec fn examine_command(st: DebugState, arg: Option<Seq<char>>) -> CommandOutcome {
    match arg {
        None => done(st, "usage: examine <address>\n"@),
        Some(a) => match parse_addr_spec(a) {
            None => done(st, Seq::empty()),
            Some(x) => if x > usize::MAX - 7 {
                CommandOutcome::Panics
            } else {
                let v = u64_from_le(window(st.cpu.memory, x as int));
                done(
                    st,
                    "0x"@ + hex4(x as nat) + ": "@ + signed_dec(v as i64 as int) + " (0x"@
                        + hex_padded(v as nat, 16) + ")\n"@,
                )
            },
        },
    }
}

/// The disasm command: `arg2` instructions (10 by default) from `arg1` (the
/// instruction pointer by default).
pub open spec fn disasm_command(st: DebugState, arg1: Option<Seq<char>>, arg2: Option<Seq<char>>) -> CommandOutcome {
    let start = arg_or(arg1, |a: Seq<char>| parse_addr_spec(a), st.cpu.ip) as nat;
    let n = arg_or(arg2, |a: Seq<char>| parse_count(a), 10usize) as nat;
    done(st, dis_lines(st, start, n))
}

/// The reset command: the machine the debugger started with, loaded with
/// the code it was given (whatever the program has stored since).
pub open spec fn reset_command(st: DebugState) -> CommandOutcome {
    let c = initial_cpu(st.code);
    done(DebugState { cpu: c, ..st }, "reset to initial state\n"@ + state_text(c, st.code))
}

/// The effect of a command line, split into whitespace-separated words: the
/// first names the command (several have a short form), the next two are
/// its arguments.
pub open spec fn command_effect(st: DebugState, cmd: Seq<char>) -> CommandOutcome {
    match first_token(cmd) {
        None => done(st, Seq::empty()),
        Some(w) => {
            let arg1 = second_token(cmd);
            let arg2 = third_token(cmd);
            if w == "s"@ || w == "step"@ {
                step_command(st)
            } else if w == "n"@ || w == "next"@ {
                next_command(st, arg1)
            } else if w == "r"@ || w == "run"@ || w == "c"@ || w == "continue"@ {
                run_command(st)
            } else if w == "b"@ || w == "break"@ {
                break_command(st, arg1)
            } else if w == "d"@ || w == "delete"@ {
                delete_command(st, arg1)
            } else if w == "bl"@ || w == "breaklist"@ {
                list_command(st)
            } else if w == "m"@ || w == "mem"@ || w == "memory"@ {
                memory_command(st, arg1, arg2)
            } else if w == "w"@ || w == "watch"@ {
                watch_command(st, arg1)
            } else if w == "uw"@ || w == "unwatch"@ {
                unwatch_command(st, arg1)
            } else if w == "x"@ || w == "examine"@ {
                examine_command(st, arg1)
            } else if w == "dis"@ || w == "disasm"@ {
                disasm_command(st, arg1, arg2)
            } else if w == "stack"@ || w == "st"@ {
                done(st, stack_text(st.cpu))
            } else if w == "reg"@ || w == "state"@ {
                done(st, state_text(st.cpu, st.code))
            } else if w == "reset"@ {
                reset_command(st)
            } else if w == "h"@ || w == "help"@ || w == "?"@ {
                done(st, help_text())
            } else if w == "q"@ || w == "quit"@ || w == "exit"@ {
                CommandOutcome::Done { state: st, text: Seq::empty(), keep_going: false }
            } else {
                done(st, "unknown command: "@ + w + ". type 'help' for commands.\n"@)
            }
        },
    }
}

/// The effect of an input line: an empty line (after trimming) repeats the
/// last command, which then cannot end the session; any other line is
/// remembered and executed. A command that waited for input is dropped.
pub open spec fn input_effect(st: DebugState, input: Seq<char>) -> CommandOutcome {
    let st0 = DebugState { pending: Pending::Nothing, ..st };
    let t = trim(input);
    if t.len() == 0 {
        if st0.history.len() == 0 {
            done(st0, Seq::empty())
        } else {
            match command_effect(st0, st0.history.last()) {
                CommandOutcome::Done { state, text, keep_going } => done(state, text),
                CommandOutcome::Panics => CommandOutcome::Panics,
            }
        }
    } else {
        command_effect(DebugState { history: st0.history.push(t), ..st0 }, t)
    }
}

/// An address as the debugger reads it.
fn parse_addr_chars(s: &[char]) -> (r: Option<usize>)
    ensures
        r == parse_addr_spec(s@),
{
    let n = s.len();
    let v = if n >= 2 && s[0] == '0' && (s[1] == 'x' || s[1] == 'X') {
        let digits = crate::scan::sub_chars(s, 2, n);
        parse_unsigned_chars(digits.as_slice(), 16)
    } else {
        parse_unsigned_chars(s, 10)
    };
    match v {
        Some(x) => if x <= usize::MAX as u64 {
            Some(x as usize)
        } else {
            None
        },
        None => None,
    }
}

/// A count as `str::parse::<usize>` reads it.
fn parse_count_chars(s: &[char]) -> (r: Option<usize>)
    ensures
        r == parse_count(s@),
{
    match parse_unsigned_chars(s, 10) {
        Some(x) => if x <= usize::MAX as u64 {
            Some(x as usize)
        } else {
            None
        },
        None => None,
    }
}

/// Inserting `x` into a strictly increasing sequence keeps it strictly
/// increasing and adds exactly `x` to its elements.
proof fn lemma_insert_sorted(s: Seq<usize>, x: usize)
    requires
        strictly_increasing(s),
    ensures
        strictly_increasing(insert_sorted(s, x)),
        insert_sorted(s, x).to_set() == s.to_set().insert(x),
    decreases s.len(),
{
    let r = insert_sorted(s, x);
    if s.len() == 0 {
        assert(r.to_set() =~= s.to_set().insert(x)) by {
            assert(r[0] == x);
        }
    } else if x < s[0] {
        assert(r =~= seq![x] + s);
        assert(r.to_set() =~= s.to_set().insert(x)) by {
            assert forall|y: usize| r.to_set().contains(y) <==> s.to_set().insert(x).contains(y) by {
                if r.contains(y) {
                    let k = choose|k: int| 0 <= k < r.len() && r[k] == y;
                    if k > 0 {
                        assert(s[k - 1] == y);
                    }
                }
                if s.contains(y) {
                    let k = choose|k: int| 0 <= k < s.len() && s[k] == y;
                    assert(r[k + 1] == y);
                }
                if y == x {
                    assert(r[0] == y);
                }
            }
        }
    } else if x == s[0] {
        assert(s.contains(x));
        assert(r.to_set() =~= s.to_set().insert(x));
    } else {
        let t = s.drop_first();
        assert(strictly_increasing(t));
        lemma_insert_sorted(t, x);
        let rt = insert_sorted(t, x);
        assert(r == seq![s[0]] + rt);
        assert forall|i: int, j: int| 0 <= i < j < r.len() implies r[i] < r[j] by {
            if i == 0 {
                assert(rt.to_set().contains(rt[j - 1]));
                assert(t.to_set().insert(x).contains(rt[j - 1]));
                if t.contains(rt[j - 1]) {
                    let k = choose|k: int| 0 <= k < t.len() && t[k] == rt[j - 1];
                    assert(s[k + 1] == t[k]);
                }
            } else {
                assert(r[i] == rt[i - 1] && r[j] == rt[j - 1]);
            }
        }
        assert(r.to_set() =~= s.to_set().insert(x)) by {
            assert forall|y: usize| r.to_set().contains(y) <==> s.to_set().insert(x).contains(y) by {
                if r.contains(y) {
                    let k = choose|k: int| 0 <= k < r.len() && r[k] == y;
                    if k > 0 {
                        assert(rt.contains(y)) by {
                            assert(rt[k - 1] == y);
                        }
                        assert(rt.to_set().contains(y));
                        if t.contains(y) {
                            let m = choose|m: int| 0 <= m < t.len() && t[m] == y;
                            assert(s[m + 1] == y);
                        }
                    } else {
                        assert(s[0] == y);
                    }
                }
                if s.contains(y) {
                    let k = choose|k: int| 0 <= k < s.len() && s[k] == y;
                    if k == 0 {
                        assert(r[0] == y);
                    } else {
                        assert(t[k - 1] == y);
                        assert(t.to_set().insert(x).contains(y));
                        assert(rt.to_set().contains(y));
                        let m = choose|m: int| 0 <= m < rt.len() && rt[m] == y;
                        assert(r[m + 1] == y);
                    }
                }
                if y == x {
                    assert(t.to_set().insert(x).contains(y));
                    assert(rt.to_set().contains(y));
                    let m = choose|m: int| 0 <= m < rt.len() && rt[m] == y;
                    assert(r[m + 1] == y);
                }
            }
        }
    }
}

proof fn lemma_push_to_set(s: Seq<usize>, x: usize)
    ensures
        s.push(x).to_set() == s.to_set().insert(x),
{
    assert forall|y: usize| s.push(x).to_set().contains(y) <==> s.to_set().insert(x).contains(y) by {
        if s.push(x).contains(y) {
            let k = choose|k: int| 0 <= k < s.push(x).len() && s.push(x)[k] == y;
            if k < s.len() {
                assert(s[k] == y);
            }
        }
        if s.contains(y) {
            let k = choose|k: int| 0 <= k < s.len() && s[k] == y;
            assert(s.push(x)[k] == y);
        }
        if y == x {
            assert(s.push(x)[s.len() as int] == y);
        }
    }
    assert(s.push(x).to_set() =~= s.to_set().insert(x));
}

/// `s` sorted by inserting its elements one after another.
spec fn sorted_from(s: Seq<usize>) -> Seq<usize>
    decreases s.len(),
{
    if s.len() == 0 {
        Seq::empty()
    } else {
        insert_sorted(sorted_from(s.drop_last()), s.last())
    }
}

proof fn lemma_sorted_from(s: Seq<usize>)
    ensures
        strictly_increasing(sorted_from(s)),
        sorted_from(s).to_set() == s.to_set(),
    decreases s.len(),
{
    if s.len() == 0 {
        assert(sorted_from(s).to_set() =~= s.to_set());
    } else {
        lemma_sorted_from(s.drop_last());
        lemma_insert_sorted(sorted_from(s.drop_last()), s.last());
        lemma_push_to_set(s.drop_last(), s.last());
        assert(s.drop_last().push(s.last()) =~= s);
    }
}

proof fn lemma_drop_first_to_set(s: Seq<usize>)
    requires
        strictly_increasing(s),
        s.len() > 0,
    ensures
        s.drop_first().to_set() == s.to_set().remove(s[0]),
        forall|y: usize| s.to_set().contains(y) ==> s[0] <= y,
{
    assert forall|y: usize| s.to_set().contains(y) implies s[0] <= y by {
        let k = choose|k: int| 0 <= k < s.len() && s[k] == y;
    }
    assert forall|y: usize| s.drop_first().to_set().contains(y) <==> s.to_set().remove(s[0]).contains(
        y,
    ) by {
        if s.drop_first().contains(y) {
            let k = choose|k: int| 0 <= k < s.drop_first().len() && s.drop_first()[k] == y;
            assert(s[k + 1] == y);
        }
        if s.contains(y) && y != s[0] {
            let k = choose|k: int| 0 <= k < s.len() && s[k] == y;
            assert(s.drop_first()[k - 1] == y);
        }
    }
    assert(s.drop_first().to_set() =~= s.to_set().remove(s[0]));
}

/// Two strictly increasing sequences with the same elements are equal.
proof fn lemma_increasing_unique(s: Seq<usize>, t: Seq<usize>)
    requires
        strictly_increasing(s),
        strictly_increasing(t),
        s.to_set() == t.to_set(),
    ensures
        s == t,
    decreases s.len(),
{
    if s.len() == 0 || t.len() == 0 {
        if t.len() > 0 {
            assert(t.to_set().contains(t[0]));
        }
        if s.len() > 0 {
            assert(s.to_set().contains(s[0]));
        }
        assert(s =~= t);
    } else {
        lemma_drop_first_to_set(s);
        lemma_drop_first_to_set(t);
        assert(s.to_set().contains(s[0]));
        assert(t.to_set().contains(t[0]));
        assert(s[0] == t[0]);
        lemma_increasing_unique(s.drop_first(), t.drop_first());
        assert(s =~= seq![s[0]] + s.drop_first());
        assert(t =~= seq![t[0]] + t.drop_first());
    }
}

/// A finite set of breakpoints is listed each once, in increasing order.
pub proof fn lemma_sorted_breakpoints(bps: Set<usize>)
    requires
        bps.finite(),
    ensures
        strictly_increasing(sorted_breakpoints(bps)),
        sorted_breakpoints(bps).to_set() == bps,
{
    bps.lemma_to_seq_to_set_id();
    lemma_sorted_from(bps.to_seq());
    let w = sorted_from(bps.to_seq());
    assert(strictly_increasing(w) && w.to_set() == bps);
}

/// The elements of `s`, in some order.
fn set_elements(s: &HashSet<usize>) -> (v: Vec<usize>)
    ensures
        v@.to_set() == s@,
{
    let ghost keys = vstd::std_specs::hash::spec_hash_keys_iter(s).remaining().unref();
    let mut v: Vec<usize> = Vec::new();
    for x in it: s.iter()
        invariant
            it.seq().unref() == keys,
            v@ == keys.take(it.index()),
    {
        assert(keys.take(it.index() + 1) =~= keys.take(it.index()).push(*x));
        v.push(*x);
    }
    assert(v@ =~= keys);
    v
}

/// Inserts `x` in its place in `v`.
fn insert_sorted_vec(v: &mut Vec<usize>, x: usize)
    ensures
        final(v)@ == insert_sorted(old(v)@, x),
{
    let n = v.len();
    let mut k: usize = 0;
    while k < n && v[k] < x
        invariant
            k <= n,
            n == v@.len(),
            forall|i: int| 0 <= i < k ==> v@[i] < x,
        decreases n - k,
    {
        k = k + 1;
    }
    proof {
        lemma_insert_sorted_at(v@, x, k as int);
    }
    if k < n && v[k] == x {
    } else {
        let ghost before = v@;
        v.insert(k, x);
        assert(v@ =~= before.take(k as int) + seq![x] + before.skip(k as int));
    }
}

/// The elements of `s` in increasing order.
fn sorted_elements(s: &HashSet<usize>) -> (v: Vec<usize>)
    ensures
        v@ == sorted_breakpoints(s@),
{
    let elems = set_elements(s);
    let mut v: Vec<usize> = Vec::new();
    let mut i: usize = 0;
    while i < elems.len()
        invariant
            i <= elems@.len(),
            strictly_increasing(v@),
            v@.to_set() == elems@.take(i as int).to_set(),
        decreases elems@.len() - i,
    {
        let x = elems[i];
        proof {
            lemma_insert_sorted(v@, x);
            lemma_push_to_set(elems@.take(i as int), x);
            assert(elems@.take(i + 1) =~= elems@.take(i as int).push(x));
        }
        insert_sorted_vec(&mut v, x);
        i = i + 1;
    }
    proof {
        assert(elems@.take(elems@.len() as int) =~= elems@);
        let c = sorted_breakpoints(s@);
        assert(strictly_increasing(c) && c.to_set() == s@);
        lemma_increasing_unique(v@, c);
    }
    v
}

proof fn lemma_filter_keeps_all(s: Seq<usize>, pred: spec_fn(usize) -> bool)
    requires
        forall|k: int| 0 <= k < s.len() ==> pred(#[trigger] s[k]),
    ensures
        s.filter(pred) == s,
    decreases s.len(),
{
    reveal(Seq::filter);
    if s.len() > 0 {
        let t = s.drop_last();
        assert forall|k: int| 0 <= k < t.len() implies pred(#[trigger] t[k]) by {
            assert(t[k] == s[k]);
        }
        lemma_filter_keeps_all(t, pred);
        assert(pred(s[s.len() - 1]));
        assert(t.push(s.last()) =~= s);
    }
}

/// `unwatch ADDR` stops watching ADDR and nothing else: afterwards ADDR is
/// not watched, every other address is watched exactly when it was, the
/// list does not grow, it is unchanged when ADDR was not watched, and the
/// machine and the breakpoints are left alone.
pub proof fn lemma_unwatch_removes(st: DebugState, a: Seq<char>, x: usize)
    requires
        parse_addr_spec(a) == Some(x),
    ensures
        unwatch_command(st, Some(a)) matches CommandOutcome::Done { state, text, keep_going } && {
            &&& keep_going
            &&& !state.watches.contains(x)
            &&& forall|y: usize| y != x ==> (state.watches.contains(y) == st.watches.contains(y))
            &&& state.watches.len() <= st.watches.len()
            &&& !st.watches.contains(x) ==> state.watches == st.watches
            &&& state.cpu == st.cpu
            &&& state.breakpoints == st.breakpoints
        },
{
    let pred = |y: usize| y != x;
    let w = st.watches;
    let f = w.filter(pred);
    w.lemma_filter_len(pred);
    assert(!f.contains(x)) by {
        if f.contains(x) {
            let k = choose|k: int| 0 <= k < f.len() && f[k] == x;
            w.lemma_filter_pred(pred, k);
        }
    }
    assert forall|y: usize| y != x implies (f.contains(y) == w.contains(y)) by {
        if w.contains(y) {
            let k = choose|k: int| 0 <= k < w.len() && w[k] == y;
            w.lemma_filter_contains(pred, k);
        }
        if f.contains(y) {
            w.lemma_filter_contains_rev(pred, y);
        }
    }
    if !w.contains(x) {
        assert forall|k: int| 0 <= k < w.len() implies pred(#[trigger] w[k]) by {
            if w[k] == x {
                assert(w.contains(x));
            }
        }
        lemma_filter_keeps_all(w, pred);
    }
}

/// Appends the machine summary.
fn push_state(cpu: &CPU, disasm: &Disassembler, out: &mut Vec<char>)
    ensures
        final(out)@ == old(out)@ + state_text(cpu@, disasm@.0),
{
    let ghost start = out@;
    push_str(out, "ip: 0x");
    push_hex4(out, cpu.ip as u64);
    push_str(out, "  stack: ");
    push_dec(out, cpu.stack.len() as u64);
    push_str(out, "  status: ");
    if cpu.halted {
        push_str(out, "HALTED");
    } else {
        push_str(out, "running");
    }
    push_str(out, "\n");
    if !cpu.halted {
        match disasm.disassemble_at(cpu.ip) {
            Some((instr, _)) => {
                push_str(out, "next: ");
                push_str(out, instr.as_str());
                push_str(out, "\n");
            },
            None => {},
        }
    }
    assert(out@ =~= start + state_text(cpu@, disasm@.0));
}

/// Executes one instruction and moves what the program printed to `out`.
fn step_collect(cpu: &mut CPU, out: &mut Vec<char>)
    requires
        !step_faults(old(cpu)@),
    ensures
        final(cpu)@ == drained(step_state(old(cpu)@)),
        final(out)@ == old(out)@ + step_state(old(cpu)@).output,
{
    cpu.step();
    let printed = cpu.take_output();
    push_chars(out, printed.as_slice());
}

/// Steps as `step_n_effect` describes, appending its text.
fn step_n_cpu(cpu: &mut CPU, n: usize, out: &mut Vec<char>) -> (end: StepsEnd)
    ensures
        final(cpu)@ == step_n_effect(old(cpu)@, n).0,
        final(out)@ == old(out)@ + step_n_effect(old(cpu)@, n).1,
        end == step_n_effect(old(cpu)@, n).2,
{
    let ghost c0 = cpu@;
    let ghost out0 = out@;
    let mut i: usize = n;
    loop
        invariant
            i <= n,
            c0 == old(cpu)@,
            out0 == old(out)@,
            step_n_effect(c0, n).0 == step_n_effect(cpu@, i).0,
            step_n_effect(c0, n).2 == step_n_effect(cpu@, i).2,
            out0 + step_n_effect(c0, n).1 == out@ + step_n_effect(cpu@, i).1,
        decreases i,
    {
        if cpu.awaiting_input {
            assert(out@ =~= out@ + Seq::<char>::empty());
            return StepsEnd::Waiting(i);
        }
        if i == 0 {
            assert(out@ =~= out@ + Seq::<char>::empty());
            return StepsEnd::Finished;
        }
        if cpu.halted {
            push_str(out, "program halted\n");
            return StepsEnd::Finished;
        }
        if cpu.would_fault() {
            assert(out@ =~= out@ + Seq::<char>::empty());
            return StepsEnd::Faulted;
        }
        let ghost before = out@;
        let ghost c = cpu@;
        step_collect(cpu, out);
        i = i - 1;
        proof {
            assert(step_n_effect(c, (i + 1) as usize).1 == step_state(c).output + step_n_effect(
                drained(step_state(c)),
                i,
            ).1);
            assert(out@ + step_n_effect(cpu@, i).1 =~= before + step_n_effect(
                c,
                (i + 1) as usize,
            ).1);
        }
    }
}

/// Runs as `run_effect` describes with all the fuel there is, appending
/// its text.
fn run_cpu(cpu: &mut CPU, bps: &HashSet<usize>, disasm: &Disassembler, out: &mut Vec<char>) -> (end: StepsEnd)
    ensures
        final(cpu)@ == run_effect(old(cpu)@, bps@, disasm@.0, u64::MAX as nat).0,
        final(out)@ == old(out)@ + run_effect(old(cpu)@, bps@, disasm@.0, u64::MAX as nat).1,
        end == run_effect(old(cpu)@, bps@, disasm@.0, u64::MAX as nat).2,
{
    let ghost c0 = cpu@;
    let ghost out0 = out@;
    let ghost code = disasm@.0;
    let mut fuel: u64 = u64::MAX;
    loop
        invariant
            code == disasm@.0,
            c0 == old(cpu)@,
            out0 == old(out)@,
            run_effect(c0, bps@, code, u64::MAX as nat).0 == run_effect(cpu@, bps@, code, fuel as nat).0,
            run_effect(c0, bps@, code, u64::MAX as nat).2 == run_effect(cpu@, bps@, code, fuel as nat).2,
            out0 + run_effect(c0, bps@, code, u64::MAX as nat).1 == out@ + run_effect(
                cpu@,
                bps@,
                code,
                fuel as nat,
            ).1,
        decreases fuel,
    {
        if cpu.awaiting_input {
            assert(out@ =~= out@ + Seq::<char>::empty());
            return StepsEnd::Waiting(0);
        }
        if cpu.halted {
            push_str(out, "program halted\n");
            return StepsEnd::Finished;
        }
        if bps.contains(&cpu.ip) {
            let ghost before = out@;
            push_str(out, "breakpoint at 0x");
            push_hex4(out, cpu.ip as u64);
            push_str(out, "\n");
            push_state(cpu, disasm, out);
            assert(out@ =~= before + ("breakpoint at 0x"@ + hex4(cpu.ip as nat) + "\n"@ + state_text(
                cpu@,
                code,
            )));
            return StepsEnd::Finished;
        }
        if fuel == 0 {
            assert(out@ =~= out@ + Seq::<char>::empty());
            return StepsEnd::Finished;
        }
        if cpu.would_fault() {
            assert(out@ =~= out@ + Seq::<char>::empty());
            return StepsEnd::Faulted;
        }
        let ghost before = out@;
        let ghost c = cpu@;
        step_collect(cpu, out);
        fuel = fuel - 1;
        proof {
            assert(run_effect(c, bps@, code, (fuel + 1) as nat).1 == step_state(c).output
                + run_effect(drained(step_state(c)), bps@, code, fuel as nat).1);
            assert(out@ + run_effect(cpu@, bps@, code, fuel as nat).1 =~= before + run_effect(
                c,
                bps@,
                code,
                (fuel + 1) as nat,
            ).1);
        }
    }
}

/// The characters of an optional argument.
pub open spec fn arg_view(arg: Option<&Vec<char>>) -> Option<Seq<char>> {
    match arg {
        Some(c) => Some(c@),
        None => None,
    }
}

/// Appends one line per breakpoint.
fn push_breakpoint_lines(bps: &Vec<usize>, disasm: &Disassembler, out: &mut Vec<char>)
    ensures
        final(out)@ == old(out)@ + breakpoint_lines(bps@, disasm@.0),
{
    let ghost start = out@;
    let ghost s = bps@;
    let ghost code = disasm@.0;
    let mut i: usize = 0;
    assert(s.skip(0) =~= s);
    while i < bps.len()
        invariant
            i <= s.len(),
            s == bps@,
            code == disasm@.0,
            out@ + breakpoint_lines(s.skip(i as int), code) == start + breakpoint_lines(s, code),
        decreases s.len() - i,
    {
        let bp = bps[i];
        let ghost before = out@;
        push_str(out, "  0x");
        push_hex4(out, bp as u64);
        match disasm.disassemble_at(bp) {
            Some((instr, _)) => {
                push_str(out, "  ");
                push_str(out, instr.as_str());
            },
            None => {},
        }
        push_str(out, "\n");
        assert(s.skip(i as int)[0] == bp);
        assert(s.skip(i as int).drop_first() =~= s.skip(i + 1));
        i = i + 1;
        assert(out@ + breakpoint_lines(s.skip(i as int), code) =~= before + breakpoint_lines(
            s.skip(i - 1),
            code,
        ));
    }
    assert(s.skip(i as int) =~= Seq::<usize>::empty());
}

/// Whether a dump of `length` bytes from `start` computes an address past
/// `usize::MAX`.
fn dump_would_overflow(start: usize, length: usize) -> (b: bool)
    ensures
        b == dump_overflows(start as nat, length as nat),
{
    length > 0 && usize::MAX - start < length - 1
}

/// Appends the rows of a memory dump.
#[verifier::rlimit(80)]
fn push_dump_rows(mem: &crate::vm::memory::Memory, start: usize, length: usize, out: &mut Vec<char>)
    requires
        !dump_overflows(start as nat, length as nat),
    ensures
        final(out)@ == old(out)@ + dump_rows(
            mem@,
            start as nat,
            length as nat,
            0,
            dump_row_total(length as nat),
        ),
{
    let rows: usize = if length == 0 {
        1
    } else if length % 16 == 0 {
        length / 16
    } else {
        length / 16 + 1
    };
    let ghost m = mem@;
    let ghost out0 = out@;
    let mut r: usize = 0;
    while r < rows
        invariant
            r <= rows,
            rows == dump_row_total(length as nat),
            m == mem@,
            !dump_overflows(start as nat, length as nat),
            out@ + dump_rows(m, start as nat, length as nat, r as nat, rows as nat) == out0 + dump_rows(
                m,
                start as nat,
                length as nat,
                0,
                rows as nat,
            ),
        decreases rows - r,
    {
        assert(r * 16 <= length && (length > 0 ==> r * 16 < length)) by {
            assert(length == (length / 16) * 16 + length % 16);
        }
        let addr = start + r * 16;
        let rem = length - r * 16;
        let count: usize = if rem >= 16 {
            16
        } else {
            rem
        };
        assert(count == row_count(length as nat, r as nat));
        assert(count > 0 ==> addr + count - 1 <= usize::MAX);
        let ghost before = out@;
        push_str(out, "  ");
        push_hex4(out, addr as u64);
        push_str(out, ": ");
        let ghost hex_start = out@;
        let mut col: usize = 0;
        while col < count
            invariant
                col <= count,
                count <= 16,
                count > 0 ==> addr + count - 1 <= usize::MAX,
                m == mem@,
                out@ == hex_start + row_hex(m, addr as int, col as nat),
            decreases count - col,
        {
            let b = mem.read_byte(addr + col);
            push_hex_padded(out, b as u64, 2);
            push_str(out, " ");
            col = col + 1;
            assert(out@ =~= hex_start + row_hex(m, addr as int, col as nat));
        }
        push_str(out, " |");
        let ghost chars_start = out@;
        let mut col: usize = 0;
        while col < count
            invariant
                col <= count,
                count <= 16,
                count > 0 ==> addr + count - 1 <= usize::MAX,
                m == mem@,
                out@ == chars_start + row_chars(m, addr as int, col as nat),
            decreases count - col,
        {
            let b = mem.read_byte(addr + col);
            let c = if b >= 0x20 && b < 0x7f {
                b as char
            } else {
                '.'
            };
            out.push(c);
            col = col + 1;
            assert(out@ =~= chars_start + row_chars(m, addr as int, col as nat));
        }
        push_str(out, "|\n");
        r = r + 1;
        assert(out@ + dump_rows(m, start as nat, length as nat, r as nat, rows as nat) =~= before
            + dump_rows(m, start as nat, length as nat, (r - 1) as nat, rows as nat));
    }
}

/// Appends up to `n` disassembled lines from `addr`.
#[verifier::rlimit(50)]
fn push_dis_lines(dbg: &Debugger, addr: usize, n: usize, out: &mut Vec<char>)
    ensures
        final(out)@ == old(out)@ + dis_lines(dbg@, addr as nat, n as nat),
{
    let ghost st = dbg@;
    let ghost out0 = out@;
    let mut a = addr;
    let mut i: usize = 0;
    while i < n
        invariant_except_break
            i <= n,
            st == dbg@,
            out0 + dis_lines(st, addr as nat, n as nat) == out@ + dis_lines(st, a as nat, (n - i) as nat),
        ensures
            out@ == out0 + dis_lines(st, addr as nat, n as nat),
        decreases n - i,
    {
        match dbg.disasm.disassemble_at(a) {
            Some((instr, size)) => {
                proof {
                    crate::disasm::lemma_disasm_size(st.code, a as int);
                }
                let ghost before = out@;
                let ghost line = (if a == st.cpu.ip {
                    ">"@
                } else {
                    " "@
                }) + (if st.breakpoints.contains(a) {
                    "*"@
                } else {
                    " "@
                }) + " "@ + hex4(a as nat) + ":  "@ + instr@ + "\n"@;
                if a == dbg.cpu.ip {
                    push_str(out, ">");
                } else {
                    push_str(out, " ");
                }
                if dbg.breakpoints.contains(&a) {
                    push_str(out, "*");
                } else {
                    push_str(out, " ");
                }
                push_str(out, " ");
                push_hex4(out, a as u64);
                push_str(out, ":  ");
                push_str(out, instr.as_str());
                push_str(out, "\n");
                assert(out@ =~= before + line);
                let ghost old_a = a;
                assert(dis_lines(st, a as nat, (n - i) as nat) == line + dis_lines(
                    st,
                    (a + size) as nat,
                    (n - i - 1) as nat,
                ));
                a = a + size;
                i = i + 1;
                assert(out@ + dis_lines(st, a as nat, (n - i) as nat) =~= before + (line
                    + dis_lines(st, a as nat, (n - i) as nat)));
            },
            None => {
                assert(out@ =~= out@ + dis_lines(st, a as nat, (n - i) as nat));
                break;
            },
        }
    }
    if i >= n {
        assert(out@ =~= out@ + dis_lines(st, a as nat, 0));
    }
}

/// Appends the text of the stack command.
#[verifier::rlimit(50)]
fn push_stack_text(cpu: &CPU, out: &mut Vec<char>)
    ensures
        final(out)@ == old(out)@ + stack_text(cpu@),
{
    let ghost out0 = out@;
    let n = cpu.stack.len();
    if n == 0 {
        push_str(out, "stack: (empty)\n");
    } else {
        push_str(out, "stack (");
        push_dec(out, n as u64);
        push_str(out, " items):\n");
        let ghost s = cpu.stack@;
        let ghost mid = out@;
        let mut i: usize = n;
        assert(s.take(n as int) =~= s);
        while i > 0
            invariant
                i <= n,
                n == s.len(),
                s == cpu.stack@,
                out@ + stack_lines(s.take(i as int), i == n) == mid + stack_lines(s, true),
            decreases i,
        {
            let v = cpu.stack[i - 1];
            let ghost before = out@;
            let ghost line = "  ["@ + dec_digits((i - 1) as nat) + "] "@ + signed_dec(v as int) + " (0x"@
                + hex_digits((v as u64) as nat) + ")"@ + (if i == n {
                " <- top"@
            } else {
                Seq::empty()
            }) + "\n"@;
            push_str(out, "  [");
            push_dec(out, (i - 1) as u64);
            push_str(out, "] ");
            push_signed_dec(out, v);
            push_str(out, " (0x");
            push_hex(out, v as u64);
            push_str(out, ")");
            if i == n {
                push_str(out, " <- top");
            }
            push_str(out, "\n");
            assert(out@ =~= before + line);
            assert(s.take(i as int).drop_last() =~= s.take(i - 1));
            assert(s.take(i as int).last() == v);
            assert(stack_lines(s.take(i as int), i == n) == line + stack_lines(s.take(i - 1), false));
            i = i - 1;
            assert(out@ + stack_lines(s.take(i as int), i == n) =~= before + (line + stack_lines(
                s.take(i as int),
                false,
            )));
        }
        assert(s.take(0) =~= Seq::<i64>::empty());
    }
    let ghost after_values = out@;
    let m = cpu.call_stack.len();
    if m > 0 {
        push_str(out, "call stack:\n");
        let ghost s = cpu.call_stack@;
        let ghost mid = out@;
        let mut i: usize = m;
        assert(s.take(m as int) =~= s);
        while i > 0
            invariant
                i <= m,
                m == s.len(),
                s == cpu.call_stack@,
                out@ + call_lines(s.take(i as int)) == mid + call_lines(s),
            decreases i,
        {
            let a = cpu.call_stack[i - 1];
            let ghost before = out@;
            push_str(out, "  [");
            push_dec(out, (i - 1) as u64);
            push_str(out, "] 0x");
            push_hex4(out, a as u64);
            push_str(out, "\n");
            assert(s.take(i as int).drop_last() =~= s.take(i - 1));
            assert(s.take(i as int).last() == a);
            i = i - 1;
            assert(out@ + call_lines(s.take(i as int)) =~= before + call_lines(s.take(i + 1)));
        }
        assert(s.take(0) =~= Seq::<usize>::empty());
    }
    assert(out@ =~= out0 + stack_text(cpu@));
}

/// The help text.
fn help() -> (s: &'static str)
    ensures
        s@ == help_text(),
{
    "debugger commands:\n  s, step          step one instruction\n  n, next [N]      step N instructions (default 10)\n  r, run, c        run until breakpoint or halt\n  b, break ADDR    set breakpoint at address\n  d, delete [ADDR] delete breakpoint (all if no addr)\n  bl, breaklist    list all breakpoints\n  m, memory [ADDR] [LEN]  show memory\n  w, watch ADDR    watch memory address\n  uw, unwatch ADDR unwatch address\n  x, examine ADDR  examine 64-bit value at address\n  dis [ADDR] [N]   disassemble N instructions\n  st, stack        show stack\n  reg, state       show current state\n  reset            reset VM to initial state\n  q, quit          exit debugger\n\naddresses can be decimal or hex (0x prefix)\npress enter to repeat last command\n"
}

/// The interactive debugger: a machine, its breakpoints and watches, the
/// code it was loaded with, the commands entered so far and the command
/// that waits for input. Commands and input come in, and their output
/// goes back as text.
pub struct Debugger {
    cpu: CPU,
    breakpoints: HashSet<usize>,
    disasm: Disassembler,
    watches: Vec<usize>,
    history: Vec<String>,
    pending: Pending,
}

impl View for Debugger {
    type V = DebugState;

    closed spec fn view(&self) -> DebugState {
        DebugState {
            cpu: self.cpu@,
            breakpoints: self.breakpoints@,
            code: self.disasm@.0,
            watches: self.watches@,
            history: self.history@.map_values(|h: String| h@),
            pending: self.pending,
        }
    }
}

impl Debugger {
    /// A debugger whose machine has `program` loaded at address 0.
    pub fn new(program: Vec<u8>) -> (d: Self)
        ensures
            d@.cpu == initial_cpu(program@),
            d@.code == program@,
            d@.breakpoints == Set::<usize>::empty(),
            d@.watches == Seq::<usize>::empty(),
            d@.history == Seq::<Seq<char>>::empty(),
            d@.pending == Pending::Nothing,
    {
        let mut cpu = CPU::new();
        cpu.load_program(program.as_slice());
        let disasm = Disassembler::new(program);
        let d = Debugger {
            cpu,
            breakpoints: HashSet::new(),
            disasm,
            watches: Vec::new(),
            history: Vec::new(),
            pending: Pending::Nothing,
        };
        assert(d@.history =~= Seq::<Seq<char>>::empty());
        d
    }

    /// Reads an address: hexadecimal after "0x" or "0X", decimal otherwise.
    pub fn parse_addr(&self, s: &str) -> (r: Option<usize>)
        ensures
            r == parse_addr_spec(s@),
    {
        let c = chars_of(s);
        parse_addr_chars(c.as_slice())
    }

    /// Whether the machine waits for an input byte.
    pub fn needs_input(&self) -> (b: bool)
        ensures
            b == self@.cpu.awaiting_input,
    {
        self.cpu.awaiting_input
    }

    /// Supplies the byte the machine waits for (`None` at the end of input)
    /// and goes on with the command that waited for it; returns the text
    /// that prints, or `None` where that command cannot go on (see
    /// `CommandOutcome::Panics`).
    pub fn provide_input(&mut self, byte: Option<u8>) -> (r: Option<String>)
        ensures
            match input_byte_effect(old(self)@, byte) {
                CommandOutcome::Done { state, text, keep_going } => r matches Some(t) && t@
                    == text && final(self)@ == state,
                CommandOutcome::Panics => r is None,
            },
    {
        self.cpu.provide_input(byte);
        let mut out: Vec<char> = Vec::new();
        let pending = self.pending;
        self.pending = Pending::Nothing;
        let ok = match pending {
            Pending::Nothing => true,
            Pending::Step => self.show_after_steps(&mut out),
            Pending::Next(k) => self.steps_then_show(k, &mut out),
            Pending::Run => self.cmd_run(&mut out),
        };
        if ok {
            Some(string_from_chars(out.as_slice()))
        } else {
            None
        }
    }

    fn push_state_text(&self, out: &mut Vec<char>)
        ensures
            final(out)@ == old(out)@ + state_text(self@.cpu, self@.code),
    {
        push_state(&self.cpu, &self.disasm, out);
    }

    #[verifier::rlimit(50)]
    fn push_watches_text(&self, out: &mut Vec<char>)
        requires
            !watch_overflows(self@.watches),
        ensures
            final(out)@ == old(out)@ + watches_text(self@.cpu.memory, self@.watches),
    {
        let n = self.watches.len();
        if n == 0 {
            assert(out@ =~= old(out)@ + watches_text(self@.cpu.memory, self@.watches));
            return;
        }
        let ghost ws = self@.watches;
        let ghost mem = self@.cpu.memory;
        push_str(out, "watches:\n");
        let ghost start = out@;
        let mut i: usize = 0;
        assert(ws.skip(0) =~= ws);
        while i < n
            invariant
                i <= n,
                n == ws.len(),
                ws == self@.watches,
                mem == self@.cpu.memory,
                !watch_overflows(ws),
                out@ + watch_lines(mem, ws.skip(i as int)) == start + watch_lines(mem, ws),
            decreases n - i,
        {
            let a = self.watches[i];
            assert(!(ws[i as int] > usize::MAX - 7));
            let val = self.cpu.memory.read_u64(a);
            let ghost before = out@;
            push_str(out, "  0x");
            push_hex4(out, a as u64);
            push_str(out, " = ");
            push_signed_dec(out, val as i64);
            push_str(out, " (0x");
            push_hex(out, val);
            push_str(out, ")\n");
            assert(ws.skip(i as int)[0] == a);
            assert(ws.skip(i as int).drop_first() =~= ws.skip(i + 1));
            i = i + 1;
            assert(out@ + watch_lines(mem, ws.skip(i as int)) =~= before + watch_lines(
                mem,
                ws.skip(i - 1),
            ));
        }
        assert(ws.skip(n as int) =~= Seq::<usize>::empty());
        assert(out@ =~= old(out)@ + watches_text(self@.cpu.memory, self@.watches));
    }

    /// Shows the machine state and the watches.
    fn show_after_steps(&self, out: &mut Vec<char>) -> (ok: bool)
        ensures
            match shown_after_steps(self@) {
                CommandOutcome::Done { state, text, keep_going } => ok && final(out)@ == old(out)@
                    + text,
                CommandOutcome::Panics => !ok,
            },
    {
        if self.watches_overflow() {
            return false;
        }
        let ghost start = out@;
        self.push_state_text(out);
        self.push_watches_text(out);
        assert(out@ =~= start + (state_text(self@.cpu, self@.code) + watches_text(
            self@.cpu.memory,
            self@.watches,
        )));
        true
    }

    fn cmd_step(&mut self, out: &mut Vec<char>) -> (ok: bool)
        ensures
            match step_command(old(self)@) {
                CommandOutcome::Done { state, text, keep_going } => ok && final(self)@ == state
                    && final(out)@ == old(out)@ + text,
                CommandOutcome::Panics => !ok,
            },
    {
        if self.cpu.halted {
            push_str(out, "program halted\n");
            return true;
        }
        if self.cpu.would_fault() {
            return false;
        }
        let ghost c1 = step_state(self@.cpu);
        let ghost start = out@;
        step_collect(&mut self.cpu, out);
        if self.cpu.awaiting_input {
            self.pending = Pending::Step;
            return true;
        }
        assert(state_text(drained(c1), self@.code) == state_text(c1, self@.code));
        let ok = self.show_after_steps(out);
        proof {
            if ok {
                assert(out@ =~= start + (c1.output + (state_text(self@.cpu, self@.code)
                    + watches_text(self@.cpu.memory, self@.watches))));
            }
        }
        ok
    }

    /// Whether some watch would read past `usize::MAX`.
    fn watches_overflow(&self) -> (b: bool)
        ensures
            b == watch_overflows(self@.watches),
    {
        let mut i: usize = 0;
        while i < self.watches.len()
            invariant
                i <= self.watches@.len(),
                forall|k: int| 0 <= k < i ==> !(self.watches@[k] > usize::MAX - 7),
            decreases self.watches@.len() - i,
        {
            if self.watches[i] > usize::MAX - 7 {
                return true;
            }
            i = i + 1;
        }
        false
    }
}

impl Debugger {
    /// `n` steps, then the state and the watches.
    fn steps_then_show(&mut self, n: usize, out: &mut Vec<char>) -> (ok: bool)
        ensures
            match next_steps(old(self)@, n) {
                CommandOutcome::Done { state, text, keep_going } => ok && final(self)@ == state
                    && final(out)@ == old(out)@ + text,
                CommandOutcome::Panics => !ok,
            },
    {
        let ghost start = out@;
        match step_n_cpu(&mut self.cpu, n, out) {
            StepsEnd::Faulted => false,
            StepsEnd::Waiting(k) => {
                self.pending = Pending::Next(k);
                true
            },
            StepsEnd::Finished => {
                let ghost mid = out@;
                let ok = self.show_after_steps(out);
                proof {
                    if ok {
                        assert(out@ =~= start + (step_n_effect(old(self)@.cpu, n).1 + (state_text(
                            self@.cpu,
                            self@.code,
                        ) + watches_text(self@.cpu.memory, self@.watches))));
                    }
                }
                ok
            },
        }
    }

    fn cmd_step_n(&mut self, count: Option<&Vec<char>>, out: &mut Vec<char>) -> (ok: bool)
        ensures
            match next_command(old(self)@, arg_view(count)) {
                CommandOutcome::Done { state, text, keep_going } => ok && final(self)@ == state
                    && final(out)@ == old(out)@ + text,
                CommandOutcome::Panics => !ok,
            },
    {
        let n: usize = match count {
            Some(c) => match parse_count_chars(c.as_slice()) {
                Some(v) => v,
                None => 10,
            },
            None => 10,
        };
        self.steps_then_show(n, out)
    }
}

/// Whether `v` holds `x`.
fn contains_usize(v: &Vec<usize>, x: usize) -> (r: bool)
    ensures
        r == v@.contains(x),
{
    let mut i: usize = 0;
    while i < v.len()
        invariant
            i <= v@.len(),
            forall|k: int| 0 <= k < i ==> v@[k] != x,
        decreases v@.len() - i,
    {
        if v[i] == x {
            return true;
        }
        i = i + 1;
    }
    false
}

proof fn lemma_insert_sorted_at(s: Seq<usize>, x: usize, k: int)
    requires
        0 <= k <= s.len(),
        forall|i: int| 0 <= i < k ==> s[i] < x,
        k == s.len() || s[k] >= x,
    ensures
        insert_sorted(s, x) == (if k < s.len() && s[k] == x {
            s
        } else {
            s.take(k) + seq![x] + s.skip(k)
        }),
    decreases k,
{
    if k == 0 {
        assert(s.take(0) + seq![x] + s.skip(0) =~= seq![x] + s);
    } else {
        let t = s.drop_first();
        lemma_insert_sorted_at(t, x, k - 1);
        if k - 1 < t.len() && t[k - 1] == x {
        } else {
            assert(seq![s[0]] + (t.take(k - 1) + seq![x] + t.skip(k - 1)) =~= s.take(k) + seq![x]
                + s.skip(k));
        }
    }
}

impl Debugger {
    fn cmd_run(&mut self, out: &mut Vec<char>) -> (ok: bool)
        ensures
            match run_command(old(self)@) {
                CommandOutcome::Done { state, text, keep_going } => ok && final(self)@ == state
                    && final(out)@ == old(out)@ + text,
                CommandOutcome::Panics => !ok,
            },
    {
        let ghost start = out@;
        match run_cpu(&mut self.cpu, &self.breakpoints, &self.disasm, out) {
            StepsEnd::Faulted => false,
            StepsEnd::Waiting(_) => {
                self.pending = Pending::Run;
                true
            },
            StepsEnd::Finished => {
                if self.watches_overflow() {
                    return false;
                }
                self.push_watches_text(out);
                true
            },
        }
    }

    fn cmd_breakpoint(&mut self, arg: Option<&Vec<char>>, out: &mut Vec<char>)
        ensures
            match break_command(old(self)@, match arg { Some(c) => Some(c@), None => None }) {
                CommandOutcome::Done { state, text, keep_going } => final(self)@ == state
                    && final(out)@ == old(out)@ + text,
                CommandOutcome::Panics => false,
            },
    {
        let ghost out0 = out@;
        match arg {
            None => {
                push_str(out, "usage: break <address>\n");
            },
            Some(a) => match parse_addr_chars(a.as_slice()) {
                None => {
                    push_str(out, "invalid address: ");
                    push_chars(out, a.as_slice());
                    push_str(out, "\n");
                },
                Some(x) => {
                    self.breakpoints.insert(x);
                    push_str(out, "breakpoint set at 0x");
                    push_hex4(out, x as u64);
                    push_str(out, "\n");
                },
            },
        }
    }
}

impl Debugger {
    fn cmd_delete_breakpoint(&mut self, arg: Option<&Vec<char>>, out: &mut Vec<char>)
        ensures
            match delete_command(old(self)@, arg_view(arg)) {
                CommandOutcome::Done { state, text, keep_going } => final(self)@ == state
                    && final(out)@ == old(out)@ + text,
                CommandOutcome::Panics => false,
            },
    {
        match arg {
            None => {
                self.breakpoints.clear();
                push_str(out, "all breakpoints cleared\n");
                assert(self@ == (DebugState { breakpoints: Set::empty(), ..old(self)@ }));
            },
            Some(a) => match parse_addr_chars(a.as_slice()) {
                None => {
                    assert(out@ =~= old(out)@ + Seq::<char>::empty());
                },
                Some(x) => {
                    let removed = self.breakpoints.remove(&x);
                    assert(self@.breakpoints == old(self)@.breakpoints.remove(x));
                    if removed {
                        push_str(out, "breakpoint removed at 0x");
                        push_hex4(out, x as u64);
                        push_str(out, "\n");
                    } else {
                        assert(self@.breakpoints =~= old(self)@.breakpoints);
                        push_str(out, "no breakpoint at 0x");
                        push_hex4(out, x as u64);
                        push_str(out, "\n");
                    }
                },
            },
        }
    }

    fn cmd_list_breakpoints(&self, out: &mut Vec<char>)
        ensures
            match list_command(self@) {
                CommandOutcome::Done { state, text, keep_going } => final(out)@ == old(out)@ + text,
                CommandOutcome::Panics => false,
            },
    {
        let bps = sorted_elements(&self.breakpoints);
        if bps.len() == 0 {
            push_str(out, "no breakpoints set\n");
        } else {
            let ghost before = out@;
            push_str(out, "breakpoints:\n");
            push_breakpoint_lines(&bps, &self.disasm, out);
            assert(out@ =~= before + ("breakpoints:\n"@ + breakpoint_lines(bps@, self@.code)));
        }
    }

    fn cmd_watch(&mut self, arg: Option<&Vec<char>>, out: &mut Vec<char>)
        ensures
            match watch_command(old(self)@, arg_view(arg)) {
                CommandOutcome::Done { state, text, keep_going } => final(self)@ == state
                    && final(out)@ == old(out)@ + text,
                CommandOutcome::Panics => false,
            },
    {
        match arg {
            None => {
                push_str(out, "usage: watch <address>\n");
            },
            Some(a) => match parse_addr_chars(a.as_slice()) {
                None => {
                    assert(out@ =~= old(out)@ + Seq::<char>::empty());
                },
                Some(x) => {
                    if !contains_usize(&self.watches, x) {
                        self.watches.push(x);
                    }
                    push_str(out, "watching 0x");
                    push_hex4(out, x as u64);
                    push_str(out, "\n");
                },
            },
        }
    }

    fn cmd_unwatch(&mut self, arg: Option<&Vec<char>>, out: &mut Vec<char>)
        ensures
            match unwatch_command(old(self)@, arg_view(arg)) {
                CommandOutcome::Done { state, text, keep_going } => final(self)@ == state
                    && final(out)@ == old(out)@ + text,
                CommandOutcome::Panics => false,
            },
    {
        match arg {
            None => {
                self.watches.clear();
                push_str(out, "all watches cleared\n");
            },
            Some(a) => match parse_addr_chars(a.as_slice()) {
                None => {
                    assert(out@ =~= old(out)@ + Seq::<char>::empty());
                },
                Some(x) => {
                    let ghost ws = self.watches@;
                    let ghost keep = |y: usize| y != x;
                    let mut kept: Vec<usize> = Vec::new();
                    let mut i: usize = 0;
                    assert(ws.take(0) =~= Seq::<usize>::empty());
                    while i < self.watches.len()
                        invariant
                            forall|y: usize| #[trigger] keep(y) == (y != x),
                            i <= ws.len(),
                            ws == self.watches@,
                            kept@ == ws.take(i as int).filter(keep),
                        decreases ws.len() - i,
                    {
                        let w = self.watches[i];
                        proof {
                            ws.take(i as int).lemma_filter_push(w, keep);
                            assert(ws.take(i + 1) =~= ws.take(i as int).push(w));
                            assert(keep(w) == (w != x));
                        }
                        if w != x {
                            kept.push(w);
                        }
                        i = i + 1;
                    }
                    assert(ws.take(ws.len() as int) =~= ws);
                    assert(keep =~= (|y: usize| y != x));
                    self.watches = kept;
                    push_str(out, "unwatched 0x");
                    push_hex4(out, x as u64);
                    push_str(out, "\n");
                },
            },
        }
    }

    #[verifier::rlimit(40)]
    fn cmd_memory(&self, start: Option<&Vec<char>>, len: Option<&Vec<char>>, out: &mut Vec<char>) -> (ok: bool)
        ensures
            match memory_command(self@, arg_view(start), arg_view(len)) {
                CommandOutcome::Done { state, text, keep_going } => ok && final(out)@ == old(out)@ + text,
                CommandOutcome::Panics => !ok,
            },
    {
        let start_addr: usize = match start {
            Some(s) => match parse_addr_chars(s.as_slice()) {
                Some(v) => v,
                None => 0,
            },
            None => 0,
        };
        let length: usize = match len {
            Some(s) => match parse_count_chars(s.as_slice()) {
                Some(v) => v,
                None => 64,
            },
            None => 64,
        };
        if dump_would_overflow(start_addr, length) {
            return false;
        }
        let ghost before = out@;
        push_str(out, "memory at 0x");
        push_hex4(out, start_addr as u64);
        push_str(out, ":\n");
        push_dump_rows(&self.cpu.memory, start_addr, length, out);
        assert(out@ =~= before + ("memory at 0x"@ + hex4(start_addr as nat) + ":\n"@ + dump_rows(
            self@.cpu.memory,
            start_addr as nat,
            length as nat,
            0,
            dump_row_total(length as nat),
        )));
        true
    }

    fn cmd_examine(&self, arg: Option<&Vec<char>>, out: &mut Vec<char>) -> (ok: bool)
        ensures
            match examine_command(self@, arg_view(arg)) {
                CommandOutcome::Done { state, text, keep_going } => ok && final(out)@ == old(out)@ + text,
                CommandOutcome::Panics => !ok,
            },
    {
        match arg {
            None => {
                push_str(out, "usage: examine <address>\n");
                true
            },
            Some(a) => match parse_addr_chars(a.as_slice()) {
                None => {
                    assert(out@ =~= old(out)@ + Seq::<char>::empty());
                    true
                },
                Some(x) => {
                    if x > usize::MAX - 7 {
                        return false;
                    }
                    let val = self.cpu.memory.read_u64(x);
                    let ghost before = out@;
                    push_str(out, "0x");
                    push_hex4(out, x as u64);
                    push_str(out, ": ");
                    push_signed_dec(out, val as i64);
                    push_str(out, " (0x");
                    push_hex_padded(out, val, 16);
                    push_str(out, ")\n");
                    true
                },
            },
        }
    }

    fn cmd_disasm(&self, start: Option<&Vec<char>>, count: Option<&Vec<char>>, out: &mut Vec<char>)
        ensures
            match disasm_command(self@, arg_view(start), arg_view(count)) {
                CommandOutcome::Done { state, text, keep_going } => final(out)@ == old(out)@ + text,
                CommandOutcome::Panics => false,
            },
    {
        let start_addr: usize = match start {
            Some(s) => match parse_addr_chars(s.as_slice()) {
                Some(v) => v,
                None => self.cpu.ip,
            },
            None => self.cpu.ip,
        };
        let n: usize = match count {
            Some(s) => match parse_count_chars(s.as_slice()) {
                Some(v) => v,
                None => 10,
            },
            None => 10,
        };
        push_dis_lines(self, start_addr, n, out);
    }

    fn cmd_reset(&mut self, out: &mut Vec<char>)
        ensures
            match reset_command(old(self)@) {
                CommandOutcome::Done { state, text, keep_going } => final(self)@ == state
                    && final(out)@ == old(out)@ + text,
                CommandOutcome::Panics => false,
            },
    {
        let mut cpu = CPU::new();
        cpu.load_program(self.disasm.code());
        self.cpu = cpu;
        let ghost before = out@;
        push_str(out, "reset to initial state\n");
        self.push_state_text(out);
    }
}

impl Debugger {
    /// Executes one command line and appends what it prints; `None` on the
    /// commands of `CommandOutcome::Panics`, otherwise whether the session
    /// goes on.
    #[verifier::rlimit(60)]
    fn execute_command(&mut self, cmd: &[char], out: &mut Vec<char>) -> (r: Option<bool>)
        ensures
            match command_effect(old(self)@, cmd@) {
                CommandOutcome::Done { state, text, keep_going } => r == Some(keep_going)
                    && final(self)@ == state && final(out)@ == old(out)@ + text,
                CommandOutcome::Panics => r is None,
            },
    {
        let (t0, t1, t2) = tokens3(cmd);
        let w = match t0 {
            Some(w) => w,
            None => {
                assert(out@ =~= old(out)@ + Seq::<char>::empty());
                return Some(true);
            },
        };
        let arg1 = t1.as_ref();
        let arg2 = t2.as_ref();
        assert(arg_view(arg1) == second_token(cmd@));
        assert(arg_view(arg2) == third_token(cmd@));
        let w = w.as_slice();
        if is_word(w, "s") || is_word(w, "step") {
            if self.cmd_step(out) {
                Some(true)
            } else {
                None
            }
        } else if is_word(w, "n") || is_word(w, "next") {
            if self.cmd_step_n(arg1, out) {
                Some(true)
            } else {
                None
            }
        } else if is_word(w, "r") || is_word(w, "run") || is_word(w, "c") || is_word(w, "continue") {
            if self.cmd_run(out) {
                Some(true)
            } else {
                None
            }
        } else if is_word(w, "b") || is_word(w, "break") {
            self.cmd_breakpoint(arg1, out);
            Some(true)
        } else if is_word(w, "d") || is_word(w, "delete") {
            self.cmd_delete_breakpoint(arg1, out);
            Some(true)
        } else if is_word(w, "bl") || is_word(w, "breaklist") {
            self.cmd_list_breakpoints(out);
            Some(true)
        } else if is_word(w, "m") || is_word(w, "mem") || is_word(w, "memory") {
            if self.cmd_memory(arg1, arg2, out) {
                Some(true)
            } else {
                None
            }
        } else if is_word(w, "w") || is_word(w, "watch") {
            self.cmd_watch(arg1, out);
            Some(true)
        } else if is_word(w, "uw") || is_word(w, "unwatch") {
            self.cmd_unwatch(arg1, out);
            Some(true)
        } else if is_word(w, "x") || is_word(w, "examine") {
            if self.cmd_examine(arg1, out) {
                Some(true)
            } else {
                None
            }
        } else if is_word(w, "dis") || is_word(w, "disasm") {
            self.cmd_disasm(arg1, arg2, out);
            Some(true)
        } else if is_word(w, "stack") || is_word(w, "st") {
            push_stack_text(&self.cpu, out);
            Some(true)
        } else if is_word(w, "reg") || is_word(w, "state") {
            self.push_state_text(out);
            Some(true)
        } else if is_word(w, "reset") {
            self.cmd_reset(out);
            Some(true)
        } else if is_word(w, "h") || is_word(w, "help") || is_word(w, "?") {
            push_str(out, help());
            Some(true)
        } else if is_word(w, "q") || is_word(w, "quit") || is_word(w, "exit") {
            assert(out@ =~= old(out)@ + Seq::<char>::empty());
            Some(false)
        } else {
            push_str(out, "unknown command: ");
            push_chars(out, w);
            push_str(out, ". type 'help' for commands.\n");
            Some(true)
        }
    }

    /// Handles one line typed at the prompt: returns whether the session goes
    /// on and the text to print, or `None` on a command on which the
    /// session cannot go on (see `CommandOutcome::Panics`).
    pub fn handle_input(&mut self, input: &str) -> (r: Option<(bool, String)>)
        ensures
            match input_effect(old(self)@, input@) {
                CommandOutcome::Done { state, text, keep_going } => r matches Some((k, t)) && k
                    == keep_going && t@ == text && final(self)@ == state,
                CommandOutcome::Panics => r is None,
            },
    {
        self.pending = Pending::Nothing;
        let chars = chars_of(input);
        let t = trim_chars(chars.as_slice());
        let mut out: Vec<char> = Vec::new();
        if t.len() == 0 {
            let n = self.history.len();
            if n == 0 {
                return Some((true, String::new()));
            }
            let last = chars_of(self.history[n - 1].as_str());
            assert(last@ == self@.history.last());
            match self.execute_command(last.as_slice(), &mut out) {
                None => None,
                Some(_) => Some((true, string_from_chars(out.as_slice()))),
            }
        } else {
            let line = string_from_chars(t.as_slice());
            let ghost before = self.history@;
            self.history.push(line);
            assert(self.history@.map_values(|h: String| h@) =~= before.map_values(|h: String| h@).push(
                t@,
            ));
            match self.execute_command(t.as_slice(), &mut out) {
                None => None,
                Some(k) => Some((k, string_from_chars(out.as_slice()))),
            }
        }
    }

    /// The text shown when the session starts: a greeting and the machine
    /// state.
    pub fn start_text(&self) -> (s: String)
        ensures
            s@ == start_text_spec(self@),
    {
        let mut out: Vec<char> = Vec::new();
        push_str(&mut out, "mini-vm debugger\ntype 'help' for commands\n\n");
        self.push_state_text(&mut out);
        string_from_chars(out.as_slice())
    }
}

} // verus!
