# mini-vm

A stack-based virtual machine with an assembler, a disassembler and an
interactive debugger. The library under `src/` is written in Verus: every
function carries a contract and the laws of the machine are proved.

- `src/vm/` — the machine: `opcode` (the byte encoding of the operations;
  0x60 followed by a trap code selects an I/O trap), `memory` (64 KiB of
  little-endian byte memory), `cpu` (the step function as a state-transition
  specification; a step that would overflow an address or divide
  `i64::MIN` by -1 is a fault, which `would_fault` detects and `step` and
  `run` rule out), `trap` (the I/O services: output is collected as text,
  input is requested from whoever runs the machine), `stack`, `instruction`
  (a separate 32-bit register encoding).
- `src/assembler.rs` — assembly text to machine code, with labels, numbers in
  decimal or hexadecimal, and `db` data.
- `src/disasm.rs` — machine code back to text.
- `src/debugger.rs` — the debugger's commands, as a function from the
  debugger state and an input line to the next state and the text to print;
  a command that reaches the program's `getc` waits, and goes on once the
  input byte is supplied.
- `src/scan.rs`, `src/text.rs` — whitespace-separated tokens and number
  formatting.
- `app/main.rs` — the command-line program: files, terminal input and output.

Usage: `mini-vm asm program.asm -o program.bin`, `mini-vm run program.bin`,
`mini-vm disasm program.bin`, `mini-vm debug program.bin`.
