use mini_vm::assembler::Assembler;
use mini_vm::debugger::Debugger;

fn program(src: &str) -> Vec<u8> {
    Assembler::new().assemble(src).unwrap()
}

fn run(d: &mut Debugger, line: &str) -> (bool, String) {
    d.handle_input(line).expect("command should not fail")
}

#[test]
fn start_shows_state_and_next_instruction() {
    let d = Debugger::new(program("push 5\nhalt"));
    assert_eq!(
        d.start_text(),
        "mini-vm debugger\ntype 'help' for commands\n\nip: 0x0000  stack: 0  status: running\nnext: push 5\n"
    );
}

#[test]
fn step_and_repeat_last_command() {
    let mut d = Debugger::new(program("push 5\npush -2\nhalt"));
    assert_eq!(run(&mut d, "s"), (true, "ip: 0x0009  stack: 1  status: running\nnext: push -2\n".to_string()));
    assert_eq!(run(&mut d, "   "), (true, "ip: 0x0012  stack: 2  status: running\nnext: halt\n".to_string()));
    assert_eq!(run(&mut d, "step"), (true, "ip: 0x0013  stack: 2  status: HALTED\n".to_string()));
    assert_eq!(run(&mut d, "s"), (true, "program halted\n".to_string()));
}

#[test]
fn next_with_count_and_default() {
    let mut d = Debugger::new(program("nop\nnop\nnop\nhalt"));
    assert_eq!(run(&mut d, "n 2"), (true, "ip: 0x0002  stack: 0  status: running\nnext: nop\n".to_string()));
    assert_eq!(run(&mut d, "next"), (true, "program halted\nip: 0x0004  stack: 0  status: HALTED\n".to_string()));
}

#[test]
fn breakpoints_run_and_list() {
    let mut d = Debugger::new(program("nop\nnop\npush 1\nhalt"));
    assert_eq!(run(&mut d, "b 0x2"), (true, "breakpoint set at 0x0002\n".to_string()));
    assert_eq!(run(&mut d, "b 1"), (true, "breakpoint set at 0x0001\n".to_string()));
    assert_eq!(run(&mut d, "b zz"), (true, "invalid address: zz\n".to_string()));
    assert_eq!(run(&mut d, "b"), (true, "usage: break <address>\n".to_string()));
    assert_eq!(
        run(&mut d, "bl"),
        (true, "breakpoints:\n  0x0001  nop\n  0x0002  push 1\n".to_string())
    );
    assert_eq!(
        run(&mut d, "r"),
        (true, "breakpoint at 0x0001\nip: 0x0001  stack: 0  status: running\nnext: nop\n".to_string())
    );
    assert_eq!(run(&mut d, "d 1"), (true, "breakpoint removed at 0x0001\n".to_string()));
    assert_eq!(run(&mut d, "d 7"), (true, "no breakpoint at 0x0007\n".to_string()));
    assert_eq!(run(&mut d, "d"), (true, "all breakpoints cleared\n".to_string()));
    assert_eq!(run(&mut d, "bl"), (true, "no breakpoints set\n".to_string()));
    assert_eq!(run(&mut d, "c"), (true, "program halted\n".to_string()));
}

#[test]
fn watches_and_examine() {
    let mut d = Debugger::new(program("push 7\npush 100\nstore\nhalt"));
    assert_eq!(run(&mut d, "w 100"), (true, "watching 0x0064\n".to_string()));
    assert_eq!(run(&mut d, "w 100"), (true, "watching 0x0064\n".to_string()));
    assert_eq!(
        run(&mut d, "run"),
        (true, "program halted\nwatches:\n  0x0064 = 7 (0x7)\n".to_string())
    );
    assert_eq!(run(&mut d, "x 100"), (true, "0x0064: 7 (0x0000000000000007)\n".to_string()));
    assert_eq!(run(&mut d, "x"), (true, "usage: examine <address>\n".to_string()));
    assert_eq!(run(&mut d, "uw 100"), (true, "unwatched 0x0064\n".to_string()));
    assert_eq!(run(&mut d, "uw"), (true, "all watches cleared\n".to_string()));
    assert!(d.handle_input("x 18446744073709551615").is_none());
}

#[test]
fn memory_dump() {
    let mut d = Debugger::new(program("db \"Hi!\"\ndb 0x7f"));
    assert_eq!(
        run(&mut d, "m 0 5"),
        (true, "memory at 0x0000:\n  0000: 48 69 21 00 7f  |Hi!..|\n".to_string())
    );
    let (_, text) = run(&mut d, "memory 0x10 32");
    assert_eq!(
        text,
        "memory at 0x0010:\n  0010: 00 00 00 00 00 00 00 00 00 00 00 00 00 00 00 00  |................|\n  0020: 00 00 00 00 00 00 00 00 00 00 00 00 00 00 00 00  |................|\n"
    );
    assert_eq!(run(&mut d, "m 0 0"), (true, "memory at 0x0000:\n  0000:  ||\n".to_string()));
    assert_eq!(
        run(&mut d, "m 0 20"),
        (
            true,
            "memory at 0x0000:\n  0000: 48 69 21 00 7f 00 00 00 00 00 00 00 00 00 00 00  |Hi!.............|\n  0010: 00 00 00 00  |....|\n"
                .to_string()
        )
    );
    assert_eq!(
        run(&mut d, "m 18446744073709551615 1"),
        (true, "memory at 0xffffffffffffffff:\n  ffffffffffffffff: 00  |.|\n".to_string())
    );
    assert!(d.handle_input("m 18446744073709551615 2").is_none());
}

#[test]
fn reset_restores_the_loaded_code() {
    let mut d = Debugger::new(program("push 7\npush 0\nstore\nhalt"));
    assert_eq!(run(&mut d, "m 0 1"), (true, "memory at 0x0000:\n  0000: 02  |.|\n".to_string()));
    run(&mut d, "r");
    assert_eq!(run(&mut d, "m 0 1"), (true, "memory at 0x0000:\n  0000: 07  |.|\n".to_string()));
    run(&mut d, "reset");
    assert_eq!(run(&mut d, "m 0 1"), (true, "memory at 0x0000:\n  0000: 02  |.|\n".to_string()));
}

#[test]
fn disassembly_and_stack() {
    let mut d = Debugger::new(program("push 3\ncall f\nhalt\nf:\nret"));
    assert_eq!(run(&mut d, "b 19"), (true, "breakpoint set at 0x0013\n".to_string()));
    assert_eq!(
        run(&mut d, "dis"),
        (true, ">  0000:  push 3\n   0009:  call 0x0013\n   0012:  halt\n * 0013:  ret\n".to_string())
    );
    assert_eq!(run(&mut d, "dis 18 1"), (true, "   0012:  halt\n".to_string()));
    assert_eq!(run(&mut d, "st"), (true, "stack: (empty)\n".to_string()));
    run(&mut d, "n 2");
    assert_eq!(
        run(&mut d, "stack"),
        (true, "stack (1 items):\n  [0] 3 (0x3) <- top\ncall stack:\n  [0] 0x0012\n".to_string())
    );
}

#[test]
fn reset_help_quit_unknown() {
    let mut d = Debugger::new(program("push 1\nhalt"));
    run(&mut d, "r");
    assert_eq!(
        run(&mut d, "reset"),
        (true, "reset to initial state\nip: 0x0000  stack: 0  status: running\nnext: push 1\n".to_string())
    );
    let (_, help) = run(&mut d, "help");
    assert!(help.starts_with("debugger commands:\n  s, step"));
    assert!(help.ends_with("press enter to repeat last command\n"));
    assert_eq!(run(&mut d, "frob"), (true, "unknown command: frob. type 'help' for commands.\n".to_string()));
    assert_eq!(run(&mut d, "q"), (false, String::new()));
    assert_eq!(run(&mut d, ""), (true, String::new()));
}

#[test]
fn program_output_and_input_in_debugger() {
    let mut d = Debugger::new(program("push 65\nputc\ngetc\nputc\nhalt"));
    assert_eq!(run(&mut d, "n 2"), (true, "Aip: 0x000b  stack: 0  status: running\nnext: getc\n".to_string()));
    assert_eq!(run(&mut d, "s"), (true, String::new()));
    assert!(d.needs_input());
    assert_eq!(
        d.provide_input(Some(b'z')),
        Some("ip: 0x000d  stack: 1  status: running\nnext: putc\n".to_string())
    );
    assert!(!d.needs_input());
    assert_eq!(run(&mut d, "r"), (true, "zprogram halted\n".to_string()));
}

#[test]
fn run_and_next_go_on_after_input() {
    let mut d = Debugger::new(program("getc\nputc\ngetc\nputc\nhalt"));
    assert_eq!(run(&mut d, "r"), (true, String::new()));
    assert!(d.needs_input());
    assert_eq!(d.provide_input(Some(b'a')), Some("a".to_string()));
    assert!(d.needs_input());
    assert_eq!(d.provide_input(None), Some("\u{ff}program halted\n".to_string()));
    assert!(!d.needs_input());
    assert_eq!(d.provide_input(Some(b'b')), Some(String::new()));

    let mut d = Debugger::new(program("getc\nputc\nhalt"));
    assert_eq!(run(&mut d, "n 5"), (true, String::new()));
    assert_eq!(
        d.provide_input(Some(b'q')),
        Some("qprogram halted\nip: 0x0005  stack: 0  status: HALTED\n".to_string())
    );
}

#[test]
fn faulting_step_stops_the_session() {
    let mut d = Debugger::new(program("push 0x8000000000000000\npush -1\ndiv\nhalt"));
    assert_eq!(run(&mut d, "n 2"), (true, "ip: 0x0012  stack: 2  status: running\nnext: div\n".to_string()));
    assert_eq!(d.handle_input("s"), None);
    let mut d = Debugger::new(program("push 0x8000000000000000\npush -1\nmod\nhalt"));
    assert_eq!(d.handle_input("r"), None);
}

#[test]
fn parse_addr_forms() {
    let d = Debugger::new(vec![]);
    assert_eq!(d.parse_addr("0x10"), Some(16));
    assert_eq!(d.parse_addr("0XfF"), Some(255));
    assert_eq!(d.parse_addr("42"), Some(42));
    assert_eq!(d.parse_addr("+42"), Some(42));
    assert_eq!(d.parse_addr("-1"), None);
    assert_eq!(d.parse_addr("0x"), None);
    assert_eq!(d.parse_addr(""), None);
}

#[test]
fn breakpoints_listed_once_in_order() {
    let mut d = Debugger::new(program("nop\nnop\nnop\nnop\nhalt"));
    for line in ["b 3", "b 1", "b 0x3", "b 0", "b 4"] {
        run(&mut d, line);
    }
    run(&mut d, "d 4");
    assert_eq!(
        run(&mut d, "bl"),
        (true, "breakpoints:\n  0x0000  nop\n  0x0001  nop\n  0x0003  nop\n".to_string())
    );
}
