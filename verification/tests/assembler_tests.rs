use mini_vm::disasm::Disassembler;
use mini_vm::assembler::Assembler;
use mini_vm::vm::opcode::Opcode;

#[test]
fn test_assemble_basic() {
    let mut assembler = Assembler::new();
    let code = "push 10\nhalt";
    let bin = assembler.assemble(code).unwrap();
    assert_eq!(bin[0], Opcode::Push.to_byte());
    assert_eq!(bin[9], Opcode::Halt.to_byte());
}

#[test]
fn test_assemble_labels() {
    let mut assembler = Assembler::new();
    let code = "start:\npush 1\njmp start\nhalt";
    let bin = assembler.assemble(code).unwrap();
    assert_eq!(bin[0], Opcode::Push.to_byte());
    assert_eq!(bin[9], Opcode::Jmp.to_byte());
    let target = u64::from_le_bytes(bin[10..18].try_into().unwrap());
    assert_eq!(target, 0);
}

#[test]
fn test_assemble_db() {
    let mut assembler = Assembler::new();
    let code = "db \"Hello\"\ndb 0";
    let bin = assembler.assemble(code).unwrap();
    assert_eq!(&bin[0..5], b"Hello");
    assert_eq!(bin[5], 0);
    assert_eq!(bin[6], 0);
}

#[test]
fn numbers_in_every_form() {
    let mut assembler = Assembler::new();
    let bin = assembler
        .assemble("push 0x1F\npush 0X+ff\npush -1\npush +7\npush 18446744073709551615\npush -9223372036854775808")
        .unwrap();
    let word = |k: usize| u64::from_le_bytes(bin[k * 9 + 1..k * 9 + 9].try_into().unwrap());
    assert_eq!(word(0), 0x1f);
    assert_eq!(word(1), 0xff);
    assert_eq!(word(2), u64::MAX);
    assert_eq!(word(3), 7);
    assert_eq!(word(4), u64::MAX);
    assert_eq!(word(5), 0x8000_0000_0000_0000);
}

#[test]
fn number_errors() {
    let mut assembler = Assembler::new();
    assert_eq!(assembler.assemble("push 0xZZ"), Err("line 1: invalid hex number '0xZZ'".to_string()));
    assert_eq!(assembler.assemble("nop\npush 18446744073709551616"), Err("line 2: invalid number '18446744073709551616'".to_string()));
    assert_eq!(assembler.assemble("push -9223372036854775809"), Err("line 1: invalid number '-9223372036854775809'".to_string()));
    assert_eq!(assembler.assemble("push -+1"), Err("line 1: invalid number '-+1'".to_string()));
    assert_eq!(assembler.assemble("push +"), Err("line 1: invalid number '+'".to_string()));
    assert_eq!(assembler.assemble("push 0x"), Err("line 1: invalid hex number '0x'".to_string()));
}

#[test]
fn missing_operand_and_unknown_instruction() {
    let mut assembler = Assembler::new();
    assert_eq!(assembler.assemble("\n\npush"), Err("line 3: missing operand".to_string()));
    assert_eq!(assembler.assemble("jmp ; nothing"), Err("line 1: missing operand".to_string()));
    assert_eq!(assembler.assemble("halt\nFROB 1"), Err("line 2: unknown instruction 'frob'".to_string()));
}

#[test]
fn undefined_label() {
    let mut assembler = Assembler::new();
    assert_eq!(assembler.assemble("jmp nowhere\ncall elsewhere"), Err("undefined label 'nowhere'".to_string()));
}

#[test]
fn comments_case_and_whitespace() {
    let mut assembler = Assembler::new();
    let bin = assembler.assemble("  ; only a comment\r\n\tHALT   ; stop\r\n   Nop extra operands\n").unwrap();
    assert_eq!(bin, vec![Opcode::Halt.to_byte(), Opcode::Nop.to_byte()]);
}

#[test]
fn forward_labels_and_redefinition() {
    let mut assembler = Assembler::new();
    let bin = assembler.assemble("call later\nlater::\nhalt\nlater:\nret").unwrap();
    // call (9 bytes), halt at 9, ret at 10; the second definition wins.
    assert_eq!(bin.len(), 11);
    assert_eq!(u64::from_le_bytes(bin[1..9].try_into().unwrap()), 10);
}

#[test]
fn traps_and_db_bytes() {
    let mut assembler = Assembler::new();
    let bin = assembler.assemble("putc\ngetc\nputs\nputu\nputi\ndb 0x141\ndb \"é\"\ndb").unwrap();
    assert_eq!(
        bin,
        vec![0x60, 1, 0x60, 2, 0x60, 3, 0x60, 4, 0x60, 5, 0x41, 0xc3, 0xa9, 0]
    );
}

#[test]
fn bare_quote_db_is_refused() {
    let mut assembler = Assembler::new();
    assert!(assembler.try_assemble("db \"").is_none());
    assert!(assembler.try_assemble("push x\ndb \"").unwrap().is_err());
    assert_eq!(assembler.try_assemble("db \"\"").unwrap(), Ok(vec![0]));
}

#[test]
fn assembled_program_runs() {
    let mut assembler = Assembler::new();
    let bin = assembler
        .assemble("push 0\nloop:\npush 1\nadd\ndup\npush 5\nlt\njnz loop\nhalt")
        .unwrap();
    let mut cpu = mini_vm::vm::CPU::new();
    cpu.load_program(&bin);
    cpu.run();
    assert_eq!(cpu.stack, vec![5]);
}

fn chars(s: &str) -> Vec<char> {
    s.chars().collect()
}

#[test]
fn instruction_takes_the_lowercased_mnemonic() {
    let mut assembler = Assembler::new();
    assert_eq!(assembler.instruction(&chars("push"), Some(chars("5")), 1), Ok(()));
    assert_eq!(
        assembler.instruction(&chars("PUSH"), Some(chars("5")), 2),
        Err(Some(chars("line 2: unknown instruction 'PUSH'")))
    );
    assert_eq!(assembler.instruction(&chars("jmp"), None, 3), Err(Some(chars("line 3: missing operand"))));
    assert_eq!(assembler.instruction(&chars("db"), Some(chars("\"")), 4), Err(None));
    assert_eq!(
        assembler.instruction(&chars("push"), Some(chars("x1")), 5),
        Err(Some(chars("line 5: invalid number 'x1'")))
    );
}

#[test]
fn case_comments_and_spaces_do_not_matter() {
    let plain = Assembler::new().assemble("push 5\nnop\njmp end\nend:\nhalt").unwrap();
    let noisy = Assembler::new()
        .assemble("  PuSh 5   ; five\n\n; only a comment\nNOP\n\tJmp end ;go\nend:\n   HALT  ")
        .unwrap();
    assert_eq!(plain, noisy);
}

#[test]
fn assembled_lines_disassemble_to_themselves() {
    let src = "nop\npush -3\nputc\npush 1234567\nret";
    let bin = Assembler::new().assemble(src).unwrap();
    let listing = Disassembler::new(bin).disassemble();
    let expected: Vec<(usize, String)> = vec![
        (0, "nop".to_string()),
        (1, "push -3".to_string()),
        (10, "putc".to_string()),
        (12, "push 1234567".to_string()),
        (21, "ret".to_string()),
    ];
    assert_eq!(listing, expected);
}
