use vstd::prelude::*;
use vstd::utf8::encode_utf8;

use crate::scan::{
    all_ws, find, find_char, first_token, lemma_find_char_bounds, lemma_find_char_concat,
    lemma_find_char_shift,
    lemma_trim_padded, second_token, strip_back, strip_end,
    sub_chars, tokens3, trim, trim_chars,
};
use crate::text::{chars_eq, chars_of, dec_digits, is_word, push_chars, push_dec, push_str, string_from_chars};
use crate::vm::memory::{lemma_u64_le_roundtrip, store_u64_le, u64_to_le, window, write_bytes};
use crate::vm::opcode::{opcode_byte, opcode_name, Opcode};
use crate::vm::trap::{trap_code, trap_name, Trap};

verus! {

/// The lowercase form of `s` as `str::to_lowercase` computes it (Unicode
/// lowercase mapping).
pub uninterp spec fn lowercase(s: Seq<char>) -> Seq<char>;

/// Whether every character of `s` is ASCII.
pub open spec fn all_ascii(s: Seq<char>) -> bool {
    forall|i: int| 0 <= i < s.len() ==> (#[trigger] s[i] as u32) < 128
}

/// `c` with the ASCII capitals 'A'..='Z' mapped to 'a'..='z'.
pub open spec fn ascii_lower(c: char) -> char {
    if 65 <= (c as u32) <= 90 {
        ((c as u32) + 32) as char
    } else {
        c
    }
}

/// `s` with every ASCII capital mapped to its small letter.
pub open spec fn ascii_lower_all(s: Seq<char>) -> Seq<char> {
    s.map_values(|c: char| ascii_lower(c))
}

/// The mnemonic that a first token names: its lowercase form, which on
/// ASCII text is the token with each capital letter made small.
pub open spec fn mnemonic_of(t: Seq<char>) -> Seq<char> {
    if all_ascii(t) {
        ascii_lower_all(t)
    } else {
        lowercase(t)
    }
}

/// `str::to_lowercase`. The contract names its result, and states the
/// Unicode lowercase mapping on ASCII text: each capital 'A'..='Z' becomes
/// its small letter and every other ASCII character stays as it is. Of
/// text with other characters it states nothing more.
#[verifier::external_body]
fn to_lowercase(s: &str) -> (r: String)
    ensures
        r@ == lowercase(s@),
        all_ascii(s@) ==> r@ == ascii_lower_all(s@),
{
    s.to_lowercase()
}

/// What the assembler has built so far: the output bytes, the address of
/// each label (the latest definition wins), and the operand positions that
/// wait for a label's address, in order.
pub struct AsmState {
    pub out: Seq<u8>,
    pub labels: Map<Seq<char>, usize>,
    pub unresolved: Seq<(usize, Seq<char>)>,
}

/// The result of assembling a line or a whole source: the state reached,
/// an error message, or an input on which assembling cannot go on (a `db`
/// operand made of a single quote character).
pub enum AsmOutcome {
    Next(AsmState),
    Error(Seq<char>),
    Stuck,
}

/// The value of digit character `c` in any radix up to 36.
pub open spec fn digit_value(c: char) -> Option<nat> {
    let u = c as u32;
    if 48 <= u <= 57 {
        Some((u - 48) as nat)
    } else if 97 <= u <= 122 {
        Some((u - 87) as nat)
    } else if 65 <= u <= 90 {
        Some((u - 55) as nat)
    } else {
        None
    }
}

/// Whether every character of `d` is a digit below `radix`.
pub open spec fn all_digits(d: Seq<char>, radix: nat) -> bool {
    forall|i: int|
        0 <= i < d.len() ==> (#[trigger] digit_value(d[i])) is Some && digit_value(d[i])->0
            < radix
}

/// The number that the digits `d` write in `radix`.
pub open spec fn digits_value(d: Seq<char>, radix: nat) -> nat
    decreases d.len(),
{
    if d.len() == 0 {
        0
    } else {
        digits_value(d.drop_last(), radix) * radix + match digit_value(d.last()) {
            Some(v) => v,
            None => 0,
        }
    }
}

/// An unsigned number as `u64::from_str_radix` reads it: an optional '+',
/// then at least one digit, with a value that fits in 64 bits.
pub open spec fn parse_unsigned(d: Seq<char>, radix: nat) -> Option<u64> {
    let body = if d.len() > 0 && d[0] == '+' {
        d.drop_first()
    } else {
        d
    };
    if body.len() > 0 && all_digits(body, radix) && digits_value(body, radix) <= u64::MAX {
        Some(digits_value(body, radix) as u64)
    } else {
        None
    }
}

/// The error message "line N: <what> '<s>'".
pub open spec fn line_message(line_num: nat, what: Seq<char>, s: Seq<char>) -> Seq<char> {
    "line "@ + dec_digits(line_num) + ": "@ + what + " '"@ + s + "'"@
}

/// A number operand: hexadecimal after "0x" or "0X", a negative decimal that
/// fits in `i64` (taken as its two's complement bits), or an unsigned
/// decimal; surrounding whitespace is ignored.
pub open spec fn parse_number(tok: Seq<char>, line_num: nat) -> Result<u64, Seq<char>> {
    let s = trim(tok);
    if s.len() >= 2 && s[0] == '0' && (s[1] == 'x' || s[1] == 'X') {
        match parse_unsigned(s.subrange(2, s.len() as int), 16) {
            Some(v) => Ok(v),
            None => Err(line_message(line_num, "invalid hex number"@, s)),
        }
    } else if s.len() >= 1 && s[0] == '-' {
        let body = s.drop_first();
        if body.len() > 0 && all_digits(body, 10) && digits_value(body, 10) <= 0x8000_0000_0000_0000 {
            Ok(0u64.wrapping_sub(digits_value(body, 10) as u64))
        } else {
            Err(line_message(line_num, "invalid number"@, s))
        }
    } else {
        match parse_unsigned(s, 10) {
            Some(v) => Ok(v),
            None => Err(line_message(line_num, "invalid number"@, s)),
        }
    }
}

/// The opcode of a mnemonic that takes no operand.
pub open spec fn plain_op(m: Seq<char>) -> Option<Opcode> {
    if m == opcode_name(Opcode::Nop) {
        Some(Opcode::Nop)
    } else if m == opcode_name(Opcode::Halt) {
        Some(Opcode::Halt)
    } else if m == opcode_name(Opcode::Pop) {
        Some(Opcode::Pop)
    } else if m == opcode_name(Opcode::Dup) {
        Some(Opcode::Dup)
    } else if m == opcode_name(Opcode::Swap) {
        Some(Opcode::Swap)
    } else if m == opcode_name(Opcode::Load) {
        Some(Opcode::Load)
    } else if m == opcode_name(Opcode::Store) {
        Some(Opcode::Store)
    } else if m == opcode_name(Opcode::Add) {
        Some(Opcode::Add)
    } else if m == opcode_name(Opcode::Sub) {
        Some(Opcode::Sub)
    } else if m == opcode_name(Opcode::Mul) {
        Some(Opcode::Mul)
    } else if m == opcode_name(Opcode::Div) {
        Some(Opcode::Div)
    } else if m == opcode_name(Opcode::Mod) {
        Some(Opcode::Mod)
    } else if m == opcode_name(Opcode::And) {
        Some(Opcode::And)
    } else if m == opcode_name(Opcode::Or) {
        Some(Opcode::Or)
    } else if m == opcode_name(Opcode::Not) {
        Some(Opcode::Not)
    } else if m == opcode_name(Opcode::Eq) {
        Some(Opcode::Eq)
    } else if m == opcode_name(Opcode::Lt) {
        Some(Opcode::Lt)
    } else if m == opcode_name(Opcode::Gt) {
        Some(Opcode::Gt)
    } else if m == opcode_name(Opcode::Ret) {
        Some(Opcode::Ret)
    } else {
        None
    }
}

/// The opcode of a mnemonic whose operand is an address or a label.
pub open spec fn jump_op(m: Seq<char>) -> Option<Opcode> {
    if m == opcode_name(Opcode::Jmp) {
        Some(Opcode::Jmp)
    } else if m == opcode_name(Opcode::Jz) {
        Some(Opcode::Jz)
    } else if m == opcode_name(Opcode::Jnz) {
        Some(Opcode::Jnz)
    } else if m == opcode_name(Opcode::Call) {
        Some(Opcode::Call)
    } else {
        None
    }
}

/// The trap a mnemonic names.
pub open spec fn trap_op(m: Seq<char>) -> Option<Trap> {
    if m == trap_name(Trap::Putc) {
        Some(Trap::Putc)
    } else if m == trap_name(Trap::Getc) {
        Some(Trap::Getc)
    } else if m == trap_name(Trap::Puts) {
        Some(Trap::Puts)
    } else if m == trap_name(Trap::Putu) {
        Some(Trap::Putu)
    } else if m == trap_name(Trap::Puti) {
        Some(Trap::Puti)
    } else {
        None
    }
}

/// `st` with `bytes` appended to the output.
pub open spec fn emit(st: AsmState, bytes: Seq<u8>) -> AsmState {
    AsmState { out: st.out + bytes, ..st }
}

/// Emits an address operand: a number is written at once; anything else is
/// a label, whose address is patched in later over the encoding of 0.
pub open spec fn emit_target(st: AsmState, op: Seq<char>, line_num: nat) -> AsmState {
    match parse_number(op, line_num) {
        Ok(v) => emit(st, u64_to_le(v)),
        Err(_) => AsmState {
            out: st.out + u64_to_le(0),
            unresolved: st.unresolved.push((st.out.len() as usize, op)),
            ..st
        },
    }
}

/// The effect of the instruction with mnemonic `m` and operand `op`.
pub open spec fn instruction_effect(
    st: AsmState,
    m: Seq<char>,
    op: Option<Seq<char>>,
    line_num: nat,
) -> AsmOutcome {
    if plain_op(m) is Some {
        AsmOutcome::Next(emit(st, seq![opcode_byte(plain_op(m)->0)]))
    } else if m == "push"@ {
        match op {
            None => AsmOutcome::Error("line "@ + dec_digits(line_num) + ": missing operand"@),
            Some(o) => match parse_number(o, line_num) {
                Ok(v) => AsmOutcome::Next(emit(st, seq![opcode_byte(Opcode::Push)] + u64_to_le(v))),
                Err(e) => AsmOutcome::Error(e),
            },
        }
    } else if jump_op(m) is Some {
        match op {
            None => AsmOutcome::Error("line "@ + dec_digits(line_num) + ": missing operand"@),
            Some(o) => AsmOutcome::Next(
                emit_target(emit(st, seq![opcode_byte(jump_op(m)->0)]), o, line_num),
            ),
        }
    } else if trap_op(m) is Some {
        AsmOutcome::Next(emit(st, seq![opcode_byte(Opcode::Trap), trap_code(trap_op(m)->0)]))
    } else if m == "db"@ {
        match op {
            None => AsmOutcome::Next(st),
            Some(o) => if o.len() >= 1 && o[0] == '"' && o.last() == '"' {
                if o.len() == 1 {
                    AsmOutcome::Stuck
                } else {
                    AsmOutcome::Next(
                        emit(st, encode_utf8(o.subrange(1, o.len() - 1)).push(0u8)),
                    )
                }
            } else {
                match parse_number(o, line_num) {
                    Ok(v) => AsmOutcome::Next(emit(st, seq![v as u8])),
                    Err(e) => AsmOutcome::Error(e),
                }
            },
        }
    } else {
        AsmOutcome::Error(line_message(line_num, "unknown instruction"@, m))
    }
}

/// The text of a line up to its first ';', without surrounding whitespace.
pub open spec fn line_code(line: Seq<char>) -> Seq<char> {
    trim(line.take(find_char(line, ';', 0)))
}

/// The effect of one source line: its text up to the first ';' with
/// surrounding whitespace removed is either empty, a label (ending in ':',
/// which is dropped together with any other trailing ':'), or an
/// instruction given by its lowercased first token and its second token.
pub open spec fn line_effect(st: AsmState, line: Seq<char>, line_num: nat) -> AsmOutcome {
    let code = line_code(line);
    if code.len() == 0 {
        AsmOutcome::Next(st)
    } else if code.last() == ':' {
        AsmOutcome::Next(
            AsmState {
                labels: st.labels.insert(
                    code.take(strip_back(code, ':', code.len() as int)),
                    st.out.len() as usize,
                ),
                ..st
            },
        )
    } else {
        instruction_effect(st, mnemonic_of(first_token(code)->0), second_token(code), line_num)
    }
}

/// The effect of the lines of `src` from index `start` on, the first of them
/// numbered `line_num`; lines end at '\n'.
pub open spec fn lines_effect(src: Seq<char>, start: int, line_num: nat, st: AsmState) -> AsmOutcome
    decreases src.len() - start,
{
    if start < 0 || start > src.len() {
        AsmOutcome::Next(st)
    } else {
        let end = find_char(src, '\n', start);
        proof {
            lemma_find_char_bounds(src, '\n', start);
        }
        match line_effect(st, src.subrange(start, end), line_num) {
            AsmOutcome::Next(st2) => if end >= src.len() {
                AsmOutcome::Next(st2)
            } else {
                lines_effect(src, end + 1, line_num + 1, st2)
            },
            other => other,
        }
    }
}

/// Patches the address of each waiting label into the output, in order;
/// the first label that was never defined is an error.
pub open spec fn resolve(
    out: Seq<u8>,
    labels: Map<Seq<char>, usize>,
    unresolved: Seq<(usize, Seq<char>)>,
) -> Result<Seq<u8>, Seq<char>>
    decreases unresolved.len(),
{
    if unresolved.len() == 0 {
        Ok(out)
    } else {
        let (pos, name) = unresolved[0];
        if !labels.contains_key(name) {
            Err("undefined label '"@ + name + "'"@)
        } else {
            resolve(
                write_bytes(out, pos as int, u64_to_le(labels[name] as u64)),
                labels,
                unresolved.drop_first(),
            )
        }
    }
}

/// The state an assembler starts from.
pub open spec fn empty_state() -> AsmState {
    AsmState { out: Seq::empty(), labels: Map::empty(), unresolved: Seq::empty() }
}

/// Whether assembling `src` reaches a line on which it cannot go on.
pub open spec fn assembly_stuck(src: Seq<char>) -> bool {
    lines_effect(src, 0, 1, empty_state()) is Stuck
}

/// The program that `src` assembles to, or the error message.
pub open spec fn assemble_spec(src: Seq<char>) -> Result<Seq<u8>, Seq<char>> {
    match lines_effect(src, 0, 1, empty_state()) {
        AsmOutcome::Next(st) => resolve(st.out, st.labels, st.unresolved),
        AsmOutcome::Error(e) => Err(e),
        AsmOutcome::Stuck => Err(Seq::empty()),
    }
}

proof fn lemma_no_semicolon(s: Seq<char>)
    requires
        forall|k: int| 0 <= k < s.len() ==> s[k] != ';',
    ensures
        find_char(s, ';', 0) == s.len(),
{
    lemma_find_char_bounds(s, ';', 0);
}

/// A comment appended to a line changes nothing.
pub proof fn lemma_comment_ignored(st: AsmState, line: Seq<char>, comment: Seq<char>, line_num: nat)
    requires
        forall|k: int| 0 <= k < line.len() ==> line[k] != ';',
    ensures
        line_effect(st, line + seq![';'] + comment, line_num) == line_effect(st, line, line_num),
{
    let w = line + seq![';'] + comment;
    assert(w =~= line + (seq![';'] + comment));
    lemma_no_semicolon(line);
    lemma_find_char_concat(line, seq![';'] + comment, ';', 0);
    assert(w.take(line.len() as int) =~= line.take(line.len() as int));
}

/// Whitespace added around a line changes nothing.
pub proof fn lemma_padding_ignored(
    st: AsmState,
    pre: Seq<char>,
    line: Seq<char>,
    post: Seq<char>,
    line_num: nat,
)
    requires
        all_ws(pre),
        all_ws(post),
    ensures
        line_effect(st, pre + line + post, line_num) == line_effect(st, line, line_num),
{
    let w = pre + line + post;
    assert(w =~= pre + (line + post));
    assert forall|k: int| 0 <= k < pre.len() implies pre[k] != ';' by {
        assert(crate::scan::is_ws(pre[k]));
    }
    assert forall|k: int| 0 <= k < post.len() implies post[k] != ';' by {
        assert(crate::scan::is_ws(post[k]));
    }
    lemma_no_semicolon(pre);
    lemma_no_semicolon(post);
    lemma_find_char_concat(pre, line + post, ';', 0);
    lemma_find_char_concat(line, post, ';', 0);
    lemma_find_char_bounds(line, ';', 0);
    let k = find_char(line, ';', 0);
    if k < line.len() {
        assert(w.take(pre.len() + k) =~= pre + line.take(k) + Seq::<char>::empty());
        lemma_trim_padded(pre, line.take(k), Seq::<char>::empty());
    } else {
        assert(w.take(w.len() as int) =~= w);
        assert(line.take(k) =~= line);
        lemma_trim_padded(pre, line, post);
    }
}

/// A line that is blank, or holds only a comment, changes nothing.
pub proof fn lemma_blank_line(st: AsmState, pre: Seq<char>, comment: Seq<char>, line_num: nat)
    requires
        all_ws(pre),
    ensures
        line_effect(st, pre, line_num) == AsmOutcome::Next(st),
        line_effect(st, pre + seq![';'] + comment, line_num) == AsmOutcome::Next(st),
{
    assert forall|k: int| 0 <= k < pre.len() implies pre[k] != ';' by {
        assert(crate::scan::is_ws(pre[k]));
    }
    lemma_comment_ignored(st, pre, comment, line_num);
    lemma_padding_ignored(st, pre, Seq::<char>::empty(), Seq::<char>::empty(), line_num);
    assert(pre + Seq::<char>::empty() + Seq::<char>::empty() =~= pre);
    assert(all_ws(Seq::<char>::empty()));
}

/// Line numbers matter only in error messages: a line given another number
/// fails exactly when it failed, and otherwise has the same effect.
pub proof fn lemma_line_number_in_errors_only(st: AsmState, line: Seq<char>, n1: nat, n2: nat)
    ensures
        (line_effect(st, line, n1) is Error) == (line_effect(st, line, n2) is Error),
        !(line_effect(st, line, n1) is Error) ==> line_effect(st, line, n1) == line_effect(
            st,
            line,
            n2,
        ),
{
}

/// Whether two outcomes agree up to the text of an error message.
pub open spec fn same_up_to_message(o1: AsmOutcome, o2: AsmOutcome) -> bool {
    (o1 is Error && o2 is Error) || o1 == o2
}

/// Lines numbered from another number have the same effect, up to the text
/// of an error message.
proof fn lemma_lines_number_in_errors_only(src: Seq<char>, start: int, n1: nat, n2: nat, st: AsmState)
    ensures
        same_up_to_message(lines_effect(src, start, n1, st), lines_effect(src, start, n2, st)),
    decreases src.len() - start,
{
    if 0 <= start <= src.len() {
        let end = find_char(src, '\n', start);
        lemma_find_char_bounds(src, '\n', start);
        let line = src.subrange(start, end);
        lemma_line_number_in_errors_only(st, line, n1, n2);
        match line_effect(st, line, n1) {
            AsmOutcome::Next(st2) => {
                if end < src.len() {
                    lemma_lines_number_in_errors_only(src, end + 1, n1 + 1, n2 + 1, st2);
                }
            },
            _ => {},
        }
    }
}

/// The lines of `p + y` from inside `y` are the lines of `y`.
proof fn lemma_lines_shift(p: Seq<char>, y: Seq<char>, j: int, n: nat, st: AsmState)
    requires
        0 <= j <= y.len(),
    ensures
        lines_effect(p + y, p.len() + j, n, st) == lines_effect(y, j, n, st),
    decreases y.len() - j,
{
    let w = p + y;
    lemma_find_char_shift(p, y, '\n', j);
    lemma_find_char_bounds(y, '\n', j);
    let end = find_char(y, '\n', j);
    assert(w.subrange(p.len() + j, p.len() + end) =~= y.subrange(j, end));
    match line_effect(st, y.subrange(j, end), n) {
        AsmOutcome::Next(st2) => {
            if end < y.len() {
                lemma_lines_shift(p, y, end + 1, n + 1, st2);
            }
        },
        _ => {},
    }
}

proof fn lemma_blank_line_inserted_from(
    a: Seq<char>,
    b: Seq<char>,
    rest: Seq<char>,
    start: int,
    n1: nat,
    n2: nat,
    st: AsmState,
)
    requires
        a.len() == 0 || a.last() == '\n',
        forall|k: int| 0 <= k < b.len() ==> b[k] != '\n',
        trim(b.take(find_char(b, ';', 0))).len() == 0,
        0 <= start <= a.len(),
    ensures
        same_up_to_message(
            lines_effect(a + (b.push('\n') + rest), start, n2, st),
            lines_effect(a + rest, start, n1, st),
        ),
    decreases a.len() - start,
{
    let m = b.push('\n');
    let src1 = a + rest;
    let src2 = a + (m + rest);
    lemma_find_char_concat(a, rest, '\n', start);
    lemma_find_char_concat(a, m + rest, '\n', start);
    lemma_find_char_bounds(a, '\n', start);
    if start < a.len() {
        assert(a[a.len() - 1] == '\n');
        let e = find_char(a, '\n', start);
        assert(e < a.len());
        assert(src1.subrange(start, e) =~= a.subrange(start, e));
        assert(src2.subrange(start, e) =~= a.subrange(start, e));
        let line = a.subrange(start, e);
        lemma_line_number_in_errors_only(st, line, n2, n1);
        match line_effect(st, line, n2) {
            AsmOutcome::Next(st2) => {
                lemma_blank_line_inserted_from(a, b, rest, e + 1, n1 + 1, n2 + 1, st2);
            },
            _ => {},
        }
    } else {
        lemma_find_char_concat(b, seq!['\n'] + rest, '\n', 0);
        assert(m + rest =~= b + (seq!['\n'] + rest));
        assert forall|k: int| 0 <= k < b.len() implies b[k] != '\n' by {}
        lemma_find_char_bounds(b, '\n', 0);
        assert(find_char(b, '\n', 0) == b.len());
        assert(find_char(src2, '\n', start) == a.len() + b.len());
        assert(src2.subrange(start, (a.len() + b.len()) as int) =~= b);
        assert(line_effect(st, b, n2) == AsmOutcome::Next(st));
        assert(src2 =~= (a + m) + rest);
        lemma_lines_shift(a + m, rest, 0, n2 + 1, st);
        lemma_lines_shift(a, rest, 0, n1, st);
        lemma_lines_number_in_errors_only(rest, 0, n2 + 1, n1, st);
    }
}

/// A blank or comment-only line inserted at the start of a line changes
/// nothing but the line numbers: the source assembles (or is stuck)
/// exactly when it did, to the same program.
pub proof fn lemma_blank_line_inserted(a: Seq<char>, b: Seq<char>, rest: Seq<char>)
    requires
        a.len() == 0 || a.last() == '\n',
        forall|k: int| 0 <= k < b.len() ==> b[k] != '\n',
        trim(b.take(find_char(b, ';', 0))).len() == 0,
    ensures
        assembly_stuck(a + b.push('\n') + rest) == assembly_stuck(a + rest),
        (assemble_spec(a + b.push('\n') + rest) is Ok) == (assemble_spec(a + rest) is Ok),
        assemble_spec(a + rest) is Ok ==> assemble_spec(a + b.push('\n') + rest) == assemble_spec(
            a + rest,
        ),
{
    assert(a + b.push('\n') + rest =~= a + (b.push('\n') + rest));
    lemma_blank_line_inserted_from(a, b, rest, 0, 1, 1, empty_state());
}

proof fn lemma_line_replaced_from(
    a: Seq<char>,
    l1: Seq<char>,
    l2: Seq<char>,
    r: Seq<char>,
    start: int,
    n1: nat,
    n2: nat,
    st: AsmState,
)
    requires
        a.len() == 0 || a.last() == '\n',
        forall|k: int| 0 <= k < l1.len() ==> l1[k] != '\n',
        forall|k: int| 0 <= k < l2.len() ==> l2[k] != '\n',
        r.len() == 0 || r[0] == '\n',
        forall|s0: AsmState, n: nat|
            #[trigger] same_up_to_message(line_effect(s0, l1, n), line_effect(s0, l2, n)),
        0 <= start <= a.len(),
    ensures
        same_up_to_message(lines_effect(a + (l2 + r), start, n2, st), lines_effect(a + (l1 + r), start, n1, st)),
    decreases a.len() - start,
{
    let src1 = a + (l1 + r);
    let src2 = a + (l2 + r);
    lemma_find_char_concat(a, l1 + r, '\n', start);
    lemma_find_char_concat(a, l2 + r, '\n', start);
    lemma_find_char_bounds(a, '\n', start);
    if start < a.len() {
        assert(a[a.len() - 1] == '\n');
        let e = find_char(a, '\n', start);
        assert(src1.subrange(start, e) =~= a.subrange(start, e));
        assert(src2.subrange(start, e) =~= a.subrange(start, e));
        let line = a.subrange(start, e);
        lemma_line_number_in_errors_only(st, line, n2, n1);
        match line_effect(st, line, n2) {
            AsmOutcome::Next(st2) => {
                lemma_line_replaced_from(a, l1, l2, r, e + 1, n1 + 1, n2 + 1, st2);
            },
            _ => {},
        }
    } else {
        lemma_find_char_concat(l1, r, '\n', 0);
        lemma_find_char_concat(l2, r, '\n', 0);
        lemma_find_char_bounds(l1, '\n', 0);
        lemma_find_char_bounds(l2, '\n', 0);
        assert(find_char(l1, '\n', 0) == l1.len());
        assert(find_char(l2, '\n', 0) == l2.len());
        assert(find_char(r, '\n', 0) == 0);
        assert(src1.subrange(start, (a.len() + l1.len()) as int) =~= l1);
        assert(src2.subrange(start, (a.len() + l2.len()) as int) =~= l2);
        assert(same_up_to_message(line_effect(st, l1, n2), line_effect(st, l2, n2)));
        lemma_line_number_in_errors_only(st, l1, n1, n2);
        match line_effect(st, l2, n2) {
            AsmOutcome::Next(st2) => {
                if r.len() > 0 {
                    assert(src1 =~= (a + l1) + r);
                    assert(src2 =~= (a + l2) + r);
                    lemma_lines_shift(a + l1, r, 1, n1 + 1, st2);
                    lemma_lines_shift(a + l2, r, 1, n2 + 1, st2);
                    lemma_lines_number_in_errors_only(r, 1, n2 + 1, n1 + 1, st2);
                }
            },
            _ => {},
        }
    }
}

/// Replacing a whole line of a source by a line with the same effect (up to
/// the text of an error message) keeps what the source assembles to: it
/// assembles (or is stuck) exactly when it did, to the same program.
pub proof fn lemma_line_replaced(a: Seq<char>, l1: Seq<char>, l2: Seq<char>, r: Seq<char>)
    requires
        a.len() == 0 || a.last() == '\n',
        forall|k: int| 0 <= k < l1.len() ==> l1[k] != '\n',
        forall|k: int| 0 <= k < l2.len() ==> l2[k] != '\n',
        r.len() == 0 || r[0] == '\n',
        forall|s0: AsmState, n: nat|
            #[trigger] same_up_to_message(line_effect(s0, l1, n), line_effect(s0, l2, n)),
    ensures
        assembly_stuck(a + l2 + r) == assembly_stuck(a + l1 + r),
        (assemble_spec(a + l2 + r) is Ok) == (assemble_spec(a + l1 + r) is Ok),
        assemble_spec(a + l1 + r) is Ok ==> assemble_spec(a + l2 + r) == assemble_spec(a + l1 + r),
{
    assert(a + l1 + r =~= a + (l1 + r));
    assert(a + l2 + r =~= a + (l2 + r));
    lemma_line_replaced_from(a, l1, l2, r, 0, 1, 1, empty_state());
}

/// Whitespace around a line, and a comment after it, change nothing in
/// what a source assembles to.
pub proof fn lemma_comments_and_spaces_ignored(
    a: Seq<char>,
    pre: Seq<char>,
    line: Seq<char>,
    post: Seq<char>,
    comment: Seq<char>,
    r: Seq<char>,
)
    requires
        a.len() == 0 || a.last() == '\n',
        r.len() == 0 || r[0] == '\n',
        all_ws(pre),
        all_ws(post),
        forall|k: int| 0 <= k < pre.len() ==> pre[k] != '\n',
        forall|k: int| 0 <= k < post.len() ==> post[k] != '\n',
        forall|k: int| 0 <= k < line.len() ==> line[k] != '\n' && line[k] != ';',
        forall|k: int| 0 <= k < comment.len() ==> comment[k] != '\n',
    ensures
        ({
            let l2 = pre + line + post + seq![';'] + comment;
            &&& assembly_stuck(a + l2 + r) == assembly_stuck(a + line + r)
            &&& (assemble_spec(a + l2 + r) is Ok) == (assemble_spec(a + line + r) is Ok)
            &&& assemble_spec(a + line + r) is Ok ==> assemble_spec(a + l2 + r) == assemble_spec(
                a + line + r,
            )
        }),
{
    let padded = pre + line + post;
    let l2 = padded + seq![';'] + comment;
    assert forall|k: int| 0 <= k < padded.len() implies padded[k] != ';' by {
        if k < pre.len() {
            assert(crate::scan::is_ws(pre[k]));
        } else if k >= pre.len() + line.len() {
            assert(crate::scan::is_ws(post[k - pre.len() - line.len()]));
        }
    }
    assert forall|k: int| 0 <= k < l2.len() implies l2[k] != '\n' by {
        if k < pre.len() {
        } else if k < pre.len() + line.len() {
        } else if k < padded.len() {
        } else if k > padded.len() {
            assert(l2[k] == comment[k - padded.len() - 1]);
        }
    }
    assert forall|s0: AsmState, n: nat|
        #[trigger] same_up_to_message(line_effect(s0, line, n), line_effect(s0, l2, n)) by {
        lemma_comment_ignored(s0, padded, comment, n);
        lemma_padding_ignored(s0, pre, line, post, n);
    }
    lemma_line_replaced(a, line, l2, r);
}

/// What follows the first word of a line, up to its comment and without
/// trailing whitespace.
spec fn code_tail(post: Seq<char>) -> Seq<char> {
    let pp = post.take(find_char(post, ';', 0));
    pp.take(crate::scan::trim_back(pp, pp.len() as int))
}

proof fn lemma_ascii_lower_last(t1: Seq<char>, t2: Seq<char>)
    requires
        t1.len() > 0,
        ascii_lower_all(t1) == ascii_lower_all(t2),
    ensures
        t1.len() == t2.len(),
        t2.last() == ':' ==> t1.last() == ':',
{
    assert(ascii_lower_all(t1).len() == t1.len());
    assert(ascii_lower_all(t2).len() == t2.len());
    let n = t1.len() - 1;
    assert(ascii_lower_all(t1)[n] == ascii_lower(t1[n]));
    assert(ascii_lower_all(t2)[n] == ascii_lower(t2[n]));
}

proof fn lemma_word_line_code(pre: Seq<char>, t: Seq<char>, post: Seq<char>)
    requires
        all_ws(pre),
        t.len() > 0,
        forall|k: int| 0 <= k < t.len() ==> !crate::scan::is_ws(#[trigger] t[k]) && t[k] != ';',
    ensures
        line_code(pre + t + post) == t + code_tail(post),
        code_tail(post).len() == 0 || code_tail(post)[0] == post[0],
{
    assert forall|k: int| 0 <= k < pre.len() implies pre[k] != ';' by {
        assert(crate::scan::is_ws(pre[k]));
    }
    lemma_no_semicolon(pre);
    lemma_no_semicolon(t);
    lemma_find_char_bounds(post, ';', 0);
    let k = find_char(post, ';', 0);
    let pp = post.take(k);
    crate::scan::lemma_trim_back_bounds(pp, pp.len() as int);
    let e = crate::scan::trim_back(pp, pp.len() as int);
    let z = pp.take(e);
    let l = pre + t + post;
    assert(l =~= pre + (t + post));
    lemma_find_char_concat(pre, t + post, ';', 0);
    lemma_find_char_concat(t, post, ';', 0);
    let x = l.take(pre.len() + t.len() + k);
    assert(x =~= pre + (t + pp));
    assert(x =~= (pre + t) + pp);
    crate::scan::lemma_skip_ws_all(pre, 0);
    crate::scan::lemma_skip_ws_concat(pre, t + pp, 0);
    crate::scan::lemma_skip_ws_concat(t, pp, 0);
    crate::scan::lemma_trim_back_concat(pre + t, pp, pp.len() as int);
    assert((pre + t)[pre.len() + t.len() - 1] == t[t.len() - 1]);
    assert(x.subrange(pre.len() as int, pre.len() + t.len() + e) =~= t + z);
}

proof fn lemma_word_tokens(t: Seq<char>, z: Seq<char>)
    requires
        t.len() > 0,
        forall|k: int| 0 <= k < t.len() ==> !crate::scan::is_ws(#[trigger] t[k]),
        z.len() == 0 || crate::scan::is_ws(z[0]),
    ensures
        first_token(t + z) == Some(t),
        second_token(t + z) == second_token(seq!['x'] + z),
{
    let c = t + z;
    assert(c[0] == t[0]);
    crate::scan::lemma_token_end_word(t, z, 0);
    crate::scan::lemma_skip_ws_shift(t, z, 0);
    crate::scan::lemma_skip_ws_bounds(z, 0);
    let b = crate::scan::skip_ws(z, 0);
    crate::scan::lemma_token_end_shift(t, z, b);
    crate::scan::lemma_token_end_bounds(z, b);
    assert(c.subrange(0, t.len() as int) =~= t);
    let o = seq!['x'];
    let co = o + z;
    assert(co[0] == 'x');
    assert forall|m: int| 0 <= m < o.len() implies !crate::scan::is_ws(#[trigger] o[m]) by {}
    crate::scan::lemma_token_end_word(o, z, 0);
    crate::scan::lemma_skip_ws_shift(o, z, 0);
    crate::scan::lemma_token_end_shift(o, z, b);
    if b < z.len() {
        assert(c.subrange(t.len() + b, t.len() + crate::scan::token_end(z, b)) =~= z.subrange(
            b,
            crate::scan::token_end(z, b),
        ));
        assert(co.subrange(1 + b, 1 + crate::scan::token_end(z, b)) =~= z.subrange(
            b,
            crate::scan::token_end(z, b),
        ));
    }
}

/// Changing the letter case of an instruction's mnemonic leaves the line's
/// effect as it was. The line is `pre + t1 + post`, where `t1` is its first
/// word (ASCII, at least one character), `pre` is whitespace and `post` is
/// empty or starts with whitespace; the line is no label.
pub proof fn lemma_mnemonic_case_line(
    st: AsmState,
    pre: Seq<char>,
    t1: Seq<char>,
    t2: Seq<char>,
    post: Seq<char>,
    line_num: nat,
)
    requires
        all_ws(pre),
        post.len() == 0 || crate::scan::is_ws(post[0]),
        t1.len() > 0,
        t2.len() > 0,
        forall|k: int| 0 <= k < t1.len() ==> !crate::scan::is_ws(#[trigger] t1[k]) && t1[k] != ';',
        forall|k: int| 0 <= k < t2.len() ==> !crate::scan::is_ws(#[trigger] t2[k]) && t2[k] != ';',
        all_ascii(t1),
        all_ascii(t2),
        ascii_lower_all(t1) == ascii_lower_all(t2),
        line_code(pre + t1 + post).last() != ':',
    ensures
        line_effect(st, pre + t2 + post, line_num) == line_effect(st, pre + t1 + post, line_num),
{
    lemma_word_line_code(pre, t1, post);
    lemma_word_line_code(pre, t2, post);
    lemma_ascii_lower_last(t1, t2);
    let z = code_tail(post);
    lemma_word_tokens(t1, z);
    lemma_word_tokens(t2, z);
    let c1 = t1 + z;
    let c2 = t2 + z;
    assert(c2.last() != ':') by {
        if z.len() > 0 {
            assert(c2.last() == z.last() && c1.last() == z.last());
        } else {
            assert(c1.last() == t1.last());
            assert(c2.last() == t2.last());
        }
    }
}

/// Changing the letter case of an instruction's mnemonic (see
/// `lemma_mnemonic_case_line`) changes nothing in what a source assembles
/// to.
pub proof fn lemma_mnemonic_case_ignored(
    a: Seq<char>,
    pre: Seq<char>,
    t1: Seq<char>,
    t2: Seq<char>,
    post: Seq<char>,
    r: Seq<char>,
)
    requires
        a.len() == 0 || a.last() == '\n',
        r.len() == 0 || r[0] == '\n',
        all_ws(pre),
        post.len() == 0 || crate::scan::is_ws(post[0]),
        t1.len() > 0,
        t2.len() > 0,
        forall|k: int| 0 <= k < t1.len() ==> !crate::scan::is_ws(#[trigger] t1[k]) && t1[k] != ';',
        forall|k: int| 0 <= k < t2.len() ==> !crate::scan::is_ws(#[trigger] t2[k]) && t2[k] != ';',
        all_ascii(t1),
        all_ascii(t2),
        ascii_lower_all(t1) == ascii_lower_all(t2),
        line_code(pre + t1 + post).last() != ':',
        forall|k: int| 0 <= k < pre.len() ==> pre[k] != '\n',
        forall|k: int| 0 <= k < post.len() ==> post[k] != '\n',
    ensures
        ({
            let l1 = pre + t1 + post;
            let l2 = pre + t2 + post;
            &&& assembly_stuck(a + l2 + r) == assembly_stuck(a + l1 + r)
            &&& (assemble_spec(a + l2 + r) is Ok) == (assemble_spec(a + l1 + r) is Ok)
            &&& assemble_spec(a + l1 + r) is Ok ==> assemble_spec(a + l2 + r) == assemble_spec(
                a + l1 + r,
            )
        }),
{
    let l1 = pre + t1 + post;
    let l2 = pre + t2 + post;
    assert forall|k: int| 0 <= k < l1.len() implies l1[k] != '\n' by {
        if pre.len() <= k < pre.len() + t1.len() {
            assert(!crate::scan::is_ws(t1[k - pre.len()]));
        }
    }
    assert forall|k: int| 0 <= k < l2.len() implies l2[k] != '\n' by {
        if pre.len() <= k < pre.len() + t2.len() {
            assert(!crate::scan::is_ws(t2[k - pre.len()]));
        }
    }
    assert forall|s0: AsmState, n: nat|
        #[trigger] same_up_to_message(line_effect(s0, l1, n), line_effect(s0, l2, n)) by {
        lemma_mnemonic_case_line(s0, pre, t1, t2, post, n);
    }
    lemma_line_replaced(a, l1, l2, r);
}

/// The lines joined with '\n' between them.
pub open spec fn join_lines(lines: Seq<Seq<char>>) -> Seq<char>
    decreases lines.len(),
{
    if lines.len() == 0 {
        Seq::empty()
    } else if lines.len() == 1 {
        lines[0]
    } else {
        lines[0] + seq!['\n'] + join_lines(lines.drop_first())
    }
}

/// The byte strings one after another.
pub open spec fn concat_bytes(bs: Seq<Seq<u8>>) -> Seq<u8>
    decreases bs.len(),
{
    if bs.len() == 0 {
        Seq::empty()
    } else {
        bs[0] + concat_bytes(bs.drop_first())
    }
}

proof fn lemma_join_lines_effect(lines: Seq<Seq<char>>, bytes: Seq<Seq<u8>>, n: nat, st: AsmState)
    requires
        lines.len() == bytes.len(),
        forall|i: int, k: int| 0 <= i < lines.len() && 0 <= k < lines[i].len() ==> #[trigger] lines[i][k] != '\n',
        forall|i: int, s0: AsmState, m: nat|
            0 <= i < lines.len() ==> #[trigger] line_effect(s0, lines[i], m) == AsmOutcome::Next(
                emit(s0, bytes[i]),
            ),
    ensures
        lines_effect(join_lines(lines), 0, n, st) == AsmOutcome::Next(emit(st, concat_bytes(bytes))),
    decreases lines.len(),
{
    if lines.len() == 0 {
        let e = Seq::<char>::empty();
        assert(e.subrange(0, 0) =~= e);
        assert(trim(e.take(find_char(e, ';', 0))).len() == 0);
        assert(st.out + Seq::<u8>::empty() =~= st.out);
    } else {
        let l0 = lines[0];
        assert forall|k: int| 0 <= k < l0.len() implies l0[k] != '\n' by {
            assert(lines[0][k] != '\n');
        }
        lemma_find_char_bounds(l0, '\n', 0);
        assert(line_effect(st, l0, n) == AsmOutcome::Next(emit(st, bytes[0])));
        let st2 = emit(st, bytes[0]);
        if lines.len() == 1 {
            assert(l0.subrange(0, l0.len() as int) =~= l0);
            assert(concat_bytes(bytes.drop_first()) =~= Seq::<u8>::empty());
            assert(bytes[0] + Seq::<u8>::empty() =~= bytes[0]);
        } else {
            let rest = lines.drop_first();
            let rs = join_lines(rest);
            let src = join_lines(lines);
            assert(src =~= l0 + (seq!['\n'] + rs));
            lemma_find_char_concat(l0, seq!['\n'] + rs, '\n', 0);
            assert(src.subrange(0, l0.len() as int) =~= l0);
            assert(src =~= (l0 + seq!['\n']) + rs);
            lemma_lines_shift(l0 + seq!['\n'], rs, 0, n + 1, st2);
            assert forall|i: int, k: int|
                0 <= i < rest.len() && 0 <= k < rest[i].len() implies #[trigger] rest[i][k] != '\n' by {
                assert(rest[i] == lines[i + 1]);
            }
            assert forall|i: int, s0: AsmState, m: nat|
                0 <= i < rest.len() implies #[trigger] line_effect(s0, rest[i], m)
                == AsmOutcome::Next(emit(s0, bytes.drop_first()[i])) by {
                assert(rest[i] == lines[i + 1]);
                assert(line_effect(s0, lines[i + 1], m) == AsmOutcome::Next(emit(s0, bytes[i + 1])));
            }
            lemma_join_lines_effect(rest, bytes.drop_first(), n + 1, st2);
            assert(st2.out + concat_bytes(bytes.drop_first()) =~= st.out + concat_bytes(bytes));
        }
    }
}

/// A source whose every line adds given bytes to the output (whatever
/// comes before it, on whatever line it stands) assembles to those bytes,
/// one line after another.
pub proof fn lemma_join_lines_assemble(lines: Seq<Seq<char>>, bytes: Seq<Seq<u8>>)
    requires
        lines.len() == bytes.len(),
        forall|i: int, k: int| 0 <= i < lines.len() && 0 <= k < lines[i].len() ==> #[trigger] lines[i][k] != '\n',
        forall|i: int, s0: AsmState, m: nat|
            0 <= i < lines.len() ==> #[trigger] line_effect(s0, lines[i], m) == AsmOutcome::Next(
                emit(s0, bytes[i]),
            ),
    ensures
        assemble_spec(join_lines(lines)) == Ok::<Seq<u8>, Seq<char>>(concat_bytes(bytes)),
{
    lemma_join_lines_effect(lines, bytes, 1, empty_state());
    assert(Seq::<u8>::empty() + concat_bytes(bytes) =~= concat_bytes(bytes));
}

/// Whether each label reference has its eight bytes inside an output of
/// `len` bytes, each lying wholly before the next.
pub open spec fn refs_separate(len: nat, refs: Seq<(usize, Seq<char>)>) -> bool {
    &&& forall|i: int| 0 <= i < refs.len() ==> #[trigger] refs[i].0 + 8 <= len
    &&& forall|i: int, j: int|
        0 <= i < j < refs.len() ==> #[trigger] refs[i].0 + 8 <= #[trigger] refs[j].0
}

/// Resolving separate label references succeeds exactly when every label
/// referred to is defined; then each reference's eight bytes hold the
/// little-endian address of its label, and every other byte is as it was.
pub proof fn lemma_resolve_patches_every_reference(
    out: Seq<u8>,
    labels: Map<Seq<char>, usize>,
    refs: Seq<(usize, Seq<char>)>,
)
    requires
        refs_separate(out.len(), refs),
    ensures
        (resolve(out, labels, refs) is Ok) == (forall|i: int|
            0 <= i < refs.len() ==> labels.contains_key(#[trigger] refs[i].1)),
        resolve(out, labels, refs) matches Ok(r) ==> {
            &&& r.len() == out.len()
            &&& forall|i: int|
                0 <= i < refs.len() ==> window(r, #[trigger] refs[i].0 as int) == u64_to_le(
                    labels[refs[i].1] as u64,
                )
            &&& forall|k: int|
                0 <= k < out.len() && (forall|i: int|
                    0 <= i < refs.len() ==> !(#[trigger] refs[i].0 <= k < refs[i].0 + 8)) ==> r[k]
                    == out[k]
        },
    decreases refs.len(),
{
    if refs.len() > 0 {
        let (p, name) = refs[0];
        let tail = refs.drop_first();
        assert forall|i: int| 0 <= i < tail.len() implies #[trigger] tail[i] == refs[i + 1] by {}
        if labels.contains_key(name) {
            let v = labels[name] as u64;
            let enc = u64_to_le(v);
            lemma_u64_le_roundtrip(v);
            let o2 = write_bytes(out, p as int, enc);
            assert(refs_separate(o2.len(), tail)) by {
                assert forall|i: int, j: int|
                    0 <= i < j < tail.len() implies #[trigger] tail[i].0 + 8 <= #[trigger] tail[j].0 by {
                    assert(refs[i + 1].0 + 8 <= refs[j + 1].0);
                }
                assert forall|i: int| 0 <= i < tail.len() implies #[trigger] tail[i].0 + 8 <= o2.len() by {
                    assert(refs[i + 1].0 + 8 <= out.len());
                }
            }
            lemma_resolve_patches_every_reference(o2, labels, tail);
            assert(resolve(out, labels, refs) == resolve(o2, labels, tail));
            if (forall|i: int| 0 <= i < tail.len() ==> labels.contains_key(#[trigger] tail[i].1)) {
                assert forall|i: int| 0 <= i < refs.len() implies labels.contains_key(#[trigger] refs[i].1) by {
                    if i > 0 {
                        assert(tail[i - 1] == refs[i]);
                    }
                }
            } else {
                let i0 = choose|i: int| 0 <= i < tail.len() && !labels.contains_key(#[trigger] tail[i].1);
                assert(refs[i0 + 1] == tail[i0]);
            }
            if let Ok(r) = resolve(o2, labels, tail) {
                assert(window(r, p as int) =~= enc) by {
                    assert forall|m: int| 0 <= m < 8 implies #[trigger] window(r, p as int)[m] == enc[m] by {
                        let k = p + m;
                        assert forall|i: int| 0 <= i < tail.len() implies !(#[trigger] tail[i].0 <= k < tail[i].0 + 8) by {
                            assert(refs[0].0 + 8 <= refs[i + 1].0);
                        }
                        assert(p + 8 <= out.len());
                    }
                }
                assert forall|i: int| 0 <= i < refs.len() implies window(r, #[trigger] refs[i].0 as int)
                    == u64_to_le(labels[refs[i].1] as u64) by {
                    if i > 0 {
                        assert(tail[i - 1] == refs[i]);
                    }
                }
                assert forall|k: int|
                    0 <= k < out.len() && (forall|i: int|
                        0 <= i < refs.len() ==> !(#[trigger] refs[i].0 <= k < refs[i].0 + 8)) implies r[k]
                    == out[k] by {
                    assert forall|i: int| 0 <= i < tail.len() implies !(#[trigger] tail[i].0 <= k < tail[i].0 + 8) by {
                        assert(!(refs[i + 1].0 <= k < refs[i + 1].0 + 8));
                    }
                    assert(!(refs[0].0 <= k < refs[0].0 + 8));
                }
            }
        }
    }
}

proof fn lemma_line_keeps_refs(st: AsmState, line: Seq<char>, n: nat)
    requires
        st.out.len() <= usize::MAX ==> refs_separate(st.out.len(), st.unresolved),
    ensures
        line_effect(st, line, n) matches AsmOutcome::Next(st2) ==> st2.out.len() >= st.out.len() && (
        st2.out.len() <= usize::MAX ==> refs_separate(st2.out.len(), st2.unresolved)),
{
    let code = line_code(line);
    if code.len() > 0 && code.last() != ':' {
        let m = mnemonic_of(first_token(code)->0);
        let op = second_token(code);
        if plain_op(m) is None && m != "push"@ && jump_op(m) is Some {
            if let Some(o) = op {
                let st1 = emit(st, seq![opcode_byte(jump_op(m)->0)]);
                lemma_u64_le_roundtrip(0);
                match parse_number(o, n) {
                    Ok(v) => {
                        lemma_u64_le_roundtrip(v);
                    },
                    Err(_) => {
                        let st2 = emit_target(st1, o, n);
                        if st2.out.len() <= usize::MAX {
                            let l = st1.out.len();
                            assert(st2.unresolved.last().0 == l);
                            assert forall|i: int, j: int|
                                0 <= i < j < st2.unresolved.len() implies #[trigger] st2.unresolved[i].0 + 8
                                <= #[trigger] st2.unresolved[j].0 by {
                                if j == st2.unresolved.len() - 1 {
                                    assert(st2.unresolved[i] == st.unresolved[i]);
                                } else {
                                    assert(st2.unresolved[i] == st.unresolved[i]);
                                    assert(st2.unresolved[j] == st.unresolved[j]);
                                }
                            }
                            assert forall|i: int| 0 <= i < st2.unresolved.len() implies #[trigger] st2.unresolved[i].0
                                + 8 <= st2.out.len() by {
                                if i < st.unresolved.len() {
                                    assert(st2.unresolved[i] == st.unresolved[i]);
                                }
                            }
                        }
                    },
                }
            }
        }
    }
}

proof fn lemma_lines_keep_refs(src: Seq<char>, start: int, n: nat, st: AsmState)
    requires
        st.out.len() <= usize::MAX ==> refs_separate(st.out.len(), st.unresolved),
    ensures
        lines_effect(src, start, n, st) matches AsmOutcome::Next(st2) ==> st2.out.len() >= st.out.len() && (
        st2.out.len() <= usize::MAX ==> refs_separate(st2.out.len(), st2.unresolved)),
    decreases src.len() - start,
{
    if 0 <= start <= src.len() {
        let end = find_char(src, '\n', start);
        lemma_find_char_bounds(src, '\n', start);
        let line = src.subrange(start, end);
        lemma_line_keeps_refs(st, line, n);
        if let AsmOutcome::Next(st2) = line_effect(st, line, n) {
            if end < src.len() {
                lemma_lines_keep_refs(src, end + 1, n + 1, st2);
            }
        }
    }
}

/// When a source assembles, every label operand is patched: each recorded
/// reference's eight bytes in the program hold the little-endian address at
/// which its label is defined, and assembling fails exactly when some
/// referred label is never defined (for an output that fits in memory).
pub proof fn lemma_assembled_references_patched(src: Seq<char>)
    ensures
        lines_effect(src, 0, 1, empty_state()) matches AsmOutcome::Next(st) ==> st.out.len()
            <= usize::MAX ==> {
            &&& (assemble_spec(src) is Ok) == (forall|i: int|
                0 <= i < st.unresolved.len() ==> st.labels.contains_key(#[trigger] st.unresolved[i].1))
            &&& assemble_spec(src) matches Ok(bin) ==> forall|i: int|
                0 <= i < st.unresolved.len() ==> window(bin, #[trigger] st.unresolved[i].0 as int)
                    == u64_to_le(st.labels[st.unresolved[i].1] as u64)
        },
{
    lemma_lines_keep_refs(src, 0, 1, empty_state());
    if let AsmOutcome::Next(st) = lines_effect(src, 0, 1, empty_state()) {
        if st.out.len() <= usize::MAX {
            lemma_resolve_patches_every_reference(st.out, st.labels, st.unresolved);
        }
    }
}

/// The labels that the entries define, the latest entry winning.
pub open spec fn labels_map(entries: Seq<(Vec<char>, usize)>) -> Map<Seq<char>, usize>
    decreases entries.len(),
{
    if entries.len() == 0 {
        Map::empty()
    } else {
        labels_map(entries.drop_last()).insert(entries.last().0@, entries.last().1)
    }
}

/// Translates assembly source text to machine code.
pub struct Assembler {
    labels: Vec<(Vec<char>, usize)>,
    output: Vec<u8>,
    unresolved: Vec<(usize, Vec<char>)>,
}

impl View for Assembler {
    type V = AsmState;

    closed spec fn view(&self) -> AsmState {
        AsmState {
            out: self.output@,
            labels: labels_map(self.labels@),
            unresolved: self.unresolved@.map_values(|e: (usize, Vec<char>)| (e.0, e.1@)),
        }
    }
}

/// Appends the eight little-endian bytes of `v`.
pub fn push_u64_le(out: &mut Vec<u8>, v: u64)
    ensures
        final(out)@ == old(out)@ + u64_to_le(v),
{
    let ghost start = out@;
    let mut k: usize = 0;
    let mut x: u64 = v;
    assert(v >> 0u64 == v) by (bit_vector);
    while k < 8
        invariant
            k <= 8,
            out@ == start + u64_to_le(v).take(k as int),
            x == v >> (8 * k) as u64,
        decreases 8 - k,
    {
        let byte = (x & 0xff) as u8;
        assert(byte == ((v >> (8 * k) as u64) & 0xff) as u8) by (bit_vector)
            requires
                x == v >> (8 * k) as u64,
                byte == (x & 0xff) as u8,
        ;
        out.push(byte);
        assert(x >> 8u64 == v >> (8 * (k + 1)) as u64) by (bit_vector)
            requires
                x == v >> (8 * k) as u64,
                k < 8,
        ;
        x = x >> 8u64;
        k = k + 1;
        assert(out@ =~= start + u64_to_le(v).take(k as int));
    }
    assert(u64_to_le(v).take(8) =~= u64_to_le(v));
}

/// The opcode of a mnemonic that takes no operand.
fn plain_opcode(m: &[char]) -> (r: Option<Opcode>)
    ensures
        r == plain_op(m@),
{
    let ops = [
        Opcode::Nop,
        Opcode::Halt,
        Opcode::Pop,
        Opcode::Dup,
        Opcode::Swap,
        Opcode::Load,
        Opcode::Store,
        Opcode::Add,
        Opcode::Sub,
        Opcode::Mul,
        Opcode::Div,
        Opcode::Mod,
        Opcode::And,
        Opcode::Or,
        Opcode::Not,
        Opcode::Eq,
        Opcode::Lt,
        Opcode::Gt,
        Opcode::Ret,
    ];
    let mut i: usize = 0;
    while i < 19
        invariant
            ops@ == seq![
                Opcode::Nop,
                Opcode::Halt,
                Opcode::Pop,
                Opcode::Dup,
                Opcode::Swap,
                Opcode::Load,
                Opcode::Store,
                Opcode::Add,
                Opcode::Sub,
                Opcode::Mul,
                Opcode::Div,
                Opcode::Mod,
                Opcode::And,
                Opcode::Or,
                Opcode::Not,
                Opcode::Eq,
                Opcode::Lt,
                Opcode::Gt,
                Opcode::Ret,
            ],
            i <= 19,
            forall|k: int| 0 <= k < i ==> m@ != opcode_name(#[trigger] ops@[k]),
        decreases 19 - i,
    {
        let op = ops[i];
        if is_word(m, op.name()) {
            return Some(op);
        }
        i = i + 1;
    }
    None
}

/// The opcode of a mnemonic whose operand is an address or a label.
fn jump_opcode(m: &[char]) -> (r: Option<Opcode>)
    ensures
        r == jump_op(m@),
{
    if is_word(m, Opcode::Jmp.name()) {
        Some(Opcode::Jmp)
    } else if is_word(m, Opcode::Jz.name()) {
        Some(Opcode::Jz)
    } else if is_word(m, Opcode::Jnz.name()) {
        Some(Opcode::Jnz)
    } else if is_word(m, Opcode::Call.name()) {
        Some(Opcode::Call)
    } else {
        None
    }
}

/// The trap a mnemonic names.
fn trap_mnemonic(m: &[char]) -> (r: Option<Trap>)
    ensures
        r == trap_op(m@),
{
    if is_word(m, Trap::Putc.name()) {
        Some(Trap::Putc)
    } else if is_word(m, Trap::Getc.name()) {
        Some(Trap::Getc)
    } else if is_word(m, Trap::Puts.name()) {
        Some(Trap::Puts)
    } else if is_word(m, Trap::Putu.name()) {
        Some(Trap::Putu)
    } else if is_word(m, Trap::Puti.name()) {
        Some(Trap::Puti)
    } else {
        None
    }
}

/// The characters of an optional token.
pub open spec fn chars_view(op: Option<Vec<char>>) -> Option<Seq<char>> {
    match op {
        Some(o) => Some(o@),
        None => None,
    }
}

/// The value of digit character `c`.
fn digit_of(c: char) -> (r: Option<u64>)
    ensures
        r matches Some(v) ==> digit_value(c) == Some(v as nat),
        r is None ==> digit_value(c) is None,
{
    let u = c as u32;
    if 48 <= u && u <= 57 {
        Some((u - 48) as u64)
    } else if 97 <= u && u <= 122 {
        Some((u - 87) as u64)
    } else if 65 <= u && u <= 90 {
        Some((u - 55) as u64)
    } else {
        None
    }
}

/// A prefix of a digit string never has a larger value than the whole.
proof fn lemma_digits_value_prefix(d: Seq<char>, k: int, radix: nat)
    requires
        0 <= k <= d.len(),
        radix >= 1,
    ensures
        digits_value(d.take(k), radix) <= digits_value(d, radix),
    decreases d.len() - k,
{
    if k == d.len() {
        assert(d.take(k) =~= d);
    } else {
        let p = d.drop_last();
        lemma_digits_value_prefix(p, k, radix);
        assert(p.take(k) =~= d.take(k));
        let v = digits_value(p, radix);
        assert(v * radix >= v) by (nonlinear_arith)
            requires
                radix >= 1,
        ;
    }
}

/// Reads an unsigned number in `radix` as `parse_unsigned` describes.
pub(crate) fn parse_unsigned_chars(d: &[char], radix: u64) -> (r: Option<u64>)
    requires
        2 <= radix <= 36,
    ensures
        r == parse_unsigned(d@, radix as nat),
{
    let ghost body = if d@.len() > 0 && d@[0] == '+' {
        d@.drop_first()
    } else {
        d@
    };
    let start: usize = if d.len() > 0 && d[0] == '+' {
        1
    } else {
        0
    };
    assert(body =~= d@.subrange(start as int, d@.len() as int));
    if start >= d.len() {
        assert(body.len() == 0);
        return None;
    }
    let mut acc: u64 = 0;
    let mut i = start;
    assert(body.take(0) =~= Seq::<char>::empty());
    while i < d.len()
        invariant
            start <= i <= d@.len(),
            body == d@.subrange(start as int, d@.len() as int),
            body == (if d@.len() > 0 && d@[0] == '+' {
                d@.drop_first()
            } else {
                d@
            }),
            acc as nat == digits_value(body.take(i - start), radix as nat),
            all_digits(body.take(i - start), radix as nat),
            2 <= radix <= 36,
        decreases d@.len() - i,
    {
        let c = d[i];
        let ghost k = i - start;
        assert(body[k] == c);
        let dv = match digit_of(c) {
            Some(v) => v,
            None => {
                assert(digit_value(body[k]) is None);
                assert(!all_digits(body, radix as nat));
                return None;
            },
        };
        if dv >= radix {
            assert(digit_value(body[k])->0 >= radix);
            assert(!all_digits(body, radix as nat));
            return None;
        }
        assert(body.take(k + 1).drop_last() =~= body.take(k));
        assert(body.take(k + 1).last() == c);
        let next = match acc.checked_mul(radix) {
            Some(p) => p.checked_add(dv),
            None => None,
        };
        match next {
            Some(n) => {
                acc = n;
            },
            None => {
                proof {
                    assert(acc * radix >= 0) by (nonlinear_arith)
                        requires
                            radix >= 2,
                    ;
                    assert(digits_value(body.take(k + 1), radix as nat) > u64::MAX);
                    lemma_digits_value_prefix(body, k + 1, radix as nat);
                }
                return None;
            },
        }
        i = i + 1;
        assert(all_digits(body.take(i - start), radix as nat)) by {
            assert forall|j: int| 0 <= j < i - start implies (#[trigger] digit_value(
                body.take(i - start)[j],
            )) is Some && digit_value(body.take(i - start)[j])->0 < radix as nat by {
                if j < k {
                    assert(body.take(i - start)[j] == body.take(k)[j]);
                }
            }
        }
    }
    assert(body.take(i - start) =~= body);
    Some(acc)
}

/// The error message "line N: <what> '<s>'".
fn line_msg(line_num: usize, what: &str, s: &[char]) -> (m: Vec<char>)
    ensures
        m@ == line_message(line_num as nat, what@, s@),
{
    let mut m: Vec<char> = Vec::new();
    push_str(&mut m, "line ");
    push_dec(&mut m, line_num as u64);
    push_str(&mut m, ": ");
    push_str(&mut m, what);
    push_str(&mut m, " '");
    push_chars(&mut m, s);
    push_str(&mut m, "'");
    m
}

/// The error message "line N: missing operand".
fn missing_operand(line_num: usize) -> (m: Vec<char>)
    ensures
        m@ == "line "@ + dec_digits(line_num as nat) + ": missing operand"@,
{
    let mut m: Vec<char> = Vec::new();
    push_str(&mut m, "line ");
    push_dec(&mut m, line_num as u64);
    push_str(&mut m, ": missing operand");
    m
}

/// Reads a number operand as `parse_number` describes.
fn parse_number_chars(tok: &[char], line_num: usize) -> (r: Result<u64, Vec<char>>)
    ensures
        match parse_number(tok@, line_num as nat) {
            Ok(v) => r == Ok::<u64, Vec<char>>(v),
            Err(e) => r matches Err(m) && m@ == e,
        },
{
    let s = trim_chars(tok);
    let n = s.len();
    if n >= 2 && s[0] == '0' && (s[1] == 'x' || s[1] == 'X') {
        let digits = sub_chars(s.as_slice(), 2, n);
        match parse_unsigned_chars(digits.as_slice(), 16) {
            Some(v) => Ok(v),
            None => Err(line_msg(line_num, "invalid hex number", s.as_slice())),
        }
    } else if n >= 1 && s[0] == '-' {
        let body = sub_chars(s.as_slice(), 1, n);
        assert(body@ =~= s@.drop_first());
        if body.len() > 0 && body[0] != '+' {
            match parse_unsigned_chars(body.as_slice(), 10) {
                Some(v) => {
                    if v <= 0x8000_0000_0000_0000 {
                        return Ok(0u64.wrapping_sub(v));
                    }
                },
                None => {},
            }
        } else if body.len() > 0 {
            assert(digit_value(body@[0]) is None);
        }
        Err(line_msg(line_num, "invalid number", s.as_slice()))
    } else {
        match parse_unsigned_chars(s.as_slice(), 10) {
            Some(v) => Ok(v),
            None => Err(line_msg(line_num, "invalid number", s.as_slice())),
        }
    }
}

/// Reads the number operand of an instruction that needs one.
fn parse_operand(op: Option<&Vec<char>>, line_num: usize) -> (r: Result<u64, Vec<char>>)
    ensures
        match op {
            None => r matches Err(m) && m@ == "line "@ + dec_digits(line_num as nat)
                + ": missing operand"@,
            Some(o) => match parse_number(o@, line_num as nat) {
                Ok(v) => r == Ok::<u64, Vec<char>>(v),
                Err(e) => r matches Err(m) && m@ == e,
            },
        },
{
    match op {
        None => Err(missing_operand(line_num)),
        Some(o) => parse_number_chars(o.as_slice(), line_num),
    }
}

/// Defining a label after the others adds it to (or updates it in) the
/// labels defined so far.
proof fn lemma_labels_map_push(entries: Seq<(Vec<char>, usize)>, e: (Vec<char>, usize))
    ensures
        labels_map(entries.push(e)) == labels_map(entries).insert(e.0@, e.1),
{
    assert(entries.push(e).drop_last() =~= entries);
}

impl Assembler {
    /// An assembler with no labels and no output.
    pub fn new() -> (a: Self)
        ensures
            a@ == empty_state(),
    {
        let a = Assembler { labels: Vec::new(), output: Vec::new(), unresolved: Vec::new() };
        assert(a@.unresolved =~= Seq::<(usize, Seq<char>)>::empty());
        assert(a@.labels =~= Map::<Seq<char>, usize>::empty());
        a
    }

    /// The address of label `name`, if it is defined.
    fn lookup(&self, name: &[char]) -> (r: Option<usize>)
        ensures
            r matches Some(a) ==> self@.labels.contains_key(name@) && self@.labels[name@] == a,
            r is None ==> !self@.labels.contains_key(name@),
    {
        let mut i = self.labels.len();
        assert(self.labels@.take(i as int) =~= self.labels@);
        while i > 0
            invariant
                i <= self.labels@.len(),
                labels_map(self.labels@.take(i as int)).contains_key(name@) == labels_map(
                    self.labels@,
                ).contains_key(name@),
                labels_map(self.labels@.take(i as int)).contains_key(name@) ==> labels_map(
                    self.labels@.take(i as int),
                )[name@] == labels_map(self.labels@)[name@],
            decreases i,
        {
            assert(self.labels@.take(i as int).drop_last() =~= self.labels@.take(i - 1));
            if chars_eq(self.labels[i - 1].0.as_slice(), name) {
                return Some(self.labels[i - 1].1);
            }
            i = i - 1;
        }
        assert(self.labels@.take(0) =~= Seq::<(Vec<char>, usize)>::empty());
        None
    }

    fn emit_byte(&mut self, byte: u8)
        ensures
            final(self)@ == emit(old(self)@, seq![byte]),
    {
        self.output.push(byte);
        assert(self.output@ =~= old(self).output@ + seq![byte]);
    }

    fn emit_u64(&mut self, val: u64)
        ensures
            final(self)@ == emit(old(self)@, u64_to_le(val)),
    {
        push_u64_le(&mut self.output, val);
    }

    fn emit_label_or_addr(&mut self, op: &[char], line_num: usize)
        ensures
            final(self)@ == emit_target(old(self)@, op@, line_num as nat),
    {
        match parse_number_chars(op, line_num) {
            Ok(addr) => self.emit_u64(addr),
            Err(_) => {
                let name = sub_chars(op, 0, op.len());
                assert(name@ =~= op@);
                let pos = self.output.len();
                let ghost before = self.unresolved@;
                self.unresolved.push((pos, name));
                assert(self.unresolved@.map_values(|e: (usize, Vec<char>)| (e.0, e.1@))
                    =~= before.map_values(|e: (usize, Vec<char>)| (e.0, e.1@)).push((pos, op@)));
                self.emit_u64(0);
            },
        }
    }

    /// Assembles the instruction with mnemonic `m` (already lowercased) and
    /// operand `op` on line `line_num`: `Ok` with the output extended, the
    /// error message, or `Err(None)` on a `db` operand that is a lone '"'.
    pub fn instruction(&mut self, m: &[char], op: Option<Vec<char>>, line_num: usize) -> (r: Result<(), Option<Vec<char>>>)
        ensures
            match instruction_effect(old(self)@, m@, chars_view(op), line_num as nat) {
                AsmOutcome::Next(st) => r is Ok && final(self)@ == st,
                AsmOutcome::Error(e) => r matches Err(Some(msg)) && msg@ == e,
                AsmOutcome::Stuck => r == Err::<(), Option<Vec<char>>>(None),
            },
    {
        match plain_opcode(m) {
            Some(code) => {
                self.emit_byte(code.to_byte());
                return Ok(());
            },
            None => {},
        }
        if is_word(m, "push") {
            match parse_operand(op.as_ref(), line_num) {
                Ok(v) => {
                    self.emit_byte(Opcode::Push.to_byte());
                    self.emit_u64(v);
                    assert(self@.out =~= old(self)@.out + (seq![opcode_byte(Opcode::Push)]
                        + u64_to_le(v)));
                    return Ok(());
                },
                Err(e) => {
                    return Err(Some(e));
                },
            }
        }
        match jump_opcode(m) {
            Some(code) => {
                match op {
                    None => {
                        return Err(Some(missing_operand(line_num)));
                    },
                    Some(o) => {
                        self.emit_byte(code.to_byte());
                        self.emit_label_or_addr(o.as_slice(), line_num);
                        return Ok(());
                    },
                }
            },
            None => {},
        }
        match trap_mnemonic(m) {
            Some(t) => {
                self.emit_byte(Opcode::Trap.to_byte());
                self.emit_byte(t.to_byte());
                assert(self@.out =~= old(self)@.out + seq![opcode_byte(Opcode::Trap), trap_code(t)]);
                return Ok(());
            },
            None => {},
        }
        if is_word(m, "db") {
            match op {
                None => {
                    return Ok(());
                },
                Some(o) => {
                    let n = o.len();
                    if n >= 1 && o[0] == '"' && o[n - 1] == '"' {
                        if n == 1 {
                            return Err(None);
                        }
                        let inner = sub_chars(o.as_slice(), 1, n - 1);
                        let text = string_from_chars(inner.as_slice());
                        let bytes = text.as_str().as_bytes();
                        let ghost start = self.output@;
                        let mut i: usize = 0;
                        while i < bytes.len()
                            invariant
                                i <= bytes@.len(),
                                bytes@ == encode_utf8(inner@),
                                self.output@ == start + bytes@.take(i as int),
                                self.labels == old(self).labels,
                                self.unresolved == old(self).unresolved,
                            decreases bytes@.len() - i,
                        {
                            self.output.push(bytes[i]);
                            i = i + 1;
                            assert(self.output@ =~= start + bytes@.take(i as int));
                        }
                        self.output.push(0u8);
                        assert(bytes@.take(bytes@.len() as int) =~= bytes@);
                        assert(self@.out =~= old(self)@.out + encode_utf8(inner@).push(0u8));
                        return Ok(());
                    } else {
                        match parse_number_chars(o.as_slice(), line_num) {
                            Ok(v) => {
                                self.emit_byte(v as u8);
                                return Ok(());
                            },
                            Err(e) => {
                                return Err(Some(e));
                            },
                        }
                    }
                },
            }
        }
        Err(Some(line_msg(line_num, "unknown instruction", m)))
    }

    fn process_line(&mut self, line: &[char], line_num: usize) -> (r: Result<(), Option<Vec<char>>>)
        ensures
            match line_effect(old(self)@, line@, line_num as nat) {
                AsmOutcome::Next(st) => r is Ok && final(self)@ == st,
                AsmOutcome::Error(e) => r matches Err(Some(msg)) && msg@ == e,
                AsmOutcome::Stuck => r == Err::<(), Option<Vec<char>>>(None),
            },
    {
        let semi = find(line, ';', 0);
        let code_part = sub_chars(line, 0, semi);
        assert(code_part@ =~= line@.take(find_char(line@, ';', 0)));
        let code = trim_chars(code_part.as_slice());
        let n = code.len();
        if n == 0 {
            return Ok(());
        }
        if code[n - 1] == ':' {
            let e = strip_end(code.as_slice(), ':');
            let label = sub_chars(code.as_slice(), 0, e);
            assert(label@ =~= code@.take(e as int));
            let addr = self.output.len();
            let ghost before = self.labels@;
            self.labels.push((label, addr));
            proof {
                lemma_labels_map_push(before, (label, addr));
            }
            return Ok(());
        }
        proof {
            let cp = code_part@;
            crate::scan::lemma_skip_ws_bounds(cp, 0);
            crate::scan::lemma_trim_back_bounds(cp, cp.len() as int);
            assert(code@[0] == cp[crate::scan::skip_ws(cp, 0)]);
            assert(crate::scan::skip_ws(code@, 0) == 0);
        }
        let (t0, t1, _t2) = tokens3(code.as_slice());
        let tok = match t0 {
            Some(t) => t,
            None => {
                return Ok(());
            },
        };
        let tok_text = string_from_chars(tok.as_slice());
        let lower = to_lowercase(tok_text.as_str());
        let m = chars_of(lower.as_str());
        self.instruction(m.as_slice(), t1, line_num)
    }

    fn resolve_labels(&mut self) -> (r: Result<(), Vec<char>>)
        ensures
            match resolve(old(self)@.out, old(self)@.labels, old(self)@.unresolved) {
                Ok(out) => r is Ok && final(self)@.out == out,
                Err(e) => r matches Err(msg) && msg@ == e,
            },
    {
        let ghost labels = self@.labels;
        let ghost pending = self@.unresolved;
        let mut i: usize = 0;
        assert(pending.skip(0) =~= pending);
        while i < self.unresolved.len()
            invariant
                i <= self.unresolved@.len(),
                self@.labels == labels,
                self@.unresolved == pending,
                pending.len() == self.unresolved@.len(),
                resolve(self@.out, labels, pending.skip(i as int)) == resolve(
                    old(self)@.out,
                    old(self)@.labels,
                    old(self)@.unresolved,
                ),
            decreases self.unresolved@.len() - i,
        {
            assert(pending.skip(i as int)[0] == pending[i as int]);
            assert(pending.skip(i as int).drop_first() =~= pending.skip(i + 1));
            let pos = self.unresolved[i].0;
            let found = self.lookup(self.unresolved[i].1.as_slice());
            match found {
                None => {
                    let mut m: Vec<char> = Vec::new();
                    push_str(&mut m, "undefined label '");
                    push_chars(&mut m, self.unresolved[i].1.as_slice());
                    push_str(&mut m, "'");
                    return Err(m);
                },
                Some(addr) => {
                    store_u64_le(&mut self.output, pos, addr as u64);
                },
            }
            i = i + 1;
        }
        assert(pending.skip(i as int) =~= Seq::<(usize, Seq<char>)>::empty());
        Ok(())
    }

    /// Assembles `source`, or returns `None` on a source on which assembling
    /// cannot go on (see `assembly_stuck`).
    pub fn try_assemble(&mut self, source: &str) -> (r: Option<Result<Vec<u8>, String>>)
        requires
            source@.len() < usize::MAX,
        ensures
            r is None <==> assembly_stuck(source@),
            r matches Some(Ok(bytes)) ==> assemble_spec(source@) == Ok::<Seq<u8>, Seq<char>>(bytes@),
            r matches Some(Err(msg)) ==> assemble_spec(source@) == Err::<Seq<u8>, Seq<char>>(msg@),
    {
        self.labels.clear();
        self.output.clear();
        self.unresolved.clear();
        assert(self@.unresolved =~= Seq::<(usize, Seq<char>)>::empty());
        assert(self@.labels =~= Map::<Seq<char>, usize>::empty());
        assert(self@ == empty_state());
        let src = chars_of(source);
        let mut start: usize = 0;
        let mut line_num: usize = 1;
        loop
            invariant_except_break
                start <= src@.len(),
                src@ == source@,
                src@.len() < usize::MAX,
                1 <= line_num <= start + 1,
                lines_effect(src@, start as int, line_num as nat, self@) == lines_effect(
                    src@,
                    0,
                    1,
                    empty_state(),
                ),
            ensures
                lines_effect(src@, 0, 1, empty_state()) == AsmOutcome::Next(self@),
            decreases src@.len() - start,
        {
            let ghost before = self@;
            let end = find(src.as_slice(), '\n', start);
            let line = sub_chars(src.as_slice(), start, end);
            let outcome = self.process_line(line.as_slice(), line_num);
            proof {
                crate::scan::lemma_find_char_bounds(src@, '\n', start as int);
                assert(line@ == src@.subrange(start as int, end as int));
            }
            match outcome {
                Ok(()) => {},
                Err(None) => {
                    assert(lines_effect(src@, start as int, line_num as nat, before) is Stuck);
                    return None;
                },
                Err(Some(msg)) => {
                    assert(lines_effect(src@, start as int, line_num as nat, before)
                        == AsmOutcome::Error(msg@));
                    return Some(Err(string_from_chars(msg.as_slice())));
                },
            }
            if end >= src.len() {
                assert(lines_effect(src@, start as int, line_num as nat, before)
                    == AsmOutcome::Next(self@));
                break;
            }
            assert(lines_effect(src@, start as int, line_num as nat, before) == lines_effect(
                src@,
                end + 1,
                (line_num + 1) as nat,
                self@,
            ));
            start = end + 1;
            line_num = line_num + 1;
        }
        match self.resolve_labels() {
            Ok(()) => Some(Ok(self.output.clone())),
            Err(msg) => Some(Err(string_from_chars(msg.as_slice()))),
        }
    }

    /// Assembles `source` into machine code, or returns the first error.
    pub fn assemble(&mut self, source: &str) -> (r: Result<Vec<u8>, String>)
        requires
            source@.len() < usize::MAX,
            !assembly_stuck(source@),
        ensures
            r matches Ok(bytes) ==> assemble_spec(source@) == Ok::<Seq<u8>, Seq<char>>(bytes@),
            r matches Err(msg) ==> assemble_spec(source@) == Err::<Seq<u8>, Seq<char>>(msg@),
    {
        match self.try_assemble(source) {
            Some(r) => r,
            None => Err(String::new()),
        }
    }
}

impl Default for Assembler {
    fn default() -> (a: Self)
        ensures
            a@ == empty_state(),
    {
        Self::new()
    }
}

} // verus!
