//! The Kagura assembler: one instruction per line, optional `label:` prefixes, `;` and `#`
//! comments, the twelve real instructions in raw form and the pseudo instructions `NOP`,
//! `LI`, `BZ`, `JMP`, `CALL`, `JR`, `CALLR`, `RET`. The output is a flat sequence of
//! instruction words; labels resolve to `(label - (address + 4)) / 4`.
use vstd::prelude::*;

use crate::text::{decimal, push_decimal, push_signed, push_str, signed_decimal};
use crate::chars::{
    chars_eq, chars_to_string, copy_range, find, is_ascii_alnum, is_ascii_alpha, is_ascii_digit,
    is_ascii_lower,
    is_space, is_space_exec, lemma_find_bounds, lemma_find_is_first, str_chars, trim, trim_chars,
    upper, upper_exec,
};

verus! {

pub const OP_ADD: u32 = 0x0;
pub const OP_NAND: u32 = 0x1;
pub const OP_SHIFT: u32 = 0x2;
pub const OP_MUL: u32 = 0x3;
pub const OP_LDB: u32 = 0x4;
pub const OP_LDH: u32 = 0x5;
pub const OP_LDW: u32 = 0x7;
pub const OP_STB: u32 = 0x8;
pub const OP_STH: u32 = 0x9;
pub const OP_STW: u32 = 0xB;
pub const OP_JZ: u32 = 0xC;
pub const OP_CMP: u32 = 0xD;

/// An assembled program: instruction words in address order.
#[derive(Debug, Clone, PartialEq, Eq)]
pub struct Program {
    words: Vec<u32>,
}

impl View for Program {
    type V = Seq<u32>;

    closed spec fn view(&self) -> Seq<u32> {
        self.words@
    }
}

/// Why a source text does not assemble. `line` is 1-based.
#[derive(Debug, Clone, PartialEq, Eq)]
pub enum AssemblerError {
    DuplicateLabel { line: usize, label: String },
    UnknownLabel { line: usize, label: String },
    UnknownMnemonic { line: usize, mnemonic: String },
    InvalidRegister { line: usize, token: String },
    InvalidImmediate { line: usize, token: String },
    ImmediateOutOfRange { line: usize, value: i64, min: i64, max: i64 },
    WrongOperandCount { line: usize, mnemonic: String, expected: &'static str, got: usize },
    InvalidLabel { line: usize, label: String },
    InvalidSyntax { line: usize, message: String },
}

/// The model of an `AssemblerError`: strings as character sequences, numbers as integers.
pub enum ErrorView {
    DuplicateLabel { line: int, label: Seq<char> },
    UnknownLabel { line: int, label: Seq<char> },
    UnknownMnemonic { line: int, mnemonic: Seq<char> },
    InvalidRegister { line: int, token: Seq<char> },
    InvalidImmediate { line: int, token: Seq<char> },
    ImmediateOutOfRange { line: int, value: int, min: int, max: int },
    WrongOperandCount { line: int, mnemonic: Seq<char>, expected: Seq<char>, got: int },
    InvalidLabel { line: int, label: Seq<char> },
    InvalidSyntax { line: int, message: Seq<char> },
}

impl View for AssemblerError {
    type V = ErrorView;

    open spec fn view(&self) -> ErrorView {
        match self {
            AssemblerError::DuplicateLabel { line, label } => ErrorView::DuplicateLabel { line: *line as int, label: label@ },
            AssemblerError::UnknownLabel { line, label } => ErrorView::UnknownLabel { line: *line as int, label: label@ },
            AssemblerError::UnknownMnemonic { line, mnemonic } => ErrorView::UnknownMnemonic { line: *line as int, mnemonic: mnemonic@ },
            AssemblerError::InvalidRegister { line, token } => ErrorView::InvalidRegister { line: *line as int, token: token@ },
            AssemblerError::InvalidImmediate { line, token } => ErrorView::InvalidImmediate { line: *line as int, token: token@ },
            AssemblerError::ImmediateOutOfRange { line, value, min, max } => ErrorView::ImmediateOutOfRange {
                line: *line as int,
                value: *value as int,
                min: *min as int,
                max: *max as int,
            },
            AssemblerError::WrongOperandCount { line, mnemonic, expected, got } => ErrorView::WrongOperandCount {
                line: *line as int,
                mnemonic: mnemonic@,
                expected: expected@,
                got: *got as int,
            },
            AssemblerError::InvalidLabel { line, label } => ErrorView::InvalidLabel { line: *line as int, label: label@ },
            AssemblerError::InvalidSyntax { line, message } => ErrorView::InvalidSyntax { line: *line as int, message: message@ },
        }
    }
}

/// The message of an assembler error, as the command-line tools print it.
pub open spec fn error_message(e: ErrorView) -> Seq<char> {
    match e {
        ErrorView::DuplicateLabel { line, label } => "line "@ + decimal(line as nat) + ": duplicate label `"@ + label + "`"@,
        ErrorView::UnknownLabel { line, label } => "line "@ + decimal(line as nat) + ": unknown label `"@ + label + "`"@,
        ErrorView::UnknownMnemonic { line, mnemonic } => "line "@ + decimal(line as nat) + ": unknown mnemonic `"@ + mnemonic + "`"@,
        ErrorView::InvalidRegister { line, token } => "line "@ + decimal(line as nat) + ": invalid register `"@ + token + "`"@,
        ErrorView::InvalidImmediate { line, token } => "line "@ + decimal(line as nat) + ": invalid immediate `"@ + token + "`"@,
        ErrorView::ImmediateOutOfRange { line, value, min, max } => "line "@ + decimal(line as nat) + ": immediate `"@
            + signed_decimal(value) + "` out of range ("@ + signed_decimal(min) + "..="@ + signed_decimal(max) + ")"@,
        ErrorView::WrongOperandCount { line, mnemonic, expected, got } => "line "@ + decimal(line as nat) + ": `"@ + mnemonic
            + "` expects "@ + expected + ", got "@ + decimal(got as nat) + " operand(s)"@,
        ErrorView::InvalidLabel { line, label } => "line "@ + decimal(line as nat) + ": invalid label `"@ + label + "`"@,
        ErrorView::InvalidSyntax { line, message } => "line "@ + decimal(line as nat) + ": "@ + message,
    }
}

fn quoted_line_message(line: usize, what: &str, name: &str) -> (r: String)
    ensures
        r@ == "line "@ + decimal(line as nat) + what@ + name@ + "`"@,
{
    let mut v: Vec<char> = Vec::new();
    push_str(&mut v, "line ");
    push_decimal(&mut v, line as u64);
    push_str(&mut v, what);
    push_str(&mut v, name);
    push_str(&mut v, "`");
    assert(v@ =~= "line "@ + decimal(line as nat) + what@ + name@ + "`"@);
    chars_to_string(v.as_slice())
}

impl AssemblerError {
    /// The error's message: the line, then what is wrong.
    pub fn message(&self) -> (r: String)
        ensures
            r@ == error_message(self@),
    {
        match self {
            AssemblerError::DuplicateLabel { line, label } => quoted_line_message(*line, ": duplicate label `", label.as_str()),
            AssemblerError::UnknownLabel { line, label } => quoted_line_message(*line, ": unknown label `", label.as_str()),
            AssemblerError::UnknownMnemonic { line, mnemonic } => quoted_line_message(*line, ": unknown mnemonic `", mnemonic.as_str()),
            AssemblerError::InvalidRegister { line, token } => quoted_line_message(*line, ": invalid register `", token.as_str()),
            AssemblerError::InvalidImmediate { line, token } => quoted_line_message(*line, ": invalid immediate `", token.as_str()),
            AssemblerError::ImmediateOutOfRange { line, value, min, max } => {
                let mut v: Vec<char> = Vec::new();
                push_str(&mut v, "line ");
                push_decimal(&mut v, *line as u64);
                push_str(&mut v, ": immediate `");
                push_signed(&mut v, *value);
                push_str(&mut v, "` out of range (");
                push_signed(&mut v, *min);
                push_str(&mut v, "..=");
                push_signed(&mut v, *max);
                push_str(&mut v, ")");
                assert(v@ =~= error_message(self@));
                chars_to_string(v.as_slice())
            },
            AssemblerError::WrongOperandCount { line, mnemonic, expected, got } => {
                let mut v: Vec<char> = Vec::new();
                push_str(&mut v, "line ");
                push_decimal(&mut v, *line as u64);
                push_str(&mut v, ": `");
                push_str(&mut v, mnemonic.as_str());
                push_str(&mut v, "` expects ");
                push_str(&mut v, expected);
                push_str(&mut v, ", got ");
                push_decimal(&mut v, *got as u64);
                push_str(&mut v, " operand(s)");
                assert(v@ =~= error_message(self@));
                chars_to_string(v.as_slice())
            },
            AssemblerError::InvalidLabel { line, label } => quoted_line_message(*line, ": invalid label `", label.as_str()),
            AssemblerError::InvalidSyntax { line, message } => {
                let mut v: Vec<char> = Vec::new();
                push_str(&mut v, "line ");
                push_decimal(&mut v, *line as u64);
                push_str(&mut v, ": ");
                push_str(&mut v, message.as_str());
                assert(v@ =~= error_message(self@));
                chars_to_string(v.as_slice())
            },
        }
    }
}

// ------------------------------------------------------------------------------------
// Text structure
// ------------------------------------------------------------------------------------

/// Matches a line feed.
pub open spec fn newline_pred() -> spec_fn(char) -> bool {
    |c: char| c == '\n'
}

/// Matches a comment start.
pub open spec fn comment_pred() -> spec_fn(char) -> bool {
    |c: char| c == ';' || c == '#'
}

/// Matches a label colon.
pub open spec fn colon_pred() -> spec_fn(char) -> bool {
    |c: char| c == ':'
}

/// Matches an operand separator: white space or a comma.
pub open spec fn separator_pred() -> spec_fn(char) -> bool {
    |c: char| is_space(c) || c == ','
}

/// `s` without one trailing carriage return.
pub open spec fn strip_cr(s: Seq<char>) -> Seq<char> {
    if s.len() > 0 && s.last() == '\r' { s.drop_last() } else { s }
}

/// The lines of `s` as `str::lines` yields them: split at `\n`, a `\r` right before a
/// `\n` dropped, and no empty last line after a final line ending.
pub open spec fn lines(s: Seq<char>) -> Seq<Seq<char>>
    decreases s.len(),
{
    if s.len() == 0 {
        seq![]
    } else {
        let n = find(s, newline_pred()) as int;
        if n >= s.len() {
            seq![s]
        } else {
            seq![strip_cr(s.take(n))] + lines(s.skip(n + 1))
        }
    }
}

/// The part of a line before its first `;` or `#`.
pub open spec fn strip_comment(line: Seq<char>) -> Seq<char> {
    line.take(find(line, comment_pred()) as int)
}

/// Operand separators: white space and commas.
pub open spec fn is_separator(c: char) -> bool {
    is_space(c) || c == ','
}

/// The maximal runs of non-separator characters of `s`, in order.
pub open spec fn words(s: Seq<char>) -> Seq<Seq<char>>
    decreases s.len(),
{
    if s.len() == 0 {
        seq![]
    } else if is_separator(s[0]) {
        words(s.drop_first())
    } else {
        let n = find(s, separator_pred()) as int;
        proof {
            lemma_find_bounds(s, separator_pred());
        }
        seq![s.take(n)] + words(s.skip(n))
    }
}

/// A label is an ASCII letter or `_` followed by ASCII letters, digits or `_`.
pub open spec fn valid_label(label: Seq<char>) -> bool {
    &&& label.len() > 0
    &&& (is_ascii_alpha(label[0]) || label[0] == '_')
    &&& forall|i: int| 1 <= i < label.len() ==> is_ascii_alnum(#[trigger] label[i]) || label[i] == '_'
}

/// One non-blank source line: its 1-based number, its label and its tokens.
pub struct LineView {
    pub line_no: int,
    pub label: Option<Seq<char>>,
    pub tokens: Seq<Seq<char>>,
}

/// The parse of one line: nothing for a blank or comment-only line, an error for an
/// invalid label, else the label and the tokens after it.
pub open spec fn parse_line(line: Seq<char>, line_no: int) -> Result<Option<LineView>, ErrorView> {
    let t = trim(strip_comment(line));
    if t.len() == 0 {
        Ok(None)
    } else {
        let k = find(t, colon_pred()) as int;
        if k < t.len() {
            let label = trim(t.take(k));
            if !valid_label(label) {
                Err(ErrorView::InvalidLabel { line: line_no, label })
            } else {
                Ok(Some(LineView { line_no, label: Some(label), tokens: words(trim(t.skip(k + 1))) }))
            }
        } else {
            Ok(Some(LineView { line_no, label: None, tokens: words(t) }))
        }
    }
}

/// The parse of consecutive lines numbered from `first`: stops at the first error.
pub open spec fn parse_lines(ls: Seq<Seq<char>>, first: int) -> Result<Seq<LineView>, ErrorView>
    decreases ls.len(),
{
    if ls.len() == 0 {
        Ok(seq![])
    } else {
        match parse_line(ls[0], first) {
            Err(e) => Err(e),
            Ok(p) => match parse_lines(ls.drop_first(), first + 1) {
                Err(e) => Err(e),
                Ok(rest) => Ok(match p {
                    Some(l) => seq![l] + rest,
                    None => rest,
                }),
            },
        }
    }
}

// ------------------------------------------------------------------------------------
// Symbols
// ------------------------------------------------------------------------------------

/// The address of `name` in a symbol list: its first occurrence.
pub open spec fn lookup_symbol(t: Seq<(Seq<char>, u32)>, name: Seq<char>) -> Option<u32>
    decreases t.len(),
{
    if t.len() == 0 {
        None
    } else if t[0].0 == name {
        Some(t[0].1)
    } else {
        lookup_symbol(t.drop_first(), name)
    }
}

/// Address of the instruction after one at `pc`: `pc + 4` modulo 2^32.
pub open spec fn next_address(pc: u32) -> u32 {
    ((pc + 4) % 0x1_0000_0000) as u32
}

/// Label addresses of the lines `ls[i..]`, continuing the symbols `syms` with the next
/// instruction at `pc`; a label defined twice is an error at its second line.
pub open spec fn collect_symbols(ls: Seq<LineView>, i: int, syms: Seq<(Seq<char>, u32)>, pc: u32) -> Result<Seq<(Seq<char>, u32)>, ErrorView>
    decreases ls.len() - i,
{
    if i < 0 || i >= ls.len() {
        Ok(syms)
    } else {
        let l = ls[i];
        let next = if l.tokens.len() > 0 { next_address(pc) } else { pc };
        match l.label {
            Some(label) => if lookup_symbol(syms, label) is Some {
                Err(ErrorView::DuplicateLabel { line: l.line_no, label })
            } else {
                collect_symbols(ls, i + 1, syms.push((label, pc)), next)
            },
            None => collect_symbols(ls, i + 1, syms, next),
        }
    }
}

// ------------------------------------------------------------------------------------
// Operands
// ------------------------------------------------------------------------------------

/// Value of a digit character in bases up to 16, or 16 when it is none.
pub open spec fn digit_value(c: char) -> int {
    if is_ascii_digit(c) {
        c as int - '0' as int
    } else if 'a' <= c && c <= 'f' {
        c as int - 'a' as int + 10
    } else if 'A' <= c && c <= 'F' {
        c as int - 'A' as int + 10
    } else {
        16
    }
}

/// Every character of `d` is a digit of base `radix`.
pub open spec fn all_digits(d: Seq<char>, radix: int) -> bool {
    forall|i: int| 0 <= i < d.len() ==> digit_value(#[trigger] d[i]) < radix
}

/// The value of the digit string `d` in base `radix`.
pub open spec fn digits_value(d: Seq<char>, radix: int) -> int
    decreases d.len(),
{
    if d.len() == 0 { 0 } else { digits_value(d.drop_last(), radix) * radix + digit_value(d.last()) }
}

/// `i64::from_str_radix`: an optional sign, then one or more digits of base `radix`,
/// with a value in the range of `i64`.
pub open spec fn parse_i64_radix(src: Seq<char>, radix: int) -> Option<int> {
    if src.len() == 0 || ((src[0] == '+' || src[0] == '-') && src.len() == 1) {
        None
    } else {
        let negative = src[0] == '-';
        let d = if src[0] == '+' || src[0] == '-' { src.drop_first() } else { src };
        if !all_digits(d, radix) {
            None
        } else if negative {
            if digits_value(d, radix) <= 0x8000_0000_0000_0000 { Some(-digits_value(d, radix)) } else { None }
        } else {
            if digits_value(d, radix) <= 0x7fff_ffff_ffff_ffff { Some(digits_value(d, radix)) } else { None }
        }
    }
}

/// `u8::from_str`: an optional `+`, then one or more decimal digits, value at most 255.
pub open spec fn parse_u8_decimal(src: Seq<char>) -> Option<int> {
    if src.len() == 0 || ((src[0] == '+' || src[0] == '-') && src.len() == 1) {
        None
    } else {
        let d = if src[0] == '+' { src.drop_first() } else { src };
        if all_digits(d, 10) && digits_value(d, 10) <= 255 { Some(digits_value(d, 10)) } else { None }
    }
}

/// A register token: `r` or `R` followed by a number from 0 to 15.
pub open spec fn parse_reg(line_no: int, token: Seq<char>) -> Result<u32, ErrorView> {
    if token.len() > 0 && (token[0] == 'r' || token[0] == 'R') {
        match parse_u8_decimal(token.drop_first()) {
            Some(n) => if n <= 15 { Ok(n as u32) } else { Err(ErrorView::InvalidRegister { line: line_no, token }) },
            None => Err(ErrorView::InvalidRegister { line: line_no, token }),
        }
    } else {
        Err(ErrorView::InvalidRegister { line: line_no, token })
    }
}

/// Whether `s` starts with the two characters `a`, `b`.
pub open spec fn has_prefix2(s: Seq<char>, a: char, b: char) -> bool {
    s.len() >= 2 && s[0] == a && s[1] == b
}

/// A numeric immediate: optional sign, then `0x`/`0X` hexadecimal, `0b`/`0B` binary or
/// decimal digits in `i64` range. The negation of `-2^63` is `-2^63`.
pub open spec fn parse_number(line_no: int, token: Seq<char>) -> Result<int, ErrorView> {
    let t = trim(token);
    let negative = t.len() > 0 && t[0] == '-';
    let digits = if t.len() > 0 && (t[0] == '-' || t[0] == '+') { t.drop_first() } else { t };
    let parsed = if has_prefix2(digits, '0', 'x') || has_prefix2(digits, '0', 'X') {
        parse_i64_radix(digits.skip(2), 16)
    } else if has_prefix2(digits, '0', 'b') || has_prefix2(digits, '0', 'B') {
        parse_i64_radix(digits.skip(2), 2)
    } else {
        parse_i64_radix(digits, 10)
    };
    match parsed {
        None => Err(ErrorView::InvalidImmediate { line: line_no, token: t }),
        Some(v) => Ok(if negative { if v == -0x8000_0000_0000_0000 { v } else { -v } } else { v }),
    }
}

/// An unsigned 16-bit immediate.
pub open spec fn parse_u16_imm(line_no: int, token: Seq<char>) -> Result<u32, ErrorView> {
    match parse_number(line_no, token) {
        Err(e) => Err(e),
        Ok(v) => if 0 <= v <= 0xffff { Ok(v as u32) } else {
            Err(ErrorView::ImmediateOutOfRange { line: line_no, value: v, min: 0, max: 0xffff })
        },
    }
}

/// The 16-bit two's complement encoding of `v` in `-32768..=32767`.
pub open spec fn imm16_bits(v: int) -> u32 {
    if v < 0 { (v + 0x1_0000) as u32 } else { v as u32 }
}

/// A signed 16-bit immediate, encoded in 16 bits.
pub open spec fn parse_s16_imm(line_no: int, token: Seq<char>) -> Result<u32, ErrorView> {
    match parse_number(line_no, token) {
        Err(e) => Err(e),
        Ok(v) => if -0x8000 <= v <= 0x7fff { Ok(imm16_bits(v)) } else {
            Err(ErrorView::ImmediateOutOfRange { line: line_no, value: v, min: -0x8000, max: 0x7fff })
        },
    }
}

/// The word offset to `label` from the instruction at `pc`: `(label - (pc + 4)) / 4`,
/// which must be exact and fit in a signed 16-bit immediate.
pub open spec fn resolve_label(line_no: int, label: Seq<char>, syms: Seq<(Seq<char>, u32)>, pc: u32) -> Result<u32, ErrorView> {
    match lookup_symbol(syms, label) {
        None => Err(ErrorView::UnknownLabel { line: line_no, label }),
        Some(target) => {
            let diff = target - next_address(pc);
            if diff % 4 != 0 {
                Err(ErrorView::InvalidSyntax { line: line_no, message: "label `"@ + label + "` is not 4-byte aligned relative to branch"@ })
            } else if -0x8000 <= diff / 4 <= 0x7fff {
                Ok(imm16_bits(diff / 4))
            } else {
                Err(ErrorView::ImmediateOutOfRange { line: line_no, value: diff / 4, min: -0x8000, max: 0x7fff })
            }
        },
    }
}

/// The instruction word with the given fields.
pub open spec fn encode(op: u32, rd: u32, rs1: u32, rs2: u32, imm: u32) -> u32 {
    (op * 0x1000_0000 + rd * 0x100_0000 + rs1 * 0x10_0000 + rs2 * 0x1_0000 + imm) as u32
}

/// How the operand list of a raw instruction ends.
pub enum ImmKind {
    /// `rd, rs1, rs2, imm` with a signed 16-bit `imm`.
    Signed,
    /// `rd, rs1, rs2, imm` with an unsigned 16-bit `imm`.
    Unsigned,
    /// `rd, rs1, rs2` with the immediate field zero.
    Absent,
}

/// A raw instruction `op rd, rs1, rs2[, imm]`; operands are checked in order.
pub open spec fn raw_instruction(line_no: int, mnemonic: Seq<char>, ops: Seq<Seq<char>>, op: u32, kind: ImmKind) -> Result<u32, ErrorView> {
    let count: int = if kind is Absent { 3 } else { 4 };
    if ops.len() != count {
        Err(ErrorView::WrongOperandCount {
            line: line_no,
            mnemonic,
            expected: if kind is Absent { "rd, rs1, rs2"@ } else { "rd, rs1, rs2, imm"@ },
            got: ops.len() as int,
        })
    } else {
        match parse_reg(line_no, ops[0]) {
            Err(e) => Err(e),
            Ok(rd) => match parse_reg(line_no, ops[1]) {
                Err(e) => Err(e),
                Ok(rs1) => match parse_reg(line_no, ops[2]) {
                    Err(e) => Err(e),
                    Ok(rs2) => match kind {
                        ImmKind::Absent => Ok(encode(op, rd, rs1, rs2, 0)),
                        ImmKind::Signed => match parse_s16_imm(line_no, ops[3]) {
                            Err(e) => Err(e),
                            Ok(imm) => Ok(encode(op, rd, rs1, rs2, imm)),
                        },
                        ImmKind::Unsigned => match parse_u16_imm(line_no, ops[3]) {
                            Err(e) => Err(e),
                            Ok(imm) => Ok(encode(op, rd, rs1, rs2, imm)),
                        },
                    },
                },
            },
        }
    }
}

/// The operand-count error of a mnemonic.
pub open spec fn wrong_count(line_no: int, mnemonic: Seq<char>, expected: Seq<char>, got: int) -> ErrorView {
    ErrorView::WrongOperandCount { line: line_no, mnemonic, expected, got }
}

/// `JR`/`CALLR`: `JZ link, r0, rs, imm` with `imm` optional (0).
pub open spec fn register_jump(line_no: int, mnemonic: Seq<char>, ops: Seq<Seq<char>>, link: u32) -> Result<u32, ErrorView> {
    if !(ops.len() == 1 || ops.len() == 2) {
        Err(wrong_count(line_no, mnemonic, "rs or rs, imm"@, ops.len() as int))
    } else {
        match parse_reg(line_no, ops[0]) {
            Err(e) => Err(e),
            Ok(rs) => if ops.len() == 2 {
                match parse_s16_imm(line_no, ops[1]) {
                    Err(e) => Err(e),
                    Ok(imm) => Ok(encode(OP_JZ, link, 0, rs, imm)),
                }
            } else {
                Ok(encode(OP_JZ, link, 0, rs, 0))
            },
        }
    }
}

/// The word assembled from the tokens of a line whose instruction is at `pc`.
#[verifier::opaque]
pub open spec fn assemble_tokens(line_no: int, tokens: Seq<Seq<char>>, syms: Seq<(Seq<char>, u32)>, pc: u32) -> Result<u32, ErrorView> {
    let m = tokens[0].map_values(|c: char| upper(c));
    let ops = tokens.drop_first();
    if m == "NOP"@ {
        if ops.len() != 0 { Err(wrong_count(line_no, m, "no operands"@, ops.len() as int)) } else { Ok(encode(OP_ADD, 0, 0, 0, 0)) }
    } else if m == "LI"@ {
        if ops.len() != 2 {
            Err(wrong_count(line_no, m, "rd, imm"@, ops.len() as int))
        } else {
            match parse_reg(line_no, ops[0]) {
                Err(e) => Err(e),
                Ok(rd) => match parse_s16_imm(line_no, ops[1]) {
                    Err(e) => Err(e),
                    Ok(imm) => Ok(encode(OP_ADD, rd, 0, 0, imm)),
                },
            }
        }
    } else if m == "BZ"@ {
        if ops.len() != 2 {
            Err(wrong_count(line_no, m, "rs, label"@, ops.len() as int))
        } else {
            match parse_reg(line_no, ops[0]) {
                Err(e) => Err(e),
                Ok(rs) => match resolve_label(line_no, ops[1], syms, pc) {
                    Err(e) => Err(e),
                    Ok(imm) => Ok(encode(OP_JZ, 0, rs, 0, imm)),
                },
            }
        }
    } else if m == "JMP"@ || m == "CALL"@ {
        if ops.len() != 1 {
            Err(wrong_count(line_no, m, "label"@, ops.len() as int))
        } else {
            match resolve_label(line_no, ops[0], syms, pc) {
                Err(e) => Err(e),
                Ok(imm) => Ok(encode(OP_JZ, if m == "CALL"@ { 15 } else { 0 }, 0, 0, imm)),
            }
        }
    } else if m == "JR"@ {
        register_jump(line_no, m, ops, 0)
    } else if m == "CALLR"@ {
        register_jump(line_no, m, ops, 15)
    } else if m == "RET"@ {
        if ops.len() != 0 { Err(wrong_count(line_no, m, "no operands"@, ops.len() as int)) } else { Ok(encode(OP_JZ, 0, 0, 15, 0)) }
    } else if m == "ADD"@ {
        raw_instruction(line_no, m, ops, OP_ADD, ImmKind::Signed)
    } else if m == "NAND"@ {
        raw_instruction(line_no, m, ops, OP_NAND, ImmKind::Absent)
    } else if m == "SHIFT"@ {
        raw_instruction(line_no, m, ops, OP_SHIFT, ImmKind::Unsigned)
    } else if m == "MUL"@ {
        raw_instruction(line_no, m, ops, OP_MUL, ImmKind::Absent)
    } else if m == "CMP"@ {
        raw_instruction(line_no, m, ops, OP_CMP, ImmKind::Unsigned)
    } else if m == "LDB"@ {
        raw_instruction(line_no, m, ops, OP_LDB, ImmKind::Signed)
    } else if m == "LDH"@ {
        raw_instruction(line_no, m, ops, OP_LDH, ImmKind::Signed)
    } else if m == "LDW"@ {
        raw_instruction(line_no, m, ops, OP_LDW, ImmKind::Signed)
    } else if m == "STB"@ {
        raw_instruction(line_no, m, ops, OP_STB, ImmKind::Signed)
    } else if m == "STH"@ {
        raw_instruction(line_no, m, ops, OP_STH, ImmKind::Signed)
    } else if m == "STW"@ {
        raw_instruction(line_no, m, ops, OP_STW, ImmKind::Signed)
    } else if m == "JZ"@ {
        raw_instruction(line_no, m, ops, OP_JZ, ImmKind::Signed)
    } else {
        Err(ErrorView::UnknownMnemonic { line: line_no, mnemonic: m })
    }
}

/// Words of the lines `ls[i..]` with the next instruction at `pc`: lines without tokens
/// produce nothing; the first error stops.
pub open spec fn emit_words(ls: Seq<LineView>, i: int, syms: Seq<(Seq<char>, u32)>, pc: u32) -> Result<Seq<u32>, ErrorView>
    decreases ls.len() - i,
{
    if i < 0 || i >= ls.len() {
        Ok(seq![])
    } else if ls[i].tokens.len() == 0 {
        emit_words(ls, i + 1, syms, pc)
    } else {
        match assemble_tokens(ls[i].line_no, ls[i].tokens, syms, pc) {
            Err(e) => Err(e),
            Ok(w) => match emit_words(ls, i + 1, syms, next_address(pc)) {
                Err(e) => Err(e),
                Ok(ws) => Ok(seq![w] + ws),
            },
        }
    }
}

/// The result of assembling `source`: parse every line, collect the labels, then encode
/// each instruction line from address 0.
pub open spec fn assemble_text(source: Seq<char>) -> Result<Seq<u32>, ErrorView> {
    match parse_lines(lines(source), 1) {
        Err(e) => Err(e),
        Ok(ls) => match collect_symbols(ls, 0, seq![], 0) {
            Err(e) => Err(e),
            Ok(syms) => emit_words(ls, 0, syms, 0),
        },
    }
}

// ------------------------------------------------------------------------------------
// Executable operand parsing
// ------------------------------------------------------------------------------------

/// An `AssemblerError` result seen through its model.
pub open spec fn view_result<T>(r: Result<T, AssemblerError>) -> Result<T, ErrorView> {
    match r {
        Ok(v) => Ok(v),
        Err(e) => Err(e@),
    }
}

pub(crate) fn digit_value_exec(c: char) -> (v: u32)
    ensures
        v as int == digit_value(c),
{
    if '0' <= c && c <= '9' {
        (c as u32) - ('0' as u32)
    } else if 'a' <= c && c <= 'f' {
        (c as u32) - ('a' as u32) + 10
    } else if 'A' <= c && c <= 'F' {
        (c as u32) - ('A' as u32) + 10
    } else {
        16
    }
}

pub(crate) proof fn lemma_digits_value_step(d: Seq<char>, radix: int, k: int)
    requires
        0 <= k < d.len(),
    ensures
        digits_value(d.take(k + 1), radix) == digits_value(d.take(k), radix) * radix + digit_value(d[k]),
{
    assert(d.take(k + 1).drop_last() =~= d.take(k));
}

pub(crate) proof fn lemma_digits_value_nonneg(d: Seq<char>, radix: int)
    requires
        all_digits(d, radix),
        radix >= 1,
    ensures
        digits_value(d, radix) >= 0,
    decreases d.len(),
{
    if d.len() > 0 {
        assert(all_digits(d.drop_last(), radix)) by {
            assert forall|i: int| 0 <= i < d.drop_last().len() implies digit_value(#[trigger] d.drop_last()[i]) < radix by {
                assert(d.drop_last()[i] == d[i]);
            }
        }
        lemma_digits_value_nonneg(d.drop_last(), radix);
        let x = digits_value(d.drop_last(), radix);
        assert(x * radix >= 0) by (nonlinear_arith)
            requires
                x >= 0,
                radix >= 1,
        ;
    }
}

/// With valid digits, appending digits never makes the value smaller.
pub(crate) proof fn lemma_digits_value_prefix(d: Seq<char>, radix: int, j: int)
    requires
        all_digits(d, radix),
        radix >= 1,
        0 <= j <= d.len(),
    ensures
        digits_value(d.take(j), radix) <= digits_value(d, radix),
    decreases d.len() - j,
{
    if j < d.len() {
        lemma_digits_value_prefix(d, radix, j + 1);
        lemma_digits_value_step(d, radix, j);
        assert(all_digits(d.take(j), radix)) by {
            assert forall|i: int| 0 <= i < d.take(j).len() implies digit_value(#[trigger] d.take(j)[i]) < radix by {
                assert(d.take(j)[i] == d[i]);
            }
        }
        lemma_digits_value_nonneg(d.take(j), radix);
        let x = digits_value(d.take(j), radix);
        assert(x * radix >= x) by (nonlinear_arith)
            requires
                x >= 0,
                radix >= 1,
        ;
        assert(digit_value(d[j]) >= 0);
    } else {
        assert(d.take(j) =~= d);
    }
}

/// Value of the digit string `d` in base `radix` when every character is a digit and the
/// value is at most `2^63`.
fn bounded_digits(d: &[char], radix: u32) -> (r: Option<u64>)
    requires
        2 <= radix <= 16,
    ensures
        match r {
            Some(v) => all_digits(d@, radix as int) && v == digits_value(d@, radix as int) && v <= 0x8000_0000_0000_0000,
            None => !all_digits(d@, radix as int) || digits_value(d@, radix as int) > 0x8000_0000_0000_0000,
        },
{
    let mut acc: u64 = 0;
    let mut k: usize = 0;
    assert(d@.take(0) =~= Seq::<char>::empty());
    while k < d.len()
        invariant
            k <= d@.len(),
            2 <= radix <= 16,
            acc == digits_value(d@.take(k as int), radix as int),
            acc <= 0x8000_0000_0000_0000,
            all_digits(d@.take(k as int), radix as int),
        decreases d@.len() - k,
    {
        let v = digit_value_exec(d[k]);
        proof { lemma_digits_value_step(d@, radix as int, k as int); }
        if v >= radix {
            return None;
        }
        if acc > (0x8000_0000_0000_0000u64 - v as u64) / radix as u64 {
            proof {
                assert(acc * radix + v > 0x8000_0000_0000_0000) by (nonlinear_arith)
                    requires
                        acc > (0x8000_0000_0000_0000 - v) / radix as int,
                        radix >= 2,
                        v >= 0,
                        v <= 16,
                ;
                if all_digits(d@, radix as int) {
                    lemma_digits_value_prefix(d@, radix as int, k + 1);
                }
            }
            return None;
        }
        proof {
            assert(acc * radix + v <= 0x8000_0000_0000_0000) by (nonlinear_arith)
                requires
                    acc <= (0x8000_0000_0000_0000 - v) / radix as int,
                    radix >= 2,
                    v >= 0,
            ;
            assert forall|i: int| 0 <= i < d@.take(k + 1).len() implies digit_value(#[trigger] d@.take(k + 1)[i]) < radix by {
                if i < k {
                    assert(d@.take(k + 1)[i] == d@.take(k as int)[i]);
                }
            }
        }
        acc = acc * radix as u64 + v as u64;
        k = k + 1;
    }
    assert(d@.take(k as int) =~= d@);
    Some(acc)
}

/// `i64::from_str_radix` on characters.
fn parse_i64_radix_exec(src: &[char], radix: u32) -> (r: Option<i64>)
    requires
        2 <= radix <= 16,
    ensures
        match r {
            Some(v) => parse_i64_radix(src@, radix as int) == Some(v as int),
            None => parse_i64_radix(src@, radix as int) is None,
        },
{
    if src.len() == 0 || ((src[0] == '+' || src[0] == '-') && src.len() == 1) {
        return None;
    }
    let negative = src[0] == '-';
    let d = if src[0] == '+' || src[0] == '-' { copy_range(src, 1, src.len()) } else { copy_range(src, 0, src.len()) };
    assert(src@.subrange(0, src@.len() as int) =~= src@);
    assert(src@.subrange(1, src@.len() as int) =~= src@.drop_first());
    match bounded_digits(d.as_slice(), radix) {
        None => None,
        Some(v) => {
            if negative {
                if v == 0x8000_0000_0000_0000u64 {
                    Some(i64::MIN)
                } else {
                    Some(-(v as i64))
                }
            } else if v <= 0x7fff_ffff_ffff_ffffu64 {
                Some(v as i64)
            } else {
                None
            }
        },
    }
}

/// `u8::from_str` on characters.
fn parse_u8_exec(src: &[char]) -> (r: Option<u32>)
    ensures
        match r {
            Some(v) => parse_u8_decimal(src@) == Some(v as int),
            None => parse_u8_decimal(src@) is None,
        },
{
    if src.len() == 0 || ((src[0] == '+' || src[0] == '-') && src.len() == 1) {
        return None;
    }
    let d = if src[0] == '+' { copy_range(src, 1, src.len()) } else { copy_range(src, 0, src.len()) };
    assert(src@.subrange(0, src@.len() as int) =~= src@);
    assert(src@.subrange(1, src@.len() as int) =~= src@.drop_first());
    match bounded_digits(d.as_slice(), 10) {
        Some(v) => if v <= 255 { Some(v as u32) } else { None },
        None => None,
    }
}

fn parse_reg_exec(line_no: usize, token: &[char]) -> (r: Result<u32, AssemblerError>)
    ensures
        view_result(r) == parse_reg(line_no as int, token@),
        r matches Ok(v) ==> v < 16,
{
    if token.len() > 0 && (token[0] == 'r' || token[0] == 'R') {
        let number = copy_range(token, 1, token.len());
        assert(token@.subrange(1, token@.len() as int) =~= token@.drop_first());
        match parse_u8_exec(number.as_slice()) {
            Some(n) => if n <= 15 {
                return Ok(n);
            },
            None => {},
        }
    }
    Err(AssemblerError::InvalidRegister { line: line_no, token: chars_to_string(token) })
}

fn parse_number_exec(line_no: usize, token: &[char]) -> (r: Result<i64, AssemblerError>)
    ensures
        match r {
            Ok(v) => parse_number(line_no as int, token@) == Ok::<int, ErrorView>(v as int),
            Err(e) => parse_number(line_no as int, token@) == Err::<int, ErrorView>(e@),
        },
{
    let t = trim_chars(token);
    let negative = t.len() > 0 && t[0] == '-';
    let digits = if t.len() > 0 && (t[0] == '-' || t[0] == '+') { copy_range(t.as_slice(), 1, t.len()) } else { copy_range(t.as_slice(), 0, t.len()) };
    proof {
        assert(t@.subrange(0, t@.len() as int) =~= t@);
        if t@.len() > 0 {
            assert(t@.subrange(1, t@.len() as int) =~= t@.drop_first());
        }
    }
    let parsed = if digits.len() >= 2 && digits[0] == '0' && (digits[1] == 'x' || digits[1] == 'X') {
        let rest = copy_range(digits.as_slice(), 2, digits.len());
        assert(digits@.subrange(2, digits@.len() as int) =~= digits@.skip(2));
        parse_i64_radix_exec(rest.as_slice(), 16)
    } else if digits.len() >= 2 && digits[0] == '0' && (digits[1] == 'b' || digits[1] == 'B') {
        let rest = copy_range(digits.as_slice(), 2, digits.len());
        assert(digits@.subrange(2, digits@.len() as int) =~= digits@.skip(2));
        parse_i64_radix_exec(rest.as_slice(), 2)
    } else {
        parse_i64_radix_exec(digits.as_slice(), 10)
    };
    match parsed {
        None => Err(AssemblerError::InvalidImmediate { line: line_no, token: chars_to_string(t.as_slice()) }),
        Some(v) => Ok(if negative { if v == i64::MIN { v } else { -v } } else { v }),
    }
}

fn parse_u16_exec(line_no: usize, token: &[char]) -> (r: Result<u32, AssemblerError>)
    ensures
        view_result(r) == parse_u16_imm(line_no as int, token@),
        r matches Ok(v) ==> v < 0x1_0000,
{
    let v = match parse_number_exec(line_no, token) {
        Ok(v) => v,
        Err(e) => return Err(e),
    };
    if 0 <= v && v <= 0xffff {
        Ok(v as u32)
    } else {
        Err(AssemblerError::ImmediateOutOfRange { line: line_no, value: v, min: 0, max: 0xffff })
    }
}

fn imm16_bits_exec(v: i64) -> (r: u32)
    requires
        -0x8000 <= v <= 0x7fff,
    ensures
        r == imm16_bits(v as int),
{
    if v < 0 { (v + 0x1_0000) as u32 } else { v as u32 }
}

fn parse_s16_exec(line_no: usize, token: &[char]) -> (r: Result<u32, AssemblerError>)
    ensures
        view_result(r) == parse_s16_imm(line_no as int, token@),
        r matches Ok(v) ==> v < 0x1_0000,
{
    let v = match parse_number_exec(line_no, token) {
        Ok(v) => v,
        Err(e) => return Err(e),
    };
    if -0x8000 <= v && v <= 0x7fff {
        Ok(imm16_bits_exec(v))
    } else {
        Err(AssemblerError::ImmediateOutOfRange { line: line_no, value: v, min: -0x8000, max: 0x7fff })
    }
}

fn encode_exec(op: u32, rd: u32, rs1: u32, rs2: u32, imm: u32) -> (w: u32)
    requires
        op < 16 && rd < 16 && rs1 < 16 && rs2 < 16 && imm < 0x1_0000,
    ensures
        w == encode(op, rd, rs1, rs2, imm),
{
    op * 0x1000_0000 + rd * 0x100_0000 + rs1 * 0x10_0000 + rs2 * 0x1_0000 + imm
}

// ------------------------------------------------------------------------------------
// Executable instruction encoding
// ------------------------------------------------------------------------------------

/// The character sequences held by a list of character vectors.
pub open spec fn token_views(t: Seq<Vec<char>>) -> Seq<Seq<char>> {
    t.map_values(|v: Vec<char>| v@)
}

/// Whether every name of a symbol list is defined once.
pub open spec fn symbols_unique(t: Seq<(Seq<char>, u32)>) -> bool {
    forall|i: int, j: int| 0 <= i < j < t.len() ==> (#[trigger] t[i]).0 != (#[trigger] t[j]).0
}

/// A name that `lookup_symbol` does not find is the name of no entry.
proof fn lemma_lookup_none(t: Seq<(Seq<char>, u32)>, name: Seq<char>)
    requires
        lookup_symbol(t, name) is None,
    ensures
        forall|i: int| 0 <= i < t.len() ==> (#[trigger] t[i]).0 != name,
    decreases t.len(),
{
    if t.len() > 0 {
        lemma_lookup_none(t.drop_first(), name);
        assert forall|i: int| 0 <= i < t.len() implies (#[trigger] t[i]).0 != name by {
            if i > 0 {
                assert(t[i] == t.drop_first()[i - 1]);
            }
        }
    }
}

/// Symbols defined so far, in definition order; each name once.
struct Symbols {
    entries: Vec<(Vec<char>, u32)>,
}

impl View for Symbols {
    type V = Seq<(Seq<char>, u32)>;

    closed spec fn view(&self) -> Seq<(Seq<char>, u32)> {
        self.entries@.map_values(|e: (Vec<char>, u32)| (e.0@, e.1))
    }
}

proof fn lemma_lookup_symbol_first(t: Seq<(Seq<char>, u32)>, name: Seq<char>, k: int)
    requires
        0 <= k <= t.len(),
        forall|j: int| 0 <= j < k ==> (#[trigger] t[j]).0 != name,
    ensures
        k < t.len() && t[k].0 == name ==> lookup_symbol(t, name) == Some(t[k].1),
        k == t.len() ==> lookup_symbol(t, name) is None,
    decreases k,
{
    if k > 0 {
        assert forall|j: int| 0 <= j < k - 1 implies (#[trigger] t.drop_first()[j]).0 != name by {
            assert(t.drop_first()[j] == t[j + 1]);
        }
        lemma_lookup_symbol_first(t.drop_first(), name, k - 1);
        if k < t.len() {
            assert(t.drop_first()[k - 1] == t[k]);
        }
    }
}

impl Symbols {
    fn new() -> (s: Self)
        ensures
            s@ == Seq::<(Seq<char>, u32)>::empty(),
            symbols_unique(s@),
    {
        let s = Symbols { entries: Vec::new() };
        assert(s@ =~= Seq::<(Seq<char>, u32)>::empty());
        s
    }

    fn get(&self, name: &[char]) -> (r: Option<u32>)
        ensures
            r == lookup_symbol(self@, name@),
    {
        let mut k: usize = 0;
        while k < self.entries.len()
            invariant
                k <= self@.len(),
                self@.len() == self.entries@.len(),
                forall|j: int| 0 <= j < k ==> (#[trigger] self@[j]).0 != name@,
            decreases self@.len() - k,
        {
            assert(self@[k as int] == (self.entries@[k as int].0@, self.entries@[k as int].1));
            if chars_eq(self.entries[k].0.as_slice(), name) {
                proof { lemma_lookup_symbol_first(self@, name@, k as int); }
                return Some(self.entries[k].1);
            }
            k = k + 1;
        }
        proof { lemma_lookup_symbol_first(self@, name@, k as int); }
        None
    }

    fn push(&mut self, name: Vec<char>, address: u32)
        requires
            symbols_unique(old(self)@),
            lookup_symbol(old(self)@, name@) is None,
        ensures
            final(self)@ == old(self)@.push((name@, address)),
            symbols_unique(final(self)@),
    {
        proof { lemma_lookup_none(old(self)@, name@); }
        let ghost n = name@;
        self.entries.push((name, address));
        assert(self@ =~= old(self)@.push((n, address)));
    }
}

/// Whether the characters `m` spell `lit`.
fn is_word(m: &[char], lit: &str) -> (r: bool)
    ensures
        r == (m@ == lit@),
{
    let l = str_chars(lit);
    chars_eq(m, l.as_slice())
}

/// Concatenation of character sequences.
fn concat3(a: &[char], b: &[char], c: &[char]) -> (r: Vec<char>)
    ensures
        r@ == a@ + b@ + c@,
{
    let mut r = copy_range(a, 0, a.len());
    let mut k: usize = 0;
    assert(a@.subrange(0, a@.len() as int) =~= a@);
    while k < b.len()
        invariant
            k <= b@.len(),
            r@ == a@ + b@.take(k as int),
        decreases b@.len() - k,
    {
        r.push(b[k]);
        k = k + 1;
        assert(r@ =~= a@ + b@.take(k as int));
    }
    assert(b@.take(b@.len() as int) =~= b@);
    let mut j: usize = 0;
    while j < c.len()
        invariant
            j <= c@.len(),
            r@ == a@ + b@ + c@.take(j as int),
        decreases c@.len() - j,
    {
        r.push(c[j]);
        j = j + 1;
        assert(r@ =~= a@ + b@ + c@.take(j as int));
    }
    assert(c@.take(c@.len() as int) =~= c@);
    r
}

fn next_address_exec(pc: u32) -> (r: u32)
    ensures
        r == next_address(pc),
{
    ((pc as u64 + 4) % 0x1_0000_0000) as u32
}

fn resolve_label_exec(line_no: usize, label: &[char], syms: &Symbols, pc: u32) -> (r: Result<u32, AssemblerError>)
    ensures
        view_result(r) == resolve_label(line_no as int, label@, syms@, pc),
        r matches Ok(v) ==> v < 0x1_0000,
{
    let target = match syms.get(label) {
        Some(t) => t,
        None => return Err(AssemblerError::UnknownLabel { line: line_no, label: chars_to_string(label) }),
    };
    let diff: i64 = target as i64 - next_address_exec(pc) as i64;
    if diff % 4 != 0 {
        let head = str_chars("label `");
        let tail = str_chars("` is not 4-byte aligned relative to branch");
        let message = concat3(head.as_slice(), label, tail.as_slice());
        return Err(AssemblerError::InvalidSyntax { line: line_no, message: chars_to_string(message.as_slice()) });
    }
    let imm = diff / 4;
    if -0x8000 <= imm && imm <= 0x7fff {
        Ok(imm16_bits_exec(imm))
    } else {
        Err(AssemblerError::ImmediateOutOfRange { line: line_no, value: imm, min: -0x8000, max: 0x7fff })
    }
}

fn wrong_count_exec(line_no: usize, m: &[char], expected: &'static str, got: usize) -> (e: AssemblerError)
    ensures
        e@ == wrong_count(line_no as int, m@, expected@, got as int),
{
    AssemblerError::WrongOperandCount { line: line_no, mnemonic: chars_to_string(m), expected, got }
}

/// `raw_instruction` over the operands `toks[1..]`.
fn raw_instruction_exec(line_no: usize, m: &[char], toks: &[Vec<char>], op: u32, kind: ImmKind) -> (r: Result<u32, AssemblerError>)
    requires
        toks@.len() >= 1,
        op < 16,
    ensures
        view_result(r) == raw_instruction(line_no as int, m@, token_views(toks@).drop_first(), op, kind),
{
    let ghost ops = token_views(toks@).drop_first();
    let count: usize = if matches!(kind, ImmKind::Absent) { 3 } else { 4 };
    if toks.len() - 1 != count {
        let expected = if matches!(kind, ImmKind::Absent) { "rd, rs1, rs2" } else { "rd, rs1, rs2, imm" };
        return Err(wrong_count_exec(line_no, m, expected, toks.len() - 1));
    }
    assert(ops[0] == toks@[1]@ && ops[1] == toks@[2]@ && ops[2] == toks@[3]@);
    let rd = match parse_reg_exec(line_no, toks[1].as_slice()) {
        Ok(v) => v,
        Err(e) => return Err(e),
    };
    let rs1 = match parse_reg_exec(line_no, toks[2].as_slice()) {
        Ok(v) => v,
        Err(e) => return Err(e),
    };
    let rs2 = match parse_reg_exec(line_no, toks[3].as_slice()) {
        Ok(v) => v,
        Err(e) => return Err(e),
    };
    match kind {
        ImmKind::Absent => Ok(encode_exec(op, rd, rs1, rs2, 0)),
        ImmKind::Signed => {
            assert(ops[3] == toks@[4]@);
            match parse_s16_exec(line_no, toks[4].as_slice()) {
                Ok(imm) => Ok(encode_exec(op, rd, rs1, rs2, imm)),
                Err(e) => Err(e),
            }
        },
        ImmKind::Unsigned => {
            assert(ops[3] == toks@[4]@);
            match parse_u16_exec(line_no, toks[4].as_slice()) {
                Ok(imm) => Ok(encode_exec(op, rd, rs1, rs2, imm)),
                Err(e) => Err(e),
            }
        },
    }
}

/// `register_jump` over the operands `toks[1..]`.
fn register_jump_exec(line_no: usize, m: &[char], toks: &[Vec<char>], link: u32) -> (r: Result<u32, AssemblerError>)
    requires
        toks@.len() >= 1,
        link < 16,
    ensures
        view_result(r) == register_jump(line_no as int, m@, token_views(toks@).drop_first(), link),
{
    let ghost ops = token_views(toks@).drop_first();
    let n = toks.len() - 1;
    if !(n == 1 || n == 2) {
        return Err(wrong_count_exec(line_no, m, "rs or rs, imm", n));
    }
    assert(ops[0] == toks@[1]@);
    let rs = match parse_reg_exec(line_no, toks[1].as_slice()) {
        Ok(v) => v,
        Err(e) => return Err(e),
    };
    if n == 2 {
        assert(ops[1] == toks@[2]@);
        match parse_s16_exec(line_no, toks[2].as_slice()) {
            Ok(imm) => Ok(encode_exec(OP_JZ, link, 0, rs, imm)),
            Err(e) => Err(e),
        }
    } else {
        Ok(encode_exec(OP_JZ, link, 0, rs, 0))
    }
}

/// The mnemonic of a line: its first token in ASCII upper case.
fn upper_chars(t: &[char]) -> (r: Vec<char>)
    ensures
        r@ == t@.map_values(|c: char| upper(c)),
{
    let mut r: Vec<char> = Vec::new();
    let mut k: usize = 0;
    while k < t.len()
        invariant
            k <= t@.len(),
            r@ == t@.take(k as int).map_values(|c: char| upper(c)),
        decreases t@.len() - k,
    {
        r.push(upper_exec(t[k]));
        k = k + 1;
        assert(r@ =~= t@.take(k as int).map_values(|c: char| upper(c)));
    }
    assert(t@.take(t@.len() as int) =~= t@);
    r
}

fn assemble_tokens_exec(line_no: usize, toks: &[Vec<char>], syms: &Symbols, pc: u32) -> (r: Result<u32, AssemblerError>)
    requires
        toks@.len() >= 1,
    ensures
        view_result(r) == assemble_tokens(line_no as int, token_views(toks@), syms@, pc),
{
    reveal(assemble_tokens);
    let ghost ops = token_views(toks@).drop_first();
    let m = upper_chars(toks[0].as_slice());
    let m = m.as_slice();
    let n = toks.len() - 1;
    if is_word(m, "NOP") {
        if n != 0 { Err(wrong_count_exec(line_no, m, "no operands", n)) } else { Ok(encode_exec(OP_ADD, 0, 0, 0, 0)) }
    } else if is_word(m, "LI") {
        if n != 2 {
            return Err(wrong_count_exec(line_no, m, "rd, imm", n));
        }
        assert(ops[0] == toks@[1]@ && ops[1] == toks@[2]@);
        let rd = match parse_reg_exec(line_no, toks[1].as_slice()) {
            Ok(v) => v,
            Err(e) => return Err(e),
        };
        match parse_s16_exec(line_no, toks[2].as_slice()) {
            Ok(imm) => Ok(encode_exec(OP_ADD, rd, 0, 0, imm)),
            Err(e) => Err(e),
        }
    } else if is_word(m, "BZ") {
        if n != 2 {
            return Err(wrong_count_exec(line_no, m, "rs, label", n));
        }
        assert(ops[0] == toks@[1]@ && ops[1] == toks@[2]@);
        let rs = match parse_reg_exec(line_no, toks[1].as_slice()) {
            Ok(v) => v,
            Err(e) => return Err(e),
        };
        match resolve_label_exec(line_no, toks[2].as_slice(), syms, pc) {
            Ok(imm) => Ok(encode_exec(OP_JZ, 0, rs, 0, imm)),
            Err(e) => Err(e),
        }
    } else if is_word(m, "JMP") || is_word(m, "CALL") {
        if n != 1 {
            return Err(wrong_count_exec(line_no, m, "label", n));
        }
        assert(ops[0] == toks@[1]@);
        let link = if is_word(m, "CALL") { 15 } else { 0 };
        match resolve_label_exec(line_no, toks[1].as_slice(), syms, pc) {
            Ok(imm) => Ok(encode_exec(OP_JZ, link, 0, 0, imm)),
            Err(e) => Err(e),
        }
    } else if is_word(m, "JR") {
        register_jump_exec(line_no, m, toks, 0)
    } else if is_word(m, "CALLR") {
        register_jump_exec(line_no, m, toks, 15)
    } else if is_word(m, "RET") {
        if n != 0 { Err(wrong_count_exec(line_no, m, "no operands", n)) } else { Ok(encode_exec(OP_JZ, 0, 0, 15, 0)) }
    } else if is_word(m, "ADD") {
        raw_instruction_exec(line_no, m, toks, OP_ADD, ImmKind::Signed)
    } else if is_word(m, "NAND") {
        raw_instruction_exec(line_no, m, toks, OP_NAND, ImmKind::Absent)
    } else if is_word(m, "SHIFT") {
        raw_instruction_exec(line_no, m, toks, OP_SHIFT, ImmKind::Unsigned)
    } else if is_word(m, "MUL") {
        raw_instruction_exec(line_no, m, toks, OP_MUL, ImmKind::Absent)
    } else if is_word(m, "CMP") {
        raw_instruction_exec(line_no, m, toks, OP_CMP, ImmKind::Unsigned)
    } else if is_word(m, "LDB") {
        raw_instruction_exec(line_no, m, toks, OP_LDB, ImmKind::Signed)
    } else if is_word(m, "LDH") {
        raw_instruction_exec(line_no, m, toks, OP_LDH, ImmKind::Signed)
    } else if is_word(m, "LDW") {
        raw_instruction_exec(line_no, m, toks, OP_LDW, ImmKind::Signed)
    } else if is_word(m, "STB") {
        raw_instruction_exec(line_no, m, toks, OP_STB, ImmKind::Signed)
    } else if is_word(m, "STH") {
        raw_instruction_exec(line_no, m, toks, OP_STH, ImmKind::Signed)
    } else if is_word(m, "STW") {
        raw_instruction_exec(line_no, m, toks, OP_STW, ImmKind::Signed)
    } else if is_word(m, "JZ") {
        raw_instruction_exec(line_no, m, toks, OP_JZ, ImmKind::Signed)
    } else {
        Err(AssemblerError::UnknownMnemonic { line: line_no, mnemonic: chars_to_string(m) })
    }
}

// ------------------------------------------------------------------------------------
// Executable parsing of lines
// ------------------------------------------------------------------------------------

/// Index of the first character at or after `from` that satisfies `p`, or `s.len()`.
/// `which` selects the predicate: 0 line feed, 1 comment start, 2 colon, 3 separator.
/// The views of a list of character vectors.
pub open spec fn char_views(v: Seq<Vec<char>>) -> Seq<Seq<char>> {
    v.map_values(|x: Vec<char>| x@)
}

/// `str::lines` on characters.
pub fn split_lines(src: &[char]) -> (r: Vec<Vec<char>>)
    ensures
        char_views(r@) == lines(src@),
{
    let mut out: Vec<Vec<char>> = Vec::new();
    let mut pos: usize = 0;
    assert(src@.skip(0) =~= src@);
    assert(char_views(out@) =~= Seq::<Seq<char>>::empty());
    while pos < src.len()
        invariant
            pos <= src@.len(),
            lines(src@) == char_views(out@) + lines(src@.skip(pos as int)),
        decreases src@.len() - pos,
    {
        let ghost rest = src@.skip(pos as int);
        let e = scan(src, pos, 0);
        proof { lemma_find_bounds(rest, newline_pred()); }
        let line = if e < src.len() && e > pos && src[e - 1] == '\r' {
            copy_range(src, pos, e - 1)
        } else {
            copy_range(src, pos, e)
        };
        let ghost next_lines = if e >= src@.len() { Seq::<Seq<char>>::empty() } else { lines(src@.skip(e + 1)) };
        proof {
            if e >= src@.len() {
                assert(rest.take(e - pos) =~= rest);
                assert(line@ =~= rest);
                assert(lines(rest) == seq![line@]);
            } else {
                assert(rest.skip(e - pos + 1) =~= src@.skip(e + 1));
                assert(line@ =~= strip_cr(rest.take(e - pos)));
            }
            assert(lines(rest) =~= seq![line@] + next_lines);
        }
        let ghost before = char_views(out@);
        out.push(line);
        assert(char_views(out@) =~= before + seq![line@]);
        if e >= src.len() {
            assert(lines(src@) =~= char_views(out@));
            return out;
        }
        pos = e + 1;
        assert(lines(src@) =~= char_views(out@) + lines(src@.skip(pos as int)));
    }
    assert(src@.skip(pos as int) =~= Seq::<char>::empty());
    assert(lines(src@) =~= char_views(out@));
    out
}

fn scan(s: &[char], from: usize, which: u8) -> (k: usize)
    requires
        from <= s@.len(),
        which <= 3,
    ensures
        from <= k <= s@.len(),
        find(s@.skip(from as int), pred_of(which)) == k - from,
{
    let mut k = from;
    while k < s.len() && !matches_pred(s[k], which)
        invariant
            from <= k <= s@.len(),
            which <= 3,
            forall|j: int| from <= j < k ==> !(pred_of(which))(#[trigger] s@[j]),
        decreases s@.len() - k,
    {
        k = k + 1;
    }
    proof {
        let t = s@.skip(from as int);
        assert forall|j: int| 0 <= j < k - from implies !(pred_of(which))(#[trigger] t[j]) by {
            assert(t[j] == s@[j + from]);
        }
        if k < s@.len() {
            assert(t[k - from] == s@[k as int]);
        }
        lemma_find_is_first(t, pred_of(which), k - from);
    }
    k
}

/// The predicate selected by `which`.
pub open spec fn pred_of(which: u8) -> spec_fn(char) -> bool {
    if which == 0 {
        newline_pred()
    } else if which == 1 {
        comment_pred()
    } else if which == 2 {
        colon_pred()
    } else {
        separator_pred()
    }
}

fn matches_pred(c: char, which: u8) -> (b: bool)
    requires
        which <= 3,
    ensures
        b == (pred_of(which))(c),
{
    if which == 0 {
        c == '\n'
    } else if which == 1 {
        c == ';' || c == '#'
    } else if which == 2 {
        c == ':'
    } else {
        is_space_exec(c) || c == ','
    }
}

/// The tokens of `s`: `words(s)`.
fn words_exec(s: &[char]) -> (r: Vec<Vec<char>>)
    ensures
        token_views(r@) == words(s@),
{
    let mut out: Vec<Vec<char>> = Vec::new();
    let mut pos: usize = 0;
    assert(s@.skip(0) =~= s@);
    while pos < s.len()
        invariant
            pos <= s@.len(),
            words(s@) == token_views(out@) + words(s@.skip(pos as int)),
        decreases s@.len() - pos,
    {
        let ghost rest = s@.skip(pos as int);
        if matches_pred(s[pos], 3) {
            assert(rest.drop_first() =~= s@.skip(pos + 1));
            assert(is_separator(rest[0]));
            pos = pos + 1;
        } else {
            let e = scan(s, pos, 3);
            proof { lemma_find_bounds(rest, separator_pred()); }
            let token = copy_range(s, pos, e);
            assert(rest.take(e - pos) =~= s@.subrange(pos as int, e as int));
            assert(rest.skip(e - pos) =~= s@.skip(e as int));
            let ghost before = out@;
            out.push(token);
            assert(token_views(out@) =~= token_views(before) + seq![s@.subrange(pos as int, e as int)]);
            pos = e;
        }
    }
    assert(s@.skip(pos as int) =~= Seq::<char>::empty());
    assert(token_views(out@) + Seq::<Seq<char>>::empty() =~= token_views(out@));
    out
}

fn valid_label_exec(label: &[char]) -> (b: bool)
    ensures
        b == valid_label(label@),
{
    if label.len() == 0 {
        return false;
    }
    let first = label[0];
    if !(('a' <= first && first <= 'z') || ('A' <= first && first <= 'Z') || first == '_') {
        return false;
    }
    let mut k: usize = 1;
    while k < label.len()
        invariant
            1 <= k <= label@.len(),
            forall|i: int| 1 <= i < k ==> is_ascii_alnum(#[trigger] label@[i]) || label@[i] == '_',
        decreases label@.len() - k,
    {
        let c = label[k];
        if !(('a' <= c && c <= 'z') || ('A' <= c && c <= 'Z') || ('0' <= c && c <= '9') || c == '_') {
            return false;
        }
        k = k + 1;
    }
    true
}

/// One parsed source line.
struct ParsedLine {
    line_no: usize,
    label: Option<Vec<char>>,
    tokens: Vec<Vec<char>>,
}

impl ParsedLine {
    spec fn model(self) -> LineView {
        LineView {
            line_no: self.line_no as int,
            label: match self.label {
                Some(l) => Some(l@),
                None => None,
            },
            tokens: token_views(self.tokens@),
        }
    }
}

/// The models of parsed lines.
spec fn line_views(ls: Seq<ParsedLine>) -> Seq<LineView> {
    ls.map_values(|l: ParsedLine| l.model())
}

fn parse_line_exec(line: &[char], line_no: usize) -> (r: Result<Option<ParsedLine>, AssemblerError>)
    ensures
        match r {
            Ok(Some(p)) => parse_line(line@, line_no as int) == Ok::<Option<LineView>, ErrorView>(Some(p.model())),
            Ok(None) => parse_line(line@, line_no as int) == Ok::<Option<LineView>, ErrorView>(None),
            Err(e) => parse_line(line@, line_no as int) == Err::<Option<LineView>, ErrorView>(e@),
        },
{
    let c = scan(line, 0, 1);
    assert(line@.skip(0) =~= line@);
    let code = copy_range(line, 0, c);
    assert(line@.subrange(0, c as int) =~= line@.take(c as int));
    let t = trim_chars(code.as_slice());
    if t.len() == 0 {
        return Ok(None);
    }
    let k = scan(t.as_slice(), 0, 2);
    assert(t@.skip(0) =~= t@);
    if k < t.len() {
        let head = copy_range(t.as_slice(), 0, k);
        assert(t@.subrange(0, k as int) =~= t@.take(k as int));
        let label = trim_chars(head.as_slice());
        if !valid_label_exec(label.as_slice()) {
            return Err(AssemblerError::InvalidLabel { line: line_no, label: chars_to_string(label.as_slice()) });
        }
        let tail = copy_range(t.as_slice(), k + 1, t.len());
        assert(t@.subrange(k + 1, t@.len() as int) =~= t@.skip(k + 1));
        let rest = trim_chars(tail.as_slice());
        let tokens = words_exec(rest.as_slice());
        Ok(Some(ParsedLine { line_no, label: Some(label), tokens }))
    } else {
        let tokens = words_exec(t.as_slice());
        Ok(Some(ParsedLine { line_no, label: None, tokens }))
    }
}

/// `r` with `xs` in front of a successful result.
pub open spec fn prepend<T>(xs: Seq<T>, r: Result<Seq<T>, ErrorView>) -> Result<Seq<T>, ErrorView> {
    match r {
        Ok(v) => Ok(xs + v),
        Err(e) => Err(e),
    }
}

proof fn lemma_prepend_assoc<T>(a: Seq<T>, b: Seq<T>, r: Result<Seq<T>, ErrorView>)
    ensures
        prepend(a, prepend(b, r)) == prepend(a + b, r),
{
    if let Ok(v) = r {
        assert(a + (b + v) =~= (a + b) + v);
    }
}

proof fn lemma_prepend_empty<T>(r: Result<Seq<T>, ErrorView>)
    ensures
        prepend(Seq::<T>::empty(), r) == r,
{
    if let Ok(v) = r {
        assert(Seq::<T>::empty() + v =~= v);
    }
}

fn parse_source(src: &[char]) -> (r: Result<Vec<ParsedLine>, AssemblerError>)
    ensures
        match r {
            Ok(v) => parse_lines(lines(src@), 1) == Ok::<Seq<LineView>, ErrorView>(line_views(v@)),
            Err(e) => parse_lines(lines(src@), 1) == Err::<Seq<LineView>, ErrorView>(e@),
        },
{
    let mut out: Vec<ParsedLine> = Vec::new();
    let mut pos: usize = 0;
    let mut line_no: usize = 1;
    assert(src@.skip(0) =~= src@);
    assert(line_views(out@) + Seq::<LineView>::empty() =~= line_views(out@));
    while pos < src.len()
        invariant
            pos <= src@.len(),
            1 <= line_no <= pos + 1,
            parse_lines(lines(src@), 1) == prepend(line_views(out@), parse_lines(lines(src@.skip(pos as int)), line_no as int)),
        decreases src@.len() - pos,
    {
        let ghost rest = src@.skip(pos as int);
        let e = scan(src, pos, 0);
        proof { lemma_find_bounds(rest, newline_pred()); }
        let raw = copy_range(src, pos, e);
        assert(raw@ =~= rest.take(e - pos));
        let line = if e < src.len() && e > pos && src[e - 1] == '\r' {
            copy_range(src, pos, e - 1)
        } else {
            copy_range(src, pos, e)
        };
        let ghost next_lines = if e >= src@.len() { Seq::<Seq<char>>::empty() } else { lines(src@.skip(e + 1)) };
        proof {
            if e >= src@.len() {
                assert(rest.take(e - pos) =~= rest);
                assert(line@ =~= rest);
                assert(lines(rest) == seq![line@]);
            } else {
                assert(rest.skip(e - pos + 1) =~= src@.skip(e + 1));
                assert(line@ =~= strip_cr(rest.take(e - pos)));
            }
            assert(lines(rest) =~= seq![line@] + next_lines);
            assert((seq![line@] + next_lines).drop_first() =~= next_lines);
        }
        let parsed = parse_line_exec(line.as_slice(), line_no);
        let ghost ls = seq![line@] + next_lines;
        let ghost tail = parse_lines(next_lines, line_no + 1);
        assert(ls[0] == line@);
        match parsed {
            Err(e) => {
                assert(parse_lines(ls, line_no as int) == Err::<Seq<LineView>, ErrorView>(e@));
                return Err(e);
            },
            Ok(Some(p)) => {
                assert(parse_lines(ls, line_no as int) == prepend(seq![p.model()], tail));
                let ghost before = line_views(out@);
                out.push(p);
                assert(line_views(out@) =~= before + seq![p.model()]);
                proof { lemma_prepend_assoc(before, seq![p.model()], tail); }
            },
            Ok(None) => {
                assert(parse_lines(ls, line_no as int) == tail) by {
                    lemma_prepend_empty(tail);
                }
            },
        }
        if e >= src.len() {
            assert(next_lines == Seq::<Seq<char>>::empty());
            assert(line_views(out@) + Seq::<LineView>::empty() =~= line_views(out@));
            return Ok(out);
        }
        pos = e + 1;
        if pos >= src.len() {
            assert(src@.skip(pos as int) =~= Seq::<char>::empty());
            assert(line_views(out@) + Seq::<LineView>::empty() =~= line_views(out@));
            return Ok(out);
        }
        line_no = line_no + 1;
    }
    assert(src@.skip(pos as int) =~= Seq::<char>::empty());
    assert(line_views(out@) + Seq::<LineView>::empty() =~= line_views(out@));
    Ok(out)
}

fn copy_chars(v: &Vec<char>) -> (r: Vec<char>)
    ensures
        r@ == v@,
{
    let r = copy_range(v.as_slice(), 0, v.len());
    assert(v@.subrange(0, v@.len() as int) =~= v@);
    r
}

/// First pass: the address of every label.
fn collect_symbols_exec(ls: &Vec<ParsedLine>) -> (r: Result<Symbols, AssemblerError>)
    ensures
        match r {
            Ok(t) => collect_symbols(line_views(ls@), 0, seq![], 0) == Ok::<Seq<(Seq<char>, u32)>, ErrorView>(t@)
                && symbols_unique(t@),
            Err(e) => collect_symbols(line_views(ls@), 0, seq![], 0) == Err::<Seq<(Seq<char>, u32)>, ErrorView>(e@),
        },
{
    let ghost views = line_views(ls@);
    let mut syms = Symbols::new();
    let mut pc: u32 = 0;
    let mut i: usize = 0;
    while i < ls.len()
        invariant
            i <= ls@.len(),
            views == line_views(ls@),
            collect_symbols(views, 0, seq![], 0) == collect_symbols(views, i as int, syms@, pc),
            symbols_unique(syms@),
        decreases ls@.len() - i,
    {
        let line = &ls[i];
        assert(views[i as int] == line.model());
        let next = if line.tokens.len() > 0 { next_address_exec(pc) } else { pc };
        match &line.label {
            Some(label) => {
                if syms.get(label.as_slice()).is_some() {
                    return Err(AssemblerError::DuplicateLabel { line: line.line_no, label: chars_to_string(label.as_slice()) });
                }
                syms.push(copy_chars(label), pc);
            },
            None => {},
        }
        pc = next;
        i = i + 1;
    }
    Ok(syms)
}

/// Second pass: the word of every instruction line.
fn emit_words_exec(ls: &Vec<ParsedLine>, syms: &Symbols) -> (r: Result<Vec<u32>, AssemblerError>)
    ensures
        match r {
            Ok(w) => emit_words(line_views(ls@), 0, syms@, 0) == Ok::<Seq<u32>, ErrorView>(w@),
            Err(e) => emit_words(line_views(ls@), 0, syms@, 0) == Err::<Seq<u32>, ErrorView>(e@),
        },
{
    let ghost views = line_views(ls@);
    let mut words: Vec<u32> = Vec::new();
    let mut pc: u32 = 0;
    let mut i: usize = 0;
    proof { lemma_prepend_empty(emit_words(views, 0, syms@, 0)); }
    while i < ls.len()
        invariant
            i <= ls@.len(),
            views == line_views(ls@),
            emit_words(views, 0, syms@, 0) == prepend(words@, emit_words(views, i as int, syms@, pc)),
        decreases ls@.len() - i,
    {
        let line = &ls[i];
        assert(views[i as int] == line.model());
        assert(views[i as int].tokens.len() == line.tokens@.len());
        if line.tokens.len() > 0 {
            let ghost tail = emit_words(views, i + 1, syms@, next_address(pc));
            match assemble_tokens_exec(line.line_no, line.tokens.as_slice(), syms, pc) {
                Err(e) => return Err(e),
                Ok(w) => {
                    assert(emit_words(views, i as int, syms@, pc) == prepend(seq![w], tail));
                    proof { lemma_prepend_assoc(words@, seq![w], tail); }
                    let ghost before = words@;
                    words.push(w);
                    assert(words@ =~= before + seq![w]);
                },
            }
            pc = next_address_exec(pc);
        }
        i = i + 1;
    }
    assert(words@ + Seq::<u32>::empty() =~= words@);
    Ok(words)
}

/// The words `w` as little-endian bytes, four to a word.
pub open spec fn le_bytes(w: Seq<u32>) -> Seq<u8> {
    Seq::new(4 * w.len(), |i: int| crate::ram::byte_of(w[i / 4], (i % 4) as nat))
}

impl Program {
    pub fn new(words: Vec<u32>) -> (p: Self)
        ensures
            p@ == words@,
    {
        Program { words }
    }

    pub fn words(&self) -> (w: &[u32])
        ensures
            w@ == self@,
    {
        self.words.as_slice()
    }

    pub fn into_words(self) -> (w: Vec<u32>)
        ensures
            w@ == self@,
    {
        self.words
    }

    /// The flat binary image: each word as four little-endian bytes, in order.
    pub fn to_le_bytes(&self) -> (out: Vec<u8>)
        ensures
            out@ == le_bytes(self@),
    {
        let mut out: Vec<u8> = Vec::new();
        let mut k: usize = 0;
        while k < self.words.len()
            invariant
                k <= self@.len(),
                out@.len() == 4 * k,
                forall|i: int| 0 <= i < out@.len() ==> #[trigger] out@[i] == crate::ram::byte_of(self@[i / 4], (i % 4) as nat),
            decreases self@.len() - k,
        {
            let w = self.words[k];
            let ghost before = out@;
            out.push((w % 0x100) as u8);
            out.push(((w / 0x100) % 0x100) as u8);
            out.push(((w / 0x1_0000) % 0x100) as u8);
            out.push(((w / 0x100_0000) % 0x100) as u8);
            assert forall|i: int| 0 <= i < out@.len() implies #[trigger] out@[i] == crate::ram::byte_of(self@[i / 4], (i % 4) as nat) by {
                if i >= 4 * k {
                    assert(i / 4 == k);
                    assert(i % 4 == i - 4 * k);
                } else {
                    assert(out@[i] == before[i]);
                }
            }
            k = k + 1;
        }
        assert(out@ =~= le_bytes(self@));
        out
    }
}

/// Assembles `source` into a program: `assemble_text(source)` exactly.
pub fn assemble(source: &str) -> (r: Result<Program, AssemblerError>)
    ensures
        match r {
            Ok(p) => assemble_text(source@) == Ok::<Seq<u32>, ErrorView>(p@),
            Err(e) => assemble_text(source@) == Err::<Seq<u32>, ErrorView>(e@),
        },
{
    let text = str_chars(source);
    let parsed = match parse_source(text.as_slice()) {
        Ok(p) => p,
        Err(e) => return Err(e),
    };
    let symbols = match collect_symbols_exec(&parsed) {
        Ok(s) => s,
        Err(e) => return Err(e),
    };
    match emit_words_exec(&parsed, &symbols) {
        Ok(words) => Ok(Program::new(words)),
        Err(e) => Err(e),
    }
}

// ------------------------------------------------------------------------------------
// Laws
// ------------------------------------------------------------------------------------

/// The CPU decodes an assembled word back into the fields it was encoded from.
pub proof fn lemma_encode_decode(op: u32, rd: u32, rs1: u32, rs2: u32, imm: u32)
    requires
        op < 16,
        rd < 16,
        rs1 < 16,
        rs2 < 16,
        imm < 0x1_0000,
    ensures
        crate::cpu::field_op(encode(op, rd, rs1, rs2, imm)) == op,
        crate::cpu::field_rd(encode(op, rd, rs1, rs2, imm)) == rd,
        crate::cpu::field_rs1(encode(op, rd, rs1, rs2, imm)) == rs1,
        crate::cpu::field_rs2(encode(op, rd, rs1, rs2, imm)) == rs2,
        crate::cpu::field_imm(encode(op, rd, rs1, rs2, imm)) == imm,
{
    let w = encode(op, rd, rs1, rs2, imm);
    assert(w == op * 0x1000_0000 + rd * 0x100_0000 + rs1 * 0x10_0000 + rs2 * 0x1_0000 + imm);
    assert(((w >> 28u32) & 0xf) == op && ((w >> 24u32) & 0xf) == rd && ((w >> 20u32) & 0xf) == rs1
        && ((w >> 16u32) & 0xf) == rs2 && (w & 0xffff) == imm) by (bit_vector)
        requires
            op < 16,
            rd < 16,
            rs1 < 16,
            rs2 < 16,
            imm < 0x1_0000,
            w == op * 0x1000_0000 + rd * 0x100_0000 + rs1 * 0x10_0000 + rs2 * 0x1_0000 + imm,
    ;
}

/// A resolved branch lands on its label: the CPU's PC-relative target
/// `PC + 4 + sext16(imm) * 4` (modulo 2^32) is the label's address.
pub proof fn lemma_branch_reaches_label(line_no: int, label: Seq<char>, syms: Seq<(Seq<char>, u32)>, pc: u32)
    requires
        resolve_label(line_no, label, syms, pc) is Ok,
    ensures
        lookup_symbol(syms, label) is Some,
        ({
            let imm = resolve_label(line_no, label, syms, pc)->Ok_0;
            let offset = ((crate::cpu::sext16(imm) * 4) % 0x1_0000_0000) as u32;
            crate::cpu::add2(next_address(pc), offset) == lookup_symbol(syms, label)->Some_0
        }),
{
    let target = lookup_symbol(syms, label)->Some_0;
    let next = next_address(pc);
    let diff = target - next;
    let q = diff / 4;
    assert(diff == 4 * q);
    let imm = imm16_bits(q);
    let s = crate::cpu::sext16(imm);
    if q < 0 {
        assert(s == q + 0x1_0000_0000);
    } else {
        assert(s == q);
    }
    assert((s * 4) % 0x1_0000_0000 == (diff + 0x1_0000_0000) % 0x1_0000_0000);
}

/// The register token `r0` names register 0, and so do `r15` register 15.
proof fn lemma_fixed_registers(line_no: int)
    ensures
        parse_reg(line_no, "r0"@) == Ok::<u32, ErrorView>(0),
        parse_reg(line_no, "r15"@) == Ok::<u32, ErrorView>(15),
{
    reveal_strlit("r0");
    reveal_strlit("r15");
    reveal_with_fuel(digits_value, 3);
    let d0 = "r0"@.drop_first();
    assert(d0 =~= seq!['0']);
    assert(d0.drop_last() =~= Seq::<char>::empty());
    assert(all_digits(d0, 10));
    let d15 = "r15"@.drop_first();
    assert(d15 =~= seq!['1', '5']);
    assert(d15.drop_last() =~= seq!['1']);
    assert(d15.drop_last().drop_last() =~= Seq::<char>::empty());
    assert(all_digits(d15, 10));
}

/// Upper-casing leaves an upper-case mnemonic unchanged.
proof fn lemma_upper_id(m: Seq<char>)
    requires
        forall|i: int| 0 <= i < m.len() ==> !is_ascii_lower(#[trigger] m[i]),
    ensures
        m.map_values(|c: char| upper(c)) == m,
{
    assert(m.map_values(|c: char| upper(c)) =~= m);
}

/// The mnemonics of the assembler, spelled out.
proof fn lemma_mnemonic_spellings()
    ensures
        "NOP"@ =~= seq!['N', 'O', 'P'],
        "LI"@ =~= seq!['L', 'I'],
        "BZ"@ =~= seq!['B', 'Z'],
        "JMP"@ =~= seq!['J', 'M', 'P'],
        "CALL"@ =~= seq!['C', 'A', 'L', 'L'],
        "JR"@ =~= seq!['J', 'R'],
        "CALLR"@ =~= seq!['C', 'A', 'L', 'L', 'R'],
        "RET"@ =~= seq!['R', 'E', 'T'],
        "ADD"@ =~= seq!['A', 'D', 'D'],
        "NAND"@ =~= seq!['N', 'A', 'N', 'D'],
        "SHIFT"@ =~= seq!['S', 'H', 'I', 'F', 'T'],
        "MUL"@ =~= seq!['M', 'U', 'L'],
        "CMP"@ =~= seq!['C', 'M', 'P'],
        "LDB"@ =~= seq!['L', 'D', 'B'],
        "LDH"@ =~= seq!['L', 'D', 'H'],
        "LDW"@ =~= seq!['L', 'D', 'W'],
        "STB"@ =~= seq!['S', 'T', 'B'],
        "STH"@ =~= seq!['S', 'T', 'H'],
        "STW"@ =~= seq!['S', 'T', 'W'],
        "JZ"@ =~= seq!['J', 'Z'],
{
    reveal_strlit("NOP");
    reveal_strlit("LI");
    reveal_strlit("BZ");
    reveal_strlit("JMP");
    reveal_strlit("CALL");
    reveal_strlit("JR");
    reveal_strlit("CALLR");
    reveal_strlit("RET");
    reveal_strlit("ADD");
    reveal_strlit("NAND");
    reveal_strlit("SHIFT");
    reveal_strlit("MUL");
    reveal_strlit("CMP");
    reveal_strlit("LDB");
    reveal_strlit("LDH");
    reveal_strlit("LDW");
    reveal_strlit("STB");
    reveal_strlit("STH");
    reveal_strlit("STW");
    reveal_strlit("JZ");
}

/// `NOP` assembles as `ADD r0, r0, r0, 0`.
pub proof fn lemma_nop_expansion(line_no: int, syms: Seq<(Seq<char>, u32)>, pc: u32)
    ensures
        assemble_tokens(line_no, seq!["NOP"@], syms, pc)
            == assemble_tokens(line_no, seq!["ADD"@, "r0"@, "r0"@, "r0"@, "0"@], syms, pc),
{
    reveal(assemble_tokens);
    lemma_mnemonic_spellings();
    lemma_fixed_registers(line_no);
    lemma_upper_id("NOP"@);
    lemma_upper_id("ADD"@);
    reveal_strlit("0");
    reveal_with_fuel(digits_value, 2);
    let t = "0"@;
    assert(t =~= seq!['0']);
    assert(trim(t) =~= t) by {
        reveal_with_fuel(crate::chars::trim_start, 2);
        reveal_with_fuel(crate::chars::trim_end, 2);
    }
    assert(t.drop_last() =~= Seq::<char>::empty());
    assert(all_digits(t, 10));
    assert(parse_s16_imm(line_no, "0"@) == Ok::<u32, ErrorView>(0));
    assert(seq!["ADD"@, "r0"@, "r0"@, "r0"@, "0"@].drop_first() =~= seq!["r0"@, "r0"@, "r0"@, "0"@]);
}

/// `LI rd, imm` assembles as `ADD rd, r0, r0, imm`.
pub proof fn lemma_li_expansion(line_no: int, rd: Seq<char>, imm: Seq<char>, syms: Seq<(Seq<char>, u32)>, pc: u32)
    ensures
        assemble_tokens(line_no, seq!["LI"@, rd, imm], syms, pc)
            == assemble_tokens(line_no, seq!["ADD"@, rd, "r0"@, "r0"@, imm], syms, pc),
{
    reveal(assemble_tokens);
    lemma_mnemonic_spellings();
    lemma_fixed_registers(line_no);
    lemma_upper_id("LI"@);
    lemma_upper_id("ADD"@);
    assert(seq!["LI"@, rd, imm].drop_first() =~= seq![rd, imm]);
    assert(seq!["ADD"@, rd, "r0"@, "r0"@, imm].drop_first() =~= seq![rd, "r0"@, "r0"@, imm]);
}

/// `JR rs, imm` assembles as `JZ r0, r0, rs, imm`.
pub proof fn lemma_jr_expansion(line_no: int, rs: Seq<char>, imm: Seq<char>, syms: Seq<(Seq<char>, u32)>, pc: u32)
    ensures
        assemble_tokens(line_no, seq!["JR"@, rs, imm], syms, pc)
            == assemble_tokens(line_no, seq!["JZ"@, "r0"@, "r0"@, rs, imm], syms, pc),
{
    reveal(assemble_tokens);
    lemma_mnemonic_spellings();
    lemma_fixed_registers(line_no);
    lemma_upper_id("JR"@);
    lemma_upper_id("JZ"@);
    assert(seq!["JR"@, rs, imm].drop_first() =~= seq![rs, imm]);
    assert(seq!["JZ"@, "r0"@, "r0"@, rs, imm].drop_first() =~= seq!["r0"@, "r0"@, rs, imm]);
}

/// `CALLR rs, imm` assembles as `JZ r15, r0, rs, imm`.
pub proof fn lemma_callr_expansion(line_no: int, rs: Seq<char>, imm: Seq<char>, syms: Seq<(Seq<char>, u32)>, pc: u32)
    ensures
        assemble_tokens(line_no, seq!["CALLR"@, rs, imm], syms, pc)
            == assemble_tokens(line_no, seq!["JZ"@, "r15"@, "r0"@, rs, imm], syms, pc),
{
    reveal(assemble_tokens);
    lemma_mnemonic_spellings();
    lemma_fixed_registers(line_no);
    lemma_upper_id("CALLR"@);
    lemma_upper_id("JZ"@);
    assert(seq!["CALLR"@, rs, imm].drop_first() =~= seq![rs, imm]);
    assert(seq!["JZ"@, "r15"@, "r0"@, rs, imm].drop_first() =~= seq!["r15"@, "r0"@, rs, imm]);
}

/// `RET` assembles as `JZ r0, r0, r15, 0`.
pub proof fn lemma_ret_expansion(line_no: int, syms: Seq<(Seq<char>, u32)>, pc: u32)
    ensures
        assemble_tokens(line_no, seq!["RET"@], syms, pc)
            == assemble_tokens(line_no, seq!["JZ"@, "r0"@, "r0"@, "r15"@, "0"@], syms, pc),
{
    reveal(assemble_tokens);
    lemma_mnemonic_spellings();
    lemma_fixed_registers(line_no);
    lemma_upper_id("RET"@);
    lemma_upper_id("JZ"@);
    reveal_strlit("0");
    reveal_with_fuel(digits_value, 2);
    let t = "0"@;
    assert(t =~= seq!['0']);
    assert(trim(t) =~= t) by {
        reveal_with_fuel(crate::chars::trim_start, 2);
        reveal_with_fuel(crate::chars::trim_end, 2);
    }
    assert(t.drop_last() =~= Seq::<char>::empty());
    assert(all_digits(t, 10));
    assert(parse_s16_imm(line_no, "0"@) == Ok::<u32, ErrorView>(0));
    assert(seq!["JZ"@, "r0"@, "r0"@, "r15"@, "0"@].drop_first() =~= seq!["r0"@, "r0"@, "r15"@, "0"@]);
}

// ------------------------------------------------------------------------------------
// Whole programs
// ------------------------------------------------------------------------------------

/// The number of instruction lines (lines with tokens) among `ls[0..j]`: the word index of
/// the instruction on line `j`.
pub open spec fn words_before(ls: Seq<LineView>, j: int) -> nat
    decreases j,
{
    if j <= 0 || j > ls.len() {
        0
    } else {
        words_before(ls, j - 1) + if ls[j - 1].tokens.len() > 0 { 1nat } else { 0nat }
    }
}

/// The address of word `n` of a program assembled at address 0.
pub open spec fn word_address(n: nat) -> u32 {
    ((4 * n) % 0x1_0000_0000) as u32
}

/// The parsed lines of a source that assembles.
pub open spec fn program_lines(source: Seq<char>) -> Seq<LineView> {
    parse_lines(lines(source), 1)->Ok_0
}

/// The label addresses of a source that assembles.
pub open spec fn program_symbols(source: Seq<char>) -> Seq<(Seq<char>, u32)> {
    collect_symbols(program_lines(source), 0, seq![], 0)->Ok_0
}

/// The label a branch line names: the last operand of `BZ rs, label`, `JMP label` or
/// `CALL label`.
pub open spec fn branch_label(tokens: Seq<Seq<char>>) -> Option<Seq<char>> {
    let m = tokens[0].map_values(|c: char| upper(c));
    if m == "BZ"@ && tokens.len() == 3 {
        Some(tokens[2])
    } else if (m == "JMP"@ || m == "CALL"@) && tokens.len() == 2 {
        Some(tokens[1])
    } else {
        None
    }
}

proof fn lemma_words_before_mono(ls: Seq<LineView>, i: int, j: int)
    requires
        0 <= i <= j <= ls.len(),
    ensures
        words_before(ls, i) <= words_before(ls, j),
        words_before(ls, j) - words_before(ls, i) <= j - i,
    decreases j - i,
{
    if i < j {
        lemma_words_before_mono(ls, i, j - 1);
    }
}

proof fn lemma_next_word_address(n: nat)
    ensures
        next_address(word_address(n)) == word_address(n + 1),
{
    let m: int = 0x1_0000_0000;
    vstd::arithmetic::div_mod::lemma_add_mod_noop((4 * n) as int, 4, m);
    vstd::arithmetic::div_mod::lemma_small_mod(4, m as nat);
}

#[verifier::spinoff_prover]
#[verifier::rlimit(60)]
proof fn lemma_emit_words_lines(ls: Seq<LineView>, syms: Seq<(Seq<char>, u32)>, i: int)
    requires
        0 <= i <= ls.len(),
        emit_words(ls, i, syms, word_address(words_before(ls, i))) is Ok,
    ensures
        emit_words(ls, i, syms, word_address(words_before(ls, i)))->Ok_0.len()
            == words_before(ls, ls.len() as int) - words_before(ls, i),
        forall|j: int| i <= j < ls.len() && (#[trigger] ls[j]).tokens.len() > 0 ==>
            assemble_tokens(ls[j].line_no, ls[j].tokens, syms, word_address(words_before(ls, j)))
                == Ok::<u32, ErrorView>(emit_words(ls, i, syms, word_address(words_before(ls, i)))->Ok_0[words_before(ls, j) - words_before(ls, i)]),
    decreases ls.len() - i,
{
    if i < ls.len() {
        let n = words_before(ls, i);
        let pc = word_address(n);
        let ws = emit_words(ls, i, syms, pc)->Ok_0;
        assert(words_before(ls, i + 1) == n + if ls[i].tokens.len() > 0 { 1nat } else { 0nat });
        lemma_words_before_mono(ls, i + 1, ls.len() as int);
        if ls[i].tokens.len() == 0 {
            assert(emit_words(ls, i, syms, pc) == emit_words(ls, i + 1, syms, pc));
            lemma_emit_words_lines(ls, syms, i + 1);
        } else {
            lemma_next_word_address(n);
            let w0 = assemble_tokens(ls[i].line_no, ls[i].tokens, syms, pc)->Ok_0;
            assert(assemble_tokens(ls[i].line_no, ls[i].tokens, syms, pc) == Ok::<u32, ErrorView>(w0));
            let rest = emit_words(ls, i + 1, syms, next_address(pc))->Ok_0;
            assert(ws == seq![w0] + rest);
            lemma_emit_words_lines(ls, syms, i + 1);
            assert forall|j: int| i <= j < ls.len() && (#[trigger] ls[j]).tokens.len() > 0 implies
                assemble_tokens(ls[j].line_no, ls[j].tokens, syms, word_address(words_before(ls, j)))
                    == Ok::<u32, ErrorView>(ws[words_before(ls, j) - n]) by {
                if j > i {
                    lemma_words_before_mono(ls, i + 1, j);
                    lemma_words_before_mono(ls, j + 1, ls.len() as int);
                    assert(words_before(ls, j + 1) == words_before(ls, j) + 1);
                    assert(ws[words_before(ls, j) - n] == rest[words_before(ls, j) - words_before(ls, i + 1)]);
                } else {
                    assert(ws[0] == w0);
                }
            }
        }
    }
}

proof fn lemma_lookup_push(t: Seq<(Seq<char>, u32)>, label: Seq<char>, a: u32, name: Seq<char>)
    ensures
        lookup_symbol(t.push((label, a)), name) == (if lookup_symbol(t, name) is Some {
            lookup_symbol(t, name)
        } else if label == name {
            Some(a)
        } else {
            None
        }),
    decreases t.len(),
{
    let u = t.push((label, a));
    if t.len() > 0 {
        assert(u[0] == t[0]);
        assert(u.drop_first() =~= t.drop_first().push((label, a)));
        lemma_lookup_push(t.drop_first(), label, a, name);
        if t[0].0 == name {
            assert(lookup_symbol(u, name) == Some(t[0].1));
        } else {
            assert(lookup_symbol(u, name) == lookup_symbol(u.drop_first(), name));
            assert(lookup_symbol(t, name) == lookup_symbol(t.drop_first(), name));
        }
    } else {
        assert(u[0] == (label, a));
        assert(u.drop_first() =~= Seq::<(Seq<char>, u32)>::empty());
        assert(lookup_symbol(u.drop_first(), name) is None);
        assert(lookup_symbol(t, name) is None);
    }
}

proof fn lemma_collect_symbols_lines(ls: Seq<LineView>, syms: Seq<(Seq<char>, u32)>, i: int)
    requires
        0 <= i <= ls.len(),
        collect_symbols(ls, i, syms, word_address(words_before(ls, i))) is Ok,
    ensures
        ({
            let out = collect_symbols(ls, i, syms, word_address(words_before(ls, i)))->Ok_0;
            &&& forall|name: Seq<char>| #[trigger] lookup_symbol(syms, name) is Some ==> lookup_symbol(out, name) == lookup_symbol(syms, name)
            &&& forall|j: int| i <= j < ls.len() && (#[trigger] ls[j]).label is Some ==>
                lookup_symbol(out, ls[j].label->Some_0) == Some(word_address(words_before(ls, j)))
        }),
    decreases ls.len() - i,
{
    if i < ls.len() {
        let l = ls[i];
        let pc = word_address(words_before(ls, i));
        assert(words_before(ls, i + 1) == words_before(ls, i) + if l.tokens.len() > 0 { 1nat } else { 0nat });
        lemma_next_word_address(words_before(ls, i));
        let next = if l.tokens.len() > 0 { next_address(pc) } else { pc };
        assert(next == word_address(words_before(ls, i + 1)));
        let syms2 = match l.label {
            Some(label) => syms.push((label, pc)),
            None => syms,
        };
        lemma_collect_symbols_lines(ls, syms2, i + 1);
        let out = collect_symbols(ls, i, syms, pc)->Ok_0;
        assert(out == collect_symbols(ls, i + 1, syms2, next)->Ok_0);
        assert forall|name: Seq<char>| #[trigger] lookup_symbol(syms, name) is Some implies lookup_symbol(out, name) == lookup_symbol(syms, name) by {
            if let Some(label) = l.label {
                lemma_lookup_push(syms, label, pc, name);
            }
        }
        assert forall|j: int| i <= j < ls.len() && (#[trigger] ls[j]).label is Some implies
            lookup_symbol(out, ls[j].label->Some_0) == Some(word_address(words_before(ls, j))) by {
            if j == i {
                let label = l.label->Some_0;
                lemma_lookup_push(syms, label, pc, label);
            }
        }
    }
}

/// Every word of an assembled program is its instruction line assembled at the word's
/// address, with the program's labels: the `n`-th line with an instruction gives word `n`,
/// at address `4 n`, and there are no other words.
pub proof fn lemma_program_words(source: Seq<char>)
    requires
        assemble_text(source) is Ok,
    ensures
        ({
            let ls = program_lines(source);
            let ws = assemble_text(source)->Ok_0;
            &&& ws.len() == words_before(ls, ls.len() as int)
            &&& forall|j: int| 0 <= j < ls.len() && (#[trigger] ls[j]).tokens.len() > 0 ==>
                assemble_tokens(ls[j].line_no, ls[j].tokens, program_symbols(source), word_address(words_before(ls, j)))
                    == Ok::<u32, ErrorView>(ws[words_before(ls, j) as int])
        }),
{
    let ls = program_lines(source);
    assert(word_address(words_before(ls, 0)) == 0);
    lemma_emit_words_lines(ls, program_symbols(source), 0);
}

/// Every label of an assembled program stands for the address of the word of its line.
pub proof fn lemma_program_labels(source: Seq<char>)
    requires
        assemble_text(source) is Ok,
    ensures
        forall|j: int| 0 <= j < program_lines(source).len() && (#[trigger] program_lines(source)[j]).label is Some ==>
            lookup_symbol(program_symbols(source), program_lines(source)[j].label->Some_0)
                == Some(word_address(words_before(program_lines(source), j))),
{
    let ls = program_lines(source);
    assert(word_address(words_before(ls, 0)) == 0);
    lemma_collect_symbols_lines(ls, seq![], 0);
}

/// A `BZ`, `JMP` or `CALL` of an assembled program jumps to the word of the line that
/// defines its label: the CPU's target `PC + 4 + sext16(imm) * 4` (modulo 2^32) of the
/// word on line `j` is the address of the word of line `k`.
/// A register operand names one of the sixteen registers.
proof fn lemma_parse_reg_bound(line_no: int, token: Seq<char>)
    requires
        parse_reg(line_no, token) is Ok,
    ensures
        parse_reg(line_no, token)->Ok_0 < 16,
{
    let src = token.drop_first();
    let d = if src[0] == '+' { src.drop_first() } else { src };
    lemma_digits_value_nonneg(d, 10);
}

/// The word of a `BZ`, `JMP` or `CALL` line carries its label's resolved offset in its
/// immediate field.
#[verifier::spinoff_prover]
#[verifier::rlimit(60)]
proof fn lemma_branch_word(line_no: int, t: Seq<Seq<char>>, syms: Seq<(Seq<char>, u32)>, pc: u32)
    requires
        t.len() > 0,
        branch_label(t) is Some,
        assemble_tokens(line_no, t, syms, pc) is Ok,
    ensures
        resolve_label(line_no, branch_label(t)->Some_0, syms, pc) is Ok,
        crate::cpu::field_imm(assemble_tokens(line_no, t, syms, pc)->Ok_0)
            == resolve_label(line_no, branch_label(t)->Some_0, syms, pc)->Ok_0,
{
    reveal(assemble_tokens);
    lemma_mnemonic_spellings();
    let label = branch_label(t)->Some_0;
    let m = t[0].map_values(|c: char| upper(c));
    let ops = t.drop_first();
    let imm = resolve_label(line_no, label, syms, pc)->Ok_0;
    assert(resolve_label(line_no, label, syms, pc) is Ok ==> imm < 0x1_0000);
    if m == "BZ"@ && t.len() == 3 {
        assert(ops[1] == label);
        assert(m != "NOP"@ && m != "LI"@);
        assert(parse_reg(line_no, ops[0]) is Ok);
        lemma_parse_reg_bound(line_no, ops[0]);
        let rs = parse_reg(line_no, ops[0])->Ok_0;
        lemma_encode_decode(OP_JZ, 0, rs, 0, imm);
    } else {
        assert(ops[0] == label);
        let link: u32 = if m == "CALL"@ { 15 } else { 0 };
        lemma_encode_decode(OP_JZ, link, 0, 0, imm);
    }
}

/// A `BZ`, `JMP` or `CALL` of an assembled program jumps to the word of the line that
/// defines its label: the CPU's target `PC + 4 + sext16(imm) * 4` (modulo 2^32) of the
/// word on line `j` is the address of the word of line `k`.
pub proof fn lemma_program_branch_targets(source: Seq<char>, j: int, k: int)
    requires
        assemble_text(source) is Ok,
        0 <= j < program_lines(source).len(),
        0 <= k < program_lines(source).len(),
        program_lines(source)[j].tokens.len() > 0,
        branch_label(program_lines(source)[j].tokens) is Some,
        program_lines(source)[k].label == branch_label(program_lines(source)[j].tokens),
    ensures
        ({
            let ls = program_lines(source);
            let w = (assemble_text(source)->Ok_0)[words_before(ls, j) as int];
            let pc = word_address(words_before(ls, j));
            crate::cpu::add2(next_address(pc), ((crate::cpu::sext16(crate::cpu::field_imm(w)) * 4) % 0x1_0000_0000) as u32)
                == word_address(words_before(ls, k))
        }),
{
    let ls = program_lines(source);
    let syms = program_symbols(source);
    lemma_program_words(source);
    lemma_program_labels(source);
    assert(ls[j].tokens.len() > 0);
    assert(ls[k].label is Some);
    let t = ls[j].tokens;
    let line_no = ls[j].line_no;
    let pc = word_address(words_before(ls, j));
    lemma_branch_word(line_no, t, syms, pc);
    lemma_branch_reaches_label(line_no, branch_label(t)->Some_0, syms, pc);
}

/// The same law in word indices: a `BZ`, `JMP` or `CALL` that is word `n` of an assembled
/// program and names the label of word `m` carries the signed offset `m - n - 1`, in 16
/// bits, as its immediate. (Programs are far smaller than the 2^30 words that would wrap
/// addresses around.)
#[verifier::spinoff_prover]
pub proof fn lemma_program_branch_offsets(source: Seq<char>, j: int, k: int)
    requires
        assemble_text(source) is Ok,
        0 <= j < program_lines(source).len(),
        0 <= k < program_lines(source).len(),
        program_lines(source)[j].tokens.len() > 0,
        branch_label(program_lines(source)[j].tokens) is Some,
        program_lines(source)[k].label == branch_label(program_lines(source)[j].tokens),
        words_before(program_lines(source), program_lines(source).len() as int) < 0x4000_0000,
    ensures
        ({
            let ls = program_lines(source);
            let n = words_before(ls, j) as int;
            let m = words_before(ls, k) as int;
            let w = (assemble_text(source)->Ok_0)[n];
            &&& -0x8000 <= m - n - 1 <= 0x7fff
            &&& crate::cpu::field_imm(w) == imm16_bits(m - n - 1)
        }),
{
    let ls = program_lines(source);
    let syms = program_symbols(source);
    lemma_program_words(source);
    lemma_program_labels(source);
    assert(ls[j].tokens.len() > 0);
    assert(ls[k].label is Some);
    let t = ls[j].tokens;
    let line_no = ls[j].line_no;
    let n = words_before(ls, j);
    let m = words_before(ls, k);
    lemma_words_before_mono(ls, j + 1, ls.len() as int);
    lemma_words_before_mono(ls, k, ls.len() as int);
    assert(words_before(ls, j + 1) == n + 1);
    let pc = word_address(n);
    lemma_branch_word(line_no, t, syms, pc);
    let label = branch_label(t)->Some_0;
    assert(lookup_symbol(syms, label) == Some(word_address(m)));
    lemma_offset_in_words(line_no, label, syms, n, m);
}

/// The offset `resolve_label` computes from word `n` to a label at word `m`, both well
/// inside the address space, is `m - n - 1`.
proof fn lemma_offset_in_words(line_no: int, label: Seq<char>, syms: Seq<(Seq<char>, u32)>, n: nat, m: nat)
    requires
        n + 1 < 0x4000_0000,
        m < 0x4000_0000,
        lookup_symbol(syms, label) == Some(word_address(m)),
        resolve_label(line_no, label, syms, word_address(n)) is Ok,
    ensures
        -0x8000 <= m - n - 1 <= 0x7fff,
        resolve_label(line_no, label, syms, word_address(n))->Ok_0 == imm16_bits(m - n - 1),
{
    lemma_next_word_address(n);
    assert(word_address(m) == 4 * m);
    assert(word_address(n + 1) == 4 * (n + 1));
    let diff = 4 * m - 4 * (n + 1);
    assert(diff == 4 * (m - n - 1));
    assert(diff % 4 == 0 && diff / 4 == m - n - 1);
}

// ------------------------------------------------------------------------------------
// Opcodes and operands of assembled words
// ------------------------------------------------------------------------------------

/// The opcode of the Kagura encoding that each mnemonic of the assembler stands for, the
/// pseudo-instructions included (`NOP`, `LI` are `ADD`; `BZ`, `JMP`, `CALL`, `JR`,
/// `CALLR`, `RET` are `JZ`).
pub open spec fn mnemonic_opcode(m: Seq<char>) -> Option<u32> {
    if m == "ADD"@ || m == "NOP"@ || m == "LI"@ {
        Some(0)
    } else if m == "NAND"@ {
        Some(1)
    } else if m == "SHIFT"@ {
        Some(2)
    } else if m == "MUL"@ {
        Some(3)
    } else if m == "LDB"@ {
        Some(4)
    } else if m == "LDH"@ {
        Some(5)
    } else if m == "LDW"@ {
        Some(7)
    } else if m == "STB"@ {
        Some(8)
    } else if m == "STH"@ {
        Some(9)
    } else if m == "STW"@ {
        Some(11)
    } else if m == "JZ"@ || m == "BZ"@ || m == "JMP"@ || m == "CALL"@ || m == "JR"@ || m == "CALLR"@ || m == "RET"@ {
        Some(12)
    } else if m == "CMP"@ {
        Some(13)
    } else {
        None
    }
}

/// Whether `m` is a machine instruction written out with its three register operands.
pub open spec fn is_raw_mnemonic(m: Seq<char>) -> bool {
    m == "ADD"@ || m == "NAND"@ || m == "SHIFT"@ || m == "MUL"@ || m == "CMP"@ || m == "LDB"@
        || m == "LDH"@ || m == "LDW"@ || m == "STB"@ || m == "STH"@ || m == "STW"@ || m == "JZ"@
}

proof fn lemma_imm_bounds(line_no: int, token: Seq<char>)
    ensures
        parse_s16_imm(line_no, token) is Ok ==> parse_s16_imm(line_no, token)->Ok_0 < 0x1_0000,
        parse_u16_imm(line_no, token) is Ok ==> parse_u16_imm(line_no, token)->Ok_0 < 0x1_0000,
{
}

/// The word of a raw instruction carries its opcode and its three register operands.
proof fn lemma_raw_instruction_word(line_no: int, m: Seq<char>, ops: Seq<Seq<char>>, op: u32, kind: ImmKind)
    requires
        op < 16,
        raw_instruction(line_no, m, ops, op, kind) is Ok,
    ensures
        ops.len() >= 3,
        crate::cpu::field_op(raw_instruction(line_no, m, ops, op, kind)->Ok_0) == op,
        crate::cpu::field_rd(raw_instruction(line_no, m, ops, op, kind)->Ok_0) == parse_reg(line_no, ops[0])->Ok_0,
        crate::cpu::field_rs1(raw_instruction(line_no, m, ops, op, kind)->Ok_0) == parse_reg(line_no, ops[1])->Ok_0,
        crate::cpu::field_rs2(raw_instruction(line_no, m, ops, op, kind)->Ok_0) == parse_reg(line_no, ops[2])->Ok_0,
{
    let rd = parse_reg(line_no, ops[0])->Ok_0;
    let rs1 = parse_reg(line_no, ops[1])->Ok_0;
    let rs2 = parse_reg(line_no, ops[2])->Ok_0;
    lemma_parse_reg_bound(line_no, ops[0]);
    lemma_parse_reg_bound(line_no, ops[1]);
    lemma_parse_reg_bound(line_no, ops[2]);
    match kind {
        ImmKind::Absent => lemma_encode_decode(op, rd, rs1, rs2, 0),
        ImmKind::Signed => {
            lemma_imm_bounds(line_no, ops[3]);
            lemma_encode_decode(op, rd, rs1, rs2, parse_s16_imm(line_no, ops[3])->Ok_0);
        },
        ImmKind::Unsigned => {
            lemma_imm_bounds(line_no, ops[3]);
            lemma_encode_decode(op, rd, rs1, rs2, parse_u16_imm(line_no, ops[3])->Ok_0);
        },
    }
}

/// The word of a register jump is a `JZ` with its link register in `rd`.
proof fn lemma_register_jump_word(line_no: int, m: Seq<char>, ops: Seq<Seq<char>>, link: u32)
    requires
        link < 16,
        register_jump(line_no, m, ops, link) is Ok,
    ensures
        crate::cpu::field_op(register_jump(line_no, m, ops, link)->Ok_0) == 12,
        crate::cpu::field_rd(register_jump(line_no, m, ops, link)->Ok_0) == link,
{
    let rs = parse_reg(line_no, ops[0])->Ok_0;
    lemma_parse_reg_bound(line_no, ops[0]);
    if ops.len() == 2 {
        lemma_imm_bounds(line_no, ops[1]);
        lemma_encode_decode(OP_JZ, link, 0, rs, parse_s16_imm(line_no, ops[1])->Ok_0);
    } else {
        lemma_encode_decode(OP_JZ, link, 0, rs, 0);
    }
}

/// Every assembled line is encoded with the opcode of its mnemonic; a machine instruction
/// written out keeps its `rd`, `rs1` and `rs2` registers in that order.
#[verifier::spinoff_prover]
#[verifier::rlimit(80)]
pub proof fn lemma_mnemonic_opcodes(line_no: int, t: Seq<Seq<char>>, syms: Seq<(Seq<char>, u32)>, pc: u32)
    requires
        t.len() > 0,
        assemble_tokens(line_no, t, syms, pc) is Ok,
    ensures
        ({
            let m = t[0].map_values(|c: char| upper(c));
            let w = assemble_tokens(line_no, t, syms, pc)->Ok_0;
            &&& mnemonic_opcode(m) == Some(crate::cpu::field_op(w))
            &&& is_raw_mnemonic(m) ==> t.len() >= 4
                && crate::cpu::field_rd(w) == parse_reg(line_no, t[1])->Ok_0
                && crate::cpu::field_rs1(w) == parse_reg(line_no, t[2])->Ok_0
                && crate::cpu::field_rs2(w) == parse_reg(line_no, t[3])->Ok_0
        }),
{
    reveal(assemble_tokens);
    lemma_mnemonic_spellings();
    let m = t[0].map_values(|c: char| upper(c));
    let ops = t.drop_first();
    let w = assemble_tokens(line_no, t, syms, pc)->Ok_0;
    if m == "NOP"@ {
        lemma_encode_decode(0, 0, 0, 0, 0);
    } else if m == "LI"@ {
        lemma_parse_reg_bound(line_no, ops[0]);
        lemma_imm_bounds(line_no, ops[1]);
        lemma_encode_decode(0, parse_reg(line_no, ops[0])->Ok_0, 0, 0, parse_s16_imm(line_no, ops[1])->Ok_0);
    } else if m == "BZ"@ || m == "JMP"@ || m == "CALL"@ {
        lemma_branch_word(line_no, t, syms, pc);
        let label = branch_label(t)->Some_0;
        let imm = resolve_label(line_no, label, syms, pc)->Ok_0;
        assert(imm < 0x1_0000);
        if m == "BZ"@ {
            lemma_parse_reg_bound(line_no, ops[0]);
            lemma_encode_decode(OP_JZ, 0, parse_reg(line_no, ops[0])->Ok_0, 0, imm);
        } else {
            lemma_encode_decode(OP_JZ, if m == "CALL"@ { 15 } else { 0 }, 0, 0, imm);
        }
    } else if m == "JR"@ {
        lemma_register_jump_word(line_no, m, ops, 0);
    } else if m == "CALLR"@ {
        lemma_register_jump_word(line_no, m, ops, 15);
    } else if m == "RET"@ {
        lemma_encode_decode(OP_JZ, 0, 0, 15, 0);
    } else {
        let (op, kind) = if m == "ADD"@ { (OP_ADD, ImmKind::Signed) } else if m == "NAND"@ { (OP_NAND, ImmKind::Absent) }
            else if m == "SHIFT"@ { (OP_SHIFT, ImmKind::Unsigned) } else if m == "MUL"@ { (OP_MUL, ImmKind::Absent) }
            else if m == "CMP"@ { (OP_CMP, ImmKind::Unsigned) } else if m == "LDB"@ { (OP_LDB, ImmKind::Signed) }
            else if m == "LDH"@ { (OP_LDH, ImmKind::Signed) } else if m == "LDW"@ { (OP_LDW, ImmKind::Signed) }
            else if m == "STB"@ { (OP_STB, ImmKind::Signed) } else if m == "STH"@ { (OP_STH, ImmKind::Signed) }
            else if m == "STW"@ { (OP_STW, ImmKind::Signed) } else { (OP_JZ, ImmKind::Signed) };
        lemma_raw_instruction_word(line_no, m, ops, op, kind);
        assert(ops[0] == t[1] && ops[1] == t[2] && ops[2] == t[3]);
    }
}
} // verus!
