//! The `kagura` command line: which command the arguments name, the arguments of the
//! `assemble` and `conformance` commands, and the text and exit status of a conformance run.
use vstd::prelude::*;

use crate::report::{CaseResult, Summary};
use crate::text::{decimal, push_decimal, push_str};

verus! {

/// The usage text of the `kagura` command.
pub open spec fn usage_text() -> Seq<char> {
    "Usage:\n  kagura assemble <input.asm> <output.bin>\n  kagura cpu-test <input.asm|input.bin> [--max-steps N]\n  kagura conformance <conformance-root> [--json]\n  kagura --version\n  kagura help"@
}

/// The usage text of the `kagura` command.
pub fn usage() -> (r: String)
    ensures
        r@ == usage_text(),
{
    crate::text::owned("Usage:\n  kagura assemble <input.asm> <output.bin>\n  kagura cpu-test <input.asm|input.bin> [--max-steps N]\n  kagura conformance <conformance-root> [--json]\n  kagura --version\n  kagura help")
}

/// What the arguments of `kagura` ask for.
#[derive(Debug, Clone, Copy, PartialEq, Eq, Structural)]
pub enum CommandKind {
    Usage,
    AssembleHelp,
    Assemble,
    CpuTestHelp,
    CpuTest,
    Conformance,
    Version,
    Unknown,
}

/// Whether `s` is one of the words that ask for help.
pub open spec fn is_help(s: Seq<char>) -> bool {
    s == "help"@ || s == "--help"@ || s == "-h"@
}

/// The command that the arguments `args` (without the program name) name. The arguments
/// after the command word go to the command.
pub open spec fn command_of(args: Seq<Seq<char>>) -> CommandKind {
    if args.len() == 0 {
        CommandKind::Usage
    } else {
        let c = args[0];
        let first_is_help = args.len() > 1 && is_help(args[1]);
        if c == "assemble"@ || c == "assembler"@ {
            if first_is_help { CommandKind::AssembleHelp } else { CommandKind::Assemble }
        } else if c == "cpu-test"@ || c == "cpu-tester"@ {
            if first_is_help { CommandKind::CpuTestHelp } else { CommandKind::CpuTest }
        } else if c == "conformance"@ {
            CommandKind::Conformance
        } else if is_help(c) {
            CommandKind::Usage
        } else if c == "version"@ || c == "--version"@ || c == "-V"@ {
            CommandKind::Version
        } else {
            CommandKind::Unknown
        }
    }
}

fn is_help_exec(s: &str) -> (b: bool)
    ensures
        b == is_help(s@),
{
    crate::text::str_eq(s, "help") || crate::text::str_eq(s, "--help") || crate::text::str_eq(s, "-h")
}

/// The command that the arguments name.
pub fn parse_command(args: &[String]) -> (k: CommandKind)
    ensures
        k == command_of(args@.map_values(|a: String| a@)),
{
    let ghost av = args@.map_values(|a: String| a@);
    if args.len() == 0 {
        return CommandKind::Usage;
    }
    assert(av[0] == args@[0]@);
    let c = args[0].as_str();
    let first_is_help = args.len() > 1 && is_help_exec(args[1].as_str());
    proof {
        if args@.len() > 1 {
            assert(av[1] == args@[1]@);
        }
    }
    if crate::text::str_eq(c, "assemble") || crate::text::str_eq(c, "assembler") {
        if first_is_help { CommandKind::AssembleHelp } else { CommandKind::Assemble }
    } else if crate::text::str_eq(c, "cpu-test") || crate::text::str_eq(c, "cpu-tester") {
        if first_is_help { CommandKind::CpuTestHelp } else { CommandKind::CpuTest }
    } else if crate::text::str_eq(c, "conformance") {
        CommandKind::Conformance
    } else if is_help_exec(c) {
        CommandKind::Usage
    } else if crate::text::str_eq(c, "version") || crate::text::str_eq(c, "--version") || crate::text::str_eq(c, "-V") {
        CommandKind::Version
    } else {
        CommandKind::Unknown
    }
}

/// The message for an unknown command word.
pub fn unknown_command(word: &str) -> (r: String)
    ensures
        r@ == "unknown command `"@ + word@ + "`\n\n"@ + usage_text(),
{
    let mut v: Vec<char> = Vec::new();
    push_str(&mut v, "unknown command `");
    push_str(&mut v, word);
    push_str(&mut v, "`\n\n");
    push_str(&mut v, usage().as_str());
    assert(v@ =~= "unknown command `"@ + word@ + "`\n\n"@ + usage_text());
    crate::chars::chars_to_string(v.as_slice())
}

/// What the arguments of the conformance command ask for.
#[derive(Debug, Clone)]
pub enum ConformanceArgs {
    Help,
    Run { root: String, json: bool },
    Failure { message: String, code: u8 },
}

/// The outcome of reading the conformance arguments from index `k` on, with the root and
/// the JSON flag found so far.
pub open spec fn conformance_args_from(args: Seq<Seq<char>>, k: int, root: Option<Seq<char>>, json: bool) -> (Option<Seq<char>>, bool, Option<(Seq<char>, u8)>, bool)
    decreases args.len() - k,
{
    if k < 0 || k >= args.len() {
        (root, json, None, false)
    } else {
        let a = args[k];
        if a == "--json"@ {
            conformance_args_from(args, k + 1, root, true)
        } else if is_help(a) {
            (root, json, None, true)
        } else if root is None {
            conformance_args_from(args, k + 1, Some(a), json)
        } else {
            (root, json, Some(("unexpected argument `"@ + a + "`"@, 1u8)), false)
        }
    }
}

/// The message of a refused argument list.
pub open spec fn failure_message(f: Option<(Seq<char>, u8)>) -> Seq<char> {
    match f {
        Some((m, _)) => m,
        None => Seq::empty(),
    }
}

/// The exit status of a refused argument list.
pub open spec fn failure_code(f: Option<(Seq<char>, u8)>) -> u8 {
    match f {
        Some((_, c)) => c,
        None => 0,
    }
}

/// Reads the conformance arguments: a root directory and `--json`; a help word asks for
/// help; a second root is refused (exit 1), a missing root too (exit 2).
pub fn parse_conformance_args(args: &[String]) -> (r: ConformanceArgs)
    ensures
        ({
            let (root, json, failure, help) = conformance_args_from(args@.map_values(|a: String| a@), 0, None, false);
            if help {
                r is Help
            } else if failure is Some {
                r matches ConformanceArgs::Failure { message, code } && message@ == failure_message(failure) && code == failure_code(failure)
            } else if root is None {
                r matches ConformanceArgs::Failure { message, code } && code == 2
                    && message@ == "conformance root is required; pass the Kagura suite directory explicitly"@
            } else {
                r matches ConformanceArgs::Run { root: x, json: j } && x@ == root->0 && j == json
            }
        }),
{
    let ghost av = args@.map_values(|a: String| a@);
    let mut root: Option<String> = None;
    let mut json = false;
    let mut k: usize = 0;
    while k < args.len()
        invariant
            k <= args@.len(),
            av == args@.map_values(|a: String| a@),
            conformance_args_from(av, 0, None, false) == conformance_args_from(av, k as int, match root {
                Some(s) => Some(s@),
                None => None,
            }, json),
        decreases args@.len() - k,
    {
        let a = args[k].as_str();
        assert(av[k as int] == a@);
        if crate::text::str_eq(a, "--json") {
            json = true;
        } else if is_help_exec(a) {
            return ConformanceArgs::Help;
        } else if root.is_none() {
            root = Some(args[k].clone());
        } else {
            return ConformanceArgs::Failure { message: crate::text::concat3("unexpected argument `", a, "`"), code: 1 };
        }
        k = k + 1;
    }
    match root {
        Some(root) => ConformanceArgs::Run { root, json },
        None => ConformanceArgs::Failure {
            message: crate::text::owned("conformance root is required; pass the Kagura suite directory explicitly"),
            code: 2,
        },
    }
}

/// How a conformance run ends: errors first (exit 2), then failures (exit 1), else success.
pub open spec fn exit_of(s: Summary) -> Option<(Seq<char>, u8)> {
    if s.errors > 0 {
        Some(("conformance suite contains errors"@, 2u8))
    } else if s.failed > 0 {
        Some(("reference implementation failed conformance"@, 1u8))
    } else {
        None
    }
}

/// How a conformance run with the totals `s` ends.
pub fn conformance_exit(s: &Summary) -> (r: Result<(), (String, u8)>)
    ensures
        match exit_of(*s) {
            Some((m, c)) => r matches Err((x, y)) && x@ == m && y == c,
            None => r is Ok,
        },
{
    if s.errors > 0 {
        Err((crate::text::owned("conformance suite contains errors"), 2))
    } else if s.failed > 0 {
        Err((crate::text::owned("reference implementation failed conformance"), 1))
    } else {
        Ok(())
    }
}

/// `s` padded with spaces on the right to at least `width` characters.
pub open spec fn padded(s: Seq<char>, width: nat) -> Seq<char> {
    if s.len() >= width { s } else { s + Seq::new((width - s.len()) as nat, |i: int| ' ') }
}

fn push_padded(v: &mut Vec<char>, s: &str, width: usize)
    ensures
        final(v)@ == old(v)@ + padded(s@, width as nat),
{
    let ghost start = v@;
    let chars = crate::chars::str_chars(s);
    push_str(v, s);
    let mut n = chars.len();
    while n < width
        invariant
            chars@ == s@,
            chars@.len() <= n <= width || (n == chars@.len() && n >= width),
            v@ == start + s@ + Seq::new((n - chars@.len()) as nat, |i: int| ' '),
        decreases width - n,
    {
        v.push(' ');
        n = n + 1;
        assert(v@ =~= start + s@ + Seq::new((n - chars@.len()) as nat, |i: int| ' '));
    }
    proof {
        if s@.len() >= width {
            assert(Seq::new((n - chars@.len()) as nat, |i: int| ' ') =~= Seq::<char>::empty());
            assert(v@ =~= start + s@);
        }
    }
}

/// The line that names a result: its tag and suite in columns of 5 and 3 characters, then
/// the case id, else the source, else `<unknown>`.
pub open spec fn result_line_text(r: CaseResult) -> Seq<char> {
    padded(r.result@, 5) + " "@ + padded(r.suite@, 3) + " "@ + match r.case {
        Some(c) => c@,
        None => match r.source {
            Some(s) => s@,
            None => "<unknown>"@,
        },
    }
}

/// The line that names a result.
pub fn result_line(r: &CaseResult) -> (s: String)
    ensures
        s@ == result_line_text(*r),
{
    let mut v: Vec<char> = Vec::new();
    push_padded(&mut v, r.result, 5);
    push_str(&mut v, " ");
    push_padded(&mut v, r.suite, 3);
    push_str(&mut v, " ");
    match &r.case {
        Some(c) => push_str(&mut v, c.as_str()),
        None => match &r.source {
            Some(s) => push_str(&mut v, s.as_str()),
            None => push_str(&mut v, "<unknown>"),
        },
    }
    assert(v@ =~= result_line_text(*r));
    crate::chars::chars_to_string(v.as_slice())
}

/// The totals line after the results, preceded by an empty line.
pub open spec fn summary_line_text(s: Summary) -> Seq<char> {
    "\n"@ + decimal(s.total as nat) + " cases: "@ + decimal(s.passed as nat) + " passed, "@ + decimal(s.failed as nat)
        + " failed, "@ + decimal(s.errors as nat) + " errors"@
}

/// The totals line after the results.
pub fn summary_line(s: &Summary) -> (r: String)
    ensures
        r@ == summary_line_text(*s),
{
    let mut v: Vec<char> = Vec::new();
    push_str(&mut v, "\n");
    push_decimal(&mut v, s.total as u64);
    push_str(&mut v, " cases: ");
    push_decimal(&mut v, s.passed as u64);
    push_str(&mut v, " passed, ");
    push_decimal(&mut v, s.failed as u64);
    push_str(&mut v, " failed, ");
    push_decimal(&mut v, s.errors as u64);
    push_str(&mut v, " errors");
    assert(v@ =~= summary_line_text(*s));
    crate::chars::chars_to_string(v.as_slice())
}

/// The line that names a coverage error: its source, or `<coverage>` without one.
pub fn coverage_error_line(r: &CaseResult) -> (s: String)
    ensures
        s@ == "error coverage "@ + match r.source {
            Some(x) => x@,
            None => "<coverage>"@,
        },
{
    let mut v: Vec<char> = Vec::new();
    push_str(&mut v, "error coverage ");
    match &r.source {
        Some(x) => push_str(&mut v, x.as_str()),
        None => push_str(&mut v, "<coverage>"),
    }
    crate::chars::chars_to_string(v.as_slice())
}

} // verus!
