use kagura::assembly::assemble;
use kagura::assemble_command;
use kagura::cli::{
    CommandKind, ConformanceArgs, conformance_exit, parse_command, parse_conformance_args,
    result_line, summary_line, unknown_command, usage,
};
use kagura::cpu_tester::{
    assembly_failure, is_binary_input, parse_args, render_debug_output, run_program,
    words_from_bytes,
};
use kagura::report::{CaseResult, Summary};

fn strings(args: &[&str]) -> Vec<String> {
    args.iter().map(|s| s.to_string()).collect()
}

#[test]
fn program_writes_debug_output_and_passes() {
    let program = assemble(
        "LI r1, 0x2000\nLI r2, 79\nSTB r2, r1, r0, 0\nLI r2, 75\nSTB r2, r1, r0, 0\nLI r3, 0x2010\nLI r4, 1\nSTW r4, r3, r0, 0\n",
    )
    .unwrap();
    let (result, output) = run_program(program.words(), 100_000);
    assert_eq!(result, Ok(()));
    assert_eq!(output, b"OK");
    assert_eq!(render_debug_output(&output), "OK");
}

#[test]
fn binary_debug_output_falls_back_to_hex() {
    let program = assemble(
        "LI r1, 0x2000\nLI r2, 0\nSTB r2, r1, r0, 0\nLI r2, 255\nSTB r2, r1, r0, 0\nLI r3, 0x2010\nLI r4, 1\nSTW r4, r3, r0, 0\n",
    )
    .unwrap();
    let (result, output) = run_program(program.words(), 100_000);
    assert_eq!(result, Ok(()));
    assert_eq!(render_debug_output(&output), "DebugIo output (hex): 00 FF\n");
}

#[test]
fn failing_program_reports_test_id_and_detail() {
    let program = assemble("LI r1, 0x2010\nLI r2, 7\nSTW r2, r1, r0, 4\nLI r2, 9\nSTW r2, r1, r0, 8\nLI r2, 2\nSTW r2, r1, r0, 0\n").unwrap();
    let (result, _) = run_program(program.words(), 100);
    assert_eq!(result, Err("program reported FAIL: test_id=7 detail=9".to_string()));
}

#[test]
fn step_limit_and_faults_are_reported() {
    let program = assemble("loop:\nJMP loop\n").unwrap();
    let (result, _) = run_program(program.words(), 5);
    assert_eq!(result, Err("step limit exceeded after 5 step(s)".to_string()));
    let (result, _) = run_program(&[0xF000_0000], 5);
    assert_eq!(
        result,
        Err("runtime fault: InvalidInstruction { faulting_pc: 0 } (code: InvalidInstruction)".to_string())
    );
    let program = assemble("LI r1, 1\nLDW r2, r1, r0, 0\n").unwrap();
    let (result, _) = run_program(program.words(), 5);
    assert_eq!(
        result,
        Err("runtime fault: UnalignedAccess { faulting_pc: 4, addr: 1, width: Word, operation: Load } (code: UnalignedAccess)".to_string())
    );
}

#[test]
fn oversized_program_is_refused() {
    let words = vec![0u32; 0x801];
    let (result, output) = run_program(&words, 1);
    assert_eq!(result, Err("failed to load program into RAM".to_string()));
    assert!(output.is_empty());
}

#[test]
fn runner_arguments() {
    assert_eq!(parse_args(&strings(&["p.asm"])), Ok(("p.asm".to_string(), 100_000)));
    assert_eq!(parse_args(&strings(&["p.asm", "--max-steps", "7"])), Ok(("p.asm".to_string(), 7)));
    assert_eq!(
        parse_args(&strings(&["p.asm", "--max-steps", "x"])),
        Err("invalid step count `x`".to_string())
    );
    let usage_text = "Usage:\n  cpu-tester <input.asm|input.bin> [--max-steps N]\n  cpu-tester help".to_string();
    assert_eq!(parse_args(&strings(&[])), Err(usage_text.clone()));
    assert_eq!(parse_args(&strings(&["p.asm", "--max-steps"])), Err(usage_text.clone()));
    assert_eq!(parse_args(&strings(&["p.asm", "--fast"])), Err(usage_text));
}

#[test]
fn binary_inputs_and_words() {
    assert!(is_binary_input("dir/prog.bin"));
    assert!(is_binary_input("PROG.BIN"));
    assert!(!is_binary_input("prog.asm"));
    assert!(!is_binary_input(".bin"));
    assert_eq!(words_from_bytes("p.bin", &[0x44, 0x33, 0x22, 0x11, 1, 0, 0, 0]), Ok(vec![0x1122_3344, 1]));
    assert_eq!(
        words_from_bytes("p.bin", &[1, 2, 3]),
        Err("binary input `p.bin` has invalid length 3; expected a multiple of 4 bytes".to_string())
    );
}

#[test]
fn assembler_error_messages() {
    let err = assemble("LI r1, 40000").unwrap_err();
    assert_eq!(err.message(), "line 1: immediate `40000` out of range (-32768..=32767)");
    assert_eq!(
        assembly_failure("p.asm", &err),
        "assembly failed for `p.asm`: line 1: immediate `40000` out of range (-32768..=32767)"
    );
    let err = assemble("x:\nNOP\nx:\nNOP").unwrap_err();
    assert_eq!(err.message(), "line 3: duplicate label `x`");
}

#[test]
fn kagura_commands() {
    assert_eq!(parse_command(&strings(&[])), CommandKind::Usage);
    assert_eq!(parse_command(&strings(&["assemble", "a", "b"])), CommandKind::Assemble);
    assert_eq!(parse_command(&strings(&["assembler", "--help"])), CommandKind::AssembleHelp);
    assert_eq!(parse_command(&strings(&["cpu-test", "-h"])), CommandKind::CpuTestHelp);
    assert_eq!(parse_command(&strings(&["cpu-tester", "p.asm"])), CommandKind::CpuTest);
    assert_eq!(parse_command(&strings(&["conformance", "root"])), CommandKind::Conformance);
    assert_eq!(parse_command(&strings(&["help"])), CommandKind::Usage);
    assert_eq!(parse_command(&strings(&["-V"])), CommandKind::Version);
    assert_eq!(parse_command(&strings(&["frobnicate"])), CommandKind::Unknown);
    assert!(usage().starts_with("Usage:\n  kagura assemble"));
    assert!(unknown_command("x").starts_with("unknown command `x`\n\nUsage:"));
}

#[test]
fn assemble_arguments() {
    assert_eq!(assemble_command::parse_args(&strings(&["a.asm", "b.bin"])), Ok(("a.asm".to_string(), "b.bin".to_string())));
    assert_eq!(
        assemble_command::parse_args(&strings(&["a.asm"])),
        Err("Usage:\n  kagura assemble <input.asm> <output.bin>\n  kagura assemble help".to_string())
    );
}

#[test]
fn conformance_arguments_and_exit() {
    assert!(matches!(parse_conformance_args(&strings(&["--help"])), ConformanceArgs::Help));
    assert!(matches!(
        parse_conformance_args(&strings(&["root", "--json"])),
        ConformanceArgs::Run { root, json: true } if root == "root"
    ));
    assert!(matches!(
        parse_conformance_args(&strings(&["a", "b"])),
        ConformanceArgs::Failure { message, code: 1 } if message == "unexpected argument `b`"
    ));
    assert!(matches!(parse_conformance_args(&strings(&["--json"])), ConformanceArgs::Failure { code: 2, .. }));
    let ok = Summary { total: 2, passed: 2, failed: 0, errors: 0 };
    assert_eq!(conformance_exit(&ok), Ok(()));
    let failed = Summary { total: 2, passed: 1, failed: 1, errors: 0 };
    assert_eq!(conformance_exit(&failed), Err(("reference implementation failed conformance".to_string(), 1)));
    let errors = Summary { total: 2, passed: 0, failed: 1, errors: 1 };
    assert_eq!(conformance_exit(&errors), Err(("conformance suite contains errors".to_string(), 2)));
    assert_eq!(summary_line(&failed), "\n2 cases: 1 passed, 1 failed, 0 errors");
}

#[test]
fn result_lines_are_padded() {
    let r = CaseResult::finished("cpu", "CPU-ADD-001".to_string(), Some(1), Vec::new());
    assert_eq!(result_line(&r), "pass  cpu CPU-ADD-001");
    let e = CaseResult::error("bus", "cases/bus/x/case.toml".to_string(), "bad".to_string());
    assert_eq!(result_line(&e), "error bus cases/bus/x/case.toml");
}

#[test]
fn assembled_bytes_read_back_as_the_program_words() {
    let program = assemble("start:\n  LI r1, 0x1234\n  ADD r2, r1, r0, -1\n  JMP start\n  RET\n").unwrap();
    let bytes = program.to_le_bytes();
    assert_eq!(bytes.len(), 4 * program.words().len());
    assert_eq!(words_from_bytes("prog.bin", &bytes), Ok(program.words().to_vec()));
}
