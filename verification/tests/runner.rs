use kagura::assembly::assemble;
use kagura::model::{
    BusCase, BusEvent, BusExpected, CpuCase, CpuExpected, DeviceState, Execution,
    ExpectedState, ExpectedTermination, ExpectedTransaction, Image, Initial, MemoryRange,
    Transaction,
};
use kagura::report::{CaseResult, Summary, JsonValue};
use kagura::runner::{run_bus_case, run_cpu_case};
use kagura::validate::{
    bus_case_maps_ordered, cpu_case_maps_ordered, ordered_map, register_index, safe_case_file, validate_devices, validate_expected_transaction, validate_registers,
    validate_transaction,
};

fn empty_initial() -> Initial {
    Initial { pc: None, registers: Vec::new(), memory: Vec::new(), devices: Vec::new() }
}

fn termination(kind: &str) -> ExpectedTermination {
    ExpectedTermination {
        kind: kind.to_string(),
        retired: None,
        fault: None,
        faulting_pc: None,
        address: None,
        width: None,
        operation: None,
        status: None,
        case_id: None,
        detail: None,
    }
}

fn cpu_case(until: &str, steps: Option<u64>, max_steps: u64, expected: CpuExpected) -> CpuCase {
    CpuCase {
        format: "kagura-conformance-case".to_string(),
        version: 1,
        id: "CPU-TEST-001".to_string(),
        level: 2,
        binary: "program.bin".to_string(),
        spec: vec!["cpu.md#3".to_string()],
        image: Image { load_address: 0 },
        initial: empty_initial(),
        execution: Execution { until: until.to_string(), steps, max_steps },
        expected,
    }
}

fn binary(source: &str) -> Vec<u8> {
    assemble(source).unwrap().to_le_bytes()
}

fn expected(term: ExpectedTermination, state: Option<ExpectedState>) -> CpuExpected {
    CpuExpected { termination: term, state, bus: Vec::new(), devices: Vec::new() }
}

#[test]
fn steps_case_passes() {
    let mut term = termination("steps");
    term.retired = Some(1);
    let state = ExpectedState {
        pc: Some(4),
        registers: vec![("r1".to_string(), 42)],
        memory: Vec::new(),
    };
    let case = cpu_case("steps", Some(1), 1, expected(term, Some(state)));
    let result = run_cpu_case(&case, &binary("LI r1, 42")).unwrap();
    assert_eq!(result.result, "pass");
    assert_eq!(result.suite, "cpu");
    assert_eq!(result.case.as_deref(), Some("CPU-TEST-001"));
    assert_eq!(result.level, Some(2));
    assert!(result.mismatches.is_empty());
}

#[test]
fn wrong_register_expectation_fails_with_its_path() {
    let state = ExpectedState {
        pc: None,
        registers: vec![("r1".to_string(), 41)],
        memory: Vec::new(),
    };
    let case = cpu_case("steps", Some(1), 1, expected(termination("steps"), Some(state)));
    let result = run_cpu_case(&case, &binary("LI r1, 42")).unwrap();
    assert_eq!(result.result, "fail");
    assert_eq!(result.mismatches.len(), 1);
    let m = &result.mismatches[0];
    assert_eq!(m.path, "state.registers.r1");
    assert!(matches!(m.expected, JsonValue::Number(41)));
    assert!(matches!(m.actual, JsonValue::Number(42)));
}

#[test]
fn invalid_instruction_fault_case_passes() {
    let mut term = termination("fault");
    term.retired = Some(0);
    term.fault = Some("INVALID_INSTRUCTION".to_string());
    term.faulting_pc = Some(0);
    let case = cpu_case("fault", None, 4, expected(term, None));
    let result = run_cpu_case(&case, &[0x00, 0x00, 0x00, 0xF0]).unwrap();
    assert_eq!(result.result, "pass");
}

#[test]
fn unexpected_fault_reports_fault_fields() {
    let case = cpu_case("steps", Some(1), 1, expected(termination("steps"), None));
    let result = run_cpu_case(&case, &[0x00, 0x00, 0x00, 0xF0]).unwrap();
    assert_eq!(result.result, "fail");
    assert_eq!(result.mismatches[0].path, "termination.kind");
    assert!(matches!(&result.mismatches[0].actual, JsonValue::Text(t) if t == "fault"));
}

#[test]
fn reporter_stop_and_bus_trace_are_compared() {
    let program = binary("LI r1, 1\nLI r2, -4096\nSTW r1, r2, r0, 0\n");
    let mut term = termination("reporter");
    term.status = Some("pass".to_string());
    term.retired = Some(3);
    let mut exp = expected(term, None);
    exp.bus = vec![BusEvent {
        operation: "read".to_string(),
        address: 0,
        width: 32,
        result: "ok".to_string(),
        value: None,
    }];
    let case = cpu_case("reporter", None, 10, exp);
    let result = run_cpu_case(&case, &program).unwrap();
    // Three fetches and one store are traced; one event was expected.
    assert_eq!(result.result, "fail");
    assert_eq!(result.mismatches.len(), 1);
    assert_eq!(result.mismatches[0].path, "bus.length");
    assert!(matches!(result.mismatches[0].expected, JsonValue::Number(1)));
    assert!(matches!(result.mismatches[0].actual, JsonValue::Number(4)));
}

#[test]
fn step_limit_is_reported() {
    let case = cpu_case("reporter", None, 3, expected(termination("reporter"), None));
    let result = run_cpu_case(&case, &binary("start:\nJMP start\n")).unwrap();
    assert_eq!(result.result, "fail");
    assert!(matches!(&result.mismatches[0].actual, JsonValue::Text(t) if t == "step_limit"));
}

#[test]
fn invalid_cpu_case_is_an_error() {
    let mut case = cpu_case("steps", Some(1), 1, expected(termination("steps"), None));
    case.level = 0;
    assert_eq!(run_cpu_case(&case, &[]).unwrap_err(), "invalid CPU case header");
    let case = cpu_case("steps", Some(2), 1, expected(termination("steps"), None));
    assert_eq!(run_cpu_case(&case, &[]).unwrap_err(), "execution.steps must be in 1..=max_steps");
    let case = cpu_case("later", None, 1, expected(termination("steps"), None));
    assert_eq!(run_cpu_case(&case, &[]).unwrap_err(), "unknown execution.until");
}

#[test]
fn high_rom_image_must_be_one_word() {
    let mut case = cpu_case("steps", Some(1), 1, expected(termination("steps"), None));
    case.image.load_address = 0xFFFF_FFFC;
    assert_eq!(
        run_cpu_case(&case, &[1, 2, 3]).unwrap_err(),
        "High Test ROM binary must be exactly four bytes"
    );
}

#[test]
fn unreadable_expected_memory_is_an_error() {
    let state = ExpectedState {
        pc: None,
        registers: Vec::new(),
        memory: vec![MemoryRange { address: 0xFFFF, bytes: vec![0, 0] }],
    };
    let case = cpu_case("steps", Some(1), 1, expected(termination("steps"), Some(state)));
    assert_eq!(run_cpu_case(&case, &binary("NOP")).unwrap_err(), "memory snapshot failed");
}

fn bus_case(transactions: Vec<Transaction>, answers: Vec<ExpectedTransaction>) -> BusCase {
    BusCase {
        format: "kagura-bus-conformance-case".to_string(),
        version: 1,
        id: "BUS-TEST-001".to_string(),
        spec: vec!["bus.md#access".to_string()],
        initial: empty_initial(),
        transactions,
        expected: BusExpected { transactions: answers, memory: Vec::new(), devices: Vec::new() },
    }
}

#[test]
fn bus_write_then_read_passes() {
    let mut case = bus_case(
        vec![
            Transaction { operation: "write".to_string(), address: 8, width: 32, value: Some(0x1122_3344) },
            Transaction { operation: "read".to_string(), address: 8, width: 16, value: None },
            Transaction { operation: "read".to_string(), address: 0x0001_0000, width: 8, value: None },
        ],
        vec![
            ExpectedTransaction { result: "ok".to_string(), value: None },
            ExpectedTransaction { result: "ok".to_string(), value: Some(0x3344) },
            ExpectedTransaction { result: "fault".to_string(), value: None },
        ],
    );
    case.expected.memory = vec![MemoryRange { address: 8, bytes: vec![0x44, 0x33, 0x22, 0x11] }];
    let result = run_bus_case(&case).unwrap();
    assert_eq!(result.suite, "bus");
    assert_eq!(result.level, None);
    assert_eq!(result.result, "pass");
}

#[test]
fn bus_device_state_is_compared() {
    let mut case = bus_case(
        vec![Transaction { operation: "write".to_string(), address: 0xFFFF_F004, width: 32, value: Some(7) }],
        vec![ExpectedTransaction { result: "ok".to_string(), value: None }],
    );
    case.initial.devices = vec![DeviceState {
        id: "high-rom".to_string(),
        state: vec![("word".to_string(), 9)],
    }];
    case.expected.devices = vec![
        DeviceState {
            id: "reporter".to_string(),
            state: vec![
                ("case_id".to_string(), 8),
                ("detail".to_string(), 0),
                ("reserved".to_string(), 0),
                ("status".to_string(), 0),
            ],
        },
        DeviceState { id: "high-rom".to_string(), state: vec![("word".to_string(), 9)] },
    ];
    let result = run_bus_case(&case).unwrap();
    assert_eq!(result.result, "fail");
    assert_eq!(result.mismatches.len(), 1);
    assert_eq!(result.mismatches[0].path, "devices.reporter.case_id");
    assert!(matches!(result.mismatches[0].actual, JsonValue::Number(7)));
}

#[test]
fn invalid_bus_case_is_an_error() {
    let case = bus_case(
        vec![Transaction { operation: "read".to_string(), address: 0, width: 32, value: None }],
        Vec::new(),
    );
    assert_eq!(run_bus_case(&case).unwrap_err(), "transaction and expected transaction counts differ");
}

#[test]
fn register_names_are_checked() {
    assert_eq!(register_index("r15"), Ok(15));
    assert_eq!(register_index("r+3"), Ok(3));
    assert_eq!(register_index("r16"), Err("invalid register name `r16`".to_string()));
    assert_eq!(register_index("x1"), Err("invalid register name `x1`".to_string()));
    assert_eq!(
        validate_registers(&[("r0".to_string(), 1)]),
        Err("invalid register assignment `r0`".to_string())
    );
    assert_eq!(
        validate_registers(&[("r16".to_string(), 1)]),
        Err("invalid register assignment `r16`".to_string())
    );
    assert_eq!(
        validate_registers(&[("r99999999999999999999999".to_string(), 1)]),
        Err("invalid register name `r99999999999999999999999`".to_string())
    );
    assert_eq!(validate_registers(&[("r1".to_string(), 1)]), Ok(()));
}

#[test]
fn device_states_are_checked() {
    let reporter = |reserved: u32| DeviceState {
        id: "reporter".to_string(),
        state: vec![
            ("case_id".to_string(), 0),
            ("detail".to_string(), 0),
            ("reserved".to_string(), reserved),
            ("status".to_string(), 0),
        ],
    };
    assert_eq!(validate_devices(&[reporter(0)], true), Ok(()));
    assert_eq!(
        validate_devices(&[reporter(0)], false),
        Err("device state is only valid at Level 3 or in Bus cases".to_string())
    );
    assert_eq!(validate_devices(&[reporter(1)], true), Err("reporter reserved state must be zero".to_string()));
    assert_eq!(
        validate_devices(&[reporter(0), reporter(0)], true),
        Err("duplicate device `reporter`".to_string())
    );
    let odd = DeviceState { id: "uart".to_string(), state: Vec::new() };
    assert_eq!(validate_devices(&[odd], true), Err("unknown device `uart`".to_string()));
    let partial = DeviceState { id: "high-rom".to_string(), state: Vec::new() };
    assert_eq!(
        validate_devices(&[partial], true),
        Err("invalid state fields for device `high-rom`".to_string())
    );
}

#[test]
fn transactions_are_checked() {
    let t = |op: &str, width: u8, value: Option<u32>| Transaction { operation: op.to_string(), address: 0, width, value };
    assert_eq!(validate_transaction(&t("read", 8, None)), Ok(()));
    assert_eq!(validate_transaction(&t("write", 16, Some(1))), Ok(()));
    assert_eq!(validate_transaction(&t("read", 24, None)), Err("transaction width must be 8, 16, or 32".to_string()));
    assert_eq!(
        validate_transaction(&t("read", 8, Some(1))),
        Err("read must omit value and write must include value".to_string())
    );
}

#[test]
fn case_binary_paths_stay_inside() {
    assert_eq!(safe_case_file("cases/cpu/add", "program.bin"), Ok("cases/cpu/add/program.bin".to_string()));
    assert_eq!(safe_case_file("cases/", "a/b.bin"), Ok("cases/a/b.bin".to_string()));
    assert_eq!(safe_case_file("", "b.bin"), Ok("b.bin".to_string()));
    let refused = Err("binary path must stay inside the case directory".to_string());
    assert_eq!(safe_case_file("cases", "../b.bin"), refused);
    assert_eq!(safe_case_file("cases", "/b.bin"), refused);
    assert_eq!(safe_case_file("cases", "a/.."), refused);
    assert_eq!(safe_case_file("cases", "a..b/c.bin"), Ok("cases/a..b/c.bin".to_string()));
}

#[test]
fn summary_counts_results_by_tag() {
    let results = vec![
        CaseResult::finished("cpu", "A".to_string(), Some(1), Vec::new()),
        CaseResult::error("bus", "b/case.toml".to_string(), "bad".to_string()),
        CaseResult::finished("bus", "B".to_string(), None, Vec::new()),
    ];
    let s = Summary::from_results(&results);
    assert_eq!(s, Summary { total: 3, passed: 2, failed: 0, errors: 1 });
    assert_eq!(s.passed + s.failed + s.errors, s.total);
}

fn one_read() -> Vec<Transaction> {
    vec![Transaction { operation: "read".to_string(), address: 0, width: 32, value: None }]
}

#[test]
fn bus_case_id_must_be_a_plain_ascii_identifier() {
    for id in ["bad id", "tab\tid", "ÉCLAIR", ""] {
        let mut case = bus_case(one_read(), vec![ExpectedTransaction { result: "ok".to_string(), value: Some(0) }]);
        case.id = id.to_string();
        assert_eq!(run_bus_case(&case).unwrap_err(), "invalid Bus case header or empty transaction list");
    }
}

#[test]
fn cpu_case_id_must_be_a_plain_ascii_identifier() {
    let mut case = cpu_case("steps", Some(1), 1, expected(termination("steps"), None));
    case.id = "CPU TEST".to_string();
    assert_eq!(run_cpu_case(&case, &binary("NOP")).unwrap_err(), "invalid CPU case header");
}

#[test]
fn overlapping_initial_memory_is_an_error() {
    let mut case = bus_case(one_read(), vec![ExpectedTransaction { result: "ok".to_string(), value: Some(0) }]);
    case.initial.memory = vec![
        MemoryRange { address: 0x100, bytes: vec![1, 2, 3, 4] },
        MemoryRange { address: 0x103, bytes: vec![5] },
    ];
    assert_eq!(run_bus_case(&case).unwrap_err(), "initial memory ranges must not overlap");
    case.initial.memory[1].address = 0x104;
    assert_eq!(run_bus_case(&case).unwrap().result, "pass");
}

#[test]
fn memory_patch_over_the_binary_is_an_error() {
    let mut case = cpu_case("steps", Some(1), 1, expected(termination("steps"), None));
    case.initial.memory = vec![MemoryRange { address: 2, bytes: vec![0] }];
    assert_eq!(run_cpu_case(&case, &binary("NOP")).unwrap_err(), "initial memory patch overlaps the binary image");
    case.initial.memory[0].address = 4;
    assert!(run_cpu_case(&case, &binary("NOP")).is_ok());
}

#[test]
fn expected_transactions_are_checked() {
    let read = Transaction { operation: "read".to_string(), address: 0, width: 8, value: None };
    let write = Transaction { operation: "write".to_string(), address: 0, width: 8, value: Some(1) };
    let e = |result: &str, value: Option<u32>| ExpectedTransaction { result: result.to_string(), value };
    assert_eq!(validate_expected_transaction(&read, &e("ok", Some(0))), Ok(()));
    assert_eq!(validate_expected_transaction(&read, &e("fault", None)), Ok(()));
    assert_eq!(validate_expected_transaction(&write, &e("ok", None)), Ok(()));
    let wrong_value = Err("expected value must be given exactly for a successful read".to_string());
    assert_eq!(validate_expected_transaction(&read, &e("ok", None)), wrong_value);
    assert_eq!(validate_expected_transaction(&read, &e("fault", Some(0))), wrong_value);
    assert_eq!(validate_expected_transaction(&write, &e("ok", Some(1))), wrong_value);
    assert_eq!(
        validate_expected_transaction(&read, &e("error", None)),
        Err("expected transaction result must be ok or fault".to_string())
    );
    let case = bus_case(one_read(), vec![e("maybe", None)]);
    assert_eq!(run_bus_case(&case).unwrap_err(), "expected transaction result must be ok or fault");
}

#[test]
fn case_maps_hold_each_key_once_in_order() {
    let m = |keys: &[&str]| keys.iter().map(|k| (k.to_string(), 0u32)).collect::<Vec<_>>();
    assert!(ordered_map(&m(&[])));
    assert!(ordered_map(&m(&["r1", "r10", "r2"])));
    assert!(!ordered_map(&m(&["r2", "r1"])));
    assert!(!ordered_map(&m(&["r1", "r1"])));
    let mut case = cpu_case("steps", Some(1), 1, expected(termination("steps"), None));
    assert!(cpu_case_maps_ordered(&case));
    case.initial.registers = m(&["r3", "r2"]);
    assert!(!cpu_case_maps_ordered(&case));
    let mut bus = bus_case(one_read(), vec![ExpectedTransaction { result: "ok".to_string(), value: Some(0) }]);
    assert!(bus_case_maps_ordered(&bus));
    bus.expected.devices = vec![DeviceState { id: "high-rom".to_string(), state: m(&["word", "word"]) }];
    assert!(!bus_case_maps_ordered(&bus));
}
