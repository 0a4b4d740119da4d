# kagura

The Kagura virtual machine, its devices and machines, the Kagura assembler, the
conformance-case runner and the coverage checks of the conformance suite, written in
Verus: every function under `src/` carries a contract that Verus proves, except the few
that call into std or the toml crate (`chars_to_string`, `utf8_text`, `parse_toml` and its
value conversion), whose contracts are trusted and say so in their doc comments.

## Layout

- `src/cpu.rs`, `src/bus.rs`, `src/device.rs`: the CPU (decode and step) and the
  bus with its address map; faults leave CPU and devices as they were.
- `src/ram.rs`, `src/debug_io.rs`, `src/test_reporter.rs`, `src/high_test_rom.rs`,
  `src/machine_device.rs`: the devices, each with a mathematical model of its state.
- `src/test_machine.rs`, `src/conformance_machine.rs`: the two fixed machines.
- `src/assembly.rs`: the two-pass assembler, with laws on encoding, labels and
  pseudo-instructions.
- `src/model.rs`, `src/validate.rs`, `src/runner.rs`, `src/report.rs`: conformance
  cases, their validation, their execution and the comparison of outcomes.
- `src/coverage.rs`: requirement and case identifiers, Markdown heading anchors, the
  parse of case and fragment texts, and the checks of coverage fragments against cases
  and specification documents.
- `src/cpu_tester.rs`, `src/cli.rs`, `src/assemble_command.rs`: the decisions of the
  command-line tools (arguments, messages, exit codes).
- `app/`: the command-line program around the library: directory listing, file reading,
  case files read into the runner's types through serde, JSON output, printing.
- `tests/`: tests of the library on concrete values.
