//! Running a test program on the CPU test machine from the command line: the arguments,
//! the program image, the run and how its outcome and debug output are reported.
use vstd::prelude::*;
use vstd::utf8::{decode_utf8, encode_utf8, valid_utf8};

use crate::assembly::{char_views, error_message};
use crate::bus::AccessWidth;
use crate::chars::str_chars;
use crate::coverage::{extension, last_normal, segments};
use crate::cpu::{AccessOperation, Fault, FaultCode, fault_code, reset_view};
use crate::debug_io::DebugIoView;
use crate::ram::byte_of;
use crate::test_machine::{
    MachineStatus, RAM_SIZE, TestRunnerMachine, lemma_test_layout_determined, run_outcome,
    test_debug, test_devices, test_output, test_ram, test_reporter,
};
use crate::test_reporter::ReporterState;
use crate::text::{decimal, push_decimal, push_str};
use crate::validate::{parse_usize, parse_usize_exec};

verus! {

/// Steps a program may run when `--max-steps` is not given.
pub const DEFAULT_MAX_STEPS: usize = 100_000;

/// The usage text of the program runner invoked as `bin_name`.
pub open spec fn usage_text(bin_name: Seq<char>) -> Seq<char> {
    "Usage:\n  "@ + bin_name + " <input.asm|input.bin> [--max-steps N]\n  "@ + bin_name + " help"@
}

/// The usage text of the program runner invoked as `bin_name`.
pub fn usage(bin_name: &str) -> (r: String)
    ensures
        r@ == usage_text(bin_name@),
{
    let mut v: Vec<char> = Vec::new();
    push_str(&mut v, "Usage:\n  ");
    push_str(&mut v, bin_name);
    push_str(&mut v, " <input.asm|input.bin> [--max-steps N]\n  ");
    push_str(&mut v, bin_name);
    push_str(&mut v, " help");
    assert(v@ =~= usage_text(bin_name@));
    crate::chars::chars_to_string(v.as_slice())
}

/// The step limit that the options `rest` set, starting from `current`: `--max-steps N`
/// sets it (the last one counts); a missing value or any other option is refused.
pub open spec fn options_outcome(rest: Seq<Seq<char>>, current: nat) -> Result<nat, Seq<char>>
    decreases rest.len(),
{
    if rest.len() == 0 {
        Ok(current)
    } else if rest[0] != "--max-steps"@ || rest.len() < 2 {
        Err(usage_text("cpu-tester"@))
    } else {
        match parse_usize(rest[1]) {
            None => Err("invalid step count `"@ + rest[1] + "`"@),
            Some(n) => options_outcome(rest.skip(2), n),
        }
    }
}

/// The input path and step limit of the arguments `args`, or the message that refuses them.
pub open spec fn args_outcome(args: Seq<Seq<char>>) -> Result<(Seq<char>, nat), Seq<char>> {
    if args.len() == 0 {
        Err(usage_text("cpu-tester"@))
    } else {
        match options_outcome(args.drop_first(), DEFAULT_MAX_STEPS as nat) {
            Ok(n) => Ok((args[0], n)),
            Err(m) => Err(m),
        }
    }
}

/// Reads the arguments: an input path, then optionally `--max-steps N`.
pub fn parse_args(args: &[String]) -> (r: Result<(String, usize), String>)
    ensures
        match args_outcome(args@.map_values(|a: String| a@)) {
            Ok((input, n)) => r matches Ok((x, m)) && x@ == input && m == n,
            Err(msg) => r matches Err(x) && x@ == msg,
        },
{
    let ghost av = args@.map_values(|a: String| a@);
    if args.len() == 0 {
        return Err(usage("cpu-tester"));
    }
    let input = args[0].clone();
    let mut max_steps: usize = DEFAULT_MAX_STEPS;
    let mut k: usize = 1;
    assert(av.drop_first() =~= av.skip(1));
    while k < args.len()
        invariant
            1 <= k <= args@.len(),
            av == args@.map_values(|a: String| a@),
            options_outcome(av.drop_first(), DEFAULT_MAX_STEPS as nat) == options_outcome(av.skip(k as int), max_steps as nat),
        decreases args@.len() - k,
    {
        let ghost rest = av.skip(k as int);
        assert(rest[0] == args@[k as int]@);
        if !crate::text::str_eq(args[k].as_str(), "--max-steps") || k + 1 >= args.len() {
            return Err(usage("cpu-tester"));
        }
        assert(rest[1] == args@[k + 1]@);
        let value = args[k + 1].as_str();
        match parse_usize_exec(str_chars(value).as_slice()) {
            None => return Err(crate::text::concat3("invalid step count `", value, "`")),
            Some(n) => {
                max_steps = n;
            },
        }
        assert(rest.skip(2) =~= av.skip(k + 2));
        k = k + 2;
    }
    assert(av.skip(k as int) =~= Seq::<Seq<char>>::empty());
    Ok((input, max_steps))
}

/// Whether an input path names a binary image: its file name has the extension `bin`, in
/// any case.
pub open spec fn is_binary_path(input: Seq<char>) -> bool {
    match last_normal(segments(input)) {
        Some(name) => match extension(name) {
            Some(ext) => ext.len() == 3 && crate::coverage::lower(ext[0]) == 'b'
                && crate::coverage::lower(ext[1]) == 'i' && crate::coverage::lower(ext[2]) == 'n',
            None => false,
        },
        None => false,
    }
}

/// Whether the input path `input` names a binary image.
pub fn is_binary_input(input: &str) -> (b: bool)
    ensures
        b == is_binary_path(input@),
{
    let chars = str_chars(input);
    match crate::coverage::file_extension(chars.as_slice()) {
        Some(ext) => ext.len() == 3 && lower_char(ext[0]) == 'b' && lower_char(ext[1]) == 'i' && lower_char(ext[2]) == 'n',
        None => false,
    }
}

fn lower_char(c: char) -> (r: char)
    ensures
        r == crate::coverage::lower(c),
{
    if 'A' <= c && c <= 'Z' {
        ((c as u8) + 32) as char
    } else {
        c
    }
}

/// The little-endian words of `bytes`, four bytes each.
pub open spec fn le_words(bytes: Seq<u8>) -> Seq<u32> {
    Seq::new(bytes.len() / 4, |i: int| (bytes[4 * i] as int + bytes[4 * i + 1] as int * 0x100
        + bytes[4 * i + 2] as int * 0x1_0000 + bytes[4 * i + 3] as int * 0x100_0000) as u32)
}

/// Reading the little-endian bytes of an assembled program back as words gives the
/// program's words.
pub proof fn lemma_program_bytes_read_back(words: Seq<u32>)
    ensures
        le_words(crate::assembly::le_bytes(words)) == words,
{
    let b = crate::assembly::le_bytes(words);
    assert forall|i: int| 0 <= i < words.len() implies #[trigger] le_words(b)[i] == words[i] by {
        crate::ram::lemma_bytes_recombine(words[i]);
        assert((4 * i) / 4 == i && (4 * i) % 4 == 0);
        assert((4 * i + 1) / 4 == i && (4 * i + 1) % 4 == 1);
        assert((4 * i + 2) / 4 == i && (4 * i + 2) % 4 == 2);
        assert((4 * i + 3) / 4 == i && (4 * i + 3) % 4 == 3);
    }
    assert(le_words(b) =~= words);
}

/// The words of a binary image read from `input`; its length must be a multiple of four.
pub fn words_from_bytes(input: &str, bytes: &[u8]) -> (r: Result<Vec<u32>, String>)
    ensures
        r is Ok <==> bytes@.len() % 4 == 0,
        r matches Ok(w) ==> w@ == le_words(bytes@),
        r matches Err(m) ==> m@ == "binary input `"@ + input@ + "` has invalid length "@ + decimal(bytes@.len())
            + "; expected a multiple of 4 bytes"@,
{
    if bytes.len() % 4 != 0 {
        let mut v: Vec<char> = Vec::new();
        push_str(&mut v, "binary input `");
        push_str(&mut v, input);
        push_str(&mut v, "` has invalid length ");
        push_decimal(&mut v, bytes.len() as u64);
        push_str(&mut v, "; expected a multiple of 4 bytes");
        return Err(crate::chars::chars_to_string(v.as_slice()));
    }
    let mut words: Vec<u32> = Vec::new();
    let mut i: usize = 0;
    while i < bytes.len() / 4
        invariant
            i <= bytes@.len() / 4,
            words@ == le_words(bytes@).take(i as int),
        decreases bytes@.len() / 4 - i,
    {
        let w: u32 = bytes[4 * i] as u32 + bytes[4 * i + 1] as u32 * 0x100 + bytes[4 * i + 2] as u32 * 0x1_0000
            + bytes[4 * i + 3] as u32 * 0x100_0000;
        words.push(w);
        i = i + 1;
        assert(words@ =~= le_words(bytes@).take(i as int));
    }
    assert(le_words(bytes@).take(i as int) =~= le_words(bytes@));
    Ok(words)
}

/// The text of a width as `Debug` writes it.
pub open spec fn width_debug(w: AccessWidth) -> Seq<char> {
    match w {
        AccessWidth::Byte => "Byte"@,
        AccessWidth::Half => "Half"@,
        AccessWidth::Word => "Word"@,
    }
}

/// The text of an access operation as `Debug` writes it.
pub open spec fn operation_debug(op: AccessOperation) -> Seq<char> {
    match op {
        AccessOperation::Fetch => "Fetch"@,
        AccessOperation::Load => "Load"@,
        AccessOperation::Store => "Store"@,
    }
}

/// The text of a fault code as `Debug` writes it.
pub open spec fn code_debug(c: FaultCode) -> Seq<char> {
    match c {
        FaultCode::InvalidInstruction => "InvalidInstruction"@,
        FaultCode::UnalignedAccess => "UnalignedAccess"@,
        FaultCode::UnalignedPc => "UnalignedPc"@,
        FaultCode::BusFault => "BusFault"@,
    }
}

/// The `Debug` text of a fault variant `name` with the fields of an access.
pub open spec fn access_fault_debug(name: Seq<char>, faulting_pc: u32, addr: u32, width: AccessWidth, operation: AccessOperation) -> Seq<char> {
    name + " { faulting_pc: "@ + decimal(faulting_pc as nat) + ", addr: "@ + decimal(addr as nat) + ", width: "@
        + width_debug(width) + ", operation: "@ + operation_debug(operation) + " }"@
}

/// The `Debug` text of an `UnalignedPc` fault.
pub open spec fn unaligned_pc_debug(faulting_pc: u32, addr: u32) -> Seq<char> {
    "UnalignedPc { faulting_pc: "@ + decimal(faulting_pc as nat) + ", addr: "@ + decimal(addr as nat) + " }"@
}

/// The `Debug` text of an `InvalidInstruction` fault.
pub open spec fn invalid_instruction_debug(faulting_pc: u32) -> Seq<char> {
    "InvalidInstruction { faulting_pc: "@ + decimal(faulting_pc as nat) + " }"@
}

/// The text of a fault as `Debug` writes it: the variant and its fields.
pub open spec fn fault_debug(f: Fault) -> Seq<char> {
    match f {
        Fault::InvalidInstruction { faulting_pc } => invalid_instruction_debug(faulting_pc),
        Fault::UnalignedAccess { faulting_pc, addr, width, operation } =>
            access_fault_debug("UnalignedAccess"@, faulting_pc, addr, width, operation),
        Fault::UnalignedPc { faulting_pc, addr } => unaligned_pc_debug(faulting_pc, addr),
        Fault::BusFault { faulting_pc, addr, width, operation } =>
            access_fault_debug("BusFault"@, faulting_pc, addr, width, operation),
    }
}

fn width_text(w: AccessWidth) -> (s: &'static str)
    ensures
        s@ == width_debug(w),
{
    match w {
        AccessWidth::Byte => "Byte",
        AccessWidth::Half => "Half",
        AccessWidth::Word => "Word",
    }
}

fn operation_text(op: AccessOperation) -> (s: &'static str)
    ensures
        s@ == operation_debug(op),
{
    match op {
        AccessOperation::Fetch => "Fetch",
        AccessOperation::Load => "Load",
        AccessOperation::Store => "Store",
    }
}

fn code_text(c: FaultCode) -> (s: &'static str)
    ensures
        s@ == code_debug(c),
{
    match c {
        FaultCode::InvalidInstruction => "InvalidInstruction",
        FaultCode::UnalignedAccess => "UnalignedAccess",
        FaultCode::UnalignedPc => "UnalignedPc",
        FaultCode::BusFault => "BusFault",
    }
}

fn push_access(v: &mut Vec<char>, name: &str, faulting_pc: u32, addr: u32, width: AccessWidth, operation: AccessOperation)
    ensures
        final(v)@ == old(v)@ + access_fault_debug(name@, faulting_pc, addr, width, operation),
{
    let ghost start = v@;
    push_str(v, name);
    push_str(v, " { faulting_pc: ");
    push_decimal(v, faulting_pc as u64);
    push_str(v, ", addr: ");
    push_decimal(v, addr as u64);
    push_str(v, ", width: ");
    push_str(v, width_text(width));
    push_str(v, ", operation: ");
    push_str(v, operation_text(operation));
    push_str(v, " }");
    assert(v@ =~= start + access_fault_debug(name@, faulting_pc, addr, width, operation));
}

fn push_unaligned_pc(v: &mut Vec<char>, faulting_pc: u32, addr: u32)
    ensures
        final(v)@ == old(v)@ + unaligned_pc_debug(faulting_pc, addr),
{
    let ghost start = v@;
    push_str(v, "UnalignedPc { faulting_pc: ");
    push_decimal(v, faulting_pc as u64);
    push_str(v, ", addr: ");
    push_decimal(v, addr as u64);
    push_str(v, " }");
    assert(v@ =~= start + unaligned_pc_debug(faulting_pc, addr));
}

fn push_invalid_instruction(v: &mut Vec<char>, faulting_pc: u32)
    ensures
        final(v)@ == old(v)@ + invalid_instruction_debug(faulting_pc),
{
    let ghost start = v@;
    push_str(v, "InvalidInstruction { faulting_pc: ");
    push_decimal(v, faulting_pc as u64);
    push_str(v, " }");
    assert(v@ =~= start + invalid_instruction_debug(faulting_pc));
}

fn push_fault(v: &mut Vec<char>, f: Fault)
    ensures
        final(v)@ == old(v)@ + fault_debug(f),
{
    match f {
        Fault::InvalidInstruction { faulting_pc } => push_invalid_instruction(v, faulting_pc),
        Fault::UnalignedAccess { faulting_pc, addr, width, operation } =>
            push_access(v, "UnalignedAccess", faulting_pc, addr, width, operation),
        Fault::UnalignedPc { faulting_pc, addr } => push_unaligned_pc(v, faulting_pc, addr),
        Fault::BusFault { faulting_pc, addr, width, operation } =>
            push_access(v, "BusFault", faulting_pc, addr, width, operation),
    }
}

/// The message of a run that ends with `status` or a fault, after at most `max_steps`
/// steps: nothing for a pass.
pub open spec fn status_message(r: Result<MachineStatus, Fault>, max_steps: nat) -> Result<(), Seq<char>> {
    match r {
        Ok(MachineStatus::Passed) => Ok(()),
        Ok(MachineStatus::Failed { test_id, detail }) => Err("program reported FAIL: test_id="@ + decimal(test_id as nat)
            + " detail="@ + decimal(detail as nat)),
        Ok(MachineStatus::Running) => Err("step limit exceeded after "@ + decimal(max_steps) + " step(s)"@),
        Err(f) => Err("runtime fault: "@ + fault_debug(f) + " (code: "@ + code_debug(fault_code(f)) + ")"@),
    }
}

/// RAM holding `words` little-endian from address 0, zero after them.
pub open spec fn loaded_ram(words: Seq<u32>) -> Seq<u8> {
    Seq::new(RAM_SIZE as nat, |j: int| if j < 4 * words.len() { byte_of(words[j / 4], (j % 4) as nat) } else { 0u8 })
}

/// What running `words` for at most `max_steps` steps reports and what it writes to the
/// debug port: a program that does not fit in RAM is refused before it runs.
pub open spec fn program_outcome(words: Seq<u32>, max_steps: nat) -> (Result<(), Seq<char>>, Seq<u8>) {
    if words.len() > RAM_SIZE / 4 {
        (Err("failed to load program into RAM"@), Seq::empty())
    } else {
        let ms = test_devices(loaded_ram(words), DebugIoView { input: Seq::empty(), output: Seq::empty() },
            ReporterState { status: 0, case_id: 0, detail: 0, reserved: 0 });
        let (r, c, end) = run_outcome(reset_view(), ms, max_steps);
        (status_message(r, max_steps), test_output(end))
    }
}

/// Runs `words` on a fresh test machine for at most `max_steps` steps; returns the outcome
/// and the bytes the program wrote to the debug port.
pub fn run_program(words: &[u32], max_steps: usize) -> (r: (Result<(), String>, Vec<u8>))
    ensures
        (match r.0 {
            Ok(()) => Ok::<(), Seq<char>>(()),
            Err(m) => Err(m@),
        }, r.1@) == program_outcome(words@, max_steps as nat),
{
    let mut machine = TestRunnerMachine::new();
    let ghost ram0 = test_ram(machine@.devices);
    if machine.load_words(words).is_err() {
        return (Err(crate::text::owned("failed to load program into RAM")), Vec::new());
    }
    proof {
        assert(test_ram(machine@.devices) =~= loaded_ram(words@));
        lemma_test_layout_determined(machine@.devices);
    }
    let result = machine.run_steps(max_steps);
    let output = machine.take_debug_output();
    let message = match result {
        Ok(MachineStatus::Passed) => Ok(()),
        Ok(MachineStatus::Failed { test_id, detail }) => {
            let mut v: Vec<char> = Vec::new();
            push_str(&mut v, "program reported FAIL: test_id=");
            push_decimal(&mut v, test_id as u64);
            push_str(&mut v, " detail=");
            push_decimal(&mut v, detail as u64);
            Err(crate::chars::chars_to_string(v.as_slice()))
        },
        Ok(MachineStatus::Running) => {
            let mut v: Vec<char> = Vec::new();
            push_str(&mut v, "step limit exceeded after ");
            push_decimal(&mut v, max_steps as u64);
            push_str(&mut v, " step(s)");
            Err(crate::chars::chars_to_string(v.as_slice()))
        },
        Err(fault) => {
            let mut v: Vec<char> = Vec::new();
            push_str(&mut v, "runtime fault: ");
            push_fault(&mut v, fault);
            push_str(&mut v, " (code: ");
            push_str(&mut v, code_text(fault.code()));
            push_str(&mut v, ")");
            Err(crate::chars::chars_to_string(v.as_slice()))
        },
    };
    (message, output)
}

/// `std::str::from_utf8`: the text that `bytes` encode when they are valid UTF-8.
#[verifier::external_body]
fn utf8_text(bytes: &[u8]) -> (r: Option<String>)
    ensures
        r is Some <==> valid_utf8(bytes@),
        r matches Some(s) ==> encode_utf8(s@) == bytes@,
{
    match std::str::from_utf8(bytes) {
        Ok(text) => Some(text.to_string()),
        Err(_) => None,
    }
}

/// Upper-case hexadecimal digit.
pub open spec fn hex_digit(d: nat) -> char {
    if d < 10 { crate::text::digit_char(d) } else if d == 10 { 'A' } else if d == 11 { 'B' } else if d == 12 { 'C' }
    else if d == 13 { 'D' } else if d == 14 { 'E' } else { 'F' }
}

/// The bytes as two upper-case hexadecimal digits each, separated by spaces.
pub open spec fn hex_bytes(b: Seq<u8>) -> Seq<char>
    decreases b.len(),
{
    if b.len() == 0 {
        Seq::empty()
    } else if b.len() == 1 {
        seq![hex_digit((b[0] / 16) as nat), hex_digit((b[0] % 16) as nat)]
    } else {
        hex_bytes(b.drop_last()) + seq![' ', hex_digit((b.last() / 16) as nat), hex_digit((b.last() % 16) as nat)]
    }
}

fn hex_digit_exec(d: u8) -> (c: char)
    requires
        d < 16,
    ensures
        c == hex_digit(d as nat),
{
    if d == 0 { '0' } else if d == 1 { '1' } else if d == 2 { '2' } else if d == 3 { '3' }
    else if d == 4 { '4' } else if d == 5 { '5' } else if d == 6 { '6' } else if d == 7 { '7' }
    else if d == 8 { '8' } else if d == 9 { '9' } else if d == 10 { 'A' } else if d == 11 { 'B' }
    else if d == 12 { 'C' } else if d == 13 { 'D' } else if d == 14 { 'E' } else { 'F' }
}

/// Shows debug output: its text when it is valid UTF-8, else its bytes in hexadecimal.
pub fn render_debug_output(output: &[u8]) -> (r: String)
    ensures
        valid_utf8(output@) ==> encode_utf8(r@) == output@,
        !valid_utf8(output@) ==> r@ == "DebugIo output (hex): "@ + hex_bytes(output@) + "\n"@,
{
    match utf8_text(output) {
        Some(text) => text,
        None => {
            let mut v: Vec<char> = Vec::new();
            push_str(&mut v, "DebugIo output (hex): ");
            let ghost head = v@;
            let mut k: usize = 0;
            assert(output@.take(0) =~= Seq::<u8>::empty());
            while k < output.len()
                invariant
                    k <= output@.len(),
                    v@ == head + hex_bytes(output@.take(k as int)),
                decreases output@.len() - k,
            {
                assert(output@.take(k + 1).drop_last() =~= output@.take(k as int));
                if k > 0 {
                    v.push(' ');
                }
                let b = output[k];
                v.push(hex_digit_exec(b / 16));
                v.push(hex_digit_exec(b % 16));
                k = k + 1;
                proof {
                    if k == 1 {
                        assert(output@.take(1).len() == 1);
                    }
                }
                assert(v@ =~= head + hex_bytes(output@.take(k as int)));
            }
            assert(output@.take(k as int) =~= output@);
            push_str(&mut v, "\n");
            crate::chars::chars_to_string(v.as_slice())
        },
    }
}

/// The message of a program that does not assemble, read from `input`.
pub fn assembly_failure(input: &str, error: &crate::assembly::AssemblerError) -> (r: String)
    ensures
        r@ == "assembly failed for `"@ + input@ + "`: "@ + error_message(error@),
{
    let mut v: Vec<char> = Vec::new();
    push_str(&mut v, "assembly failed for `");
    push_str(&mut v, input);
    push_str(&mut v, "`: ");
    push_str(&mut v, error.message().as_str());
    assert(v@ =~= "assembly failed for `"@ + input@ + "`: "@ + error_message(error@));
    crate::chars::chars_to_string(v.as_slice())
}

} // verus!
