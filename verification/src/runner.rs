//! Running conformance cases on the reference conformance machine: set up the initial
//! state, run the CPU (or apply the direct bus transactions) and compare what happened with
//! what the case expects.
use vstd::prelude::*;

use crate::conformance_machine::{
    BusEvent as TraceEvent, ConformanceMachine, HIGH_ROM_BASE, MachineView, RAM_BASE, RAM_SIZE,
    TracingBus, TracingView, conformance_layout, layout_devices, lemma_layout_determined,
    lemma_step_keeps_layout, perform_outcome, ram_of, reporter_of, rom_of, transaction_accepted,
};
use crate::cpu::{CpuView, Fault, advance, commit, reset_view, step_outcome};
use crate::bus::AccessWidth;
use crate::cpu::AccessOperation;
use crate::model::{
    BusCase, BusEvent, CpuCase, DeviceState, ExpectedTermination, ExpectedTransaction, Initial,
    MemoryRange, Transaction,
};
use crate::machine_device::MachineDeviceView;
use crate::bus::MappingView;
use crate::report::{
    CaseResult, Mismatch, MismatchView, JsonValue, JsonValueView, check, compare_option, compare_value,
    is_finished, mismatch_views, opt_number, opt_text,
};
use crate::text::{decimal, push_decimal, push_str};
use crate::test_reporter::ReporterState;
use crate::text::str_eq;
use crate::validate::{
    cpu_case_check, bus_case_check, device_error, devices_check, devices_from, expected_fields,
    has_key, initial_check, lookup_key, range_fits, ranges_fit, register_index, register_number,
    registers_check, state_get, transaction_error, transactions_from, ranges_disjoint, ranges_overlap,
};

verus! {

// ---------------------------------------------------------------------------------------
// Facts that validation gives the runner.

/// A device whose state has exactly the fields of a known device.
pub open spec fn fields_ok(d: DeviceState) -> bool {
    match expected_fields(d.id@) {
        Some(fields) => forall|f: int| 0 <= f < fields.len() ==> has_key(d.state@, #[trigger] fields[f]),
        None => false,
    }
}

/// Every device of `ds` has exactly the fields of a known device.
pub open spec fn all_fields_ok(ds: Seq<DeviceState>) -> bool {
    forall|i: int| 0 <= i < ds.len() ==> fields_ok(#[trigger] ds[i])
}

/// Every register name of `regs` is `r0` to `r15`.
pub open spec fn registers_ok(regs: Seq<(String, u32)>) -> bool {
    forall|i: int| 0 <= i < regs.len() ==> (register_number((#[trigger] regs[i]).0@) matches Some(n) && n < 16)
}

proof fn lemma_devices_from_ok(ds: Seq<DeviceState>, k: int)
    requires
        0 <= k <= ds.len(),
        devices_from(ds, k) is Ok,
    ensures
        forall|i: int| k <= i < ds.len() ==> fields_ok(#[trigger] ds[i]),
    decreases ds.len() - k,
{
    if k < ds.len() {
        lemma_devices_from_ok(ds, k + 1);
        assert(device_error(ds[k], ds.take(k)) is None);
        let d = ds[k];
        if !(exists|j: int| 0 <= j < ds.take(k).len() && (#[trigger] ds.take(k)[j]).id@ == d.id@) {
            match expected_fields(d.id@) {
                Some(fields) => {
                    assert(!(exists|f: int| 0 <= f < fields.len() && !has_key(d.state@, #[trigger] fields[f])));
                },
                None => {},
            }
        }
    }
}

/// A valid device list has only known devices with all their fields.
pub proof fn lemma_devices_check_ok(ds: Seq<DeviceState>, allow: bool)
    requires
        devices_check(ds, allow) is Ok,
    ensures
        all_fields_ok(ds),
{
    lemma_devices_from_ok(ds, 0);
}

/// A valid register table names only `r0` to `r15`.
pub proof fn lemma_registers_check_ok(regs: Seq<(String, u32)>)
    requires
        registers_check(regs) is Ok,
    ensures
        registers_ok(regs),
    decreases regs.len(),
{
    if regs.len() > 0 {
        lemma_registers_check_ok(regs.drop_first());
        assert forall|i: int| 0 <= i < regs.len() implies (register_number((#[trigger] regs[i]).0@) matches Some(n) && n < 16) by {
            if i > 0 {
                assert(regs[i] == regs.drop_first()[i - 1]);
            }
        }
    }
}

proof fn lemma_lookup_present(state: Seq<(String, u32)>, key: Seq<char>)
    requires
        has_key(state, key),
    ensures
        lookup_key(state, key) is Some,
    decreases state.len(),
{
    if state[0].0@ != key {
        let i = choose|i: int| 0 <= i < state.len() && (#[trigger] state[i]).0@ == key;
        assert(state.drop_first()[i - 1] == state[i]);
        lemma_lookup_present(state.drop_first(), key);
    }
}

// ---------------------------------------------------------------------------------------
// The state a case starts from.

/// Test RAM right after the machine is made: all zero.
pub open spec fn zero_ram() -> Seq<u8> {
    Seq::new(RAM_SIZE as nat, |i: int| 0u8)
}

/// The Reporter right after the machine is made: all registers zero.
pub open spec fn zero_reporter() -> ReporterState {
    ReporterState { status: 0, case_id: 0, detail: 0, reserved: 0 }
}

/// `ram` with the bytes of `r` copied to its address.
pub open spec fn patch(ram: Seq<u8>, r: MemoryRange) -> Seq<u8> {
    ram.take(r.address as int) + r.bytes@ + ram.skip(r.address + r.bytes@.len())
}

/// `ram` with the ranges copied in order.
pub open spec fn patched(ram: Seq<u8>, ranges: Seq<MemoryRange>) -> Seq<u8>
    decreases ranges.len(),
{
    if ranges.len() == 0 {
        ram
    } else {
        patched(patch(ram, ranges[0]), ranges.drop_first())
    }
}

/// The value of field `key` of a device state that has it.
pub open spec fn field(d: DeviceState, key: Seq<char>) -> u32 {
    lookup_key(d.state@, key)->0
}

/// Reporter registers and ROM word after restoring device `d`.
pub open spec fn restore_one(rep: ReporterState, rom: u32, d: DeviceState) -> (ReporterState, u32) {
    if d.id@ == "reporter"@ {
        (ReporterState {
            status: field(d, "status"@),
            case_id: field(d, "case_id"@),
            detail: field(d, "detail"@),
            reserved: field(d, "reserved"@),
        }, rom)
    } else {
        (rep, field(d, "word"@))
    }
}

/// Reporter registers and ROM word after restoring the devices in order.
pub open spec fn restored(rep: ReporterState, rom: u32, ds: Seq<DeviceState>) -> (ReporterState, u32)
    decreases ds.len(),
{
    if ds.len() == 0 {
        (rep, rom)
    } else {
        let (r, w) = restore_one(rep, rom, ds[0]);
        restored(r, w, ds.drop_first())
    }
}

/// CPU state after setting the registers of `regs` in order.
pub open spec fn with_registers(c: CpuView, regs: Seq<(String, u32)>) -> CpuView
    decreases regs.len(),
{
    if regs.len() == 0 {
        c
    } else {
        with_registers(commit(c, register_number(regs[0].0@)->0 as int, regs[0].1, c.pc), regs.drop_first())
    }
}

/// The little-endian word of four bytes.
pub open spec fn le_word(b: Seq<u8>) -> u32 {
    (b[0] as int + b[1] as int * 0x100 + b[2] as int * 0x1_0000 + b[3] as int * 0x100_0000) as u32
}

/// Whether a binary can be loaded at `load_address`: anything up to the size of Test RAM
/// at 0, exactly one word into the High Test ROM.
pub open spec fn image_fits(load_address: u32, binary: Seq<u8>) -> bool {
    if load_address == RAM_BASE {
        binary.len() <= RAM_SIZE
    } else {
        binary.len() == 4
    }
}

/// Whether an initial memory patch shares a byte with a binary of `len` bytes loaded into
/// Test RAM at `load_address` (a binary in the High Test ROM shares none).
pub open spec fn patch_over_image(load_address: u32, len: nat, patches: Seq<MemoryRange>) -> bool {
    load_address == RAM_BASE && exists|i: int| 0 <= i < patches.len() && (#[trigger] patches[i]).address < len
}

fn patch_over_image_exec(load_address: u32, len: usize, patches: &[MemoryRange]) -> (b: bool)
    ensures
        b == patch_over_image(load_address, len as nat, patches@),
{
    if load_address != RAM_BASE {
        return false;
    }
    let mut k: usize = 0;
    while k < patches.len()
        invariant
            k <= patches@.len(),
            load_address == RAM_BASE,
            forall|i: int| 0 <= i < k ==> (#[trigger] patches@[i]).address >= len,
        decreases patches@.len() - k,
    {
        if (patches[k].address as usize) < len {
            assert(0 <= k < patches@.len() && patches@[k as int].address < len);
            return true;
        }
        k = k + 1;
    }
    false
}

/// The message for a binary that cannot be loaded at `load_address`.
pub open spec fn image_error(load_address: u32) -> Seq<char> {
    if load_address == RAM_BASE {
        "binary does not fit in Test RAM"@
    } else {
        "High Test ROM binary must be exactly four bytes"@
    }
}

/// A machine state with the given parts on the conformance address map.
pub open spec fn machine_state(cpu: CpuView, ram: Seq<u8>, rep: ReporterState, rom: u32, trace: Seq<TraceEvent>) -> MachineView {
    MachineView { cpu, bus: TracingView { devices: layout_devices(ram, rep, rom), trace } }
}

/// The state a CPU case starts from: the binary loaded, the initial memory and devices
/// set, then the initial pc and registers, with an empty trace.
pub open spec fn cpu_start(case: CpuCase, binary: Seq<u8>) -> MachineView {
    let ram0 = if case.image.load_address == RAM_BASE { binary + zero_ram().skip(binary.len() as int) } else { zero_ram() };
    let rom0 = if case.image.load_address == RAM_BASE { 0u32 } else { le_word(binary) };
    let ram1 = patched(ram0, case.initial.memory@);
    let (rep1, rom1) = restored(zero_reporter(), rom0, case.initial.devices@);
    let cpu1 = match case.initial.pc {
        Some(pc) => advance(reset_view(), pc),
        None => reset_view(),
    };
    machine_state(with_registers(cpu1, case.initial.registers@), ram1, rep1, rom1, Seq::empty())
}

/// The state a Bus case starts from: the initial memory and devices set on a fresh machine.
pub open spec fn bus_start(initial: Initial) -> MachineView {
    let (rep, rom) = restored(zero_reporter(), 0, initial.devices@);
    machine_state(reset_view(), patched(zero_ram(), initial.memory@), rep, rom, Seq::empty())
}

/// Whether byte `j` lies in one of the ranges.
pub open spec fn in_some_range(ranges: Seq<MemoryRange>, j: int) -> bool {
    exists|k: int| 0 <= k < ranges.len() && (#[trigger] ranges[k]).address <= j < ranges[k].address + ranges[k].bytes@.len()
}

proof fn lemma_patched_bytes(ram: Seq<u8>, ranges: Seq<MemoryRange>)
    requires
        forall|k: int| 0 <= k < ranges.len() ==> (#[trigger] ranges[k]).address + ranges[k].bytes@.len() <= ram.len(),
        ranges_disjoint(ranges),
    ensures
        patched(ram, ranges).len() == ram.len(),
        forall|k: int, i: int| 0 <= k < ranges.len() && 0 <= i < ranges[k].bytes@.len() ==>
            patched(ram, ranges)[ranges[k].address + i] == #[trigger] ranges[k].bytes@[i],
        forall|j: int| 0 <= j < ram.len() && !in_some_range(ranges, j) ==> #[trigger] patched(ram, ranges)[j] == ram[j],
    decreases ranges.len(),
{
    if ranges.len() > 0 {
        let r0 = ranges[0];
        let rest = ranges.drop_first();
        let ram1 = patch(ram, r0);
        assert(r0.address + r0.bytes@.len() <= ram.len());
        assert(ram1.len() == ram.len());
        assert forall|k: int| 0 <= k < rest.len() implies (#[trigger] rest[k]).address + rest[k].bytes@.len() <= ram1.len() by {
            assert(rest[k] == ranges[k + 1]);
        }
        assert forall|a: int, b: int| 0 <= a < b < rest.len() implies !ranges_overlap(#[trigger] rest[a], #[trigger] rest[b]) by {
            assert(rest[a] == ranges[a + 1] && rest[b] == ranges[b + 1]);
        }
        lemma_patched_bytes(ram1, rest);
        let p = patched(ram, ranges);
        assert(p == patched(ram1, rest));
        assert forall|k: int, i: int| 0 <= k < ranges.len() && 0 <= i < ranges[k].bytes@.len() implies
            p[ranges[k].address + i] == #[trigger] ranges[k].bytes@[i] by {
            if k > 0 {
                assert(ranges[k] == rest[k - 1]);
                assert(rest[k - 1].bytes@[i] == ranges[k].bytes@[i]);
            } else {
                let j = r0.address + i;
                if in_some_range(rest, j) {
                    let q = choose|q: int| 0 <= q < rest.len() && (#[trigger] rest[q]).address <= j < rest[q].address + rest[q].bytes@.len();
                    assert(rest[q] == ranges[q + 1]);
                    assert(!ranges_overlap(ranges[0], ranges[q + 1]));
                }
                assert(ram1[j] == r0.bytes@[i]);
            }
        }
        assert forall|j: int| 0 <= j < ram.len() && !in_some_range(ranges, j) implies #[trigger] p[j] == ram[j] by {
            if in_some_range(rest, j) {
                let q = choose|q: int| 0 <= q < rest.len() && (#[trigger] rest[q]).address <= j < rest[q].address + rest[q].bytes@.len();
                assert(rest[q] == ranges[q + 1]);
                assert(ranges[q + 1].address <= j < ranges[q + 1].address + ranges[q + 1].bytes@.len());
            }
            if r0.address <= j < r0.address + r0.bytes@.len() {
                assert(ranges[0].address <= j < ranges[0].address + ranges[0].bytes@.len());
            }
        }
    }
}

/// After a Bus case is set up, Test RAM holds the bytes of each initial memory range at
/// its address, and every other byte is 0.
pub proof fn lemma_bus_start_memory(initial: Initial)
    requires
        ranges_fit(initial.memory@),
        ranges_disjoint(initial.memory@),
    ensures
        ({
            let ram = ram_of(bus_start(initial).bus.devices);
            let ms = initial.memory@;
            &&& ram.len() == RAM_SIZE
            &&& forall|k: int, i: int| 0 <= k < ms.len() && 0 <= i < ms[k].bytes@.len() ==>
                ram[ms[k].address + i] == #[trigger] ms[k].bytes@[i]
            &&& forall|j: int| 0 <= j < RAM_SIZE && !in_some_range(ms, j) ==> #[trigger] ram[j] == 0
        }),
{
    let ms = initial.memory@;
    assert forall|k: int| 0 <= k < ms.len() implies (#[trigger] ms[k]).address + ms[k].bytes@.len() <= zero_ram().len() by {
        assert(range_fits(ms[k]));
    }
    lemma_patched_bytes(zero_ram(), ms);
}

/// After a CPU case is set up with a binary in Test RAM, Test RAM holds the binary from
/// address 0, the bytes of each initial memory range at its address, and 0 elsewhere.
pub proof fn lemma_cpu_start_memory(case: CpuCase, binary: Seq<u8>)
    requires
        case.image.load_address == RAM_BASE,
        binary.len() <= RAM_SIZE,
        ranges_fit(case.initial.memory@),
        ranges_disjoint(case.initial.memory@),
        !patch_over_image(case.image.load_address, binary.len(), case.initial.memory@),
    ensures
        ({
            let ram = ram_of(cpu_start(case, binary).bus.devices);
            let ms = case.initial.memory@;
            &&& ram.len() == RAM_SIZE
            &&& forall|i: int| 0 <= i < binary.len() ==> ram[i] == #[trigger] binary[i]
            &&& forall|k: int, i: int| 0 <= k < ms.len() && 0 <= i < ms[k].bytes@.len() ==>
                ram[ms[k].address + i] == #[trigger] ms[k].bytes@[i]
            &&& forall|j: int| binary.len() <= j < RAM_SIZE && !in_some_range(ms, j) ==> #[trigger] ram[j] == 0
        }),
{
    let ms = case.initial.memory@;
    let ram0 = binary + zero_ram().skip(binary.len() as int);
    assert(ram0.len() == RAM_SIZE);
    assert forall|k: int| 0 <= k < ms.len() implies (#[trigger] ms[k]).address + ms[k].bytes@.len() <= ram0.len() by {
        assert(range_fits(ms[k]));
    }
    lemma_patched_bytes(ram0, ms);
    let ram = patched(ram0, ms);
    assert forall|i: int| 0 <= i < binary.len() implies ram[i] == #[trigger] binary[i] by {
        if in_some_range(ms, i) {
            let q = choose|q: int| 0 <= q < ms.len() && (#[trigger] ms[q]).address <= i < ms[q].address + ms[q].bytes@.len();
            assert(ms[q].address < binary.len());
        }
        assert(ram0[i] == binary[i]);
    }
    assert forall|j: int| binary.len() <= j < RAM_SIZE && !in_some_range(ms, j) implies #[trigger] ram[j] == 0 by {
        assert(ram0[j] == zero_ram()[j]);
    }
}

fn restore_device(m: &mut ConformanceMachine, d: &DeviceState)
    requires
        old(m).wf(),
        fields_ok(*d),
    ensures
        final(m).wf(),
        (final(m)@.reporter(), final(m)@.rom()) == restore_one(old(m)@.reporter(), old(m)@.rom(), *d),
        final(m)@.ram() == old(m)@.ram(),
        final(m)@.cpu == old(m)@.cpu,
        final(m)@.bus.trace == old(m)@.bus.trace,
{
    proof {
        reveal_strlit("reporter");
        reveal_strlit("high-rom");
        assert("reporter"@[0] != "high-rom"@[0]);
    }
    let st = d.state.as_slice();
    if str_eq(d.id.as_str(), "reporter") {
        let ghost fs = expected_fields(d.id@)->0;
        proof {
            assert(fs == seq!["status"@, "case_id"@, "detail"@, "reserved"@]);
            assert(has_key(d.state@, fs[0]));
            assert(has_key(d.state@, fs[1]));
            assert(has_key(d.state@, fs[2]));
            assert(has_key(d.state@, fs[3]));
            lemma_lookup_present(d.state@, "status"@);
            lemma_lookup_present(d.state@, "case_id"@);
            lemma_lookup_present(d.state@, "detail"@);
            lemma_lookup_present(d.state@, "reserved"@);
        }
        let status = match state_get(st, "status") { Some(v) => v, None => 0 };
        let case_id = match state_get(st, "case_id") { Some(v) => v, None => 0 };
        let detail = match state_get(st, "detail") { Some(v) => v, None => 0 };
        let reserved = match state_get(st, "reserved") { Some(v) => v, None => 0 };
        m.restore_reporter(ReporterState { status, case_id, detail, reserved });
    } else {
        let ghost fs = expected_fields(d.id@)->0;
        proof {
            assert(fs == seq!["word"@]);
            assert(has_key(d.state@, fs[0]));
            lemma_lookup_present(d.state@, "word"@);
        }
        let word = match state_get(st, "word") { Some(v) => v, None => 0 };
        m.set_high_rom_word(word);
    }
}

fn setup_common(m: &mut ConformanceMachine, initial: &Initial)
    requires
        old(m).wf(),
        ranges_fit(initial.memory@),
        all_fields_ok(initial.devices@),
    ensures
        final(m).wf(),
        final(m)@.ram() == patched(old(m)@.ram(), initial.memory@),
        (final(m)@.reporter(), final(m)@.rom()) == restored(old(m)@.reporter(), old(m)@.rom(), initial.devices@),
        final(m)@.cpu == old(m)@.cpu,
        final(m)@.bus.trace == Seq::<TraceEvent>::empty(),
{
    let ghost ram0 = m@.ram();
    let mut k: usize = 0;
    assert(initial.memory@.skip(0) =~= initial.memory@);
    while k < initial.memory.len()
        invariant
            m.wf(),
            k <= initial.memory@.len(),
            ranges_fit(initial.memory@),
            patched(ram0, initial.memory@) == patched(m@.ram(), initial.memory@.skip(k as int)),
            m@.reporter() == old(m)@.reporter(),
            m@.rom() == old(m)@.rom(),
            m@.cpu == old(m)@.cpu,
            m@.ram().len() == RAM_SIZE,
        decreases initial.memory@.len() - k,
    {
        let r = &initial.memory[k];
        assert(range_fits(initial.memory@[k as int]));
        assert(initial.memory@.skip(k as int).drop_first() =~= initial.memory@.skip(k + 1));
        let _ = m.patch_memory(r.address, r.bytes.as_slice());
        k = k + 1;
    }
    assert(initial.memory@.skip(k as int) =~= Seq::<MemoryRange>::empty());
    let ghost rep0 = m@.reporter();
    let ghost rom0 = m@.rom();
    let mut k: usize = 0;
    assert(initial.devices@.skip(0) =~= initial.devices@);
    while k < initial.devices.len()
        invariant
            m.wf(),
            k <= initial.devices@.len(),
            all_fields_ok(initial.devices@),
            restored(rep0, rom0, initial.devices@) == restored(m@.reporter(), m@.rom(), initial.devices@.skip(k as int)),
            m@.ram() == patched(ram0, initial.memory@),
            m@.cpu == old(m)@.cpu,
        decreases initial.devices@.len() - k,
    {
        assert(fields_ok(initial.devices@[k as int]));
        assert(initial.devices@.skip(k as int).drop_first() =~= initial.devices@.skip(k + 1));
        restore_device(m, &initial.devices[k]);
        k = k + 1;
    }
    assert(initial.devices@.skip(k as int) =~= Seq::<DeviceState>::empty());
    m.clear_trace();
}

fn set_registers(m: &mut ConformanceMachine, regs: &[(String, u32)])
    requires
        old(m).wf(),
        registers_ok(regs@),
    ensures
        final(m).wf(),
        final(m)@.cpu == with_registers(old(m)@.cpu, regs@),
        final(m)@.bus == old(m)@.bus,
{
    let mut k: usize = 0;
    assert(regs@.skip(0) =~= regs@);
    while k < regs.len()
        invariant
            m.wf(),
            k <= regs@.len(),
            registers_ok(regs@),
            with_registers(old(m)@.cpu, regs@) == with_registers(m@.cpu, regs@.skip(k as int)),
            m@.bus == old(m)@.bus,
        decreases regs@.len() - k,
    {
        assert(regs@.skip(k as int).drop_first() =~= regs@.skip(k + 1));
        assert(register_number(regs@[k as int].0@) matches Some(n) && n < 16);
        let index = match register_index(regs[k].0.as_str()) {
            Ok(i) => i,
            Err(_) => 0,
        };
        m.set_reg(index, regs[k].1);
        k = k + 1;
    }
    assert(regs@.skip(k as int) =~= Seq::<(String, u32)>::empty());
}

/// Sets up a fresh machine for a valid CPU case. Fails, before any change, when the
/// binary does not fit where the case loads it.
fn setup_cpu(m: &mut ConformanceMachine, case: &CpuCase, binary: &[u8]) -> (r: Result<(), String>)
    requires
        old(m).wf(),
        cpu_case_check(*case) is Ok,
        old(m)@.ram() == zero_ram(),
        old(m)@.reporter() == zero_reporter(),
        old(m)@.rom() == 0,
        old(m)@.cpu == reset_view(),
    ensures
        final(m).wf(),
        r is Ok <==> image_fits(case.image.load_address, binary@),
        r matches Err(msg) ==> msg@ == image_error(case.image.load_address),
        r is Ok ==> final(m)@ == cpu_start(*case, binary@),
{
    proof {
        lemma_registers_check_ok(case.initial.registers@);
        lemma_devices_check_ok(case.initial.devices@, case.level == 3);
    }
    if case.image.load_address == RAM_BASE {
        if binary.len() > RAM_SIZE as usize {
            return Err(crate::text::owned("binary does not fit in Test RAM"));
        }
        let _ = m.load_ram(binary);
    } else {
        if binary.len() != 4 {
            return Err(crate::text::owned("High Test ROM binary must be exactly four bytes"));
        }
        let word: u32 = binary[0] as u32 + binary[1] as u32 * 0x100 + binary[2] as u32 * 0x1_0000 + binary[3] as u32 * 0x100_0000;
        m.set_high_rom_word(word);
    }
    setup_common(m, &case.initial);
    match case.initial.pc {
        Some(pc) => m.set_pc(pc),
        None => {},
    }
    set_registers(m, case.initial.registers.as_slice());
    m.clear_trace();
    proof {
        lemma_layout_determined(m@.bus.devices);
        assert(m@.bus.trace =~= Seq::<TraceEvent>::empty());
    }
    Ok(())
}

// ---------------------------------------------------------------------------------------
// Running a CPU case.

/// How a run ended: `kind` is `steps`, `fault`, `reporter` or `step_limit`; `retired` is
/// the number of instructions that completed.
#[derive(Debug, Clone, Copy)]
pub struct ActualTermination {
    pub kind: &'static str,
    pub retired: u64,
    pub fault: Option<Fault>,
    pub reporter: Option<ReporterState>,
}

/// The run reached the requested number of steps.
pub open spec fn ended_steps(retired: u64) -> ActualTermination {
    ActualTermination { kind: "steps", retired, fault: None, reporter: None }
}

/// The run stopped on a fault.
pub open spec fn ended_fault(retired: u64, f: Fault) -> ActualTermination {
    ActualTermination { kind: "fault", retired, fault: Some(f), reporter: None }
}

/// The run stopped because the Reporter status became nonzero.
pub open spec fn ended_reporter(retired: u64, r: ReporterState) -> ActualTermination {
    ActualTermination { kind: "reporter", retired, fault: None, reporter: Some(r) }
}

/// The run used up its step limit.
pub open spec fn ended_step_limit(retired: u64) -> ActualTermination {
    ActualTermination { kind: "step_limit", retired, fault: None, reporter: None }
}

impl ActualTermination {
    pub fn steps(retired: u64) -> (t: Self)
        ensures
            t == ended_steps(retired),
    {
        ActualTermination { kind: "steps", retired, fault: None, reporter: None }
    }

    pub fn fault(retired: u64, fault: Fault) -> (t: Self)
        ensures
            t == ended_fault(retired, fault),
    {
        ActualTermination { kind: "fault", retired, fault: Some(fault), reporter: None }
    }

    pub fn reporter(retired: u64, reporter: ReporterState) -> (t: Self)
        ensures
            t == ended_reporter(retired, reporter),
    {
        ActualTermination { kind: "reporter", retired, fault: None, reporter: Some(reporter) }
    }

    pub fn step_limit(retired: u64) -> (t: Self)
        ensures
            t == ended_step_limit(retired),
    {
        ActualTermination { kind: "step_limit", retired, fault: None, reporter: None }
    }
}

/// The rest of a run from state `v` after `retired` instructions: at most `max` in all,
/// stopping after a fault, when the Reporter status becomes nonzero, or after `stop`
/// instructions when that is given.
pub open spec fn run_from(v: MachineView, retired: nat, max: nat, stop: Option<u64>) -> (ActualTermination, MachineView)
    decreases max - retired,
{
    if retired >= max {
        (ended_step_limit(retired as u64), v)
    } else {
        let (r, c, b) = step_outcome::<TracingBus>(v.cpu, v.bus);
        let next = MachineView { cpu: c, bus: b };
        match r {
            Err(f) => (ended_fault(retired as u64, f), next),
            Ok(()) => if reporter_of(b.devices).status != 0 {
                (ended_reporter((retired + 1) as u64, reporter_of(b.devices)), next)
            } else if stop == Some((retired + 1) as u64) {
                (ended_steps((retired + 1) as u64), next)
            } else {
                run_from(next, retired + 1, max, stop)
            },
        }
    }
}

/// A run counts only the instructions that completed: the count it ends with is at least
/// the count it started from and never more than the step limit; a run that uses up the
/// limit ended with exactly that count.
pub proof fn lemma_run_bounds(v: MachineView, retired: nat, max: nat, stop: Option<u64>)
    requires
        retired <= max,
        max <= u64::MAX,
    ensures
        retired <= run_from(v, retired, max, stop).0.retired <= max,
        run_from(v, retired, max, stop).0.kind@ == "step_limit"@ ==> run_from(v, retired, max, stop).0.retired == max,
    decreases max - retired,
{
    reveal_strlit("step_limit");
    reveal_strlit("fault");
    reveal_strlit("reporter");
    reveal_strlit("steps");
    assert("fault"@[0] != "step_limit"@[0]);
    assert("reporter"@[0] != "step_limit"@[0]);
    assert("steps"@.len() != "step_limit"@.len());
    if retired < max {
        let (r, c, b) = step_outcome::<TracingBus>(v.cpu, v.bus);
        let next = MachineView { cpu: c, bus: b };
        if r is Ok && reporter_of(b.devices).status == 0 && stop != Some((retired + 1) as u64) {
            lemma_run_bounds(next, retired + 1, max, stop);
        }
    }
}

/// Where a CPU case stops on its own: after `steps` instructions for a `steps` case.
pub open spec fn stop_of(case: CpuCase) -> Option<u64> {
    if case.execution.until@ == "steps"@ { case.execution.steps } else { None }
}

/// Runs the CPU from its current state as the case's execution rule says.
fn execute(m: &mut ConformanceMachine, case: &CpuCase) -> (t: ActualTermination)
    requires
        old(m).wf(),
    ensures
        final(m).wf(),
        (t, final(m)@) == run_from(old(m)@, 0, case.execution.max_steps as nat, stop_of(*case)),
{
    let stop = if str_eq(case.execution.until.as_str(), "steps") { case.execution.steps } else { None };
    let max = case.execution.max_steps;
    let mut retired: u64 = 0;
    while retired < max
        invariant
            m.wf(),
            retired <= max,
            max == case.execution.max_steps,
            stop == stop_of(*case),
            run_from(old(m)@, 0, max as nat, stop) == run_from(m@, retired as nat, max as nat, stop),
        decreases max - retired,
    {
        let ghost before = m@;
        match m.step() {
            Ok(()) => {},
            Err(fault) => {
                return ActualTermination::fault(retired, fault);
            },
        }
        retired = retired + 1;
        let reporter = m.reporter();
        if reporter.status != 0 {
            return ActualTermination::reporter(retired, reporter);
        }
        if stop == Some(retired) {
            return ActualTermination::steps(retired);
        }
    }
    ActualTermination::step_limit(retired)
}


// ---------------------------------------------------------------------------------------
// Comparing what happened with what a case expects.

/// The path `prefix[index]suffix`.
pub open spec fn indexed(prefix: Seq<char>, index: nat, suffix: Seq<char>) -> Seq<char> {
    prefix + "["@ + decimal(index) + "]"@ + suffix
}

/// The path `a.b`.
pub open spec fn dotted(a: Seq<char>, b: Seq<char>) -> Seq<char> {
    a + "."@ + b
}

fn indexed_path(prefix: &str, index: usize, suffix: &str) -> (r: String)
    ensures
        r@ == indexed(prefix@, index as nat, suffix@),
{
    let mut v: Vec<char> = Vec::new();
    push_str(&mut v, prefix);
    push_str(&mut v, "[");
    push_decimal(&mut v, index as u64);
    push_str(&mut v, "]");
    push_str(&mut v, suffix);
    assert(v@ =~= indexed(prefix@, index as nat, suffix@));
    crate::chars::chars_to_string(v.as_slice())
}

fn dotted_path(a: &str, b: &str) -> (r: String)
    ensures
        r@ == dotted(a@, b@),
{
    crate::text::concat3(a, ".", b)
}

/// The value of an optional 32-bit number.
pub open spec fn opt_u32(v: Option<u32>) -> JsonValueView {
    match v {
        Some(n) => JsonValueView::Number(n as u64),
        None => JsonValueView::Null,
    }
}

/// The value of an optional 8-bit number.
pub open spec fn opt_u8(v: Option<u8>) -> JsonValueView {
    match v {
        Some(n) => JsonValueView::Number(n as u64),
        None => JsonValueView::Null,
    }
}

/// The value of an optional string.
pub open spec fn opt_string(v: Option<String>) -> JsonValueView {
    match v {
        Some(s) => JsonValueView::Text(s@),
        None => JsonValueView::Null,
    }
}

/// The value of an optional static string.
pub open spec fn opt_static(v: Option<&'static str>) -> JsonValueView {
    match v {
        Some(s) => JsonValueView::Text(s@),
        None => JsonValueView::Null,
    }
}

fn value_u32(v: Option<u32>) -> (r: JsonValue)
    ensures
        r@ == opt_u32(v),
{
    match v {
        Some(n) => JsonValue::Number(n as u64),
        None => JsonValue::Null,
    }
}

fn value_u8(v: Option<u8>) -> (r: JsonValue)
    ensures
        r@ == opt_u8(v),
{
    match v {
        Some(n) => JsonValue::Number(n as u64),
        None => JsonValue::Null,
    }
}

fn value_string(v: &Option<String>) -> (r: JsonValue)
    ensures
        r@ == opt_string(*v),
{
    match v {
        Some(s) => JsonValue::Text(s.clone()),
        None => JsonValue::Null,
    }
}

fn value_static(v: Option<&'static str>) -> (r: JsonValue)
    ensures
        r@ == opt_static(v),
{
    match v {
        Some(s) => JsonValue::text(s),
        None => JsonValue::Null,
    }
}

/// Width of an access in bits.
pub fn width_bits(width: AccessWidth) -> (b: u8)
    ensures
        b == crate::conformance_machine::width_code(width),
{
    match width {
        AccessWidth::Byte => 8,
        AccessWidth::Half => 16,
        AccessWidth::Word => 32,
    }
}

/// Name of the access that faulted.
pub open spec fn operation_text(op: AccessOperation) -> &'static str {
    match op {
        AccessOperation::Fetch => "fetch",
        AccessOperation::Load => "load",
        AccessOperation::Store => "store",
    }
}

pub fn operation_name(op: AccessOperation) -> (s: &'static str)
    ensures
        s == operation_text(op),
{
    match op {
        AccessOperation::Fetch => "fetch",
        AccessOperation::Load => "load",
        AccessOperation::Store => "store",
    }
}

/// What a fault reports: its name, faulting pc, and the address, width and operation of
/// the access when it has them.
pub open spec fn fault_report(f: Fault) -> (&'static str, u32, Option<u32>, Option<u8>, Option<&'static str>) {
    match f {
        Fault::InvalidInstruction { faulting_pc } => ("INVALID_INSTRUCTION", faulting_pc, None, None, None),
        Fault::UnalignedAccess { faulting_pc, addr, width, operation } =>
            ("UNALIGNED_ACCESS", faulting_pc, Some(addr), Some(crate::conformance_machine::width_code(width)), Some(operation_text(operation))),
        Fault::UnalignedPc { faulting_pc, addr } => ("UNALIGNED_PC", faulting_pc, Some(addr), None, None),
        Fault::BusFault { faulting_pc, addr, width, operation } =>
            ("BUS_FAULT", faulting_pc, Some(addr), Some(crate::conformance_machine::width_code(width)), Some(operation_text(operation))),
    }
}

pub fn fault_fields(fault: Fault) -> (r: (&'static str, u32, Option<u32>, Option<u8>, Option<&'static str>))
    ensures
        r == fault_report(fault),
{
    match fault {
        Fault::InvalidInstruction { faulting_pc } => ("INVALID_INSTRUCTION", faulting_pc, None, None, None),
        Fault::UnalignedAccess { faulting_pc, addr, width, operation } =>
            ("UNALIGNED_ACCESS", faulting_pc, Some(addr), Some(width_bits(width)), Some(operation_name(operation))),
        Fault::UnalignedPc { faulting_pc, addr } => ("UNALIGNED_PC", faulting_pc, Some(addr), None, None),
        Fault::BusFault { faulting_pc, addr, width, operation } =>
            ("BUS_FAULT", faulting_pc, Some(addr), Some(width_bits(width)), Some(operation_name(operation))),
    }
}

/// The name of a Reporter status: 1 passes, 2 fails, anything else is invalid.
pub open spec fn status_text(status: u32) -> &'static str {
    if status == 1 { "pass" } else if status == 2 { "fail" } else { "invalid" }
}

/// Mismatches of the fault fields, for a run that stopped on a fault or a case that
/// expects one.
pub open spec fn fault_mismatches(t: ActualTermination, e: ExpectedTermination) -> Seq<MismatchView> {
    match t.fault {
        Some(f) => {
            let (name, pc, address, width, operation) = fault_report(f);
            check("termination.fault"@, opt_string(e.fault), JsonValueView::Text(name@))
            + check("termination.faulting_pc"@, opt_u32(e.faulting_pc), JsonValueView::Number(pc as u64))
            + check("termination.address"@, opt_u32(e.address), opt_u32(address))
            + check("termination.width"@, opt_u8(e.width), opt_u8(width))
            + check("termination.operation"@, opt_string(e.operation), opt_static(operation))
        },
        None => if e.fault is Some {
            check("termination.fault"@, opt_string(e.fault), JsonValueView::Null)
        } else {
            Seq::empty()
        },
    }
}

/// Mismatches of the Reporter fields, for a run that stopped on a Reporter status: the
/// status always, the case id and detail when the case gives them.
pub open spec fn reporter_mismatches(t: ActualTermination, e: ExpectedTermination) -> Seq<MismatchView> {
    match t.reporter {
        Some(r) => check("reporter.status"@, opt_string(e.status), JsonValueView::Text(status_text(r.status)@))
            + (match e.case_id {
                Some(v) => check("reporter.case_id"@, JsonValueView::Number(v as u64), JsonValueView::Number(r.case_id as u64)),
                None => Seq::empty(),
            })
            + (match e.detail {
                Some(v) => check("reporter.detail"@, JsonValueView::Number(v as u64), JsonValueView::Number(r.detail as u64)),
                None => Seq::empty(),
            }),
        None => Seq::empty(),
    }
}

/// The Reporter's STATUS register says how a program ended: 1 is a pass, 2 a fail, any
/// other value no valid report. A run that stopped on the Reporter, checked against a case
/// that expects `pass` or `fail` and neither id nor detail, has no mismatch exactly when
/// STATUS is 1 for `pass` and 2 for `fail`.
pub proof fn lemma_reporter_status_matches(t: ActualTermination, e: ExpectedTermination)
    requires
        t.reporter is Some,
        e.status matches Some(s) && (s@ == "pass"@ || s@ == "fail"@),
        e.case_id is None,
        e.detail is None,
    ensures
        reporter_mismatches(t, e).len() == 0 <==> (
            (e.status->Some_0@ == "pass"@ && t.reporter->Some_0.status == 1)
            || (e.status->Some_0@ == "fail"@ && t.reporter->Some_0.status == 2)),
{
    reveal_strlit("pass");
    reveal_strlit("fail");
    reveal_strlit("invalid");
    assert("pass"@ != "fail"@) by { assert("pass"@[0] != "fail"@[0]); }
    assert("pass"@ != "invalid"@) by { assert("pass"@.len() != "invalid"@.len()); }
    assert("fail"@ != "invalid"@) by { assert("fail"@.len() != "invalid"@.len()); }
}

/// Mismatches between an actual and an expected termination: the kind, the retired count
/// when expected, then the fault fields and the Reporter fields.
pub open spec fn termination_mismatches(t: ActualTermination, e: ExpectedTermination) -> Seq<MismatchView> {
    check("termination.kind"@, JsonValueView::Text(e.kind@), JsonValueView::Text(t.kind@))
    + (match e.retired {
        Some(v) => check("termination.retired"@, JsonValueView::Number(v), JsonValueView::Number(t.retired)),
        None => Seq::empty(),
    })
    + fault_mismatches(t, e)
    + reporter_mismatches(t, e)
}

fn push_check(out: &mut Vec<Mismatch>, path: &str, expected: JsonValue, actual: JsonValue)
    ensures
        mismatch_views(final(out)@) == mismatch_views(old(out)@) + check(path@, expected@, actual@),
{
    compare_value(crate::text::owned(path), expected, actual, out);
}

fn compare_fault(t: &ActualTermination, expected: &ExpectedTermination, out: &mut Vec<Mismatch>)
    ensures
        mismatch_views(final(out)@) == mismatch_views(old(out)@) + fault_mismatches(*t, *expected),
{
    let ghost m0 = mismatch_views(out@);
    match t.fault {
        Some(fault) => {
            let (name, pc, address, width, operation) = fault_fields(fault);
            push_check(out, "termination.fault", value_string(&expected.fault), JsonValue::text(name));
            push_check(out, "termination.faulting_pc", value_u32(expected.faulting_pc), JsonValue::Number(pc as u64));
            push_check(out, "termination.address", value_u32(expected.address), value_u32(address));
            push_check(out, "termination.width", value_u8(expected.width), value_u8(width));
            push_check(out, "termination.operation", value_string(&expected.operation), value_static(operation));
        },
        None => {
            if expected.fault.is_some() {
                push_check(out, "termination.fault", value_string(&expected.fault), JsonValue::Null);
            }
        },
    }
    assert(mismatch_views(out@) =~= m0 + fault_mismatches(*t, *expected));
}

fn compare_reporter(t: &ActualTermination, expected: &ExpectedTermination, out: &mut Vec<Mismatch>)
    ensures
        mismatch_views(final(out)@) == mismatch_views(old(out)@) + reporter_mismatches(*t, *expected),
{
    let ghost m0 = mismatch_views(out@);
    match t.reporter {
        Some(reporter) => {
            let status = if reporter.status == 1 { "pass" } else if reporter.status == 2 { "fail" } else { "invalid" };
            push_check(out, "reporter.status", value_string(&expected.status), JsonValue::text(status));
            match expected.case_id {
                Some(v) => push_check(out, "reporter.case_id", JsonValue::Number(v as u64), JsonValue::Number(reporter.case_id as u64)),
                None => {},
            }
            match expected.detail {
                Some(v) => push_check(out, "reporter.detail", JsonValue::Number(v as u64), JsonValue::Number(reporter.detail as u64)),
                None => {},
            }
        },
        None => {},
    }
    assert(mismatch_views(out@) =~= m0 + reporter_mismatches(*t, *expected));
}

impl ActualTermination {
    /// Records every difference from the expected termination: the kind, the retired
    /// count when expected, the fault fields of a fault, the Reporter fields of a reporter
    /// stop.
    pub fn compare(&self, expected: &ExpectedTermination, out: &mut Vec<Mismatch>)
        ensures
            mismatch_views(final(out)@) == mismatch_views(old(out)@) + termination_mismatches(*self, *expected),
    {
        let ghost m0 = mismatch_views(out@);
        push_check(out, "termination.kind", JsonValue::Text(expected.kind.clone()), JsonValue::text(self.kind));
        match expected.retired {
            Some(v) => push_check(out, "termination.retired", JsonValue::Number(v), JsonValue::Number(self.retired)),
            None => {},
        }
        let ghost m2 = mismatch_views(out@);
        compare_fault(self, expected, out);
        compare_reporter(self, expected, out);
        assert(mismatch_views(out@) =~= m0 + termination_mismatches(*self, *expected));
    }
}

/// Mismatches of one expected bus event against the actual one at `index`.
pub open spec fn event_mismatches(e: BusEvent, a: TraceEvent, prefix: Seq<char>, index: nat) -> Seq<MismatchView> {
    check(indexed(prefix, index, ".operation"@), JsonValueView::Text(e.operation@), JsonValueView::Text(a.operation@))
    + check(indexed(prefix, index, ".address"@), JsonValueView::Number(e.address as u64), JsonValueView::Number(a.address as u64))
    + check(indexed(prefix, index, ".width"@), JsonValueView::Number(e.width as u64), JsonValueView::Number(a.width as u64))
    + check(indexed(prefix, index, ".result"@), JsonValueView::Text(e.result@), JsonValueView::Text(a.result@))
    + if e.value is Some {
        check(indexed(prefix, index, ".value"@), opt_u32(e.value), opt_u32(a.value))
    } else {
        Seq::empty()
    }
}

/// Mismatches of the first `k` events.
pub open spec fn events_upto(e: Seq<BusEvent>, a: Seq<TraceEvent>, prefix: Seq<char>, k: nat) -> Seq<MismatchView>
    decreases k,
{
    if k == 0 {
        Seq::empty()
    } else {
        events_upto(e, a, prefix, (k - 1) as nat) + event_mismatches(e[k - 1], a[k - 1], prefix, (k - 1) as nat)
    }
}

/// Mismatches of an expected bus trace against the actual one: nothing when no trace is
/// expected; else the lengths when they differ, then each pair of events as far as both go.
pub open spec fn bus_event_mismatches(e: Seq<BusEvent>, a: Seq<TraceEvent>, prefix: Seq<char>) -> Seq<MismatchView> {
    if e.len() == 0 {
        Seq::empty()
    } else {
        (if e.len() != a.len() {
            check(prefix + ".length"@, JsonValueView::Number(e.len() as u64), JsonValueView::Number(a.len() as u64))
        } else {
            Seq::empty()
        }) + events_upto(e, a, prefix, if e.len() <= a.len() { e.len() } else { a.len() })
    }
}

/// Records the differences between an expected bus trace and the actual one.
pub fn compare_bus_events(expected: &[BusEvent], actual: &[TraceEvent], prefix: &str, out: &mut Vec<Mismatch>)
    ensures
        mismatch_views(final(out)@) == mismatch_views(old(out)@) + bus_event_mismatches(expected@, actual@, prefix@),
{
    let ghost m0 = mismatch_views(out@);
    if expected.len() == 0 {
        assert(mismatch_views(out@) =~= m0 + bus_event_mismatches(expected@, actual@, prefix@));
        return;
    }
    if expected.len() != actual.len() {
        let path = crate::text::concat3(prefix, ".length", "");
        proof { reveal_strlit(""); }
        assert(path@ =~= prefix@ + ".length"@);
        compare_value(path, JsonValue::Number(expected.len() as u64), JsonValue::Number(actual.len() as u64), out);
    }
    let ghost m1 = mismatch_views(out@);
    let n = if expected.len() <= actual.len() { expected.len() } else { actual.len() };
    let mut k: usize = 0;
    assert(m1 =~= m1 + events_upto(expected@, actual@, prefix@, 0));
    while k < n
        invariant
            k <= n,
            n <= expected@.len(),
            n <= actual@.len(),
            mismatch_views(out@) == m1 + events_upto(expected@, actual@, prefix@, k as nat),
        decreases n - k,
    {
        let e = &expected[k];
        let a = &actual[k];
        let ghost before = mismatch_views(out@);
        compare_value(indexed_path(prefix, k, ".operation"), JsonValue::Text(e.operation.clone()), JsonValue::text(a.operation), out);
        compare_value(indexed_path(prefix, k, ".address"), JsonValue::Number(e.address as u64), JsonValue::Number(a.address as u64), out);
        compare_value(indexed_path(prefix, k, ".width"), JsonValue::Number(e.width as u64), JsonValue::Number(a.width as u64), out);
        compare_value(indexed_path(prefix, k, ".result"), JsonValue::Text(e.result.clone()), JsonValue::text(a.result), out);
        if e.value.is_some() {
            compare_value(indexed_path(prefix, k, ".value"), value_u32(e.value), value_u32(a.value), out);
        }
        assert(mismatch_views(out@) =~= before + event_mismatches(expected@[k as int], actual@[k as int], prefix@, k as nat));
        k = k + 1;
        assert(mismatch_views(out@) =~= m1 + events_upto(expected@, actual@, prefix@, k as nat));
    }
    assert(mismatch_views(out@) =~= m0 + bus_event_mismatches(expected@, actual@, prefix@));
}

/// Whether a range of Test RAM can be read back: it ends inside Test RAM.
pub open spec fn readable(r: MemoryRange) -> bool {
    r.address + r.bytes@.len() <= RAM_SIZE
}

/// Mismatches of the first `k` expected ranges against Test RAM `ram`.
pub open spec fn memory_upto(ranges: Seq<MemoryRange>, ram: Seq<u8>, prefix: Seq<char>, k: nat) -> Seq<MismatchView>
    decreases k,
{
    if k == 0 {
        Seq::empty()
    } else {
        let r = ranges[k - 1];
        memory_upto(ranges, ram, prefix, (k - 1) as nat) + check(
            indexed(prefix, (k - 1) as nat, Seq::empty()),
            JsonValueView::Bytes(r.bytes@),
            JsonValueView::Bytes(ram.subrange(r.address as int, r.address + r.bytes@.len())),
        )
    }
}

/// Records the differences between expected memory ranges and Test RAM; fails when a
/// range cannot be read back.
fn compare_memory(m: &ConformanceMachine, ranges: &[MemoryRange], prefix: &str, out: &mut Vec<Mismatch>) -> (r: Result<(), String>)
    requires
        m.wf(),
    ensures
        r is Ok <==> forall|i: int| 0 <= i < ranges@.len() ==> readable(#[trigger] ranges@[i]),
        r matches Err(msg) ==> msg@ == "memory snapshot failed"@,
        r is Ok ==> mismatch_views(final(out)@) == mismatch_views(old(out)@) + memory_upto(ranges@, m@.ram(), prefix@, ranges@.len()),
{
    let ghost m0 = mismatch_views(out@);
    let mut k: usize = 0;
    while k < ranges.len()
        invariant
            m.wf(),
            k <= ranges@.len(),
            forall|i: int| 0 <= i < k ==> readable(#[trigger] ranges@[i]),
            mismatch_views(out@) == m0 + memory_upto(ranges@, m@.ram(), prefix@, k as nat),
        decreases ranges@.len() - k,
    {
        let range = &ranges[k];
        let actual = match m.read_memory(range.address, range.bytes.len()) {
            Ok(v) => v,
            Err(_) => return Err(crate::text::owned("memory snapshot failed")),
        };
        let ghost before = mismatch_views(out@);
        compare_value(indexed_path(prefix, k, ""), JsonValue::Bytes(range.bytes.clone()), JsonValue::Bytes(actual), out);
        proof { reveal_strlit(""); }
        k = k + 1;
        assert(mismatch_views(out@) =~= m0 + memory_upto(ranges@, m@.ram(), prefix@, k as nat));
    }
    Ok(())
}

/// The value of state field `field` of device `id` on a machine with Reporter registers
/// `rep` and ROM word `rom`.
pub open spec fn device_field(rep: ReporterState, rom: u32, id: Seq<char>, field: Seq<char>) -> Option<u32> {
    if id == "reporter"@ {
        if field == "status"@ {
            Some(rep.status)
        } else if field == "case_id"@ {
            Some(rep.case_id)
        } else if field == "detail"@ {
            Some(rep.detail)
        } else if field == "reserved"@ {
            Some(rep.reserved)
        } else {
            None
        }
    } else if id == "high-rom"@ {
        if field == "word"@ { Some(rom) } else { None }
    } else {
        None
    }
}

proof fn lemma_field_names_distinct()
    ensures
        "status"@ != "case_id"@,
        "status"@ != "detail"@,
        "status"@ != "reserved"@,
        "case_id"@ != "detail"@,
        "case_id"@ != "reserved"@,
        "detail"@ != "reserved"@,
        "reporter"@ != "high-rom"@,
{
    reveal_strlit("status");
    reveal_strlit("case_id");
    reveal_strlit("detail");
    reveal_strlit("reserved");
    reveal_strlit("reporter");
    reveal_strlit("high-rom");
    assert("status"@[0] != "case_id"@[0]);
    assert("status"@[0] != "detail"@[0]);
    assert("status"@[0] != "reserved"@[0]);
    assert("case_id"@[0] != "detail"@[0]);
    assert("case_id"@[0] != "reserved"@[0]);
    assert("detail"@[0] != "reserved"@[0]);
    assert("reporter"@[0] != "high-rom"@[0]);
}

/// The state fields of device `id`, in ascending order of name. Fails for an unknown id.
fn snapshot_device(m: &ConformanceMachine, id: &str) -> (r: Result<Vec<(String, u32)>, String>)
    requires
        m.wf(),
    ensures
        r is Ok <==> (id@ == "reporter"@ || id@ == "high-rom"@),
        r matches Ok(v) ==> forall|f: Seq<char>| #[trigger] lookup_key(v@, f) == device_field(m@.reporter(), m@.rom(), id@, f),
        r matches Err(msg) ==> msg@ == crate::validate::quoted("unknown device "@, id@),
{
    proof { lemma_field_names_distinct(); }
    let mut state: Vec<(String, u32)> = Vec::new();
    if str_eq(id, "reporter") {
        let reporter = m.reporter();
        state.push((crate::text::owned("case_id"), reporter.case_id));
        state.push((crate::text::owned("detail"), reporter.detail));
        state.push((crate::text::owned("reserved"), reporter.reserved));
        state.push((crate::text::owned("status"), reporter.status));
        proof {
            let v = state@;
            assert forall|f: Seq<char>| #[trigger] lookup_key(v, f) == device_field(m@.reporter(), m@.rom(), id@, f) by {
                assert(v.drop_first().drop_first().drop_first().drop_first() =~= Seq::<(String, u32)>::empty());
                reveal_with_fuel(lookup_key, 5);
            }
        }
    } else if str_eq(id, "high-rom") {
        state.push((crate::text::owned("word"), m.high_rom_word()));
        proof {
            let v = state@;
            assert forall|f: Seq<char>| #[trigger] lookup_key(v, f) == device_field(m@.reporter(), m@.rom(), id@, f) by {
                assert(v.drop_first() =~= Seq::<(String, u32)>::empty());
                reveal_with_fuel(lookup_key, 2);
            }
        }
    } else {
        return Err(crate::validate::quoted_exec("unknown device ", id));
    }
    Ok(state)
}

/// Mismatches of the first `k` fields of the expected device `d`.
pub open spec fn fields_upto(d: DeviceState, rep: ReporterState, rom: u32, k: nat) -> Seq<MismatchView>
    decreases k,
{
    if k == 0 {
        Seq::empty()
    } else {
        let entry = d.state@[k - 1];
        fields_upto(d, rep, rom, (k - 1) as nat) + check(
            dotted(dotted("devices"@, d.id@), entry.0@),
            JsonValueView::Number(entry.1 as u64),
            opt_u32(device_field(rep, rom, d.id@, entry.0@)),
        )
    }
}

/// Mismatches of the first `k` expected devices.
pub open spec fn devices_upto(ds: Seq<DeviceState>, rep: ReporterState, rom: u32, k: nat) -> Seq<MismatchView>
    decreases k,
{
    if k == 0 {
        Seq::empty()
    } else {
        devices_upto(ds, rep, rom, (k - 1) as nat) + fields_upto(ds[k - 1], rep, rom, ds[k - 1].state@.len())
    }
}

/// Records the differences between the expected device states and the machine's.
fn compare_devices(m: &ConformanceMachine, expected: &[DeviceState], out: &mut Vec<Mismatch>)
    requires
        m.wf(),
        all_fields_ok(expected@),
    ensures
        mismatch_views(final(out)@) == mismatch_views(old(out)@) + devices_upto(expected@, m@.reporter(), m@.rom(), expected@.len()),
{
    let ghost m0 = mismatch_views(out@);
    let ghost rep = m@.reporter();
    let ghost rom = m@.rom();
    proof { lemma_field_names_distinct(); }
    let mut k: usize = 0;
    while k < expected.len()
        invariant
            m.wf(),
            rep == m@.reporter(),
            rom == m@.rom(),
            k <= expected@.len(),
            all_fields_ok(expected@),
            "reporter"@ != "high-rom"@,
            mismatch_views(out@) == m0 + devices_upto(expected@, rep, rom, k as nat),
        decreases expected@.len() - k,
    {
        let d = &expected[k];
        assert(fields_ok(expected@[k as int]));
        let ghost before = mismatch_views(out@);
        let snapshot = match snapshot_device(m, d.id.as_str()) {
            Ok(v) => v,
            Err(_) => Vec::new(),
        };
        let id = d.id.as_str();
        let mut j: usize = 0;
        while j < d.state.len()
            invariant
                m.wf(),
                j <= d.state@.len(),
                d.id@ == "reporter"@ || d.id@ == "high-rom"@,
                id@ == d.id@,
                forall|f: Seq<char>| #[trigger] lookup_key(snapshot@, f) == device_field(rep, rom, d.id@, f),
                mismatch_views(out@) == before + fields_upto(*d, rep, rom, j as nat),
            decreases d.state@.len() - j,
        {
            let name = d.state[j].0.as_str();
            let value = d.state[j].1;
            let inner = dotted_path("devices", id);
            let path = dotted_path(inner.as_str(), name);
            assert(path@ == dotted(dotted("devices"@, d.id@), name@));
            let actual = state_get(snapshot.as_slice(), name);
            let ghost before_j = mismatch_views(out@);
            assert(actual == device_field(rep, rom, d.id@, name@));
            assert(name@ == d.state@[j as int].0@);
            let ghost c = check(dotted(dotted("devices"@, d.id@), name@), JsonValueView::Number(value as u64), opt_u32(device_field(rep, rom, d.id@, name@)));
            compare_value(path, JsonValue::Number(value as u64), value_u32(actual), out);
            assert(mismatch_views(out@) == before_j + c);
            assert(fields_upto(*d, rep, rom, (j + 1) as nat) == fields_upto(*d, rep, rom, j as nat) + c);
            j = j + 1;
            assert(mismatch_views(out@) =~= before + fields_upto(*d, rep, rom, j as nat));
        }
        k = k + 1;
        assert(mismatch_views(out@) =~= m0 + devices_upto(expected@, rep, rom, k as nat));
    }
}

/// Whether every range of `ms` can be read back.
pub open spec fn all_readable(ms: Seq<MemoryRange>) -> bool {
    forall|i: int| 0 <= i < ms.len() ==> readable(#[trigger] ms[i])
}

/// Mismatches of the first `k` expected registers against CPU state `c`.
pub open spec fn registers_upto(regs: Seq<(String, u32)>, c: CpuView, k: nat) -> Seq<MismatchView>
    decreases k,
{
    if k == 0 {
        Seq::empty()
    } else {
        let entry = regs[k - 1];
        registers_upto(regs, c, (k - 1) as nat) + check(
            dotted("state.registers"@, entry.0@),
            JsonValueView::Number(entry.1 as u64),
            JsonValueView::Number(c.regs[register_number(entry.0@)->0 as int] as u64),
        )
    }
}

/// Mismatches of the expected pc, when the case gives one.
pub open spec fn pc_mismatches(pc: Option<u32>, actual: u32) -> Seq<MismatchView> {
    match pc {
        Some(p) => check("state.pc"@, JsonValueView::Number(p as u64), JsonValueView::Number(actual as u64)),
        None => Seq::empty(),
    }
}

/// Mismatches of a finished CPU run with termination `t` and final state `v`: the
/// termination, then the expected state (the pc when given, registers, memory), the
/// expected bus trace and the expected devices. Fails when expected memory cannot be read
/// back.
pub open spec fn cpu_mismatches(case: CpuCase, t: ActualTermination, v: MachineView) -> Result<Seq<MismatchView>, Seq<char>> {
    let e = case.expected;
    let ram = ram_of(v.bus.devices);
    let state_part: Option<Seq<MismatchView>> = match e.state {
        Some(st) => if all_readable(st.memory@) {
            Some(pc_mismatches(st.pc, v.cpu.pc)
                + registers_upto(st.registers@, v.cpu, st.registers@.len())
                + memory_upto(st.memory@, ram, "state.memory"@, st.memory@.len()))
        } else {
            None
        },
        None => Some(Seq::empty()),
    };
    match state_part {
        None => Err("memory snapshot failed"@),
        Some(sp) => Ok(termination_mismatches(t, e.termination) + sp
            + bus_event_mismatches(e.bus@, v.bus.trace, "bus"@)
            + devices_upto(e.devices@, reporter_of(v.bus.devices), rom_of(v.bus.devices), e.devices@.len())),
    }
}

fn compare_registers(m: &ConformanceMachine, regs: &[(String, u32)], out: &mut Vec<Mismatch>)
    requires
        registers_ok(regs@),
    ensures
        mismatch_views(final(out)@) == mismatch_views(old(out)@) + registers_upto(regs@, m@.cpu, regs@.len()),
{
    let ghost m0 = mismatch_views(out@);
    let mut k: usize = 0;
    while k < regs.len()
        invariant
            k <= regs@.len(),
            registers_ok(regs@),
            mismatch_views(out@) == m0 + registers_upto(regs@, m@.cpu, k as nat),
        decreases regs@.len() - k,
    {
        let name = regs[k].0.as_str();
        assert(register_number(regs@[k as int].0@) matches Some(n) && n < 16);
        let index = match register_index(name) {
            Ok(i) => i,
            Err(_) => 0,
        };
        let actual = m.reg(index);
        compare_value(dotted_path("state.registers", name), JsonValue::Number(regs[k].1 as u64), JsonValue::Number(actual as u64), out);
        k = k + 1;
        assert(mismatch_views(out@) =~= m0 + registers_upto(regs@, m@.cpu, k as nat));
    }
}

/// Compares the state after a CPU case with what it expects.
fn compare_cpu(m: &ConformanceMachine, case: &CpuCase, actual: &ActualTermination) -> (r: Result<Vec<Mismatch>, String>)
    requires
        m.wf(),
        cpu_case_check(*case) is Ok,
    ensures
        match cpu_mismatches(*case, *actual, m@) {
            Err(msg) => r matches Err(x) && x@ == msg,
            Ok(ms) => r matches Ok(v) && mismatch_views(v@) == ms,
        },
{
    proof {
        lemma_devices_check_ok(case.expected.devices@, case.level == 3);
        if case.expected.state is Some {
            lemma_registers_check_ok(case.expected.state->0.registers@);
        }
    }
    let mut out: Vec<Mismatch> = Vec::new();
    assert(mismatch_views(out@) =~= Seq::<MismatchView>::empty());
    actual.compare(&case.expected.termination, &mut out);
    let ghost after_termination = mismatch_views(out@);
    match &case.expected.state {
        Some(st) => {
            let ghost before_pc = mismatch_views(out@);
            match st.pc {
                Some(p) => push_check(&mut out, "state.pc", JsonValue::Number(p as u64), JsonValue::Number(m.pc() as u64)),
                None => {
                    assert(mismatch_views(out@) =~= before_pc + Seq::<MismatchView>::empty());
                },
            }
            compare_registers(m, st.registers.as_slice(), &mut out);
            match compare_memory(m, st.memory.as_slice(), "state.memory", &mut out) {
                Err(e) => return Err(e),
                Ok(()) => {},
            }
        },
        None => {},
    }
    let ghost after_state = mismatch_views(out@);
    compare_bus_events(case.expected.bus.as_slice(), m.trace(), "bus", &mut out);
    compare_devices(m, case.expected.devices.as_slice(), &mut out);
    proof {
        let e = case.expected;
        let es = e.state;
        match es {
            Some(st) => {
                assert(after_state =~= after_termination + (pc_mismatches(st.pc, m@.cpu.pc)
                    + registers_upto(st.registers@, m@.cpu, st.registers@.len())
                    + memory_upto(st.memory@, m@.ram(), "state.memory"@, st.memory@.len())));
            },
            None => {
                assert(after_state =~= after_termination + Seq::<MismatchView>::empty());
            },
        }
    }
    assert(mismatch_views(out@) =~= cpu_mismatches(*case, *actual, m@)->Ok_0);
    Ok(out)
}

/// Events and devices after applying the transactions `ts` to the devices `ds` in order.
pub open spec fn transactions_outcome(ds: Seq<MappingView<MachineDeviceView>>, ts: Seq<Transaction>) -> (Seq<TraceEvent>, Seq<MappingView<MachineDeviceView>>)
    decreases ts.len(),
{
    if ts.len() == 0 {
        (Seq::empty(), ds)
    } else {
        let (e, next) = perform_outcome(ds, ts[0].operation@, ts[0].address, ts[0].width, ts[0].value);
        let (rest, last) = transactions_outcome(next, ts.drop_first());
        (seq![e] + rest, last)
    }
}

/// Applies valid transactions in order and returns the event of each.
fn execute_transactions(m: &mut ConformanceMachine, transactions: &[Transaction]) -> (r: Result<Vec<TraceEvent>, String>)
    requires
        old(m).wf(),
        forall|i: int| 0 <= i < transactions@.len() ==> transaction_error(#[trigger] transactions@[i]) is None,
    ensures
        final(m).wf(),
        r matches Ok(v) && (v@, final(m)@.bus.devices) == transactions_outcome(old(m)@.bus.devices, transactions@),
        final(m)@.cpu == old(m)@.cpu,
        final(m)@.bus.trace == old(m)@.bus.trace,
{
    proof {
        reveal_strlit("read");
        reveal_strlit("write");
        assert("read"@[0] != "write"@[0]);
    }
    let mut actual: Vec<TraceEvent> = Vec::new();
    let mut k: usize = 0;
    assert(transactions@.skip(0) =~= transactions@);
    while k < transactions.len()
        invariant
            m.wf(),
            k <= transactions@.len(),
            forall|i: int| 0 <= i < transactions@.len() ==> transaction_error(#[trigger] transactions@[i]) is None,
            "read"@ != "write"@,
            ({
                let (rest, last) = transactions_outcome(m@.bus.devices, transactions@.skip(k as int));
                transactions_outcome(old(m)@.bus.devices, transactions@) == (actual@ + rest, last)
            }),
            m@.cpu == old(m)@.cpu,
            m@.bus.trace == old(m)@.bus.trace,
        decreases transactions@.len() - k,
    {
        let t = &transactions[k];
        assert(transaction_error(transactions@[k as int]) is None);
        assert(transactions@.skip(k as int).drop_first() =~= transactions@.skip(k + 1));
        assert(transactions@.skip(k as int)[0] == transactions@[k as int]);
        let ghost before = actual@;
        let ghost (rest, last) = transactions_outcome(m@.bus.devices, transactions@.skip(k as int));
        match m.perform(t.operation.as_str(), t.address, t.width, t.value) {
            Ok(e) => {
                actual.push(e);
            },
            Err(msg) => return Err(msg),
        }
        k = k + 1;
        proof {
            let (rest2, last2) = transactions_outcome(m@.bus.devices, transactions@.skip(k as int));
            assert(rest == seq![actual@.last()] + rest2);
            assert(actual@ + rest2 =~= before + rest);
        }
    }
    assert(transactions@.skip(k as int) =~= Seq::<Transaction>::empty());
    assert(actual@ + Seq::<TraceEvent>::empty() =~= actual@);
    Ok(actual)
}

/// Mismatches of the first `k` transaction answers.
pub open spec fn answers_upto(e: Seq<ExpectedTransaction>, a: Seq<TraceEvent>, k: nat) -> Seq<MismatchView>
    decreases k,
{
    if k == 0 {
        Seq::empty()
    } else {
        let x = e[k - 1];
        let y = a[k - 1];
        answers_upto(e, a, (k - 1) as nat)
            + check(indexed("transactions"@, (k - 1) as nat, ".result"@), JsonValueView::Text(x.result@), JsonValueView::Text(y.result@))
            + match x.value {
                Some(v) => check(indexed("transactions"@, (k - 1) as nat, ".value"@), JsonValueView::Number(v as u64), opt_u32(y.value)),
                None => Seq::empty(),
            }
    }
}

/// Mismatches of a Bus case whose transactions answered `events` and left Test RAM `ram`,
/// Reporter registers `rep` and ROM word `rom`: the number of answers when it differs,
/// each answer, then expected memory and devices. Fails when expected memory cannot be
/// read back.
pub open spec fn bus_mismatches(case: BusCase, events: Seq<TraceEvent>, ram: Seq<u8>, rep: ReporterState, rom: u32) -> Result<Seq<MismatchView>, Seq<char>> {
    let e = case.expected;
    if !all_readable(e.memory@) {
        Err("memory snapshot failed"@)
    } else {
        Ok((if events.len() != e.transactions@.len() {
            check("transactions.length"@, JsonValueView::Number(e.transactions@.len() as u64), JsonValueView::Number(events.len() as u64))
        } else {
            Seq::empty()
        })
            + answers_upto(e.transactions@, events, if e.transactions@.len() <= events.len() { e.transactions@.len() } else { events.len() })
            + memory_upto(e.memory@, ram, "memory"@, e.memory@.len())
            + devices_upto(e.devices@, rep, rom, e.devices@.len()))
    }
}

/// Compares the answers and the final state of a Bus case with what it expects.
fn compare_bus(m: &ConformanceMachine, case: &BusCase, actual: &[TraceEvent]) -> (r: Result<Vec<Mismatch>, String>)
    requires
        m.wf(),
        bus_case_check(*case) is Ok,
    ensures
        match bus_mismatches(*case, actual@, m@.ram(), m@.reporter(), m@.rom()) {
            Err(msg) => r matches Err(x) && x@ == msg,
            Ok(ms) => r matches Ok(v) && mismatch_views(v@) == ms,
        },
{
    proof { lemma_devices_check_ok(case.expected.devices@, true); }
    let expected = case.expected.transactions.as_slice();
    let mut out: Vec<Mismatch> = Vec::new();
    assert(mismatch_views(out@) =~= Seq::<MismatchView>::empty());
    if actual.len() != expected.len() {
        push_check(&mut out, "transactions.length", JsonValue::Number(expected.len() as u64), JsonValue::Number(actual.len() as u64));
    } else {
        assert(mismatch_views(out@) =~= Seq::<MismatchView>::empty() + Seq::<MismatchView>::empty());
    }
    let ghost m1 = mismatch_views(out@);
    let n = if expected.len() <= actual.len() { expected.len() } else { actual.len() };
    let mut k: usize = 0;
    assert(m1 =~= m1 + answers_upto(expected@, actual@, 0));
    while k < n
        invariant
            k <= n,
            n <= expected@.len(),
            n <= actual@.len(),
            mismatch_views(out@) == m1 + answers_upto(expected@, actual@, k as nat),
        decreases n - k,
    {
        let x = &expected[k];
        let y = &actual[k];
        let ghost before = mismatch_views(out@);
        compare_value(indexed_path("transactions", k, ".result"), JsonValue::Text(x.result.clone()), JsonValue::text(y.result), &mut out);
        match x.value {
            Some(v) => compare_value(indexed_path("transactions", k, ".value"), JsonValue::Number(v as u64), value_u32(y.value), &mut out),
            None => {},
        }
        k = k + 1;
        assert(mismatch_views(out@) =~= m1 + answers_upto(expected@, actual@, k as nat));
    }
    match compare_memory(m, case.expected.memory.as_slice(), "memory", &mut out) {
        Err(e) => return Err(e),
        Ok(()) => {},
    }
    compare_devices(m, case.expected.devices.as_slice(), &mut out);
    assert(mismatch_views(out@) =~= bus_mismatches(*case, actual@, m@.ram(), m@.reporter(), m@.rom())->Ok_0);
    Ok(out)
}

// ---------------------------------------------------------------------------------------
// Whole cases.

/// The outcome of a CPU case with binary `binary`: the first validation problem, a binary
/// that does not fit, a memory patch over the binary, or the mismatches of the run from
/// `cpu_start` under the case's execution rule.
pub open spec fn cpu_case_outcome(case: CpuCase, binary: Seq<u8>) -> Result<Seq<MismatchView>, Seq<char>> {
    match cpu_case_check(case) {
        Err(m) => Err(m),
        Ok(()) => if !image_fits(case.image.load_address, binary) {
            Err(image_error(case.image.load_address))
        } else if patch_over_image(case.image.load_address, binary.len(), case.initial.memory@) {
            Err("initial memory patch overlaps the binary image"@)
        } else {
            let (t, v) = run_from(cpu_start(case, binary), 0, case.execution.max_steps as nat, stop_of(case));
            cpu_mismatches(case, t, v)
        },
    }
}

/// The outcome of a Bus case: the first validation problem, or the mismatches of its
/// transactions applied in order to a fresh machine set up from `initial`.
pub open spec fn bus_case_outcome(case: BusCase) -> Result<Seq<MismatchView>, Seq<char>> {
    match bus_case_check(case) {
        Err(m) => Err(m),
        Ok(()) => {
            let start = bus_start(case.initial);
            let (events, ds) = transactions_outcome(start.bus.devices, case.transactions@);
            bus_mismatches(case, events, ram_of(ds), reporter_of(ds), rom_of(ds))
        },
    }
}

/// Runs a CPU case with its binary on a fresh conformance machine and compares the result
/// with what the case expects. An error names the reason the case could not run.
pub fn run_cpu_case(case: &CpuCase, binary: &[u8]) -> (r: Result<CaseResult, String>)
    requires
        crate::validate::cpu_case_maps(*case),
    ensures
        match cpu_case_outcome(*case, binary@) {
            Err(msg) => r matches Err(m) && m@ == msg,
            Ok(ms) => r matches Ok(res) && is_finished(res, "cpu"@, case.id@, Some(case.level), ms),
        },
{
    match crate::validate::validate_cpu_case(case) {
        Err(m) => return Err(m),
        Ok(()) => {},
    }
    let mut m = match ConformanceMachine::new() {
        Ok(m) => m,
        Err(e) => return Err(e),
    };
    match setup_cpu(&mut m, case, binary) {
        Err(e) => return Err(e),
        Ok(()) => {},
    }
    if patch_over_image_exec(case.image.load_address, binary.len(), case.initial.memory.as_slice()) {
        return Err(crate::text::owned("initial memory patch overlaps the binary image"));
    }
    let actual = execute(&mut m, case);
    let mismatches = match compare_cpu(&m, case, &actual) {
        Err(e) => return Err(e),
        Ok(v) => v,
    };
    Ok(CaseResult::finished("cpu", case.id.clone(), Some(case.level), mismatches))
}

/// Applies a Bus case's transactions to a fresh conformance machine and compares the
/// answers and the final state with what the case expects. An error names the reason the
/// case could not run.
pub fn run_bus_case(case: &BusCase) -> (r: Result<CaseResult, String>)
    requires
        crate::validate::bus_case_maps(*case),
    ensures
        match bus_case_outcome(*case) {
            Err(msg) => r matches Err(m) && m@ == msg,
            Ok(ms) => r matches Ok(res) && is_finished(res, "bus"@, case.id@, None, ms),
        },
{
    match crate::validate::validate_bus_case(case) {
        Err(m) => return Err(m),
        Ok(()) => {},
    }
    proof {
        lemma_devices_check_ok(case.initial.devices@, true);
    }
    let mut m = match ConformanceMachine::new() {
        Ok(m) => m,
        Err(e) => return Err(e),
    };
    setup_common(&mut m, &case.initial);
    proof {
        lemma_layout_determined(m@.bus.devices);
        assert(m@.bus.devices == bus_start(case.initial).bus.devices);
        assert forall|i: int| 0 <= i < case.transactions@.len() implies transaction_error(#[trigger] case.transactions@[i]) is None by {
            lemma_transactions_ok(case.transactions@, 0, i);
        }
    }
    let actual = match execute_transactions(&mut m, case.transactions.as_slice()) {
        Ok(v) => v,
        Err(e) => return Err(e),
    };
    let mismatches = match compare_bus(&m, case, actual.as_slice()) {
        Err(e) => return Err(e),
        Ok(v) => v,
    };
    Ok(CaseResult::finished("bus", case.id.clone(), None, mismatches))
}

proof fn lemma_transactions_ok(ts: Seq<Transaction>, k: int, i: int)
    requires
        0 <= k <= i < ts.len(),
        transactions_from(ts, k) is Ok,
    ensures
        transaction_error(ts[i]) is None,
    decreases i - k,
{
    if k < i {
        lemma_transactions_ok(ts, k + 1, i);
    }
}

} // verus!
