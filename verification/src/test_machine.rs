//! The CPU test machine: a CPU on a bus with 8 KiB of RAM at 0, a `DebugIo` port at
//! `0x2000` and a `TestReporter` at `0x2010`. It runs machine words, not assembly text.
use vstd::prelude::*;

use crate::bus::{
    AccessWidth, Bus, BusFault, DefaultBus, MappingView, first_containing, first_with_base,
    lemma_lookup_base_is_first, lemma_lookup_is_first, lemma_mapped_access_keeps_layout, lookup,
    mapped_read, mapped_write,
};
use crate::cpu::{Cpu, CpuView, Fault, step_outcome};
use crate::debug_io::{DebugIo, DebugIoView};
use crate::machine_device::{
    MachineDevice, MachineDeviceView, lemma_machine_device_access, same_shape,
};
use crate::ram::{Ram, byte_of};
use crate::test_reporter::{ReporterState, TestReporter, TestStatus};

verus! {

pub const RAM_BASE: u32 = 0x0000;

pub const RAM_SIZE: u32 = 0x2000;

pub const DEBUG_IO_BASE: u32 = 0x2000;

pub const DEBUG_IO_SIZE: u32 = 0x0010;

pub const TEST_REPORTER_BASE: u32 = 0x2010;

pub const TEST_REPORTER_SIZE: u32 = 0x0010;

/// What the program has reported so far.
#[derive(Debug, Clone, Copy, PartialEq, Eq, Structural)]
pub enum MachineStatus {
    Running,
    Passed,
    Failed { test_id: u32, detail: u32 },
}

/// The status a reporter in state `s` announces: `STATUS` 1 passes, 2 fails with the
/// case id and detail, anything else is still running.
pub open spec fn machine_status(s: ReporterState) -> MachineStatus {
    if s.status == 1 {
        MachineStatus::Passed
    } else if s.status == 2 {
        MachineStatus::Failed { test_id: s.case_id, detail: s.detail }
    } else {
        MachineStatus::Running
    }
}

/// The fixed address map of the test machine: RAM, debug port and reporter, in this order.
pub open spec fn test_layout(ms: Seq<MappingView<MachineDeviceView>>) -> bool {
    &&& ms.len() == 3
    &&& ms[0].base == RAM_BASE && ms[0].end == RAM_BASE + RAM_SIZE
    &&& ms[0].device matches MachineDeviceView::Ram(m) && m.len() == RAM_SIZE
    &&& ms[1].base == DEBUG_IO_BASE && ms[1].end == DEBUG_IO_BASE + DEBUG_IO_SIZE
    &&& ms[1].device is DebugIo
    &&& ms[2].base == TEST_REPORTER_BASE && ms[2].end == TEST_REPORTER_BASE + TEST_REPORTER_SIZE
    &&& ms[2].device is Reporter
}

/// RAM contents.
pub open spec fn test_ram(ms: Seq<MappingView<MachineDeviceView>>) -> Seq<u8> {
    match ms[0].device {
        MachineDeviceView::Ram(m) => m,
        _ => Seq::empty(),
    }
}

/// Bytes written to the debug port and not yet taken.
pub open spec fn test_output(ms: Seq<MappingView<MachineDeviceView>>) -> Seq<u8> {
    match ms[1].device {
        MachineDeviceView::DebugIo(d) => d.output,
        _ => Seq::empty(),
    }
}

/// State of the debug port.
pub open spec fn test_debug(ms: Seq<MappingView<MachineDeviceView>>) -> DebugIoView {
    match ms[1].device {
        MachineDeviceView::DebugIo(d) => d,
        _ => DebugIoView { input: Seq::empty(), output: Seq::empty() },
    }
}

/// The devices of the test address map holding `ram`, the debug port state `debug` and
/// the reporter registers `reporter`.
pub open spec fn test_devices(ram: Seq<u8>, debug: DebugIoView, reporter: ReporterState) -> Seq<MappingView<MachineDeviceView>> {
    seq![
        MappingView { base: RAM_BASE, end: (RAM_BASE + RAM_SIZE) as u64, device: MachineDeviceView::Ram(ram) },
        MappingView { base: DEBUG_IO_BASE, end: (DEBUG_IO_BASE + DEBUG_IO_SIZE) as u64, device: MachineDeviceView::DebugIo(debug) },
        MappingView { base: TEST_REPORTER_BASE, end: (TEST_REPORTER_BASE + TEST_REPORTER_SIZE) as u64, device: MachineDeviceView::Reporter(reporter) },
    ]
}

/// On the test address map, the devices are determined by the RAM contents, the debug
/// port state and the reporter registers.
pub proof fn lemma_test_layout_determined(ms: Seq<MappingView<MachineDeviceView>>)
    requires
        test_layout(ms),
    ensures
        ms == test_devices(test_ram(ms), test_debug(ms), test_reporter(ms)),
{
    let l = test_devices(test_ram(ms), test_debug(ms), test_reporter(ms));
    assert(ms[0] == l[0]);
    assert(ms[1] == l[1]);
    assert(ms[2] == l[2]);
    assert(ms =~= l);
}

/// Reporter registers.
pub open spec fn test_reporter(ms: Seq<MappingView<MachineDeviceView>>) -> ReporterState {
    match ms[2].device {
        MachineDeviceView::Reporter(s) => s,
        _ => ReporterState { status: 0, case_id: 0, detail: 0, reserved: 0 },
    }
}

/// No bus access changes the test machine's address map.
pub proof fn lemma_test_access_keeps_layout(ms: Seq<MappingView<MachineDeviceView>>, addr: u32, width: AccessWidth, value: u32)
    requires
        test_layout(ms),
    ensures
        test_layout(mapped_read::<MachineDevice>(ms, addr, width).1),
        test_layout(mapped_write::<MachineDevice>(ms, addr, width, value).1),
{
    lemma_mapped_access_keeps_layout::<MachineDevice>(ms, addr, width, value);
    if let Some(k) = lookup(ms, addr) {
        assert(first_containing(ms, addr, k));
        let m = ms[k];
        lemma_machine_device_access(m.device, (addr - m.base) as u32, width, value);
    }
    let r = mapped_read::<MachineDevice>(ms, addr, width).1;
    let w = mapped_write::<MachineDevice>(ms, addr, width, value).1;
    assert(same_shape(ms[0].device, r[0].device) && same_shape(ms[1].device, r[1].device) && same_shape(ms[2].device, r[2].device));
    assert(same_shape(ms[0].device, w[0].device) && same_shape(ms[1].device, w[1].device) && same_shape(ms[2].device, w[2].device));
}

/// No CPU step changes the test machine's address map.
pub proof fn lemma_test_step_keeps_layout(c: CpuView, ms: Seq<MappingView<MachineDeviceView>>)
    requires
        test_layout(ms),
    ensures
        test_layout(step_outcome::<DefaultBus<MachineDevice>>(c, ms).2),
{
    assert forall|t: Seq<MappingView<MachineDeviceView>>, addr: u32, width: AccessWidth, value: u32| test_layout(t) implies
        test_layout((#[trigger] mapped_read::<MachineDevice>(t, addr, width)).1)
        && test_layout((#[trigger] mapped_write::<MachineDevice>(t, addr, width, value)).1) by {
        lemma_test_access_keeps_layout(t, addr, width, value);
    }
}

/// A faulting instruction leaves the CPU and every device of the test machine as they
/// were.
pub proof fn lemma_test_fault_keeps_state(c: CpuView, ms: Seq<MappingView<MachineDeviceView>>)
    ensures
        step_outcome::<DefaultBus<MachineDevice>>(c, ms).0 is Err ==> step_outcome::<DefaultBus<MachineDevice>>(c, ms).1 == c
            && step_outcome::<DefaultBus<MachineDevice>>(c, ms).2 == ms,
{
    crate::cpu::lemma_fault_keeps_cpu::<DefaultBus<MachineDevice>>(c, ms);
    crate::machine_device::lemma_machine_devices_fault_atomic();
    if c.pc % 4 == 0 {
        crate::machine_device::lemma_word_read_keeps_bus(ms, c.pc);
        let (f, b1) = DefaultBus::<MachineDevice>::read_outcome(ms, c.pc, AccessWidth::Word);
        if let Ok(w) = f {
            let op = crate::cpu::field_op(w);
            let addr = crate::cpu::add3(c.regs[crate::cpu::field_rs1(w) as int], c.regs[crate::cpu::field_rs2(w) as int], crate::cpu::sext16(crate::cpu::field_imm(w)));
            let width = crate::cpu::mem_width(op);
            let value = crate::cpu::truncate(c.regs[crate::cpu::field_rd(w) as int], width);
            crate::bus::lemma_mapped_fault_is_atomic::<MachineDevice>(b1, addr, width, value);
        }
    }
}

/// Outcome of running at most `n` steps from CPU state `c` and bus state `ms`: stop at the
/// first fault, or right after the first step that leaves the reporter not running.
pub open spec fn run_outcome(c: CpuView, ms: Seq<MappingView<MachineDeviceView>>, n: nat) -> (Result<MachineStatus, Fault>, CpuView, Seq<MappingView<MachineDeviceView>>)
    decreases n,
{
    if n == 0 {
        (Ok(MachineStatus::Running), c, ms)
    } else {
        let (r, c1, ms1) = step_outcome::<DefaultBus<MachineDevice>>(c, ms);
        match r {
            Err(f) => (Err(f), c1, ms1),
            Ok(_) => {
                let st = machine_status(test_reporter(ms1));
                if st != MachineStatus::Running {
                    (Ok(st), c1, ms1)
                } else {
                    run_outcome(c1, ms1, (n - 1) as nat)
                }
            },
        }
    }
}

/// CPU and bus state of a `TestRunnerMachine`.
pub struct TestMachineView {
    pub cpu: CpuView,
    pub devices: Seq<MappingView<MachineDeviceView>>,
}

pub struct TestRunnerMachine {
    cpu: Cpu,
    bus: DefaultBus<MachineDevice>,
}

impl View for TestRunnerMachine {
    type V = TestMachineView;

    closed spec fn view(&self) -> TestMachineView {
        TestMachineView { cpu: self.cpu@, devices: self.bus@ }
    }
}

impl Default for TestRunnerMachine {
    fn default() -> (m: Self)
        ensures
            m.wf(),
            m@.cpu == crate::cpu::reset_view(),
            test_ram(m@.devices) == Seq::new(RAM_SIZE as nat, |i: int| 0u8),
            test_debug(m@.devices) == (DebugIoView { input: Seq::empty(), output: Seq::empty() }),
            test_reporter(m@.devices) == (ReporterState { status: 0, case_id: 0, detail: 0, reserved: 0 }),
    {
        Self::new()
    }
}

impl TestRunnerMachine {
    /// The machine keeps its fixed address map.
    pub open spec fn wf(&self) -> bool {
        test_layout(self@.devices)
    }

    /// A machine with the CPU reset, RAM zeroed, no debug input or output and the reporter
    /// registers zero.
    pub fn new() -> (m: Self)
        ensures
            m.wf(),
            m@.cpu == crate::cpu::reset_view(),
            test_ram(m@.devices) == Seq::new(RAM_SIZE as nat, |i: int| 0u8),
            test_debug(m@.devices) == (DebugIoView { input: Seq::empty(), output: Seq::empty() }),
            test_reporter(m@.devices) == (ReporterState { status: 0, case_id: 0, detail: 0, reserved: 0 }),
    {
        let mut bus = DefaultBus::new();
        let _ = bus.map_device(RAM_BASE, RAM_SIZE, MachineDevice::Ram(Ram::new(RAM_SIZE as usize)));
        let _ = bus.map_device(DEBUG_IO_BASE, DEBUG_IO_SIZE, MachineDevice::DebugIo(DebugIo::new()));
        let _ = bus.map_device(TEST_REPORTER_BASE, TEST_REPORTER_SIZE, MachineDevice::Reporter(TestReporter::new()));
        TestRunnerMachine { cpu: Cpu::new(), bus }
    }

    pub fn pc(&self) -> (pc: u32)
        ensures
            pc == self@.cpu.pc,
    {
        self.cpu.pc()
    }

    pub fn reg(&self, index: usize) -> (v: u32)
        requires
            index < 16,
        ensures
            v == self@.cpu.regs[index as int],
    {
        self.cpu.reg(index)
    }

    pub fn set_pc(&mut self, pc: u32)
        ensures
            final(self)@.cpu == crate::cpu::advance(old(self)@.cpu, pc),
            final(self)@.devices == old(self)@.devices,
    {
        self.cpu.set_pc(pc);
    }

    pub fn set_reg(&mut self, index: usize, value: u32)
        requires
            index < 16,
        ensures
            final(self)@.cpu == crate::cpu::commit(old(self)@.cpu, index as int, value, old(self)@.cpu.pc),
            final(self)@.devices == old(self)@.devices,
    {
        self.cpu.set_reg(index, value);
    }

    /// The status announced by the reporter.
    pub fn status(&self) -> (s: MachineStatus)
        requires
            self.wf(),
        ensures
            s == machine_status(test_reporter(self@.devices)),
    {
        proof {
            assert(first_with_base(self@.devices, TEST_REPORTER_BASE, 2));
            lemma_lookup_base_is_first(self@.devices, TEST_REPORTER_BASE, 2);
        }
        match self.bus.device_ref(TEST_REPORTER_BASE) {
            Some(MachineDevice::Reporter(r)) => match r.status() {
                TestStatus::Running => MachineStatus::Running,
                TestStatus::Pass => MachineStatus::Passed,
                TestStatus::Fail => MachineStatus::Failed { test_id: r.test_id(), detail: r.detail() },
            },
            _ => MachineStatus::Running,
        }
    }

    /// Executes one instruction and reports the resulting status.
    pub fn step(&mut self) -> (r: Result<MachineStatus, Fault>)
        requires
            old(self).wf(),
        ensures
            final(self).wf(),
            ({
                let (o, c, ms) = step_outcome::<DefaultBus<MachineDevice>>(old(self)@.cpu, old(self)@.devices);
                &&& final(self)@.cpu == c
                &&& final(self)@.devices == ms
                &&& match o {
                    Err(f) => r == Err::<MachineStatus, Fault>(f),
                    Ok(_) => r == Ok::<MachineStatus, Fault>(machine_status(test_reporter(ms))),
                }
            }),
    {
        proof { lemma_test_step_keeps_layout(self@.cpu, self@.devices); }
        match self.cpu.step(&mut self.bus) {
            Err(f) => Err(f),
            Ok(()) => Ok(self.status()),
        }
    }

    /// Runs until a fault, a reported pass or fail, or `max_steps` steps.
    pub fn run_steps(&mut self, max_steps: usize) -> (r: Result<MachineStatus, Fault>)
        requires
            old(self).wf(),
        ensures
            final(self).wf(),
            (r, final(self)@.cpu, final(self)@.devices) == run_outcome(old(self)@.cpu, old(self)@.devices, max_steps as nat),
    {
        let mut k: usize = 0;
        while k < max_steps
            invariant
                self.wf(),
                k <= max_steps,
                run_outcome(old(self)@.cpu, old(self)@.devices, max_steps as nat) == run_outcome(self@.cpu, self@.devices, (max_steps - k) as nat),
            decreases max_steps - k,
        {
            let status = match self.step() {
                Ok(s) => s,
                Err(f) => return Err(f),
            };
            if status != MachineStatus::Running {
                return Ok(status);
            }
            k = k + 1;
        }
        Ok(MachineStatus::Running)
    }

    /// Stores `words` little-endian at `0, 4, 8, ...`; stops with a fault at the first word
    /// that does not fit in RAM.
    pub fn load_words(&mut self, words: &[u32]) -> (r: Result<(), BusFault>)
        requires
            old(self).wf(),
        ensures
            final(self).wf(),
            r is Err <==> words@.len() > RAM_SIZE / 4,
            final(self)@.cpu == old(self)@.cpu,
            test_debug(final(self)@.devices) == test_debug(old(self)@.devices),
            test_reporter(final(self)@.devices) == test_reporter(old(self)@.devices),
            forall|j: int| 0 <= j < RAM_SIZE ==> #[trigger] test_ram(final(self)@.devices)[j] == if j < 4 * words@.len() {
                byte_of(words@[j / 4], (j % 4) as nat)
            } else {
                test_ram(old(self)@.devices)[j]
            },
    {
        let ghost start = test_ram(self@.devices);
        let mut i: usize = 0;
        while i < words.len()
            invariant
                self.wf(),
                i <= words@.len(),
                i <= RAM_SIZE / 4,
                start.len() == RAM_SIZE,
                self@.cpu == old(self)@.cpu,
                test_debug(self@.devices) == test_debug(old(self)@.devices),
                test_reporter(self@.devices) == test_reporter(old(self)@.devices),
                forall|j: int| 0 <= j < RAM_SIZE ==> #[trigger] test_ram(self@.devices)[j] == if j < 4 * i {
                    byte_of(words@[j / 4], (j % 4) as nat)
                } else {
                    start[j]
                },
            decreases words@.len() - i,
        {
            let addr = (i as u32) * 4;
            let ghost ms = self@.devices;
            proof {
                lemma_test_access_keeps_layout(ms, addr, AccessWidth::Word, words@[i as int]);
                lemma_mapped_access_keeps_layout::<MachineDevice>(ms, addr, AccessWidth::Word, words@[i as int]);
                if i < RAM_SIZE / 4 {
                    crate::bus::lemma_wf_owner_unique(ms, addr, 0);
                } else {
                    crate::bus::lemma_wf_owner_unique(ms, addr, 1);
                }
            }
            let r = self.bus.load32(addr, words[i]);
            if r.is_err() {
                assert(i == RAM_SIZE / 4);
                assert(test_ram(self@.devices) == test_ram(ms));
                return Err(BusFault);
            }
            proof {
                let w = words@[i as int];
                let before = test_ram(ms);
                assert(test_ram(self@.devices) == crate::ram::le_store(before, 4 * i, AccessWidth::Word, w));
                assert forall|j: int| 0 <= j < RAM_SIZE implies #[trigger] test_ram(self@.devices)[j] == if j < 4 * (i + 1) {
                    byte_of(words@[j / 4], (j % 4) as nat)
                } else {
                    start[j]
                } by {
                    if 4 * i <= j < 4 * i + 4 {
                        assert(j / 4 == i);
                        assert(j % 4 == j - 4 * i);
                    }
                }
            }
            i = i + 1;
        }
        Ok(())
    }

    /// Bytes written to the debug port and not yet taken.
    pub fn debug_output(&self) -> (out: &[u8])
        requires
            self.wf(),
        ensures
            out@ == test_output(self@.devices),
    {
        proof {
            assert(first_with_base(self@.devices, DEBUG_IO_BASE, 1));
            lemma_lookup_base_is_first(self@.devices, DEBUG_IO_BASE, 1);
        }
        match self.bus.device_ref(DEBUG_IO_BASE) {
            Some(MachineDevice::DebugIo(d)) => d.output(),
            _ => &[],
        }
    }

    /// Hands out the debug output and clears it.
    pub fn take_debug_output(&mut self) -> (out: Vec<u8>)
        requires
            old(self).wf(),
        ensures
            final(self).wf(),
            out@ == test_output(old(self)@.devices),
            test_output(final(self)@.devices) == Seq::<u8>::empty(),
            test_ram(final(self)@.devices) == test_ram(old(self)@.devices),
            test_reporter(final(self)@.devices) == test_reporter(old(self)@.devices),
            final(self)@.cpu == old(self)@.cpu,
    {
        proof {
            assert(first_with_base(self@.devices, DEBUG_IO_BASE, 1));
            lemma_lookup_base_is_first(self@.devices, DEBUG_IO_BASE, 1);
        }
        match self.bus.device_mut(DEBUG_IO_BASE) {
            Some(MachineDevice::DebugIo(d)) => d.take_output(),
            _ => Vec::new(),
        }
    }

    /// A byte read through the bus (with the side effects of a read).
    pub fn read8_at(&mut self, addr: u32) -> (r: Result<u8, BusFault>)
        requires
            old(self).wf(),
        ensures
            final(self).wf(),
            (crate::bus::lift8(r), final(self)@.devices) == mapped_read::<MachineDevice>(old(self)@.devices, addr, AccessWidth::Byte),
            final(self)@.cpu == old(self)@.cpu,
    {
        proof { lemma_test_access_keeps_layout(self@.devices, addr, AccessWidth::Byte, 0); }
        self.bus.read8_at(addr)
    }

    /// A word read through the bus (with the side effects of a read).
    pub fn read32_at(&mut self, addr: u32) -> (r: Result<u32, BusFault>)
        requires
            old(self).wf(),
        ensures
            final(self).wf(),
            (r, final(self)@.devices) == mapped_read::<MachineDevice>(old(self)@.devices, addr, AccessWidth::Word),
            final(self)@.cpu == old(self)@.cpu,
    {
        proof { lemma_test_access_keeps_layout(self@.devices, addr, AccessWidth::Word, 0); }
        self.bus.read32_at(addr)
    }
}

} // verus!
