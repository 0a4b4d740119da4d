//! The conformance test machine: a CPU on a bus with 64 KiB of Test RAM at 0, the Test
//! Reporter at `0xFFFFF000` and the 4-byte High Test ROM at `0xFFFFFFFC`. Every bus access
//! that the CPU makes is recorded in a trace; host setup and inspection are not.
use vstd::prelude::*;

use crate::bus::{
    AccessWidth, Bus, BusFault, DefaultBus, MappingView, first_containing, first_with_base,
    lemma_lookup_base_is_first, lemma_lookup_is_first, lemma_mapped_access_keeps_layout,
    lemma_mapped_fault_is_atomic, lookup, lookup_base, mapped_read, mapped_write,
};
use crate::cpu::{Cpu, CpuView, Fault, step_outcome};
use crate::high_test_rom::HighTestRom;
use crate::machine_device::{
    MachineDevice, MachineDeviceView, lemma_machine_device_access, same_shape,
};
use crate::ram::Ram;
use crate::test_reporter::{ReporterState, TestReporter};

verus! {

pub const RAM_BASE: u32 = 0x0000_0000;

pub const RAM_SIZE: u32 = 0x0001_0000;

pub const REPORTER_BASE: u32 = 0xffff_f000;

pub const REPORTER_SIZE: u32 = 0x10;

pub const HIGH_ROM_BASE: u32 = 0xffff_fffc;

pub const HIGH_ROM_SIZE: u32 = 4;

/// One recorded bus access: `operation` is `"read"` or `"write"`, `width` is in bits,
/// `result` is `"ok"` or `"fault"`; `value` is the value read (successful reads) or the
/// value written (all writes).
#[derive(Debug, Clone, PartialEq, Eq)]
pub struct BusEvent {
    pub operation: &'static str,
    pub address: u32,
    pub width: u8,
    pub result: &'static str,
    pub value: Option<u32>,
}

/// Width of an access in bits.
pub open spec fn width_code(w: AccessWidth) -> u8 {
    match w {
        AccessWidth::Byte => 8,
        AccessWidth::Half => 16,
        AccessWidth::Word => 32,
    }
}

/// The trace entry of a read at `addr` of `width` that answered `r`.
pub open spec fn read_event(addr: u32, width: AccessWidth, r: Result<u32, BusFault>) -> BusEvent {
    BusEvent {
        operation: "read",
        address: addr,
        width: width_code(width),
        result: if r is Ok { "ok" } else { "fault" },
        value: match r {
            Ok(v) => Some(v),
            Err(_) => None,
        },
    }
}

/// The trace entry of a write of `value` at `addr` of `width` that answered `r`.
pub open spec fn write_event(addr: u32, width: AccessWidth, value: u32, r: Result<(), BusFault>) -> BusEvent {
    BusEvent {
        operation: "write",
        address: addr,
        width: width_code(width),
        result: if r is Ok { "ok" } else { "fault" },
        value: Some(value),
    }
}

/// The access width named by a width in bits.
pub open spec fn width_of_code(code: u8) -> Option<AccessWidth> {
    if code == 8 {
        Some(AccessWidth::Byte)
    } else if code == 16 {
        Some(AccessWidth::Half)
    } else if code == 32 {
        Some(AccessWidth::Word)
    } else {
        None
    }
}

fn width_of_code_exec(code: u8) -> (w: Option<AccessWidth>)
    ensures
        w == width_of_code(code),
{
    if code == 8 {
        Some(AccessWidth::Byte)
    } else if code == 16 {
        Some(AccessWidth::Half)
    } else if code == 32 {
        Some(AccessWidth::Word)
    } else {
        None
    }
}

/// `value` truncated to the width `w`.
pub open spec fn truncate_code(value: u32, w: AccessWidth) -> u32 {
    crate::cpu::truncate(value, w)
}

/// Whether a direct transaction is well-formed: a read, or a write with a value, of
/// width 8, 16 or 32.
pub open spec fn transaction_accepted(operation: Seq<char>, width: u8, value: Option<u32>) -> bool {
    &&& width_of_code(width) is Some
    &&& (operation == "read"@ || (operation == "write"@ && value is Some))
}

/// Event and devices after a well-formed direct transaction on the devices `ms`.
pub open spec fn perform_outcome(ms: Seq<MappingView<MachineDeviceView>>, operation: Seq<char>, address: u32, width: u8, value: Option<u32>) -> (BusEvent, Seq<MappingView<MachineDeviceView>>) {
    let w = width_of_code(width)->0;
    if operation == "read"@ {
        let (r, d) = mapped_read::<MachineDevice>(ms, address, w);
        (BusEvent {
            operation: "read",
            address,
            width,
            result: if r is Ok { "ok" } else { "fault" },
            value: match r {
                Ok(v) => Some(v),
                Err(_) => None,
            },
        }, d)
    } else {
        let (r, d) = mapped_write::<MachineDevice>(ms, address, w, truncate_code(value->0, w));
        (BusEvent { operation: "write", address, width, result: if r is Ok { "ok" } else { "fault" }, value: None }, d)
    }
}

/// The mapped devices and the trace of a `TracingBus`.
pub struct TracingView {
    pub devices: Seq<MappingView<MachineDeviceView>>,
    pub trace: Seq<BusEvent>,
}

/// A bus that forwards every access to its mapped devices and records it.
pub struct TracingBus {
    inner: DefaultBus<MachineDevice>,
    trace: Vec<BusEvent>,
}

impl View for TracingBus {
    type V = TracingView;

    closed spec fn view(&self) -> TracingView {
        TracingView { devices: self.inner@, trace: self.trace@ }
    }
}

fn width_code_exec(w: AccessWidth) -> (c: u8)
    ensures
        c == width_code(w),
{
    match w {
        AccessWidth::Byte => 8,
        AccessWidth::Half => 16,
        AccessWidth::Word => 32,
    }
}

impl TracingBus {
    fn record_read(&mut self, addr: u32, width: AccessWidth, r: Result<u32, BusFault>)
        ensures
            final(self)@.devices == old(self)@.devices,
            final(self)@.trace == old(self)@.trace.push(read_event(addr, width, r)),
    {
        let value = match r {
            Ok(v) => Some(v),
            Err(_) => None,
        };
        let result = if r.is_ok() { "ok" } else { "fault" };
        self.trace.push(BusEvent { operation: "read", address: addr, width: width_code_exec(width), result, value });
    }

    fn record_write(&mut self, addr: u32, width: AccessWidth, value: u32, r: Result<(), BusFault>)
        ensures
            final(self)@.devices == old(self)@.devices,
            final(self)@.trace == old(self)@.trace.push(write_event(addr, width, value, r)),
    {
        let result = if r.is_ok() { "ok" } else { "fault" };
        self.trace.push(BusEvent { operation: "write", address: addr, width: width_code_exec(width), result, value: Some(value) });
    }
}

impl Bus for TracingBus {
    open spec fn read_outcome(state: TracingView, addr: u32, width: AccessWidth) -> (Result<u32, BusFault>, TracingView) {
        let (r, d) = mapped_read::<MachineDevice>(state.devices, addr, width);
        (r, TracingView { devices: d, trace: state.trace.push(read_event(addr, width, r)) })
    }

    open spec fn write_outcome(state: TracingView, addr: u32, width: AccessWidth, value: u32) -> (Result<(), BusFault>, TracingView) {
        let (r, d) = mapped_write::<MachineDevice>(state.devices, addr, width, value);
        (r, TracingView { devices: d, trace: state.trace.push(write_event(addr, width, value, r)) })
    }

    fn read8(&mut self, addr: u32) -> (r: Result<u8, BusFault>) {
        let r = self.inner.read8_at(addr);
        self.record_read(addr, AccessWidth::Byte, match r {
            Ok(v) => Ok(v as u32),
            Err(e) => Err(e),
        });
        r
    }

    fn read16(&mut self, addr: u32) -> (r: Result<u16, BusFault>) {
        let r = self.inner.read16_at(addr);
        self.record_read(addr, AccessWidth::Half, match r {
            Ok(v) => Ok(v as u32),
            Err(e) => Err(e),
        });
        r
    }

    fn read32(&mut self, addr: u32) -> (r: Result<u32, BusFault>) {
        let r = self.inner.read32_at(addr);
        self.record_read(addr, AccessWidth::Word, r);
        r
    }

    fn write8(&mut self, addr: u32, value: u8) -> (r: Result<(), BusFault>) {
        let r = self.inner.load8(addr, value);
        self.record_write(addr, AccessWidth::Byte, value as u32, r);
        r
    }

    fn write16(&mut self, addr: u32, value: u16) -> (r: Result<(), BusFault>) {
        let r = self.inner.load16(addr, value);
        self.record_write(addr, AccessWidth::Half, value as u32, r);
        r
    }

    fn write32(&mut self, addr: u32, value: u32) -> (r: Result<(), BusFault>) {
        let r = self.inner.load32(addr, value);
        self.record_write(addr, AccessWidth::Word, value, r);
        r
    }
}

/// The fixed address map of the conformance machine: Test RAM (64 KiB), Reporter and
/// High Test ROM, in this order.
pub open spec fn conformance_layout(ms: Seq<MappingView<MachineDeviceView>>) -> bool {
    &&& ms.len() == 3
    &&& ms[0].base == RAM_BASE && ms[0].end == RAM_BASE + RAM_SIZE
    &&& ms[0].device matches MachineDeviceView::Ram(m) && m.len() == RAM_SIZE
    &&& ms[1].base == REPORTER_BASE && ms[1].end == REPORTER_BASE + REPORTER_SIZE
    &&& ms[1].device is Reporter
    &&& ms[2].base == HIGH_ROM_BASE && ms[2].end == HIGH_ROM_BASE + HIGH_ROM_SIZE
    &&& ms[2].device is HighRom
}

/// Test RAM contents.
pub open spec fn ram_of(ms: Seq<MappingView<MachineDeviceView>>) -> Seq<u8> {
    match ms[0].device {
        MachineDeviceView::Ram(m) => m,
        _ => Seq::empty(),
    }
}

/// Reporter registers.
pub open spec fn reporter_of(ms: Seq<MappingView<MachineDeviceView>>) -> ReporterState {
    match ms[1].device {
        MachineDeviceView::Reporter(s) => s,
        _ => ReporterState { status: 0, case_id: 0, detail: 0, reserved: 0 },
    }
}

/// High Test ROM word.
pub open spec fn rom_of(ms: Seq<MappingView<MachineDeviceView>>) -> u32 {
    match ms[2].device {
        MachineDeviceView::HighRom(w) => w,
        _ => 0,
    }
}

/// The devices of the conformance address map holding `ram`, `reporter` and `rom`.
pub open spec fn layout_devices(ram: Seq<u8>, reporter: ReporterState, rom: u32) -> Seq<MappingView<MachineDeviceView>> {
    seq![
        MappingView { base: RAM_BASE, end: (RAM_BASE + RAM_SIZE) as u64, device: MachineDeviceView::Ram(ram) },
        MappingView { base: REPORTER_BASE, end: (REPORTER_BASE + REPORTER_SIZE) as u64, device: MachineDeviceView::Reporter(reporter) },
        MappingView { base: HIGH_ROM_BASE, end: (HIGH_ROM_BASE + HIGH_ROM_SIZE) as u64, device: MachineDeviceView::HighRom(rom) },
    ]
}

/// On the conformance address map, the devices are determined by the RAM contents, the
/// Reporter registers and the ROM word.
pub proof fn lemma_layout_determined(ms: Seq<MappingView<MachineDeviceView>>)
    requires
        conformance_layout(ms),
    ensures
        ms == layout_devices(ram_of(ms), reporter_of(ms), rom_of(ms)),
{
    let l = layout_devices(ram_of(ms), reporter_of(ms), rom_of(ms));
    assert(ms[0] == l[0]);
    assert(ms[1] == l[1]);
    assert(ms[2] == l[2]);
    assert(ms =~= l);
}

/// No access through the tracing bus changes the conformance address map.
pub proof fn lemma_tracing_access_keeps_layout(s: TracingView, addr: u32, width: AccessWidth, value: u32)
    requires
        conformance_layout(s.devices),
    ensures
        conformance_layout(TracingBus::read_outcome(s, addr, width).1.devices),
        conformance_layout(TracingBus::write_outcome(s, addr, width, value).1.devices),
{
    let ms = s.devices;
    lemma_mapped_access_keeps_layout::<MachineDevice>(ms, addr, width, value);
    if let Some(k) = lookup(ms, addr) {
        assert(first_containing(ms, addr, k));
        let m = ms[k];
        lemma_machine_device_access(m.device, (addr - m.base) as u32, width, value);
    }
    let r = mapped_read::<MachineDevice>(ms, addr, width).1;
    let w = mapped_write::<MachineDevice>(ms, addr, width, value).1;
    assert(same_shape(ms[0].device, r[0].device) && same_shape(ms[1].device, r[1].device) && same_shape(ms[2].device, r[2].device));
    assert(same_shape(ms[0].device, w[0].device) && same_shape(ms[1].device, w[1].device) && same_shape(ms[2].device, w[2].device));
}

/// No CPU step on the tracing bus changes the conformance address map.
pub proof fn lemma_step_keeps_layout(c: CpuView, s: TracingView)
    requires
        conformance_layout(s.devices),
    ensures
        conformance_layout(step_outcome::<TracingBus>(c, s).2.devices),
{
    assert forall|t: TracingView, addr: u32, width: AccessWidth, value: u32| conformance_layout(t.devices) implies
        conformance_layout((#[trigger] TracingBus::read_outcome(t, addr, width)).1.devices)
        && conformance_layout((#[trigger] TracingBus::write_outcome(t, addr, width, value)).1.devices) by {
        lemma_tracing_access_keeps_layout(t, addr, width, value);
    }
}


/// A faulting instruction leaves the CPU and every device of the conformance machine as
/// they were; only the trace records the accesses it made.
pub proof fn lemma_fault_keeps_state(c: CpuView, s: TracingView)
    requires
        conformance_layout(s.devices),
    ensures
        step_outcome::<TracingBus>(c, s).0 is Err ==> step_outcome::<TracingBus>(c, s).1 == c
            && step_outcome::<TracingBus>(c, s).2.devices == s.devices,
{
    crate::cpu::lemma_fault_keeps_cpu::<TracingBus>(c, s);
    crate::machine_device::lemma_machine_devices_fault_atomic();
    if c.pc % 4 == 0 {
        crate::machine_device::lemma_word_read_keeps_bus(s.devices, c.pc);
        let (f, b1) = TracingBus::read_outcome(s, c.pc, AccessWidth::Word);
        assert(b1.devices == s.devices);
        if let Ok(w) = f {
            let op = crate::cpu::field_op(w);
            let addr = crate::cpu::add3(c.regs[crate::cpu::field_rs1(w) as int], c.regs[crate::cpu::field_rs2(w) as int], crate::cpu::sext16(crate::cpu::field_imm(w)));
            let width = crate::cpu::mem_width(op);
            let value = crate::cpu::truncate(c.regs[crate::cpu::field_rd(w) as int], width);
            lemma_mapped_fault_is_atomic::<MachineDevice>(b1.devices, addr, width, value);
        }
    }
}

/// CPU state and tracing-bus state of a `ConformanceMachine`.
pub struct MachineView {
    pub cpu: CpuView,
    pub bus: TracingView,
}

/// The CPU and its tracing bus.
pub struct ConformanceMachine {
    cpu: Cpu,
    bus: TracingBus,
}

impl View for ConformanceMachine {
    type V = MachineView;

    closed spec fn view(&self) -> MachineView {
        MachineView { cpu: self.cpu@, bus: self.bus@ }
    }
}

impl MachineView {
    /// Test RAM contents.
    pub open spec fn ram(self) -> Seq<u8> {
        ram_of(self.bus.devices)
    }

    /// Reporter registers.
    pub open spec fn reporter(self) -> ReporterState {
        reporter_of(self.bus.devices)
    }

    /// High Test ROM word.
    pub open spec fn rom(self) -> u32 {
        rom_of(self.bus.devices)
    }
}

impl ConformanceMachine {
    /// The machine keeps its fixed address map.
    pub open spec fn wf(&self) -> bool {
        conformance_layout(self@.bus.devices)
    }

    /// A machine in the state the conformance setup starts from: CPU reset, Test RAM all
    /// zero, Reporter registers zero, ROM word zero, empty trace. Mapping the fixed address
    /// map cannot fail.
    pub fn new() -> (r: Result<Self, String>)
        ensures
            r is Ok,
            r matches Ok(m) ==> {
                &&& m.wf()
                &&& m@.cpu == crate::cpu::reset_view()
                &&& m@.ram() == Seq::new(RAM_SIZE as nat, |i: int| 0u8)
                &&& m@.reporter() == (ReporterState { status: 0, case_id: 0, detail: 0, reserved: 0 })
                &&& m@.rom() == 0
                &&& m@.bus.trace == Seq::<BusEvent>::empty()
            },
    {
        let mut bus = DefaultBus::new();
        let ram = Ram::new(RAM_SIZE as usize);
        let ghost ram_view = ram@;
        if bus.map_device(RAM_BASE, RAM_SIZE, MachineDevice::Ram(ram)).is_err() {
            return Err(crate::text::owned("cannot map Test RAM"));
        }
        if bus.map_device(REPORTER_BASE, REPORTER_SIZE, MachineDevice::Reporter(TestReporter::new())).is_err() {
            return Err(crate::text::owned("cannot map Test Reporter"));
        }
        let rom = HighTestRom::default();
        if bus.map_device(HIGH_ROM_BASE, HIGH_ROM_SIZE, MachineDevice::HighRom(rom)).is_err() {
            return Err(crate::text::owned("cannot map High Test ROM"));
        }
        let m = ConformanceMachine { cpu: Cpu::new(), bus: TracingBus { inner: bus, trace: Vec::new() } };
        assert(m@.ram() =~= Seq::new(RAM_SIZE as nat, |i: int| 0u8));
        Ok(m)
    }

    pub fn set_pc(&mut self, pc: u32)
        ensures
            final(self)@.cpu == crate::cpu::advance(old(self)@.cpu, pc),
            final(self)@.bus == old(self)@.bus,
    {
        self.cpu.set_pc(pc);
    }

    pub fn pc(&self) -> (pc: u32)
        ensures
            pc == self@.cpu.pc,
    {
        self.cpu.pc()
    }

    /// Writes register `index` (a write to `r0` is discarded).
    pub fn set_reg(&mut self, index: usize, value: u32)
        requires
            index < 16,
        ensures
            final(self)@.cpu == crate::cpu::commit(old(self)@.cpu, index as int, value, old(self)@.cpu.pc),
            final(self)@.bus == old(self)@.bus,
    {
        self.cpu.set_reg(index, value);
    }

    pub fn reg(&self, index: usize) -> (v: u32)
        requires
            index < 16,
        ensures
            v == self@.cpu.regs[index as int],
    {
        self.cpu.reg(index)
    }

    /// Executes one instruction; every bus access it makes is appended to the trace.
    pub fn step(&mut self) -> (r: Result<(), Fault>)
        requires
            old(self).wf(),
        ensures
            final(self).wf(),
            (r, final(self)@.cpu, final(self)@.bus) == step_outcome::<TracingBus>(old(self)@.cpu, old(self)@.bus),
    {
        proof { lemma_step_keeps_layout(self@.cpu, self@.bus); }
        self.cpu.step(&mut self.bus)
    }

    /// The accesses recorded since the trace was last cleared.
    pub fn trace(&self) -> (t: &[BusEvent])
        ensures
            t@ == self@.bus.trace,
    {
        self.bus.trace.as_slice()
    }

    pub fn clear_trace(&mut self)
        ensures
            final(self)@.bus.trace == Seq::<BusEvent>::empty(),
            final(self)@.bus.devices == old(self)@.bus.devices,
            final(self)@.cpu == old(self)@.cpu,
    {
        self.bus.trace.clear();
    }

    /// Host-side store of one Test RAM byte; not a bus transaction.
    fn ram_store(&mut self, offset: u32, value: u8)
        requires
            old(self).wf(),
            offset < RAM_SIZE,
        ensures
            final(self).wf(),
            final(self)@.ram() == old(self)@.ram().update(offset as int, value),
            final(self)@.reporter() == old(self)@.reporter(),
            final(self)@.rom() == old(self)@.rom(),
            final(self)@.bus.trace == old(self)@.bus.trace,
            final(self)@.cpu == old(self)@.cpu,
    {
        proof {
            assert(first_with_base(self@.bus.devices, RAM_BASE, 0));
            lemma_lookup_base_is_first(self@.bus.devices, RAM_BASE, 0);
        }
        let ghost before = self@;
        match self.bus.inner.device_mut(RAM_BASE) {
            Some(MachineDevice::Ram(ram)) => {
                let _ = ram.load8(offset, value);
            },
            _ => {},
        }
        assert(self@.ram() =~= before.ram().update(offset as int, value));
    }

    /// Host-side read of one Test RAM byte; not a bus transaction.
    fn ram_byte(&self, offset: u32) -> (b: u8)
        requires
            self.wf(),
            offset < RAM_SIZE,
        ensures
            b == self@.ram()[offset as int],
    {
        proof {
            assert(first_with_base(self@.bus.devices, RAM_BASE, 0));
            lemma_lookup_base_is_first(self@.bus.devices, RAM_BASE, 0);
        }
        match self.bus.inner.device_ref(RAM_BASE) {
            Some(MachineDevice::Ram(ram)) => match ram.read8_at(offset) {
                Ok(b) => b,
                Err(_) => 0,
            },
            _ => 0,
        }
    }

    /// Copies a binary image to Test RAM from address 0. Fails without any change when the
    /// image is larger than Test RAM.
    pub fn load_ram(&mut self, bytes: &[u8]) -> (r: Result<(), BusFault>)
        requires
            old(self).wf(),
        ensures
            final(self).wf(),
            r is Err <==> bytes@.len() > RAM_SIZE,
            r is Err ==> final(self)@ == old(self)@,
            r is Ok ==> final(self)@.ram() == bytes@ + old(self)@.ram().skip(bytes@.len() as int),
            final(self)@.reporter() == old(self)@.reporter(),
            final(self)@.rom() == old(self)@.rom(),
            final(self)@.bus.trace == old(self)@.bus.trace,
            final(self)@.cpu == old(self)@.cpu,
    {
        if bytes.len() > RAM_SIZE as usize {
            return Err(BusFault);
        }
        self.patch_memory(0, bytes)
    }

    /// Copies `bytes` to Test RAM at `address`. Fails without any change when the range
    /// does not fit in Test RAM.
    pub fn patch_memory(&mut self, address: u32, bytes: &[u8]) -> (r: Result<(), BusFault>)
        requires
            old(self).wf(),
        ensures
            final(self).wf(),
            r is Err <==> address + bytes@.len() > RAM_SIZE,
            r is Err ==> final(self)@ == old(self)@,
            r is Ok ==> final(self)@.ram() == old(self)@.ram().take(address as int) + bytes@
                + old(self)@.ram().skip(address + bytes@.len()),
            final(self)@.reporter() == old(self)@.reporter(),
            final(self)@.rom() == old(self)@.rom(),
            final(self)@.bus.trace == old(self)@.bus.trace,
            final(self)@.cpu == old(self)@.cpu,
    {
        if bytes.len() > RAM_SIZE as usize || address as usize > RAM_SIZE as usize - bytes.len() {
            return Err(BusFault);
        }
        let ghost start = self@.ram();
        let mut k: usize = 0;
        while k < bytes.len()
            invariant
                self.wf(),
                k <= bytes@.len(),
                address + bytes@.len() <= RAM_SIZE,
                self@.ram().len() == RAM_SIZE,
                start.len() == RAM_SIZE,
                forall|i: int| 0 <= i < RAM_SIZE ==> #[trigger] self@.ram()[i] == if address <= i < address + k {
                    bytes@[i - address]
                } else {
                    start[i]
                },
                self@.reporter() == old(self)@.reporter(),
                self@.rom() == old(self)@.rom(),
                self@.bus.trace == old(self)@.bus.trace,
                self@.cpu == old(self)@.cpu,
            decreases bytes@.len() - k,
        {
            self.ram_store(address + k as u32, bytes[k]);
            k = k + 1;
        }
        assert(self@.ram() =~= start.take(address as int) + bytes@ + start.skip(address + bytes@.len()));
        Ok(())
    }

    /// Copies `length` bytes of Test RAM from `address`, without side effects. Fails when
    /// the range does not fit in Test RAM.
    pub fn read_memory(&self, address: u32, length: usize) -> (r: Result<Vec<u8>, BusFault>)
        requires
            self.wf(),
        ensures
            r is Err <==> address + length > RAM_SIZE,
            r matches Ok(v) ==> v@ == self@.ram().subrange(address as int, address + length),
    {
        if length > RAM_SIZE as usize || address as usize > RAM_SIZE as usize - length {
            return Err(BusFault);
        }
        let mut out: Vec<u8> = Vec::new();
        let mut k: usize = 0;
        while k < length
            invariant
                self.wf(),
                k <= length,
                address + length <= RAM_SIZE,
                out@ == self@.ram().subrange(address as int, address + k),
            decreases length - k,
        {
            let b = self.ram_byte(address + k as u32);
            out.push(b);
            k = k + 1;
            assert(out@ =~= self@.ram().subrange(address as int, address + k));
        }
        Ok(out)
    }

    /// Host-side snapshot of the Reporter registers.
    pub fn reporter(&self) -> (s: ReporterState)
        requires
            self.wf(),
        ensures
            s == self@.reporter(),
    {
        proof {
            assert(first_with_base(self@.bus.devices, REPORTER_BASE, 1));
            lemma_lookup_base_is_first(self@.bus.devices, REPORTER_BASE, 1);
        }
        match self.bus.inner.device_ref(REPORTER_BASE) {
            Some(MachineDevice::Reporter(r)) => r.snapshot(),
            _ => ReporterState { status: 0, case_id: 0, detail: 0, reserved: 0 },
        }
    }

    /// Host-side setup of the Reporter registers; not a bus transaction.
    pub fn restore_reporter(&mut self, state: ReporterState)
        requires
            old(self).wf(),
        ensures
            final(self).wf(),
            final(self)@.reporter() == state,
            final(self)@.ram() == old(self)@.ram(),
            final(self)@.rom() == old(self)@.rom(),
            final(self)@.bus.trace == old(self)@.bus.trace,
            final(self)@.cpu == old(self)@.cpu,
    {
        proof {
            assert(first_with_base(self@.bus.devices, REPORTER_BASE, 1));
            lemma_lookup_base_is_first(self@.bus.devices, REPORTER_BASE, 1);
        }
        match self.bus.inner.device_mut(REPORTER_BASE) {
            Some(MachineDevice::Reporter(r)) => r.restore(state),
            _ => {},
        }
    }

    /// Applies one bus transaction directly to the devices, without the CPU and without
    /// recording it in the trace. `operation` is `"read"` or `"write"`, `width` is 8, 16 or
    /// 32 bits; a write needs a value, which is truncated to the width. The event returned
    /// has the value read for reads and no value for writes.
    pub fn perform(&mut self, operation: &str, address: u32, width: u8, value: Option<u32>) -> (r: Result<BusEvent, String>)
        requires
            old(self).wf(),
        ensures
            final(self).wf(),
            final(self)@.bus.trace == old(self)@.bus.trace,
            final(self)@.cpu == old(self)@.cpu,
            r is Ok <==> transaction_accepted(operation@, width, value),
            r is Err ==> final(self)@ == old(self)@,
            r matches Ok(e) ==> (e, final(self)@.bus.devices) == perform_outcome(old(self)@.bus.devices, operation@, address, width, value),
            r matches Err(m) ==> m@ == (if operation@ == "write"@ && width_of_code(width) is Some { "write value missing"@ } else { "invalid transaction"@ }),
    {
        let w = match width_of_code_exec(width) {
            Some(w) => w,
            None => return Err(crate::text::owned("invalid transaction")),
        };
        let is_read = crate::text::str_eq(operation, "read");
        let is_write = crate::text::str_eq(operation, "write");
        proof {
            lemma_tracing_access_keeps_layout(self@.bus, address, w, match value { Some(v) => truncate_code(v, w), None => 0 });
        }
        if is_read {
            let result: Result<u32, BusFault> = match w {
                AccessWidth::Byte => match self.bus.inner.read8_at(address) {
                    Ok(v) => Ok(v as u32),
                    Err(e) => Err(e),
                },
                AccessWidth::Half => match self.bus.inner.read16_at(address) {
                    Ok(v) => Ok(v as u32),
                    Err(e) => Err(e),
                },
                AccessWidth::Word => self.bus.inner.read32_at(address),
            };
            let result_text = if result.is_ok() { "ok" } else { "fault" };
            let read_value = match result {
                Ok(v) => Some(v),
                Err(_) => None,
            };
            Ok(BusEvent { operation: "read", address, width, result: result_text, value: read_value })
        } else if is_write {
            let v = match value {
                Some(v) => v,
                None => return Err(crate::text::owned("write value missing")),
            };
            let result = match w {
                AccessWidth::Byte => self.bus.inner.load8(address, (v % 0x100) as u8),
                AccessWidth::Half => self.bus.inner.load16(address, (v % 0x1_0000) as u16),
                AccessWidth::Word => self.bus.inner.load32(address, v),
            };
            let result_text = if result.is_ok() { "ok" } else { "fault" };
            Ok(BusEvent { operation: "write", address, width, result: result_text, value: None })
        } else {
            Err(crate::text::owned("invalid transaction"))
        }
    }

    /// Host-side read of the High Test ROM word.
    pub fn high_rom_word(&self) -> (w: u32)
        requires
            self.wf(),
        ensures
            w == self@.rom(),
    {
        proof {
            assert(first_with_base(self@.bus.devices, HIGH_ROM_BASE, 2));
            lemma_lookup_base_is_first(self@.bus.devices, HIGH_ROM_BASE, 2);
        }
        match self.bus.inner.device_ref(HIGH_ROM_BASE) {
            Some(MachineDevice::HighRom(r)) => r.word(),
            _ => 0,
        }
    }

    /// Host-side setup of the High Test ROM word; not a bus transaction.
    pub fn set_high_rom_word(&mut self, word: u32)
        requires
            old(self).wf(),
        ensures
            final(self).wf(),
            final(self)@.rom() == word,
            final(self)@.ram() == old(self)@.ram(),
            final(self)@.reporter() == old(self)@.reporter(),
            final(self)@.bus.trace == old(self)@.bus.trace,
            final(self)@.cpu == old(self)@.cpu,
    {
        proof {
            assert(first_with_base(self@.bus.devices, HIGH_ROM_BASE, 2));
            lemma_lookup_base_is_first(self@.bus.devices, HIGH_ROM_BASE, 2);
        }
        match self.bus.inner.device_mut(HIGH_ROM_BASE) {
            Some(MachineDevice::HighRom(r)) => r.set_word(word),
            _ => {},
        }
    }
}

} // verus!
