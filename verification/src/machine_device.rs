//! The closed set of devices that the reference machines map on their buses.
use vstd::prelude::*;

use crate::bus::{AccessWidth, BusFault, MappingView, first_containing, lookup, mapped_read, mapped_write, width_bytes};
use crate::debug_io::{DebugIo, DebugIoView};
use crate::device::Device;
use crate::high_test_rom::HighTestRom;
use crate::ram::Ram;
use crate::test_reporter::{ReporterState, TestReporter};

verus! {

/// One of the reference devices.
pub enum MachineDevice {
    Ram(Ram),
    DebugIo(DebugIo),
    Reporter(TestReporter),
    HighRom(HighTestRom),
}

/// View of a `MachineDevice`: the view of the device it holds.
pub enum MachineDeviceView {
    Ram(Seq<u8>),
    DebugIo(DebugIoView),
    Reporter(ReporterState),
    HighRom(u32),
}

impl View for MachineDevice {
    type V = MachineDeviceView;

    open spec fn view(&self) -> MachineDeviceView {
        match self {
            MachineDevice::Ram(d) => MachineDeviceView::Ram(d@),
            MachineDevice::DebugIo(d) => MachineDeviceView::DebugIo(d@),
            MachineDevice::Reporter(d) => MachineDeviceView::Reporter(d@),
            MachineDevice::HighRom(d) => MachineDeviceView::HighRom(d@),
        }
    }
}

/// Two device views are the same kind of device, and RAMs keep their size.
pub open spec fn same_shape(a: MachineDeviceView, b: MachineDeviceView) -> bool {
    match (a, b) {
        (MachineDeviceView::Ram(x), MachineDeviceView::Ram(y)) => x.len() == y.len(),
        (MachineDeviceView::DebugIo(_), MachineDeviceView::DebugIo(_)) => true,
        (MachineDeviceView::Reporter(_), MachineDeviceView::Reporter(_)) => true,
        (MachineDeviceView::HighRom(_), MachineDeviceView::HighRom(_)) => true,
        _ => false,
    }
}

impl Device for MachineDevice {
    open spec fn read_outcome(state: MachineDeviceView, offset: u32, width: AccessWidth) -> (Result<u32, BusFault>, MachineDeviceView) {
        match state {
            MachineDeviceView::Ram(s) => {
                let (r, t) = Ram::read_outcome(s, offset, width);
                (r, MachineDeviceView::Ram(t))
            },
            MachineDeviceView::DebugIo(s) => {
                let (r, t) = DebugIo::read_outcome(s, offset, width);
                (r, MachineDeviceView::DebugIo(t))
            },
            MachineDeviceView::Reporter(s) => {
                let (r, t) = TestReporter::read_outcome(s, offset, width);
                (r, MachineDeviceView::Reporter(t))
            },
            MachineDeviceView::HighRom(s) => {
                let (r, t) = HighTestRom::read_outcome(s, offset, width);
                (r, MachineDeviceView::HighRom(t))
            },
        }
    }

    open spec fn write_outcome(state: MachineDeviceView, offset: u32, width: AccessWidth, value: u32) -> (Result<(), BusFault>, MachineDeviceView) {
        match state {
            MachineDeviceView::Ram(s) => {
                let (r, t) = Ram::write_outcome(s, offset, width, value);
                (r, MachineDeviceView::Ram(t))
            },
            MachineDeviceView::DebugIo(s) => {
                let (r, t) = DebugIo::write_outcome(s, offset, width, value);
                (r, MachineDeviceView::DebugIo(t))
            },
            MachineDeviceView::Reporter(s) => {
                let (r, t) = TestReporter::write_outcome(s, offset, width, value);
                (r, MachineDeviceView::Reporter(t))
            },
            MachineDeviceView::HighRom(s) => {
                let (r, t) = HighTestRom::write_outcome(s, offset, width, value);
                (r, MachineDeviceView::HighRom(t))
            },
        }
    }

    fn read8(&mut self, addr: u32) -> (r: Result<u8, BusFault>) {
        match self {
            MachineDevice::Ram(d) => d.read8(addr),
            MachineDevice::DebugIo(d) => d.read8(addr),
            MachineDevice::Reporter(d) => d.read8(addr),
            MachineDevice::HighRom(d) => d.read8(addr),
        }
    }

    fn read16(&mut self, addr: u32) -> (r: Result<u16, BusFault>) {
        match self {
            MachineDevice::Ram(d) => d.read16(addr),
            MachineDevice::DebugIo(d) => d.read16(addr),
            MachineDevice::Reporter(d) => d.read16(addr),
            MachineDevice::HighRom(d) => d.read16(addr),
        }
    }

    fn read32(&mut self, addr: u32) -> (r: Result<u32, BusFault>) {
        match self {
            MachineDevice::Ram(d) => d.read32(addr),
            MachineDevice::DebugIo(d) => d.read32(addr),
            MachineDevice::Reporter(d) => d.read32(addr),
            MachineDevice::HighRom(d) => d.read32(addr),
        }
    }

    fn write8(&mut self, addr: u32, value: u8) -> (r: Result<(), BusFault>) {
        match self {
            MachineDevice::Ram(d) => d.write8(addr, value),
            MachineDevice::DebugIo(d) => d.write8(addr, value),
            MachineDevice::Reporter(d) => d.write8(addr, value),
            MachineDevice::HighRom(d) => d.write8(addr, value),
        }
    }

    fn write16(&mut self, addr: u32, value: u16) -> (r: Result<(), BusFault>) {
        match self {
            MachineDevice::Ram(d) => d.write16(addr, value),
            MachineDevice::DebugIo(d) => d.write16(addr, value),
            MachineDevice::Reporter(d) => d.write16(addr, value),
            MachineDevice::HighRom(d) => d.write16(addr, value),
        }
    }

    fn write32(&mut self, addr: u32, value: u32) -> (r: Result<(), BusFault>) {
        match self {
            MachineDevice::Ram(d) => d.write32(addr, value),
            MachineDevice::DebugIo(d) => d.write32(addr, value),
            MachineDevice::Reporter(d) => d.write32(addr, value),
            MachineDevice::HighRom(d) => d.write32(addr, value),
        }
    }
}


/// Bus contract for the reference devices: an access that faults leaves the device as it
/// was, and no access changes the kind of a device or the size of a RAM.
pub proof fn lemma_machine_device_access(state: MachineDeviceView, offset: u32, width: AccessWidth, value: u32)
    ensures
        MachineDevice::read_outcome(state, offset, width).0 is Err
            ==> MachineDevice::read_outcome(state, offset, width).1 == state,
        MachineDevice::write_outcome(state, offset, width, value).0 is Err
            ==> MachineDevice::write_outcome(state, offset, width, value).1 == state,
        same_shape(state, MachineDevice::read_outcome(state, offset, width).1),
        same_shape(state, MachineDevice::write_outcome(state, offset, width, value).1),
{
}

/// A 32-bit read leaves every device of the machines as it was: only the debug port's byte reads
/// consume anything.
pub proof fn lemma_word_read_keeps_device(state: MachineDeviceView, offset: u32)
    ensures
        MachineDevice::read_outcome(state, offset, AccessWidth::Word).1 == state,
{
}

/// Every reference device leaves its state unchanged on a faulting access.
pub proof fn lemma_machine_devices_fault_atomic()
    ensures
        forall|s: MachineDeviceView, o: u32, w: AccessWidth| (#[trigger] MachineDevice::read_outcome(s, o, w)).0 is Err
            ==> MachineDevice::read_outcome(s, o, w).1 == s,
        forall|s: MachineDeviceView, o: u32, w: AccessWidth, v: u32| (#[trigger] MachineDevice::write_outcome(s, o, w, v)).0 is Err
            ==> MachineDevice::write_outcome(s, o, w, v).1 == s,
{
    assert forall|s: MachineDeviceView, o: u32, w: AccessWidth| (#[trigger] MachineDevice::read_outcome(s, o, w)).0 is Err
        implies MachineDevice::read_outcome(s, o, w).1 == s by {
        lemma_machine_device_access(s, o, w, 0);
    }
    assert forall|s: MachineDeviceView, o: u32, w: AccessWidth, v: u32| (#[trigger] MachineDevice::write_outcome(s, o, w, v)).0 is Err
        implies MachineDevice::write_outcome(s, o, w, v).1 == s by {
        lemma_machine_device_access(s, o, w, v);
    }
}

/// A 32-bit read through a bus of reference devices changes none of them.
pub proof fn lemma_word_read_keeps_bus(ms: Seq<MappingView<MachineDeviceView>>, addr: u32)
    ensures
        mapped_read::<MachineDevice>(ms, addr, AccessWidth::Word).1 == ms,
{
    if let Some(k) = lookup(ms, addr) {
        let m = ms[k];
        lemma_word_read_keeps_device(m.device, (addr - m.base) as u32);
        assert(ms.update(k, MappingView { base: m.base, end: m.end, device: m.device }) =~= ms);
    }
}


/// Accesses keep bases and ends, so the mapping that answers an address stays the same.
proof fn lemma_lookup_same_layout(ms: Seq<MappingView<MachineDeviceView>>, ms2: Seq<MappingView<MachineDeviceView>>, a: u32)
    requires
        ms2.len() == ms.len(),
        forall|i: int| 0 <= i < ms.len() ==> (#[trigger] ms2[i]).base == ms[i].base && ms2[i].end == ms[i].end,
    ensures
        lookup(ms2, a) == lookup(ms, a),
{
    assert forall|k: int| first_containing(ms2, a, k) <==> first_containing(ms, a, k) by {
        if 0 <= k < ms.len() {
            assert(ms2[k].base == ms[k].base && ms2[k].end == ms[k].end);
            if first_containing(ms2, a, k) {
                assert forall|j: int| 0 <= j < k implies !(#[trigger] ms[j]).contains(a) by {
                    assert(!ms2[j].contains(a));
                    assert(ms2[j].base == ms[j].base && ms2[j].end == ms[j].end);
                }
            }
            if first_containing(ms, a, k) {
                assert forall|j: int| 0 <= j < k implies !(#[trigger] ms2[j]).contains(a) by {
                    assert(!ms[j].contains(a));
                    assert(ms2[j].base == ms[j].base && ms2[j].end == ms[j].end);
                }
            }
        }
    }
    if let Some(i) = lookup(ms, a) {
        assert(first_containing(ms, a, i));
        assert(first_containing(ms2, a, i));
        let k = lookup(ms2, a)->Some_0;
        assert(first_containing(ms2, a, k));
        crate::bus::lemma_first_containing_unique(ms2, a, i, k);
    } else if let Some(k) = lookup(ms2, a) {
        assert(first_containing(ms2, a, k));
        assert(first_containing(ms, a, k));
    }
}

/// On a bus, a RAM gives back at an address what the last successful write of the same
/// width there stored, truncated to the width, and the read changes nothing.
pub proof fn lemma_bus_ram_read_after_write(ms: Seq<MappingView<MachineDeviceView>>, addr: u32, width: AccessWidth, value: u32)
    requires
        lookup(ms, addr) matches Some(i) && ms[i].device is Ram,
        mapped_write::<MachineDevice>(ms, addr, width, value).0 is Ok,
    ensures
        mapped_read::<MachineDevice>(mapped_write::<MachineDevice>(ms, addr, width, value).1, addr, width)
            == (Ok::<u32, BusFault>(crate::cpu::truncate(value, width)), mapped_write::<MachineDevice>(ms, addr, width, value).1),
{
    let i = lookup(ms, addr)->Some_0;
    assert(first_containing(ms, addr, i));
    let ms2 = mapped_write::<MachineDevice>(ms, addr, width, value).1;
    crate::bus::lemma_mapped_access_keeps_layout::<MachineDevice>(ms, addr, width, value);
    lemma_lookup_same_layout(ms, ms2, addr);
    let mem = ms[i].device->Ram_0;
    let o = (addr - ms[i].base) as u32;
    crate::ram::lemma_ram_read_after_write(mem, o, width, value);
    assert(ms2.update(i, ms2[i]) =~= ms2);
}

/// On a bus, a write to bytes that do not overlap an access to a RAM leaves what the RAM
/// answers there unchanged.
pub proof fn lemma_bus_ram_write_frame(ms: Seq<MappingView<MachineDeviceView>>, a: u32, wa: AccessWidth, b: u32, wb: AccessWidth, value: u32)
    requires
        lookup(ms, a) matches Some(i) && ms[i].device is Ram,
        a + width_bytes(wa) <= b || b + width_bytes(wb) <= a,
    ensures
        mapped_read::<MachineDevice>(mapped_write::<MachineDevice>(ms, b, wb, value).1, a, wa).0
            == mapped_read::<MachineDevice>(ms, a, wa).0,
{
    let i = lookup(ms, a)->Some_0;
    assert(first_containing(ms, a, i));
    let ms2 = mapped_write::<MachineDevice>(ms, b, wb, value).1;
    crate::bus::lemma_mapped_access_keeps_layout::<MachineDevice>(ms, b, wb, value);
    lemma_lookup_same_layout(ms, ms2, a);
    if lookup(ms, b) == Some(i) {
        assert(first_containing(ms, b, i));
        let mem = ms[i].device->Ram_0;
        let base = ms[i].base;
        crate::ram::lemma_ram_read_frame(mem, (a - base) as u32, wa, (b - base) as u32, wb, value);
    }
}
} // verus!
