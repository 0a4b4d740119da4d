use kagura::bus::BusFault;
use kagura::conformance_machine::{ConformanceMachine, HIGH_ROM_BASE};
use kagura::debug_io::DebugIo;
use kagura::device::Device;
use kagura::high_test_rom::HighTestRom;
use kagura::ram::Ram;
use kagura::test_reporter::{ReporterState, TestReporter};

#[test]
fn debug_io_rejects_multi_byte_accesses() {
    let mut io = DebugIo::new();

    assert_eq!(io.read16(0), Err(BusFault));
    assert_eq!(io.read32(0), Err(BusFault));
    assert_eq!(io.write16(0, 0x1234), Err(BusFault));
    assert_eq!(io.write32(0, 0x1234_5678), Err(BusFault));
}

#[test]
fn debug_io_input_is_consumed_on_read() {
    let mut io = DebugIo::new();
    io.push_input(b'A');
    io.push_input(b'B');

    assert_eq!(io.read8(DebugIo::DATA), Ok(b'A'));
    assert_eq!(io.read8(DebugIo::STATUS), Ok(0b11));
    assert_eq!(io.read8(DebugIo::DATA), Ok(b'B'));
    assert_eq!(io.read8(DebugIo::STATUS), Ok(0b10));
}

#[test]
fn reporter_accepts_only_defined_aligned_word_writes() {
    let mut dev = TestReporter::new();
    dev.restore(ReporterState {
        status: 0,
        case_id: 0x1122_3344,
        detail: 0x5566_7788,
        reserved: 0,
    });

    assert_eq!(dev.write32(TestReporter::TEST_ID, 0xaabb_ccdd), Ok(()));
    assert_eq!(dev.test_id(), 0xaabb_ccdd);
    assert_eq!(dev.read32(TestReporter::TEST_ID), Err(BusFault));
    assert_eq!(dev.write8(TestReporter::STATUS, 1), Err(BusFault));
    assert_eq!(dev.write16(TestReporter::STATUS, 1), Err(BusFault));
    assert_eq!(dev.write32(TestReporter::RESERVED, 1), Err(BusFault));
    assert_eq!(
        dev.snapshot(),
        ReporterState {
            status: 0,
            case_id: 0xaabb_ccdd,
            detail: 0x5566_7788,
            reserved: 0,
        }
    );
}

#[test]
fn ram_write32_out_of_range_has_no_partial_effect() {
    let mut ram = Ram::new(4);
    ram.write32(0, 0x1122_3344).unwrap();

    assert_eq!(ram.write32(1, 0x5566_7788), Err(BusFault));
    assert_eq!(ram.read32(0), Ok(0x1122_3344));
}

#[test]
fn only_word_read_at_offset_zero_succeeds() {
    let mut rom = HighTestRom::default();
    rom.set_word(0x1122_3344);
    assert_eq!(rom.read32(0), Ok(0x1122_3344));
    assert_eq!(rom.read8(0), Err(BusFault));
    assert_eq!(rom.read16(0), Err(BusFault));
    assert_eq!(rom.read32(1), Err(BusFault));
    assert_eq!(rom.write32(0, 0), Err(BusFault));
}

#[test]
fn maps_high_rom_at_top_of_address_space() {
    let mut machine = ConformanceMachine::new().unwrap();
    machine.set_high_rom_word(0x1122_3344);
    assert_eq!(
        machine
            .perform("read", HIGH_ROM_BASE, 32, None)
            .unwrap()
            .value,
        Some(0x1122_3344)
    );
}
