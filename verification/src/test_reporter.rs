//! The Test Reporter of the conformance machine: a write-only device whose aligned
//! 32-bit writes to `STATUS`, `CASE_ID` and `DETAIL` are kept; everything else faults.
use vstd::prelude::*;

use crate::bus::{AccessWidth, BusFault};
use crate::device::Device;

verus! {

/// What a reporter's `STATUS` register says.
#[derive(Debug, Clone, Copy, PartialEq, Eq, Structural)]
pub enum TestStatus {
    Running,
    Pass,
    Fail,
}

/// The four reporter registers.
#[derive(Debug, Clone, Copy, PartialEq, Eq, Default, Structural)]
pub struct ReporterState {
    pub status: u32,
    pub case_id: u32,
    pub detail: u32,
    pub reserved: u32,
}

/// The status named by a raw `STATUS` value: 1 passes, 2 fails, anything else is running.
pub open spec fn status_of(raw: u32) -> TestStatus {
    if raw == 1 {
        TestStatus::Pass
    } else if raw == 2 {
        TestStatus::Fail
    } else {
        TestStatus::Running
    }
}

/// Write outcome of a reporter in state `s`: only aligned 32-bit writes to offsets
/// 0, 4 and 8 succeed, each replacing one register.
pub open spec fn reporter_write(s: ReporterState, offset: u32, width: AccessWidth, value: u32) -> (Result<(), BusFault>, ReporterState) {
    if width != AccessWidth::Word {
        (Err(BusFault), s)
    } else if offset == 0 {
        (Ok(()), ReporterState { status: value, ..s })
    } else if offset == 4 {
        (Ok(()), ReporterState { case_id: value, ..s })
    } else if offset == 8 {
        (Ok(()), ReporterState { detail: value, ..s })
    } else {
        (Err(BusFault), s)
    }
}

#[derive(Debug, Clone, PartialEq, Eq)]
pub struct TestReporter {
    state: ReporterState,
}

impl View for TestReporter {
    type V = ReporterState;

    closed spec fn view(&self) -> ReporterState {
        self.state
    }
}

impl Default for TestReporter {
    fn default() -> (r: Self)
        ensures
            r@ == (ReporterState { status: 0, case_id: 0, detail: 0, reserved: 0 }),
    {
        TestReporter::new()
    }
}

impl TestReporter {
    pub const STATUS: u32 = 0x00;

    pub const TEST_ID: u32 = 0x04;

    pub const DETAIL: u32 = 0x08;

    pub const RESERVED: u32 = 0x0c;

    /// A reporter with every register 0.
    pub fn new() -> (r: Self)
        ensures
            r@ == (ReporterState { status: 0, case_id: 0, detail: 0, reserved: 0 }),
    {
        TestReporter { state: ReporterState { status: 0, case_id: 0, detail: 0, reserved: 0 } }
    }

    pub fn status(&self) -> (s: TestStatus)
        ensures
            s == status_of(self@.status),
    {
        if self.state.status == 1 {
            TestStatus::Pass
        } else if self.state.status == 2 {
            TestStatus::Fail
        } else {
            TestStatus::Running
        }
    }

    pub fn status_raw(&self) -> (v: u32)
        ensures
            v == self@.status,
    {
        self.state.status
    }

    pub fn test_id(&self) -> (v: u32)
        ensures
            v == self@.case_id,
    {
        self.state.case_id
    }

    pub fn detail(&self) -> (v: u32)
        ensures
            v == self@.detail,
    {
        self.state.detail
    }

    /// Host-side inspection of all registers.
    pub fn snapshot(&self) -> (s: ReporterState)
        ensures
            s == self@,
    {
        self.state
    }

    /// Host-only setup operation. It is not a bus transaction.
    pub fn restore(&mut self, state: ReporterState)
        ensures
            final(self)@ == state,
    {
        self.state = state;
    }
}

impl Device for TestReporter {
    open spec fn read_outcome(state: ReporterState, offset: u32, width: AccessWidth) -> (Result<u32, BusFault>, ReporterState) {
        (Err(BusFault), state)
    }

    open spec fn write_outcome(state: ReporterState, offset: u32, width: AccessWidth, value: u32) -> (Result<(), BusFault>, ReporterState) {
        reporter_write(state, offset, width, value)
    }

    fn read8(&mut self, _addr: u32) -> (r: Result<u8, BusFault>) {
        Err(BusFault)
    }

    fn read16(&mut self, _addr: u32) -> (r: Result<u16, BusFault>) {
        Err(BusFault)
    }

    fn read32(&mut self, _addr: u32) -> (r: Result<u32, BusFault>) {
        Err(BusFault)
    }

    fn write8(&mut self, _addr: u32, _value: u8) -> (r: Result<(), BusFault>) {
        Err(BusFault)
    }

    fn write16(&mut self, _addr: u32, _value: u16) -> (r: Result<(), BusFault>) {
        Err(BusFault)
    }

    fn write32(&mut self, addr: u32, value: u32) -> (r: Result<(), BusFault>) {
        if addr == Self::STATUS {
            self.state.status = value;
        } else if addr == Self::TEST_ID {
            self.state.case_id = value;
        } else if addr == Self::DETAIL {
            self.state.detail = value;
        } else {
            return Err(BusFault);
        }
        Ok(())
    }
}

} // verus!
