//! A minimal 8-bit debug I/O port.
//!
//! Registers: `DATA` (offset 0) reads one pending input byte (0 when there is none) and
//! appends written bytes to the output; `STATUS` (offset 4) reads bit 0 = input
//! pending, bit 1 = output possible (always). 16- and 32-bit accesses fault.
use vstd::prelude::*;

use crate::bus::{AccessWidth, BusFault};
use crate::device::Device;

verus! {

/// Pending input and produced output of a `DebugIo`.
pub struct DebugIoView {
    pub input: Seq<u8>,
    pub output: Seq<u8>,
}

/// The `STATUS` byte for a port with `input` pending.
pub open spec fn debug_status(input: Seq<u8>) -> u32 {
    if input.len() > 0 { 3 } else { 2 }
}

/// Read outcome of a debug port in state `s`.
pub open spec fn debug_read(s: DebugIoView, offset: u32, width: AccessWidth) -> (Result<u32, BusFault>, DebugIoView) {
    if width != AccessWidth::Byte {
        (Err(BusFault), s)
    } else if offset == 0 {
        if s.input.len() == 0 {
            (Ok(0), s)
        } else {
            (Ok(s.input[0] as u32), DebugIoView { input: s.input.drop_first(), output: s.output })
        }
    } else if offset == 4 {
        (Ok(debug_status(s.input)), s)
    } else {
        (Err(BusFault), s)
    }
}

/// Write outcome of a debug port in state `s`.
pub open spec fn debug_write(s: DebugIoView, offset: u32, width: AccessWidth, value: u32) -> (Result<(), BusFault>, DebugIoView) {
    if width == AccessWidth::Byte && offset == 0 {
        (Ok(()), DebugIoView { input: s.input, output: s.output.push(value as u8) })
    } else {
        (Err(BusFault), s)
    }
}

#[derive(Debug, Clone, PartialEq, Eq)]
pub struct DebugIo {
    input: Vec<u8>,
    output: Vec<u8>,
}

impl View for DebugIo {
    type V = DebugIoView;

    closed spec fn view(&self) -> DebugIoView {
        DebugIoView { input: self.input@, output: self.output@ }
    }
}

impl Default for DebugIo {
    fn default() -> (io: Self)
        ensures
            io@.input == Seq::<u8>::empty(),
            io@.output == Seq::<u8>::empty(),
    {
        DebugIo::new()
    }
}

impl DebugIo {
    pub const DATA: u32 = 0x00;

    pub const STATUS: u32 = 0x04;

    pub fn new() -> (io: Self)
        ensures
            io@.input == Seq::<u8>::empty(),
            io@.output == Seq::<u8>::empty(),
    {
        DebugIo { input: Vec::new(), output: Vec::new() }
    }

    /// Queues one input byte.
    pub fn push_input(&mut self, value: u8)
        ensures
            final(self)@.input == old(self)@.input.push(value),
            final(self)@.output == old(self)@.output,
    {
        self.input.push(value);
    }

    /// Bytes written so far.
    pub fn output(&self) -> (out: &[u8])
        ensures
            out@ == self@.output,
    {
        self.output.as_slice()
    }

    /// Hands out the bytes written so far and clears them.
    pub fn take_output(&mut self) -> (out: Vec<u8>)
        ensures
            out@ == old(self)@.output,
            final(self)@.output == Seq::<u8>::empty(),
            final(self)@.input == old(self)@.input,
    {
        let mut out = Vec::new();
        core::mem::swap(&mut out, &mut self.output);
        out
    }

    fn status(&self) -> (b: u8)
        ensures
            b as u32 == debug_status(self@.input),
    {
        if self.input.len() > 0 { 3 } else { 2 }
    }
}

impl Device for DebugIo {
    open spec fn read_outcome(state: DebugIoView, offset: u32, width: AccessWidth) -> (Result<u32, BusFault>, DebugIoView) {
        debug_read(state, offset, width)
    }

    open spec fn write_outcome(state: DebugIoView, offset: u32, width: AccessWidth, value: u32) -> (Result<(), BusFault>, DebugIoView) {
        debug_write(state, offset, width, value)
    }

    fn read8(&mut self, addr: u32) -> (r: Result<u8, BusFault>) {
        if addr == Self::DATA {
            if self.input.len() == 0 {
                Ok(0)
            } else {
                let ghost before = self@;
                let v = self.input.remove(0);
                assert(self@.input =~= before.input.drop_first());
                Ok(v)
            }
        } else if addr == Self::STATUS {
            Ok(self.status())
        } else {
            Err(BusFault)
        }
    }

    fn read16(&mut self, _addr: u32) -> (r: Result<u16, BusFault>) {
        Err(BusFault)
    }

    fn read32(&mut self, _addr: u32) -> (r: Result<u32, BusFault>) {
        Err(BusFault)
    }

    fn write8(&mut self, addr: u32, value: u8) -> (r: Result<(), BusFault>) {
        if addr == Self::DATA {
            self.output.push(value);
            Ok(())
        } else {
            Err(BusFault)
        }
    }

    fn write16(&mut self, _addr: u32, _value: u16) -> (r: Result<(), BusFault>) {
        Err(BusFault)
    }

    fn write32(&mut self, _addr: u32, _value: u32) -> (r: Result<(), BusFault>) {
        Err(BusFault)
    }
}

} // verus!
