//! Four-byte read-only device at the top of the conformance address space.
use vstd::prelude::*;

use crate::bus::{AccessWidth, BusFault};
use crate::device::Device;

verus! {

/// Read outcome of a ROM holding `word`: only a 32-bit read at offset 0 succeeds.
pub open spec fn rom_read(word: u32, offset: u32, width: AccessWidth) -> (Result<u32, BusFault>, u32) {
    if width == AccessWidth::Word && offset == 0 { (Ok(word), word) } else { (Err(BusFault), word) }
}

#[derive(Debug, Clone, Copy)]
pub struct HighTestRom {
    word: u32,
}

impl View for HighTestRom {
    type V = u32;

    closed spec fn view(&self) -> u32 {
        self.word
    }
}

impl Default for HighTestRom {
    /// A ROM holding 0.
    fn default() -> (r: Self)
        ensures
            r@ == 0,
    {
        HighTestRom { word: 0 }
    }
}

impl HighTestRom {
    pub fn word(&self) -> (w: u32)
        ensures
            w == self@,
    {
        self.word
    }

    /// Host-only setup operation. It is not a bus transaction.
    pub fn set_word(&mut self, word: u32)
        ensures
            final(self)@ == word,
    {
        self.word = word;
    }
}

impl Device for HighTestRom {
    open spec fn read_outcome(state: u32, offset: u32, width: AccessWidth) -> (Result<u32, BusFault>, u32) {
        rom_read(state, offset, width)
    }

    open spec fn write_outcome(state: u32, offset: u32, width: AccessWidth, value: u32) -> (Result<(), BusFault>, u32) {
        (Err(BusFault), state)
    }

    fn read8(&mut self, _addr: u32) -> (r: Result<u8, BusFault>) {
        Err(BusFault)
    }

    fn read16(&mut self, _addr: u32) -> (r: Result<u16, BusFault>) {
        Err(BusFault)
    }

    fn read32(&mut self, addr: u32) -> (r: Result<u32, BusFault>) {
        if addr == 0 { Ok(self.word) } else { Err(BusFault) }
    }

    fn write8(&mut self, _addr: u32, _value: u8) -> (r: Result<(), BusFault>) {
        Err(BusFault)
    }

    fn write16(&mut self, _addr: u32, _value: u16) -> (r: Result<(), BusFault>) {
        Err(BusFault)
    }

    fn write32(&mut self, _addr: u32, _value: u32) -> (r: Result<(), BusFault>) {
        Err(BusFault)
    }
}

} // verus!
