//! The device interface that a bus maps into its address space.
//!
//! A device is modelled by its view: what a read or a write of a given width at a
//! given offset answers, and what state it leaves behind, is a function of the
//! view alone. Every access method is tied to those two spec functions.
use vstd::prelude::*;

use crate::bus::{AccessWidth, BusFault, lift8, lift16};

verus! {

/// A device that can be mapped on a bus. Offsets are relative to the mapping base.
pub trait Device: View + Sized {
    /// Value (zero-extended to 32 bits) or fault answered by a read, and the state after it.
    spec fn read_outcome(state: Self::V, offset: u32, width: AccessWidth) -> (Result<u32, BusFault>, Self::V);

    /// Fault or success of a write of `value` (already truncated to `width`), and the state after it.
    spec fn write_outcome(state: Self::V, offset: u32, width: AccessWidth, value: u32) -> (Result<(), BusFault>, Self::V);

    fn read8(&mut self, addr: u32) -> (r: Result<u8, BusFault>)
        ensures
            (lift8(r), final(self)@) == Self::read_outcome(old(self)@, addr, AccessWidth::Byte),
    ;

    fn read16(&mut self, addr: u32) -> (r: Result<u16, BusFault>)
        ensures
            (lift16(r), final(self)@) == Self::read_outcome(old(self)@, addr, AccessWidth::Half),
    ;

    fn read32(&mut self, addr: u32) -> (r: Result<u32, BusFault>)
        ensures
            (r, final(self)@) == Self::read_outcome(old(self)@, addr, AccessWidth::Word),
    ;

    fn write8(&mut self, addr: u32, value: u8) -> (r: Result<(), BusFault>)
        ensures
            (r, final(self)@) == Self::write_outcome(old(self)@, addr, AccessWidth::Byte, value as u32),
    ;

    fn write16(&mut self, addr: u32, value: u16) -> (r: Result<(), BusFault>)
        ensures
            (r, final(self)@) == Self::write_outcome(old(self)@, addr, AccessWidth::Half, value as u32),
    ;

    fn write32(&mut self, addr: u32, value: u32) -> (r: Result<(), BusFault>)
        ensures
            (r, final(self)@) == Self::write_outcome(old(self)@, addr, AccessWidth::Word, value),
    ;
}

} // verus!
