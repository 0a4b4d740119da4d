//! A byte-addressed RAM device of fixed size, little-endian for multi-byte accesses.
use vstd::prelude::*;

use crate::bus::{AccessWidth, BusFault, lift16, lift8, width_bytes};
use crate::device::Device;

verus! {

/// Whether an access of `width` at `offset` lies entirely inside a memory of `len` bytes.
pub open spec fn in_range(len: nat, offset: u32, width: AccessWidth) -> bool {
    offset + width_bytes(width) <= len
}

/// The little-endian value of the `width` bytes of `mem` starting at `offset`.
pub open spec fn le_value(mem: Seq<u8>, offset: int, width: AccessWidth) -> u32 {
    match width {
        AccessWidth::Byte => mem[offset] as u32,
        AccessWidth::Half => (mem[offset] + 0x100 * mem[offset + 1]) as u32,
        AccessWidth::Word => (mem[offset] + 0x100 * mem[offset + 1] + 0x1_0000 * mem[offset + 2]
            + 0x100_0000 * mem[offset + 3]) as u32,
    }
}

/// Byte `k` (0 = least significant) of `value`.
pub open spec fn byte_of(value: u32, k: nat) -> u8 {
    if k == 0 {
        (value % 0x100) as u8
    } else if k == 1 {
        ((value / 0x100) % 0x100) as u8
    } else if k == 2 {
        ((value / 0x1_0000) % 0x100) as u8
    } else {
        ((value / 0x100_0000) % 0x100) as u8
    }
}

/// `mem` with the `width` low bytes of `value` stored little-endian at `offset`.
pub open spec fn le_store(mem: Seq<u8>, offset: int, width: AccessWidth, value: u32) -> Seq<u8> {
    Seq::new(mem.len(), |i: int|
        if offset <= i < offset + width_bytes(width) { byte_of(value, (i - offset) as nat) } else { mem[i] })
}

/// Read outcome of a RAM holding `mem`: in range, the little-endian value; out of
/// range (even partly), a fault. The memory never changes.
pub open spec fn ram_read(mem: Seq<u8>, offset: u32, width: AccessWidth) -> (Result<u32, BusFault>, Seq<u8>) {
    if in_range(mem.len(), offset, width) {
        (Ok(le_value(mem, offset as int, width)), mem)
    } else {
        (Err(BusFault), mem)
    }
}

/// Write outcome of a RAM holding `mem`: in range, all bytes are stored; out of range
/// (even partly), a fault and no byte changes.
pub open spec fn ram_write(mem: Seq<u8>, offset: u32, width: AccessWidth, value: u32) -> (Result<(), BusFault>, Seq<u8>) {
    if in_range(mem.len(), offset, width) {
        (Ok(()), le_store(mem, offset as int, width, value))
    } else {
        (Err(BusFault), mem)
    }
}

/// A RAM device.
#[derive(Debug, Clone, PartialEq, Eq)]
pub struct Ram {
    mem: Vec<u8>,
}

impl View for Ram {
    type V = Seq<u8>;

    closed spec fn view(&self) -> Seq<u8> {
        self.mem@
    }
}

impl Ram {
    /// A RAM of `size` bytes, all zero.
    pub fn new(size: usize) -> (r: Self)
        ensures
            r@ == Seq::new(size as nat, |i: int| 0u8),
    {
        let mut mem: Vec<u8> = Vec::new();
        let mut k: usize = 0;
        while k < size
            invariant
                k <= size,
                mem@ == Seq::new(k as nat, |i: int| 0u8),
            decreases size - k,
        {
            mem.push(0);
            k = k + 1;
            assert(mem@ =~= Seq::new(k as nat, |i: int| 0u8));
        }
        Ram { mem }
    }

    pub fn len(&self) -> (n: usize)
        ensures
            n == self@.len(),
    {
        self.mem.len()
    }

    pub fn is_empty(&self) -> (b: bool)
        ensures
            b == (self@.len() == 0),
    {
        self.mem.len() == 0
    }

    /// Host-side initialisation of one byte.
    pub fn load8(&mut self, addr: u32, value: u8) -> (r: Result<(), BusFault>)
        ensures
            (r, final(self)@) == ram_write(old(self)@, addr, AccessWidth::Byte, value as u32),
    {
        self.write8(addr, value)
    }

    /// Host-side initialisation of a half-word.
    pub fn load16(&mut self, addr: u32, value: u16) -> (r: Result<(), BusFault>)
        ensures
            (r, final(self)@) == ram_write(old(self)@, addr, AccessWidth::Half, value as u32),
    {
        self.write16(addr, value)
    }

    /// Host-side initialisation of a word.
    pub fn load32(&mut self, addr: u32, value: u32) -> (r: Result<(), BusFault>)
        ensures
            (r, final(self)@) == ram_write(old(self)@, addr, AccessWidth::Word, value),
    {
        self.write32(addr, value)
    }

    /// Inspection of one byte, without side effects.
    pub fn read8_at(&self, addr: u32) -> (r: Result<u8, BusFault>)
        ensures
            lift8(r) == ram_read(self@, addr, AccessWidth::Byte).0,
    {
        if (addr as usize) < self.mem.len() {
            Ok(self.mem[addr as usize])
        } else {
            Err(BusFault)
        }
    }

    /// Inspection of a little-endian half-word, without side effects.
    pub fn read16_at(&self, addr: u32) -> (r: Result<u16, BusFault>)
        ensures
            lift16(r) == ram_read(self@, addr, AccessWidth::Half).0,
    {
        if (addr as u64) + 2 <= self.mem.len() as u64 {
            let base = addr as usize;
            let b0 = self.mem[base] as u16;
            let b1 = self.mem[base + 1] as u16;
            Ok(b0 + 0x100 * b1)
        } else {
            Err(BusFault)
        }
    }

    /// Inspection of a little-endian word, without side effects.
    pub fn read32_at(&self, addr: u32) -> (r: Result<u32, BusFault>)
        ensures
            r == ram_read(self@, addr, AccessWidth::Word).0,
    {
        if (addr as u64) + 4 <= self.mem.len() as u64 {
            let base = addr as usize;
            let b0 = self.mem[base] as u32;
            let b1 = self.mem[base + 1] as u32;
            let b2 = self.mem[base + 2] as u32;
            let b3 = self.mem[base + 3] as u32;
            Ok(b0 + 0x100 * b1 + 0x1_0000 * b2 + 0x100_0000 * b3)
        } else {
            Err(BusFault)
        }
    }
}

impl Device for Ram {
    open spec fn read_outcome(state: Seq<u8>, offset: u32, width: AccessWidth) -> (Result<u32, BusFault>, Seq<u8>) {
        ram_read(state, offset, width)
    }

    open spec fn write_outcome(state: Seq<u8>, offset: u32, width: AccessWidth, value: u32) -> (Result<(), BusFault>, Seq<u8>) {
        ram_write(state, offset, width, value)
    }

    fn read8(&mut self, addr: u32) -> (r: Result<u8, BusFault>) {
        self.read8_at(addr)
    }

    fn read16(&mut self, addr: u32) -> (r: Result<u16, BusFault>) {
        self.read16_at(addr)
    }

    fn read32(&mut self, addr: u32) -> (r: Result<u32, BusFault>) {
        self.read32_at(addr)
    }

    fn write8(&mut self, addr: u32, value: u8) -> (r: Result<(), BusFault>) {
        if (addr as usize) < self.mem.len() {
            let ghost before = self@;
            self.mem[addr as usize] = value;
            assert(self@ =~= le_store(before, addr as int, AccessWidth::Byte, value as u32));
            Ok(())
        } else {
            Err(BusFault)
        }
    }

    fn write16(&mut self, addr: u32, value: u16) -> (r: Result<(), BusFault>) {
        if (addr as u64) + 2 <= self.mem.len() as u64 {
            let ghost before = self@;
            let base = addr as usize;
            let v = value as u32;
            self.mem[base] = (v % 0x100) as u8;
            self.mem[base + 1] = ((v / 0x100) % 0x100) as u8;
            assert(self@ =~= le_store(before, addr as int, AccessWidth::Half, v));
            Ok(())
        } else {
            Err(BusFault)
        }
    }

    fn write32(&mut self, addr: u32, value: u32) -> (r: Result<(), BusFault>) {
        if (addr as u64) + 4 <= self.mem.len() as u64 {
            let ghost before = self@;
            let base = addr as usize;
            self.mem[base] = (value % 0x100) as u8;
            self.mem[base + 1] = ((value / 0x100) % 0x100) as u8;
            self.mem[base + 2] = ((value / 0x1_0000) % 0x100) as u8;
            self.mem[base + 3] = ((value / 0x100_0000) % 0x100) as u8;
            assert(self@ =~= le_store(before, addr as int, AccessWidth::Word, value));
            Ok(())
        } else {
            Err(BusFault)
        }
    }
}


/// The four little-endian bytes of a word put back together give the word.
pub(crate) proof fn lemma_bytes_recombine(v: u32)
    ensures
        (v % 0x100) + 0x100 * ((v / 0x100) % 0x100) + 0x1_0000 * ((v / 0x1_0000) % 0x100)
            + 0x100_0000 * ((v / 0x100_0000) % 0x100) == v,
        (v % 0x100) + 0x100 * ((v / 0x100) % 0x100) == v % 0x1_0000,
{
    assert((v % 0x100) + 0x100 * ((v / 0x100) % 0x100) + 0x1_0000 * ((v / 0x1_0000) % 0x100)
        + 0x100_0000 * ((v / 0x100_0000) % 0x100) == v) by (bit_vector);
    assert((v % 0x100) + 0x100 * ((v / 0x100) % 0x100) == v % 0x1_0000) by (bit_vector);
}

/// A RAM read gives back what the last successful write of the same width at the same
/// offset stored, truncated to that width.
pub proof fn lemma_ram_read_after_write(mem: Seq<u8>, offset: u32, width: AccessWidth, value: u32)
    requires
        ram_write(mem, offset, width, value).0 is Ok,
    ensures
        ram_read(ram_write(mem, offset, width, value).1, offset, width).0 == Ok::<u32, BusFault>(
            match width {
                AccessWidth::Byte => value % 0x100,
                AccessWidth::Half => value % 0x1_0000,
                AccessWidth::Word => value,
            },
        ),
{
    lemma_bytes_recombine(value);
    let m = ram_write(mem, offset, width, value).1;
    let o = offset as int;
    assert(m[o] == byte_of(value, 0));
    if width != AccessWidth::Byte {
        assert(m[o + 1] == byte_of(value, 1));
    }
    if width == AccessWidth::Word {
        assert(m[o + 2] == byte_of(value, 2));
        assert(m[o + 3] == byte_of(value, 3));
    }
}

/// A RAM write leaves every byte outside the written range unchanged, and a faulting
/// access (out of range, even partly) changes nothing.
pub proof fn lemma_ram_write_frame(mem: Seq<u8>, offset: u32, width: AccessWidth, value: u32, i: int)
    requires
        0 <= i < mem.len(),
        !(offset <= i < offset + width_bytes(width)),
    ensures
        ram_write(mem, offset, width, value).1[i] == mem[i],
        ram_write(mem, offset, width, value).1.len() == mem.len(),
{
}


/// A RAM write to bytes that do not overlap a read leaves what the read answers unchanged.
pub proof fn lemma_ram_read_frame(mem: Seq<u8>, o1: u32, w1: AccessWidth, o2: u32, w2: AccessWidth, value: u32)
    requires
        o1 + width_bytes(w1) <= o2 || o2 + width_bytes(w2) <= o1,
    ensures
        ram_read(ram_write(mem, o2, w2, value).1, o1, w1).0 == ram_read(mem, o1, w1).0,
{
    let m = ram_write(mem, o2, w2, value).1;
    assert(m.len() == mem.len());
    if in_range(mem.len(), o1, w1) {
        let o = o1 as int;
        lemma_ram_write_frame(mem, o2, w2, value, o);
        if w1 != AccessWidth::Byte {
            lemma_ram_write_frame(mem, o2, w2, value, o + 1);
        }
        if w1 == AccessWidth::Word {
            lemma_ram_write_frame(mem, o2, w2, value, o + 2);
            lemma_ram_write_frame(mem, o2, w2, value, o + 3);
        }
    }
}
} // verus!
