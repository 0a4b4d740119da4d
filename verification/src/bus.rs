//! Bus access primitives, the `Bus` interface used by the CPU, and `DefaultBus`,
//! which maps devices onto disjoint address ranges.
use vstd::prelude::*;

use crate::device::Device;

verus! {

/// Width of one bus access.
#[derive(Debug, Clone, Copy, PartialEq, Eq, Structural)]
pub enum AccessWidth {
    Byte,
    Half,
    Word,
}

/// The fault answered by a bus or a device to an access it does not accept.
#[derive(Debug, Clone, Copy, PartialEq, Eq, Structural)]
pub struct BusFault;

/// Number of bytes covered by an access of width `w`.
pub open spec fn width_bytes(w: AccessWidth) -> nat {
    match w {
        AccessWidth::Byte => 1,
        AccessWidth::Half => 2,
        AccessWidth::Word => 4,
    }
}

/// Number of bits covered by an access of width `w`.
pub open spec fn width_bits(w: AccessWidth) -> nat {
    8 * width_bytes(w)
}

/// A byte read, zero-extended to 32 bits.
pub open spec fn lift8(r: Result<u8, BusFault>) -> Result<u32, BusFault> {
    match r {
        Ok(v) => Ok(v as u32),
        Err(e) => Err(e),
    }
}

/// A half-word read, zero-extended to 32 bits.
pub open spec fn lift16(r: Result<u16, BusFault>) -> Result<u32, BusFault> {
    match r {
        Ok(v) => Ok(v as u32),
        Err(e) => Err(e),
    }
}

/// The bus as the CPU sees it. Its behaviour is a function of its view.
pub trait Bus: View + Sized {
    /// Value (zero-extended) or fault answered by a read, and the bus state after it.
    spec fn read_outcome(state: Self::V, addr: u32, width: AccessWidth) -> (Result<u32, BusFault>, Self::V);

    /// Fault or success of a write of `value` (truncated to `width`), and the bus state after it.
    spec fn write_outcome(state: Self::V, addr: u32, width: AccessWidth, value: u32) -> (Result<(), BusFault>, Self::V);

    fn read8(&mut self, addr: u32) -> (r: Result<u8, BusFault>)
        ensures
            (lift8(r), final(self)@) == Self::read_outcome(old(self)@, addr, AccessWidth::Byte),
    ;

    fn read16(&mut self, addr: u32) -> (r: Result<u16, BusFault>)
        ensures
            (lift16(r), final(self)@) == Self::read_outcome(old(self)@, addr, AccessWidth::Half),
    ;

    fn read32(&mut self, addr: u32) -> (r: Result<u32, BusFault>)
        ensures
            (r, final(self)@) == Self::read_outcome(old(self)@, addr, AccessWidth::Word),
    ;

    fn write8(&mut self, addr: u32, value: u8) -> (r: Result<(), BusFault>)
        ensures
            (r, final(self)@) == Self::write_outcome(old(self)@, addr, AccessWidth::Byte, value as u32),
    ;

    fn write16(&mut self, addr: u32, value: u16) -> (r: Result<(), BusFault>)
        ensures
            (r, final(self)@) == Self::write_outcome(old(self)@, addr, AccessWidth::Half, value as u32),
    ;

    fn write32(&mut self, addr: u32, value: u32) -> (r: Result<(), BusFault>)
        ensures
            (r, final(self)@) == Self::write_outcome(old(self)@, addr, AccessWidth::Word, value),
    ;
}

/// Why a mapping was refused.
#[derive(Debug, Clone, Copy, PartialEq, Eq, Structural)]
pub enum MapError {
    EmptyRange,
    AddressOverflow,
    Overlap,
}


/// Model of one mapping: the half-open range `base..end` and the view of its device.
pub struct MappingView<V> {
    pub base: u32,
    pub end: u64,
    pub device: V,
}

impl<V> MappingView<V> {
    /// Whether `addr` falls inside this mapping.
    pub open spec fn contains(self, addr: u32) -> bool {
        self.base <= addr && (addr as int) < self.end
    }

    /// Whether this mapping shares an address with the range `base..end`.
    pub open spec fn overlaps(self, base: int, end: int) -> bool {
        base < self.end && (self.base as int) < end
    }
}

/// `i` is the first mapping of `ms` that contains `addr`.
pub open spec fn first_containing<V>(ms: Seq<MappingView<V>>, addr: u32, i: int) -> bool {
    &&& 0 <= i < ms.len()
    &&& ms[i].contains(addr)
    &&& forall|j: int| 0 <= j < i ==> !(#[trigger] ms[j]).contains(addr)
}

/// The mapping that answers an access to `addr`: the first one that contains it.
pub open spec fn lookup<V>(ms: Seq<MappingView<V>>, addr: u32) -> Option<int> {
    if exists|i: int| first_containing(ms, addr, i) {
        Some(choose|i: int| first_containing(ms, addr, i))
    } else {
        None
    }
}

/// `i` is the first mapping of `ms` whose base is `base`.
pub open spec fn first_with_base<V>(ms: Seq<MappingView<V>>, base: u32, i: int) -> bool {
    &&& 0 <= i < ms.len()
    &&& ms[i].base == base
    &&& forall|j: int| 0 <= j < i ==> (#[trigger] ms[j]).base != base
}

/// The mapping found by its base address.
pub open spec fn lookup_base<V>(ms: Seq<MappingView<V>>, base: u32) -> Option<int> {
    if exists|i: int| first_with_base(ms, base, i) {
        Some(choose|i: int| first_with_base(ms, base, i))
    } else {
        None
    }
}

/// Every mapping is a non-empty range inside the 32-bit address space, and no two overlap.
pub open spec fn mappings_wf<V>(ms: Seq<MappingView<V>>) -> bool {
    &&& forall|i: int| 0 <= i < ms.len() ==> (#[trigger] ms[i]).base < ms[i].end <= 0x1_0000_0000
    &&& forall|i: int, j: int|
        0 <= i < ms.len() && 0 <= j < ms.len() && i != j ==> !(#[trigger] ms[i]).overlaps(
            (#[trigger] ms[j]).base as int,
            ms[j].end as int,
        )
}

/// Read outcome of a bus made of the mappings `ms`: an unmapped address faults and
/// changes nothing; otherwise the mapping's device answers at the offset inside it.
pub open spec fn mapped_read<D: Device>(ms: Seq<MappingView<D::V>>, addr: u32, width: AccessWidth) -> (Result<u32, BusFault>, Seq<MappingView<D::V>>) {
    match lookup(ms, addr) {
        None => (Err(BusFault), ms),
        Some(i) => {
            let m = ms[i];
            let (r, d) = D::read_outcome(m.device, (addr - m.base) as u32, width);
            (r, ms.update(i, MappingView { base: m.base, end: m.end, device: d }))
        },
    }
}

/// Write outcome of a bus made of the mappings `ms`, in the same way as `mapped_read`.
pub open spec fn mapped_write<D: Device>(ms: Seq<MappingView<D::V>>, addr: u32, width: AccessWidth, value: u32) -> (Result<(), BusFault>, Seq<MappingView<D::V>>) {
    match lookup(ms, addr) {
        None => (Err(BusFault), ms),
        Some(i) => {
            let m = ms[i];
            let (r, d) = D::write_outcome(m.device, (addr - m.base) as u32, width, value);
            (r, ms.update(i, MappingView { base: m.base, end: m.end, device: d }))
        },
    }
}

struct DeviceMapping<D> {
    base: u32,
    end: u64,
    device: D,
}

impl<D: Device> DeviceMapping<D> {
    spec fn model(self) -> MappingView<D::V> {
        MappingView { base: self.base, end: self.end, device: self.device@ }
    }

    fn contains(&self, addr: u32) -> (r: bool)
        ensures
            r == self.model().contains(addr),
    {
        self.base <= addr && (addr as u64) < self.end
    }
}

/// A bus that routes each access to the device mapped at its address.
pub struct DefaultBus<D> {
    mappings: Vec<DeviceMapping<D>>,
}

impl<D: Device> View for DefaultBus<D> {
    type V = Seq<MappingView<D::V>>;

    closed spec fn view(&self) -> Seq<MappingView<D::V>> {
        self.mappings@.map_values(|m: DeviceMapping<D>| m.model())
    }
}

/// Two first matches are the same mapping.
pub proof fn lemma_first_containing_unique<V>(ms: Seq<MappingView<V>>, addr: u32, i: int, k: int)
    requires
        first_containing(ms, addr, i),
        first_containing(ms, addr, k),
    ensures
        i == k,
{
    if i < k {
        assert(!ms[i].contains(addr));
    } else if k < i {
        assert(!ms[k].contains(addr));
    }
}

/// Two first matches by base are the same mapping.
pub proof fn lemma_first_with_base_unique<V>(ms: Seq<MappingView<V>>, base: u32, i: int, k: int)
    requires
        first_with_base(ms, base, i),
        first_with_base(ms, base, k),
    ensures
        i == k,
{
    if i < k {
        assert(ms[i].base != base);
    } else if k < i {
        assert(ms[k].base != base);
    }
}

impl<D: Device> DefaultBus<D> {
    /// A bus with nothing mapped.
    pub fn new() -> (bus: Self)
        ensures
            bus@ == Seq::<MappingView<D::V>>::empty(),
            mappings_wf(bus@),
    {
        let bus = DefaultBus { mappings: Vec::new() };
        assert(bus@ =~= Seq::<MappingView<D::V>>::empty());
        bus
    }

    /// Maps `device` on `base..base + size`. The range must be non-empty, stay inside
    /// the 32-bit address space and overlap no existing mapping.
    pub fn map_device(&mut self, base: u32, size: u32, device: D) -> (r: Result<(), MapError>)
        ensures
            size == 0 ==> r == Err::<(), MapError>(MapError::EmptyRange),
            size != 0 && base + size > 0x1_0000_0000 ==> r == Err::<(), MapError>(MapError::AddressOverflow),
            size != 0 && base + size <= 0x1_0000_0000 && (exists|i: int| 0 <= i < old(self)@.len()
                && (#[trigger] old(self)@[i]).overlaps(base as int, base + size))
                ==> r == Err::<(), MapError>(MapError::Overlap),
            r is Ok <==> size != 0 && base + size <= 0x1_0000_0000 && (forall|i: int| 0 <= i < old(self)@.len()
                ==> !(#[trigger] old(self)@[i]).overlaps(base as int, base + size)),
            r is Ok ==> final(self)@ == old(self)@.push(MappingView { base, end: (base + size) as u64, device: device@ }),
            r is Err ==> final(self)@ == old(self)@,
            mappings_wf(old(self)@) ==> mappings_wf(final(self)@),
    {
        if size == 0 {
            return Err(MapError::EmptyRange);
        }
        let end: u64 = base as u64 + size as u64;
        if end > 0x1_0000_0000u64 {
            return Err(MapError::AddressOverflow);
        }
        let mut k: usize = 0;
        while k < self.mappings.len()
            invariant
                0 <= k <= self.mappings@.len(),
                end == base + size,
                size != 0,
                end <= 0x1_0000_0000,
                forall|i: int| 0 <= i < k ==> !(#[trigger] self@[i]).overlaps(base as int, end as int),
            decreases self.mappings@.len() - k,
        {
            let m = &self.mappings[k];
            assert(self@[k as int] == m.model());
            if (base as u64) < m.end && (m.base as u64) < end {
                return Err(MapError::Overlap);
            }
            k = k + 1;
        }
        let ghost before = self@;
        self.mappings.push(DeviceMapping { base, end, device });
        assert(self@ =~= before.push(MappingView { base, end: (base + size) as u64, device: device@ }));
        Ok(())
    }

    /// Index of the mapping that answers an access to `addr`.
    fn find_index(&self, addr: u32) -> (r: Option<usize>)
        ensures
            match r {
                Some(i) => lookup(self@, addr) == Some(i as int),
                None => lookup(self@, addr) is None,
            },
    {
        let mut k: usize = 0;
        while k < self.mappings.len()
            invariant
                0 <= k <= self.mappings@.len(),
                forall|j: int| 0 <= j < k ==> !(#[trigger] self@[j]).contains(addr),
            decreases self.mappings@.len() - k,
        {
            assert(self@[k as int] == self.mappings@[k as int].model());
            if self.mappings[k].contains(addr) {
                assert(first_containing(self@, addr, k as int));
                let ghost c = choose|i: int| first_containing(self@, addr, i);
                proof { lemma_first_containing_unique(self@, addr, c, k as int); }
                return Some(k);
            }
            k = k + 1;
        }
        None
    }

    /// Index of the first mapping whose base is `base`.
    fn find_base(&self, base: u32) -> (r: Option<usize>)
        ensures
            match r {
                Some(i) => lookup_base(self@, base) == Some(i as int),
                None => lookup_base(self@, base) is None,
            },
    {
        let mut k: usize = 0;
        while k < self.mappings.len()
            invariant
                0 <= k <= self.mappings@.len(),
                forall|j: int| 0 <= j < k ==> (#[trigger] self@[j]).base != base,
            decreases self.mappings@.len() - k,
        {
            assert(self@[k as int] == self.mappings@[k as int].model());
            if self.mappings[k].base == base {
                assert(first_with_base(self@, base, k as int));
                let ghost c = choose|i: int| first_with_base(self@, base, i);
                proof { lemma_first_with_base_unique(self@, base, c, k as int); }
                return Some(k);
            }
            k = k + 1;
        }
        None
    }

    /// The device mapped at exactly `base`, if any.
    pub fn device_ref(&self, base: u32) -> (r: Option<&D>)
        ensures
            match lookup_base(self@, base) {
                Some(i) => r is Some && r->0@ == self@[i].device,
                None => r is None,
            },
    {
        match self.find_base(base) {
            Some(i) => {
                assert(self@[i as int] == self.mappings@[i as int].model());
                Some(&self.mappings[i].device)
            },
            None => None,
        }
    }

    /// Mutable access to the device mapped at exactly `base`, if any. Only that
    /// device can change; every mapping keeps its range.
    pub fn device_mut(&mut self, base: u32) -> (r: Option<&mut D>)
        ensures
            match lookup_base(old(self)@, base) {
                Some(i) => r is Some && (*r->0)@ == old(self)@[i].device
                    && final(self)@ == old(self)@.update(i, MappingView {
                        base: old(self)@[i].base,
                        end: old(self)@[i].end,
                        device: (*final(r->0))@,
                    }),
                None => r is None && final(self)@ == old(self)@,
            },
    {
        match self.find_base(base) {
            Some(i) => {
                assert(self@[i as int] == self.mappings@[i as int].model());
                let m = &mut self.mappings[i];
                Some(&mut m.device)
            },
            None => None,
        }
    }
}


impl<D: Device> Bus for DefaultBus<D> {
    open spec fn read_outcome(state: Seq<MappingView<D::V>>, addr: u32, width: AccessWidth) -> (Result<u32, BusFault>, Seq<MappingView<D::V>>) {
        mapped_read::<D>(state, addr, width)
    }

    open spec fn write_outcome(state: Seq<MappingView<D::V>>, addr: u32, width: AccessWidth, value: u32) -> (Result<(), BusFault>, Seq<MappingView<D::V>>) {
        mapped_write::<D>(state, addr, width, value)
    }

    fn read8(&mut self, addr: u32) -> (r: Result<u8, BusFault>) {
        match self.find_index(addr) {
            None => Err(BusFault),
            Some(i) => {
                let ghost before = self@;
                let ghost i_int = i as int;
                assert(before[i_int] == self.mappings@[i_int].model());
                let base = self.mappings[i].base;
                let m = &mut self.mappings[i];
                let r = m.device.read8(addr - base);
                proof {
                    let (_, d) = D::read_outcome(before[i_int].device, (addr - base) as u32, AccessWidth::Byte);
                    assert(self@ =~= before.update(i_int, MappingView { base: before[i_int].base, end: before[i_int].end, device: d }));
                }
                r
            },
        }
    }

    fn read16(&mut self, addr: u32) -> (r: Result<u16, BusFault>) {
        match self.find_index(addr) {
            None => Err(BusFault),
            Some(i) => {
                let ghost before = self@;
                let ghost i_int = i as int;
                assert(before[i_int] == self.mappings@[i_int].model());
                let base = self.mappings[i].base;
                let m = &mut self.mappings[i];
                let r = m.device.read16(addr - base);
                proof {
                    let (_, d) = D::read_outcome(before[i_int].device, (addr - base) as u32, AccessWidth::Half);
                    assert(self@ =~= before.update(i_int, MappingView { base: before[i_int].base, end: before[i_int].end, device: d }));
                }
                r
            },
        }
    }

    fn read32(&mut self, addr: u32) -> (r: Result<u32, BusFault>) {
        match self.find_index(addr) {
            None => Err(BusFault),
            Some(i) => {
                let ghost before = self@;
                let ghost i_int = i as int;
                assert(before[i_int] == self.mappings@[i_int].model());
                let base = self.mappings[i].base;
                let m = &mut self.mappings[i];
                let r = m.device.read32(addr - base);
                proof {
                    let (_, d) = D::read_outcome(before[i_int].device, (addr - base) as u32, AccessWidth::Word);
                    assert(self@ =~= before.update(i_int, MappingView { base: before[i_int].base, end: before[i_int].end, device: d }));
                }
                r
            },
        }
    }

    fn write8(&mut self, addr: u32, value: u8) -> (r: Result<(), BusFault>) {
        match self.find_index(addr) {
            None => Err(BusFault),
            Some(i) => {
                let ghost before = self@;
                let ghost i_int = i as int;
                assert(before[i_int] == self.mappings@[i_int].model());
                let base = self.mappings[i].base;
                let m = &mut self.mappings[i];
                let r = m.device.write8(addr - base, value);
                proof {
                    let (_, d) = D::write_outcome(before[i_int].device, (addr - base) as u32, AccessWidth::Byte, value as u32);
                    assert(self@ =~= before.update(i_int, MappingView { base: before[i_int].base, end: before[i_int].end, device: d }));
                }
                r
            },
        }
    }

    fn write16(&mut self, addr: u32, value: u16) -> (r: Result<(), BusFault>) {
        match self.find_index(addr) {
            None => Err(BusFault),
            Some(i) => {
                let ghost before = self@;
                let ghost i_int = i as int;
                assert(before[i_int] == self.mappings@[i_int].model());
                let base = self.mappings[i].base;
                let m = &mut self.mappings[i];
                let r = m.device.write16(addr - base, value);
                proof {
                    let (_, d) = D::write_outcome(before[i_int].device, (addr - base) as u32, AccessWidth::Half, value as u32);
                    assert(self@ =~= before.update(i_int, MappingView { base: before[i_int].base, end: before[i_int].end, device: d }));
                }
                r
            },
        }
    }

    fn write32(&mut self, addr: u32, value: u32) -> (r: Result<(), BusFault>) {
        match self.find_index(addr) {
            None => Err(BusFault),
            Some(i) => {
                let ghost before = self@;
                let ghost i_int = i as int;
                assert(before[i_int] == self.mappings@[i_int].model());
                let base = self.mappings[i].base;
                let m = &mut self.mappings[i];
                let r = m.device.write32(addr - base, value);
                proof {
                    let (_, d) = D::write_outcome(before[i_int].device, (addr - base) as u32, AccessWidth::Word, value);
                    assert(self@ =~= before.update(i_int, MappingView { base: before[i_int].base, end: before[i_int].end, device: d }));
                }
                r
            },
        }
    }
}

impl<D: Device> DefaultBus<D> {
    /// A byte read through the bus, as the CPU would perform it.
    pub fn read8_at(&mut self, addr: u32) -> (r: Result<u8, BusFault>)
        ensures
            (lift8(r), final(self)@) == mapped_read::<D>(old(self)@, addr, AccessWidth::Byte),
    {
        Bus::read8(self, addr)
    }

    /// A half read through the bus, as the CPU would perform it.
    pub fn read16_at(&mut self, addr: u32) -> (r: Result<u16, BusFault>)
        ensures
            (lift16(r), final(self)@) == mapped_read::<D>(old(self)@, addr, AccessWidth::Half),
    {
        Bus::read16(self, addr)
    }

    /// A word read through the bus, as the CPU would perform it.
    pub fn read32_at(&mut self, addr: u32) -> (r: Result<u32, BusFault>)
        ensures
            (r, final(self)@) == mapped_read::<D>(old(self)@, addr, AccessWidth::Word),
    {
        Bus::read32(self, addr)
    }

    /// Host-side initialisation: a byte write through the bus.
    pub fn load8(&mut self, addr: u32, value: u8) -> (r: Result<(), BusFault>)
        ensures
            (r, final(self)@) == mapped_write::<D>(old(self)@, addr, AccessWidth::Byte, value as u32),
    {
        Bus::write8(self, addr, value)
    }

    /// Host-side initialisation: a half write through the bus.
    pub fn load16(&mut self, addr: u32, value: u16) -> (r: Result<(), BusFault>)
        ensures
            (r, final(self)@) == mapped_write::<D>(old(self)@, addr, AccessWidth::Half, value as u32),
    {
        Bus::write16(self, addr, value)
    }

    /// Host-side initialisation: a word write through the bus.
    pub fn load32(&mut self, addr: u32, value: u32) -> (r: Result<(), BusFault>)
        ensures
            (r, final(self)@) == mapped_write::<D>(old(self)@, addr, AccessWidth::Word, value),
    {
        Bus::write32(self, addr, value)
    }
}


/// Every access leaves the mapping layout (number, bases and ends) as it was, and only
/// the device that answered can change.
pub proof fn lemma_mapped_access_keeps_layout<D: Device>(ms: Seq<MappingView<D::V>>, addr: u32, width: AccessWidth, value: u32)
    ensures
        mapped_read::<D>(ms, addr, width).1.len() == ms.len(),
        mapped_write::<D>(ms, addr, width, value).1.len() == ms.len(),
        forall|i: int| 0 <= i < ms.len() ==> {
            &&& (#[trigger] mapped_read::<D>(ms, addr, width).1[i]).base == ms[i].base
            &&& mapped_read::<D>(ms, addr, width).1[i].end == ms[i].end
            &&& lookup(ms, addr) != Some(i) ==> mapped_read::<D>(ms, addr, width).1[i] == ms[i]
        },
        forall|i: int| 0 <= i < ms.len() ==> {
            &&& (#[trigger] mapped_write::<D>(ms, addr, width, value).1[i]).base == ms[i].base
            &&& mapped_write::<D>(ms, addr, width, value).1[i].end == ms[i].end
            &&& lookup(ms, addr) != Some(i) ==> mapped_write::<D>(ms, addr, width, value).1[i] == ms[i]
        },
{
    if let Some(k) = lookup(ms, addr) {
        assert(first_containing(ms, addr, k));
    }
}

/// Bus contract: when every device leaves its state unchanged on a faulting access, so
/// does the bus; an access to an unmapped address faults and changes nothing.
pub proof fn lemma_mapped_fault_is_atomic<D: Device>(ms: Seq<MappingView<D::V>>, addr: u32, width: AccessWidth, value: u32)
    requires
        forall|s: D::V, o: u32, w: AccessWidth| (#[trigger] D::read_outcome(s, o, w)).0 is Err ==> D::read_outcome(s, o, w).1 == s,
        forall|s: D::V, o: u32, w: AccessWidth, v: u32| (#[trigger] D::write_outcome(s, o, w, v)).0 is Err ==> D::write_outcome(s, o, w, v).1 == s,
    ensures
        mapped_read::<D>(ms, addr, width).0 is Err ==> mapped_read::<D>(ms, addr, width).1 == ms,
        mapped_write::<D>(ms, addr, width, value).0 is Err ==> mapped_write::<D>(ms, addr, width, value).1 == ms,
        lookup(ms, addr) is None ==> mapped_read::<D>(ms, addr, width) == (Err::<u32, BusFault>(BusFault), ms),
        lookup(ms, addr) is None ==> mapped_write::<D>(ms, addr, width, value) == (Err::<(), BusFault>(BusFault), ms),
{
    if let Some(k) = lookup(ms, addr) {
        assert(first_containing(ms, addr, k));
        let m = ms[k];
        let (r, d) = D::read_outcome(m.device, (addr - m.base) as u32, width);
        if r is Err {
            assert(ms.update(k, MappingView { base: m.base, end: m.end, device: d }) =~= ms);
        }
        let (r2, d2) = D::write_outcome(m.device, (addr - m.base) as u32, width, value);
        if r2 is Err {
            assert(ms.update(k, MappingView { base: m.base, end: m.end, device: d2 }) =~= ms);
        }
    }
}

/// In a well-formed layout an address belongs to at most one mapping, so the mapping that
/// answers it is the only one that contains it.
pub proof fn lemma_wf_owner_unique<V>(ms: Seq<MappingView<V>>, addr: u32, i: int)
    requires
        mappings_wf(ms),
        0 <= i < ms.len(),
        ms[i].contains(addr),
    ensures
        lookup(ms, addr) == Some(i),
{
    assert forall|j: int| 0 <= j < i implies !(#[trigger] ms[j]).contains(addr) by {
        if ms[j].contains(addr) {
            assert(ms[j].overlaps(ms[i].base as int, ms[i].end as int));
        }
    }
    assert(first_containing(ms, addr, i));
    let c = choose|k: int| first_containing(ms, addr, k);
    lemma_first_containing_unique(ms, addr, c, i);
}

impl<D: Device> Default for DefaultBus<D> {
    fn default() -> (bus: Self)
        ensures
            bus@ == Seq::<MappingView<D::V>>::empty(),
    {
        Self::new()
    }
}


/// The first mapping that contains `addr` is the one that answers it.
pub proof fn lemma_lookup_is_first<V>(ms: Seq<MappingView<V>>, addr: u32, i: int)
    requires
        first_containing(ms, addr, i),
    ensures
        lookup(ms, addr) == Some(i),
{
    let c = choose|k: int| first_containing(ms, addr, k);
    lemma_first_containing_unique(ms, addr, c, i);
}

/// The first mapping with base `base` is the one found by `lookup_base`.
pub proof fn lemma_lookup_base_is_first<V>(ms: Seq<MappingView<V>>, base: u32, i: int)
    requires
        first_with_base(ms, base, i),
    ensures
        lookup_base(ms, base) == Some(i),
{
    let c = choose|k: int| first_with_base(ms, base, k);
    lemma_first_with_base_unique(ms, base, c, i);
}

} // verus!
