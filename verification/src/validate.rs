//! Checks a case file must pass before it runs. Each check stops at the first problem and
//! names it in a message.
use vstd::prelude::*;

use crate::assembly::{
    all_digits, digit_value, digit_value_exec, digits_value, lemma_digits_value_nonneg,
    lemma_digits_value_prefix, lemma_digits_value_step,
};
use crate::chars::{copy_range, str_chars};
use crate::conformance_machine::{HIGH_ROM_BASE, RAM_BASE, RAM_SIZE};
use crate::model::{BusCase, CpuCase, DeviceState, ExpectedTransaction, Initial, MemoryRange, Transaction};
use crate::text::{concat3, owned, str_eq};

verus! {

/// `usize::from_str`: an optional `+`, then one or more decimal digits, with a value that
/// fits in `usize`.
pub open spec fn parse_usize(src: Seq<char>) -> Option<nat> {
    if src.len() == 0 || (src[0] == '+' && src.len() == 1) {
        None
    } else {
        let d = if src[0] == '+' { src.drop_first() } else { src };
        if all_digits(d, 10) && digits_value(d, 10) <= usize::MAX {
            Some(digits_value(d, 10) as nat)
        } else {
            None
        }
    }
}

/// The number of a register name `r<n>`, if the name has that form.
pub open spec fn register_number(name: Seq<char>) -> Option<nat> {
    if name.len() > 0 && name[0] == 'r' {
        parse_usize(name.drop_first())
    } else {
        None
    }
}

/// `"<a>`<name>`"`-style message: `prefix`, then `name` in backquotes.
pub open spec fn quoted(prefix: Seq<char>, name: Seq<char>) -> Seq<char> {
    prefix + "`"@ + name + "`"@
}

pub(crate) fn quoted_exec(prefix: &str, name: &str) -> (r: String)
    ensures
        r@ == quoted(prefix@, name@),
{
    let r = concat3(prefix, "`", name);
    let r2 = concat3(r.as_str(), "`", "");
    proof { reveal_strlit(""); }
    assert(r2@ =~= quoted(prefix@, name@));
    r2
}

/// What is wrong with the register assignment `name = value`, if anything.
pub open spec fn register_entry_error(name: Seq<char>, value: u32) -> Option<Seq<char>> {
    match register_number(name) {
        None => Some(quoted("invalid register name "@, name)),
        Some(i) => if i >= 16 || (i == 0 && value != 0) {
            Some(quoted("invalid register assignment "@, name))
        } else {
            None
        },
    }
}

/// The first problem of a register table.
pub open spec fn registers_check(regs: Seq<(String, u32)>) -> Result<(), Seq<char>>
    decreases regs.len(),
{
    if regs.len() == 0 {
        Ok(())
    } else {
        match register_entry_error(regs[0].0@, regs[0].1) {
            Some(m) => Err(m),
            None => registers_check(regs.drop_first()),
        }
    }
}

/// `usize::from_str` on characters.
pub fn parse_usize_exec(src: &[char]) -> (r: Option<usize>)
    ensures
        match r {
            Some(v) => parse_usize(src@) == Some(v as nat),
            None => parse_usize(src@) is None,
        },
{
    if src.len() == 0 || (src[0] == '+' && src.len() == 1) {
        return None;
    }
    let d = if src[0] == '+' { copy_range(src, 1, src.len()) } else { copy_range(src, 0, src.len()) };
    assert(src@.subrange(0, src@.len() as int) =~= src@);
    assert(src@.subrange(1, src@.len() as int) =~= src@.drop_first());
    let ghost dd = if src@[0] == '+' { src@.drop_first() } else { src@ };
    assert(d@ == dd);
    let mut acc: usize = 0;
    let mut k: usize = 0;
    assert(d@.take(0) =~= Seq::<char>::empty());
    while k < d.len()
        invariant
            k <= d@.len(),
            acc == digits_value(d@.take(k as int), 10),
            all_digits(d@.take(k as int), 10),
            d@ == dd,
            src@.len() > 0,
            dd == if src@[0] == '+' { src@.drop_first() } else { src@ },
            d@.len() > 0,
        decreases d@.len() - k,
    {
        let v = digit_value_exec(d[k]);
        proof { lemma_digits_value_step(d@, 10, k as int); }
        if v >= 10 {
            assert(!all_digits(d@, 10)) by {
                assert(digit_value(d@[k as int]) >= 10);
            }
            assert(parse_usize(src@) is None);
            return None;
        }
        let next = match acc.checked_mul(10) {
            Some(x) => x.checked_add(v as usize),
            None => None,
        };
        match next {
            Some(x) => {
                acc = x;
            },
            None => {
                proof {
                    assert(acc * 10 + v > usize::MAX);
                    if all_digits(d@, 10) {
                        lemma_digits_value_prefix(d@, 10, k + 1);
                    }
                    assert(parse_usize(src@) is None);
                }
                return None;
            },
        }
        k = k + 1;
        assert(all_digits(d@.take(k as int), 10)) by {
            assert forall|i: int| 0 <= i < k implies digit_value(#[trigger] d@.take(k as int)[i]) < 10 by {
                if i < k - 1 {
                    assert(d@.take(k as int)[i] == d@.take(k - 1)[i]);
                }
            }
        }
    }
    assert(d@.take(k as int) =~= d@);
    Some(acc)
}

/// The index of register `name`: `r0` to `r15`.
pub fn register_index(name: &str) -> (r: Result<usize, String>)
    ensures
        match r {
            Ok(i) => register_number(name@) == Some(i as nat) && i < 16,
            Err(m) => m@ == quoted("invalid register name "@, name@)
                && !(register_number(name@) matches Some(n) && n < 16),
        },
{
    let chars = str_chars(name);
    if chars.len() > 0 && chars[0] == 'r' {
        let rest = copy_range(chars.as_slice(), 1, chars.len());
        assert(chars@.subrange(1, chars@.len() as int) =~= chars@.drop_first());
        match parse_usize_exec(rest.as_slice()) {
            Some(n) => if n < 16 {
                return Ok(n);
            },
            None => {},
        }
    }
    Err(quoted_exec("invalid register name ", name))
}

/// The first problem of a register table: a name that is not `r<n>`, a number of 16 or
/// more, or a nonzero value for `r0`.
pub fn validate_registers(registers: &[(String, u32)]) -> (r: Result<(), String>)
    ensures
        match r {
            Ok(()) => registers_check(registers@) == Ok::<(), Seq<char>>(()),
            Err(m) => registers_check(registers@) == Err::<(), Seq<char>>(m@),
        },
{
    let mut k: usize = 0;
    assert(registers@.skip(0) =~= registers@);
    while k < registers.len()
        invariant
            k <= registers@.len(),
            registers_check(registers@) == registers_check(registers@.skip(k as int)),
        decreases registers@.len() - k,
    {
        assert(registers@.skip(k as int).drop_first() =~= registers@.skip(k + 1));
        let name = registers[k].0.as_str();
        let value = registers[k].1;
        let chars = str_chars(name);
        let mut number: Option<usize> = None;
        if chars.len() > 0 && chars[0] == 'r' {
            let rest = copy_range(chars.as_slice(), 1, chars.len());
            assert(chars@.subrange(1, chars@.len() as int) =~= chars@.drop_first());
            number = parse_usize_exec(rest.as_slice());
        }
        assert(match number { Some(n) => register_number(name@) == Some(n as nat), None => register_number(name@) is None });
        match number {
            None => return Err(quoted_exec("invalid register name ", name)),
            Some(index) => if index >= 16 || (index == 0 && value != 0) {
                return Err(quoted_exec("invalid register assignment ", name));
            },
        }
        k = k + 1;
    }
    Ok(())
}

/// The state fields a device id must have, if the id names a device.
pub open spec fn expected_fields(id: Seq<char>) -> Option<Seq<Seq<char>>> {
    if id == "reporter"@ {
        Some(seq!["status"@, "case_id"@, "detail"@, "reserved"@])
    } else if id == "high-rom"@ {
        Some(seq!["word"@])
    } else {
        None
    }
}

/// Whether a table has an entry named `key`.
pub open spec fn has_key(state: Seq<(String, u32)>, key: Seq<char>) -> bool {
    exists|i: int| 0 <= i < state.len() && (#[trigger] state[i]).0@ == key
}

/// The value of the first entry named `key`.
pub open spec fn lookup_key(state: Seq<(String, u32)>, key: Seq<char>) -> Option<u32>
    decreases state.len(),
{
    if state.len() == 0 {
        None
    } else if state[0].0@ == key {
        Some(state[0].1)
    } else {
        lookup_key(state.drop_first(), key)
    }
}

/// What is wrong with device `d` after the devices `earlier`, if anything.
pub open spec fn device_error(d: DeviceState, earlier: Seq<DeviceState>) -> Option<Seq<char>> {
    if exists|j: int| 0 <= j < earlier.len() && (#[trigger] earlier[j]).id@ == d.id@ {
        Some(quoted("duplicate device "@, d.id@))
    } else {
        match expected_fields(d.id@) {
            None => Some(quoted("unknown device "@, d.id@)),
            Some(fields) => if d.state@.len() != fields.len()
                || exists|f: int| 0 <= f < fields.len() && !has_key(d.state@, #[trigger] fields[f]) {
                Some(quoted("invalid state fields for device "@, d.id@))
            } else if d.id@ == "reporter"@ && lookup_key(d.state@, "reserved"@) != Some(0u32) {
                Some("reporter reserved state must be zero"@)
            } else {
                None
            },
        }
    }
}

/// The first problem among the devices from index `k` on.
pub open spec fn devices_from(ds: Seq<DeviceState>, k: int) -> Result<(), Seq<char>>
    decreases ds.len() - k,
{
    if k < 0 || k >= ds.len() {
        Ok(())
    } else {
        match device_error(ds[k], ds.take(k)) {
            Some(m) => Err(m),
            None => devices_from(ds, k + 1),
        }
    }
}

/// The first problem of a device list; device state is allowed only where `allow` is set.
pub open spec fn devices_check(ds: Seq<DeviceState>, allow: bool) -> Result<(), Seq<char>> {
    if !allow && ds.len() > 0 {
        Err("device state is only valid at Level 3 or in Bus cases"@)
    } else {
        devices_from(ds, 0)
    }
}

/// Whether `state` has an entry named `key`.
pub fn state_has(state: &[(String, u32)], key: &str) -> (r: bool)
    ensures
        r == has_key(state@, key@),
{
    let mut k: usize = 0;
    while k < state.len()
        invariant
            k <= state@.len(),
            forall|i: int| 0 <= i < k ==> (#[trigger] state@[i]).0@ != key@,
        decreases state@.len() - k,
    {
        if str_eq(state[k].0.as_str(), key) {
            return true;
        }
        k = k + 1;
    }
    false
}

/// The value of the first entry of `state` named `key`.
pub fn state_get(state: &[(String, u32)], key: &str) -> (r: Option<u32>)
    ensures
        r == lookup_key(state@, key@),
{
    let mut k: usize = 0;
    assert(state@.skip(0) =~= state@);
    while k < state.len()
        invariant
            k <= state@.len(),
            lookup_key(state@, key@) == lookup_key(state@.skip(k as int), key@),
        decreases state@.len() - k,
    {
        assert(state@.skip(k as int).drop_first() =~= state@.skip(k + 1));
        if str_eq(state[k].0.as_str(), key) {
            return Some(state[k].1);
        }
        k = k + 1;
    }
    None
}

proof fn lemma_field_names()
    ensures
        "reporter"@ != "high-rom"@,
        expected_fields("reporter"@) == Some(seq!["status"@, "case_id"@, "detail"@, "reserved"@]),
        expected_fields("high-rom"@) == Some(seq!["word"@]),
{
    reveal_strlit("reporter");
    reveal_strlit("high-rom");
    assert("reporter"@[0] != "high-rom"@[0]);
}

/// Checks a device list: device state only where `allow` is set, each device once, a
/// known id (`reporter` or `high-rom`), exactly its fields, and a zero `reserved`
/// Reporter field.
pub fn validate_devices(devices: &[DeviceState], allow: bool) -> (r: Result<(), String>)
    ensures
        match r {
            Ok(()) => devices_check(devices@, allow) == Ok::<(), Seq<char>>(()),
            Err(m) => devices_check(devices@, allow) == Err::<(), Seq<char>>(m@),
        },
{
    if !allow && devices.len() > 0 {
        return Err(owned("device state is only valid at Level 3 or in Bus cases"));
    }
    proof { lemma_field_names(); }
    let mut k: usize = 0;
    while k < devices.len()
        invariant
            k <= devices@.len(),
            devices_check(devices@, allow) == devices_from(devices@, k as int),
        decreases devices@.len() - k,
    {
        let d = &devices[k];
        let mut j: usize = 0;
        while j < k
            invariant
                j <= k < devices@.len(),
                d == devices@[k as int],
                devices_check(devices@, allow) == devices_from(devices@, k as int),
                forall|i: int| 0 <= i < j ==> (#[trigger] devices@.take(k as int)[i]).id@ != d.id@,
            decreases k - j,
        {
            if str_eq(devices[j].id.as_str(), d.id.as_str()) {
                assert(devices@.take(k as int)[j as int] == devices@[j as int]);
                assert(device_error(devices@[k as int], devices@.take(k as int)) == Some(quoted("duplicate device "@, d.id@)));
                return Err(quoted_exec("duplicate device ", d.id.as_str()));
            }
            assert(devices@.take(k as int)[j as int] == devices@[j as int]);
            j = j + 1;
        }
        let is_reporter = str_eq(d.id.as_str(), "reporter");
        let is_rom = str_eq(d.id.as_str(), "high-rom");
        if !is_reporter && !is_rom {
            return Err(quoted_exec("unknown device ", d.id.as_str()));
        }
        let ok = if is_reporter {
            let st = d.state.as_slice();
            let a = state_has(st, "status");
            let b = state_has(st, "case_id");
            let c = state_has(st, "detail");
            let e = state_has(st, "reserved");
            let ghost fs = seq!["status"@, "case_id"@, "detail"@, "reserved"@];
            proof {
                if a && b && c && e {
                    assert forall|f: int| 0 <= f < fs.len() implies has_key(d.state@, #[trigger] fs[f]) by {
                        if f == 0 {} else if f == 1 {} else if f == 2 {} else {}
                    }
                } else if !a {
                    assert(!has_key(d.state@, fs[0]));
                } else if !b {
                    assert(!has_key(d.state@, fs[1]));
                } else if !c {
                    assert(!has_key(d.state@, fs[2]));
                } else {
                    assert(!has_key(d.state@, fs[3]));
                }
            }
            d.state.len() == 4 && a && b && c && e
        } else {
            let a = state_has(d.state.as_slice(), "word");
            let ghost fs = seq!["word"@];
            proof {
                if a {
                    assert forall|f: int| 0 <= f < fs.len() implies has_key(d.state@, #[trigger] fs[f]) by {}
                } else {
                    assert(!has_key(d.state@, fs[0]));
                }
            }
            d.state.len() == 1 && a
        };
        if !ok {
            return Err(quoted_exec("invalid state fields for device ", d.id.as_str()));
        }
        if is_reporter && state_get(d.state.as_slice(), "reserved") != Some(0u32) {
            return Err(owned("reporter reserved state must be zero"));
        }
        assert(device_error(devices@[k as int], devices@.take(k as int)) is None);
        k = k + 1;
    }
    Ok(())
}

/// Whether a memory range is nonempty and lies inside Test RAM.
pub open spec fn range_fits(r: MemoryRange) -> bool {
    r.bytes@.len() > 0 && r.address + r.bytes@.len() <= RAM_SIZE
}

/// Whether every range of `ms` is nonempty and inside Test RAM.
pub open spec fn ranges_fit(ms: Seq<MemoryRange>) -> bool {
    forall|i: int| 0 <= i < ms.len() ==> range_fits(#[trigger] ms[i])
}

/// Checks that a memory range is nonempty and inside Test RAM.
pub fn validate_memory_range(range: &MemoryRange) -> (r: Result<(), String>)
    ensures
        r is Ok <==> range_fits(*range),
        r matches Err(m) ==> m@ == "memory range is empty or outside Test RAM"@,
{
    if range.bytes.len() == 0 || range.bytes.len() > RAM_SIZE as usize || range.address as usize > RAM_SIZE as usize - range.bytes.len() {
        return Err(owned("memory range is empty or outside Test RAM"));
    }
    Ok(())
}

/// Whether two memory ranges share a byte.
pub open spec fn ranges_overlap(a: MemoryRange, b: MemoryRange) -> bool {
    a.address < b.address + b.bytes@.len() && b.address < a.address + a.bytes@.len()
}

/// Whether no two ranges of `ms` share a byte.
pub open spec fn ranges_disjoint(ms: Seq<MemoryRange>) -> bool {
    forall|i: int, j: int| 0 <= i < j < ms.len() ==> !ranges_overlap(#[trigger] ms[i], #[trigger] ms[j])
}

/// The first problem of the initial state: registers, then devices, then memory (every
/// patch nonempty and inside Test RAM, and no two patches overlapping).
pub open spec fn initial_check(initial: Initial, allow_devices: bool) -> Result<(), Seq<char>> {
    match registers_check(initial.registers@) {
        Err(m) => Err(m),
        Ok(()) => match devices_check(initial.devices@, allow_devices) {
            Err(m) => Err(m),
            Ok(()) => if !ranges_fit(initial.memory@) {
                Err("memory range is empty or outside Test RAM"@)
            } else if !ranges_disjoint(initial.memory@) {
                Err("initial memory ranges must not overlap"@)
            } else {
                Ok(())
            },
        },
    }
}

fn overlap_exec(a: &MemoryRange, b: &MemoryRange) -> (r: bool)
    requires
        range_fits(*a),
        range_fits(*b),
    ensures
        r == ranges_overlap(*a, *b),
{
    (a.address as usize) < b.address as usize + b.bytes.len() && (b.address as usize) < a.address as usize + a.bytes.len()
}

/// Checks the initial state of a case.
pub fn validate_initial(initial: &Initial, allow_devices: bool) -> (r: Result<(), String>)
    ensures
        match r {
            Ok(()) => initial_check(*initial, allow_devices) == Ok::<(), Seq<char>>(()),
            Err(m) => initial_check(*initial, allow_devices) == Err::<(), Seq<char>>(m@),
        },
{
    match validate_registers(initial.registers.as_slice()) {
        Err(m) => return Err(m),
        Ok(()) => {},
    }
    match validate_devices(initial.devices.as_slice(), allow_devices) {
        Err(m) => return Err(m),
        Ok(()) => {},
    }
    let mut k: usize = 0;
    while k < initial.memory.len()
        invariant
            k <= initial.memory@.len(),
            forall|i: int| 0 <= i < k ==> range_fits(#[trigger] initial.memory@[i]),
            registers_check(initial.registers@) == Ok::<(), Seq<char>>(()),
            devices_check(initial.devices@, allow_devices) == Ok::<(), Seq<char>>(()),
        decreases initial.memory@.len() - k,
    {
        match validate_memory_range(&initial.memory[k]) {
            Err(m) => return Err(m),
            Ok(()) => {},
        }
        k = k + 1;
    }
    let ms = &initial.memory;
    let mut j: usize = 0;
    while j < ms.len()
        invariant
            j <= ms@.len(),
            ranges_fit(ms@),
            forall|a: int, b: int| 0 <= a < b < j ==> !ranges_overlap(#[trigger] ms@[a], #[trigger] ms@[b]),
            registers_check(initial.registers@) == Ok::<(), Seq<char>>(()),
            devices_check(initial.devices@, allow_devices) == Ok::<(), Seq<char>>(()),
            ms@ == initial.memory@,
        decreases ms@.len() - j,
    {
        let mut i: usize = 0;
        while i < j
            invariant
                i <= j < ms@.len(),
                ranges_fit(ms@),
                forall|a: int| 0 <= a < i ==> !ranges_overlap(#[trigger] ms@[a], ms@[j as int]),
                registers_check(initial.registers@) == Ok::<(), Seq<char>>(()),
                devices_check(initial.devices@, allow_devices) == Ok::<(), Seq<char>>(()),
                ms@ == initial.memory@,
            decreases j - i,
        {
            assert(range_fits(ms@[i as int]) && range_fits(ms@[j as int]));
            if overlap_exec(&ms[i], &ms[j]) {
                assert(!ranges_disjoint(ms@)) by {
                    assert(ranges_overlap(ms@[i as int], ms@[j as int]));
                }
                return Err(owned("initial memory ranges must not overlap"));
            }
            i = i + 1;
        }
        j = j + 1;
    }
    assert(ranges_disjoint(ms@));
    Ok(())
}

/// The problem of a direct transaction, if any.
pub open spec fn transaction_error(t: Transaction) -> Option<Seq<char>> {
    if !(t.width == 8 || t.width == 16 || t.width == 32) {
        Some("transaction width must be 8, 16, or 32"@)
    } else if (t.operation@ == "read"@ && t.value is None) || (t.operation@ == "write"@ && t.value is Some) {
        None
    } else {
        Some("read must omit value and write must include value"@)
    }
}

/// The problem of the expected answer `e` to the transaction `t`, if any: the result is
/// `ok` or `fault`, and a value is given exactly for a successful read.
pub open spec fn expected_transaction_error(t: Transaction, e: ExpectedTransaction) -> Option<Seq<char>> {
    if e.result@ != "ok"@ && e.result@ != "fault"@ {
        Some("expected transaction result must be ok or fault"@)
    } else if (e.result@ == "ok"@ && t.operation@ == "read"@) != (e.value is Some) {
        Some("expected value must be given exactly for a successful read"@)
    } else {
        None
    }
}

/// Checks the expected answer `expected` to `transaction`.
pub fn validate_expected_transaction(transaction: &Transaction, expected: &ExpectedTransaction) -> (r: Result<(), String>)
    ensures
        match r {
            Ok(()) => expected_transaction_error(*transaction, *expected) is None,
            Err(m) => expected_transaction_error(*transaction, *expected) == Some(m@),
        },
{
    let result = expected.result.as_str();
    let ok = str_eq(result, "ok");
    if !ok && !str_eq(result, "fault") {
        return Err(owned("expected transaction result must be ok or fault"));
    }
    if (ok && str_eq(transaction.operation.as_str(), "read")) != expected.value.is_some() {
        return Err(owned("expected value must be given exactly for a successful read"));
    }
    Ok(())
}

/// Checks a transaction: width 8, 16 or 32; a read without a value or a write with one.
pub fn validate_transaction(transaction: &Transaction) -> (r: Result<(), String>)
    ensures
        match r {
            Ok(()) => transaction_error(*transaction) is None,
            Err(m) => transaction_error(*transaction) == Some(m@),
        },
{
    if !(transaction.width == 8 || transaction.width == 16 || transaction.width == 32) {
        return Err(owned("transaction width must be 8, 16, or 32"));
    }
    let op = transaction.operation.as_str();
    if (str_eq(op, "read") && transaction.value.is_none()) || (str_eq(op, "write") && transaction.value.is_some()) {
        Ok(())
    } else {
        Err(owned("read must omit value and write must include value"))
    }
}

/// The names of a list of named values.
pub open spec fn map_keys(entries: Seq<(String, u32)>) -> Seq<Seq<char>> {
    entries.map_values(|e: (String, u32)| e.0@)
}

/// Whether a list of named values is a map as a case file gives it: each name once, in
/// increasing order of name.
pub open spec fn is_ordered_map(entries: Seq<(String, u32)>) -> bool {
    crate::coverage::strictly_sorted(map_keys(entries))
}

/// Whether every device state of `ds` is such a map.
pub open spec fn device_maps_ordered(ds: Seq<DeviceState>) -> bool {
    forall|i: int| 0 <= i < ds.len() ==> is_ordered_map((#[trigger] ds[i]).state@)
}

/// Whether the register and device-state maps of a CPU case are maps as a case file gives
/// them.
pub open spec fn cpu_case_maps(case: CpuCase) -> bool {
    &&& is_ordered_map(case.initial.registers@)
    &&& device_maps_ordered(case.initial.devices@)
    &&& device_maps_ordered(case.expected.devices@)
    &&& (case.expected.state matches Some(st) ==> is_ordered_map(st.registers@))
}

/// Whether the register and device-state maps of a Bus case are maps as a case file gives
/// them.
pub open spec fn bus_case_maps(case: BusCase) -> bool {
    &&& is_ordered_map(case.initial.registers@)
    &&& device_maps_ordered(case.initial.devices@)
    &&& device_maps_ordered(case.expected.devices@)
}

/// Checks that a list of named values holds each name once, in increasing order.
pub fn ordered_map(entries: &[(String, u32)]) -> (b: bool)
    ensures
        b == is_ordered_map(entries@),
{
    let ghost keys = map_keys(entries@);
    let mut k: usize = 1;
    if entries.len() == 0 {
        return true;
    }
    while k < entries.len()
        invariant
            1 <= k <= entries@.len(),
            keys == map_keys(entries@),
            crate::coverage::strictly_sorted(keys.take(k as int)),
        decreases entries@.len() - k,
    {
        let ok = crate::coverage::lex_lt_exec(
            str_chars(entries[k - 1].0.as_str()).as_slice(),
            str_chars(entries[k].0.as_str()).as_slice(),
        );
        assert(keys[k - 1] == entries@[k - 1].0@ && keys[k as int] == entries@[k as int].0@);
        if !ok {
            assert(!crate::coverage::strictly_sorted(keys)) by {
                assert(!crate::coverage::lex_lt(keys[k - 1], keys[k as int]));
            }
            return false;
        }
        proof {
            let t = keys.take(k + 1);
            assert forall|i: int, j: int| 0 <= i < j < t.len() implies crate::coverage::lex_lt(#[trigger] t[i], #[trigger] t[j]) by {
                if j < k {
                    assert(keys.take(k as int)[i] == t[i] && keys.take(k as int)[j] == t[j]);
                } else if i < k - 1 {
                    assert(keys.take(k as int)[i] == t[i] && keys.take(k as int)[k - 1] == keys[k - 1]);
                    crate::coverage::lemma_lex_transitive(t[i], keys[k - 1], keys[k as int]);
                }
            }
        }
        k = k + 1;
    }
    assert(keys.take(k as int) =~= keys);
    true
}

fn device_maps(ds: &[DeviceState]) -> (b: bool)
    ensures
        b == device_maps_ordered(ds@),
{
    let mut k: usize = 0;
    while k < ds.len()
        invariant
            k <= ds@.len(),
            forall|i: int| 0 <= i < k ==> is_ordered_map((#[trigger] ds@[i]).state@),
        decreases ds@.len() - k,
    {
        if !ordered_map(ds[k].state.as_slice()) {
            return false;
        }
        k = k + 1;
    }
    true
}

/// Checks that the register and device-state maps of a CPU case are maps as a case file
/// gives them.
pub fn cpu_case_maps_ordered(case: &CpuCase) -> (b: bool)
    ensures
        b == cpu_case_maps(*case),
{
    let expected_registers = match &case.expected.state {
        Some(st) => ordered_map(st.registers.as_slice()),
        None => true,
    };
    ordered_map(case.initial.registers.as_slice()) && device_maps(case.initial.devices.as_slice())
        && device_maps(case.expected.devices.as_slice()) && expected_registers
}

/// Checks that the register and device-state maps of a Bus case are maps as a case file
/// gives them.
pub fn bus_case_maps_ordered(case: &BusCase) -> (b: bool)
    ensures
        b == bus_case_maps(*case),
{
    ordered_map(case.initial.registers.as_slice()) && device_maps(case.initial.devices.as_slice())
        && device_maps(case.expected.devices.as_slice())
}

/// The first problem of a CPU case, checked in this order: format and version, header,
/// load address, initial state (devices only at Level 3), step limit, termination rule,
/// expected registers, expected devices (only at Level 3).
pub open spec fn cpu_case_check(case: CpuCase) -> Result<(), Seq<char>> {
    if case.format@ != "kagura-conformance-case"@ || case.version != 1 {
        Err("unsupported CPU case format or version"@)
    } else if !(1 <= case.level <= 3) || !crate::coverage::case_id_ok(case.id@) || case.spec@.len() == 0 {
        Err("invalid CPU case header"@)
    } else if case.image.load_address != RAM_BASE && case.image.load_address != HIGH_ROM_BASE {
        Err("image.load_address must be 0 or 0xFFFFFFFC"@)
    } else if initial_check(case.initial, case.level == 3) is Err {
        initial_check(case.initial, case.level == 3)
    } else if case.execution.max_steps == 0 {
        Err("execution.max_steps must be positive"@)
    } else if case.execution.until@ == "steps"@ {
        match case.execution.steps {
            None => Err("steps termination requires steps"@),
            Some(s) => if s == 0 || s > case.execution.max_steps {
                Err("execution.steps must be in 1..=max_steps"@)
            } else {
                cpu_case_expectations(case)
            },
        }
    } else if case.execution.until@ == "fault"@ || case.execution.until@ == "reporter"@ {
        if case.execution.steps is None {
            cpu_case_expectations(case)
        } else {
            Err("steps is only valid for steps termination"@)
        }
    } else {
        Err("unknown execution.until"@)
    }
}

/// The checks of a CPU case's expectations: registers of the expected state, then
/// expected devices.
pub open spec fn cpu_case_expectations(case: CpuCase) -> Result<(), Seq<char>> {
    match case.expected.state {
        Some(st) => match registers_check(st.registers@) {
            Err(m) => Err(m),
            Ok(()) => devices_check(case.expected.devices@, case.level == 3),
        },
        None => devices_check(case.expected.devices@, case.level == 3),
    }
}

fn validate_cpu_expectations(case: &CpuCase) -> (r: Result<(), String>)
    ensures
        match r {
            Ok(()) => cpu_case_expectations(*case) == Ok::<(), Seq<char>>(()),
            Err(m) => cpu_case_expectations(*case) == Err::<(), Seq<char>>(m@),
        },
{
    match &case.expected.state {
        Some(st) => match validate_registers(st.registers.as_slice()) {
            Err(m) => return Err(m),
            Ok(()) => {},
        },
        None => {},
    }
    validate_devices(case.expected.devices.as_slice(), case.level == 3)
}

/// Checks a CPU case before it runs.
pub fn validate_cpu_case(case: &CpuCase) -> (r: Result<(), String>)
    requires
        cpu_case_maps(*case),
    ensures
        match r {
            Ok(()) => cpu_case_check(*case) == Ok::<(), Seq<char>>(()),
            Err(m) => cpu_case_check(*case) == Err::<(), Seq<char>>(m@),
        },
{
    if !str_eq(case.format.as_str(), "kagura-conformance-case") || case.version != 1 {
        return Err(owned("unsupported CPU case format or version"));
    }
    if !(1 <= case.level && case.level <= 3) || !crate::coverage::valid_case_id(case.id.as_str()) || case.spec.len() == 0 {
        return Err(owned("invalid CPU case header"));
    }
    if case.image.load_address != RAM_BASE && case.image.load_address != HIGH_ROM_BASE {
        return Err(owned("image.load_address must be 0 or 0xFFFFFFFC"));
    }
    match validate_initial(&case.initial, case.level == 3) {
        Err(m) => return Err(m),
        Ok(()) => {},
    }
    if case.execution.max_steps == 0 {
        return Err(owned("execution.max_steps must be positive"));
    }
    let until = case.execution.until.as_str();
    if str_eq(until, "steps") {
        match case.execution.steps {
            None => Err(owned("steps termination requires steps")),
            Some(s) => if s == 0 || s > case.execution.max_steps {
                Err(owned("execution.steps must be in 1..=max_steps"))
            } else {
                validate_cpu_expectations(case)
            },
        }
    } else if str_eq(until, "fault") || str_eq(until, "reporter") {
        if case.execution.steps.is_none() {
            validate_cpu_expectations(case)
        } else {
            Err(owned("steps is only valid for steps termination"))
        }
    } else {
        Err(owned("unknown execution.until"))
    }
}

/// The first problem of a Bus case, checked in this order: format and version, header
/// (a valid case id, a spec reference) and nonempty transaction list, matching expectation
/// count, initial state, expected devices, each transaction, each expected answer.
pub open spec fn bus_case_check(case: BusCase) -> Result<(), Seq<char>> {
    if case.format@ != "kagura-bus-conformance-case"@ || case.version != 1 {
        Err("unsupported Bus case format or version"@)
    } else if !crate::coverage::case_id_ok(case.id@) || case.spec@.len() == 0 || case.transactions@.len() == 0 {
        Err("invalid Bus case header or empty transaction list"@)
    } else if case.transactions@.len() != case.expected.transactions@.len() {
        Err("transaction and expected transaction counts differ"@)
    } else if initial_check(case.initial, true) is Err {
        initial_check(case.initial, true)
    } else if devices_check(case.expected.devices@, true) is Err {
        devices_check(case.expected.devices@, true)
    } else if transactions_from(case.transactions@, 0) is Err {
        transactions_from(case.transactions@, 0)
    } else {
        expected_from(case.transactions@, case.expected.transactions@, 0)
    }
}

/// The first problem among the expected answers from index `k` on.
pub open spec fn expected_from(ts: Seq<Transaction>, es: Seq<ExpectedTransaction>, k: int) -> Result<(), Seq<char>>
    decreases es.len() - k,
{
    if k < 0 || k >= es.len() {
        Ok(())
    } else {
        match expected_transaction_error(ts[k], es[k]) {
            Some(m) => Err(m),
            None => expected_from(ts, es, k + 1),
        }
    }
}

/// The first problem among the transactions from index `k` on.
pub open spec fn transactions_from(ts: Seq<Transaction>, k: int) -> Result<(), Seq<char>>
    decreases ts.len() - k,
{
    if k < 0 || k >= ts.len() {
        Ok(())
    } else {
        match transaction_error(ts[k]) {
            Some(m) => Err(m),
            None => transactions_from(ts, k + 1),
        }
    }
}

/// Checks a Bus case before it runs.
pub fn validate_bus_case(case: &BusCase) -> (r: Result<(), String>)
    requires
        bus_case_maps(*case),
    ensures
        match r {
            Ok(()) => bus_case_check(*case) == Ok::<(), Seq<char>>(()),
            Err(m) => bus_case_check(*case) == Err::<(), Seq<char>>(m@),
        },
{
    if !str_eq(case.format.as_str(), "kagura-bus-conformance-case") || case.version != 1 {
        return Err(owned("unsupported Bus case format or version"));
    }
    if !crate::coverage::valid_case_id(case.id.as_str()) || case.spec.len() == 0 || case.transactions.len() == 0 {
        return Err(owned("invalid Bus case header or empty transaction list"));
    }
    if case.transactions.len() != case.expected.transactions.len() {
        return Err(owned("transaction and expected transaction counts differ"));
    }
    match validate_initial(&case.initial, true) {
        Err(m) => return Err(m),
        Ok(()) => {},
    }
    match validate_devices(case.expected.devices.as_slice(), true) {
        Err(m) => return Err(m),
        Ok(()) => {},
    }
    let mut k: usize = 0;
    while k < case.transactions.len()
        invariant
            k <= case.transactions@.len(),
            transactions_from(case.transactions@, 0) == transactions_from(case.transactions@, k as int),
            bus_case_check(*case) == (if transactions_from(case.transactions@, 0) is Err {
                transactions_from(case.transactions@, 0)
            } else {
                expected_from(case.transactions@, case.expected.transactions@, 0)
            }),
        decreases case.transactions@.len() - k,
    {
        match validate_transaction(&case.transactions[k]) {
            Err(m) => return Err(m),
            Ok(()) => {},
        }
        k = k + 1;
    }
    let mut k: usize = 0;
    while k < case.expected.transactions.len()
        invariant
            k <= case.expected.transactions@.len(),
            case.expected.transactions@.len() == case.transactions@.len(),
            expected_from(case.transactions@, case.expected.transactions@, 0)
                == expected_from(case.transactions@, case.expected.transactions@, k as int),
            bus_case_check(*case) == expected_from(case.transactions@, case.expected.transactions@, 0),
        decreases case.expected.transactions@.len() - k,
    {
        match validate_expected_transaction(&case.transactions[k], &case.expected.transactions[k]) {
            Err(m) => return Err(m),
            Ok(()) => {},
        }
        k = k + 1;
    }
    Ok(())
}

/// Whether a `..` component starts at index `i` of a path.
pub open spec fn parent_dir_at(path: Seq<char>, i: int) -> bool {
    &&& 0 <= i && i + 1 < path.len()
    &&& path[i] == '.' && path[i + 1] == '.'
    &&& i == 0 || path[i - 1] == '/'
    &&& i + 2 == path.len() || path[i + 2] == '/'
}

/// Whether a relative path stays inside its directory: no leading `/` and no `..`
/// component.
pub open spec fn path_components_safe(relative: Seq<char>) -> bool {
    &&& !(relative.len() > 0 && relative[0] == '/')
    &&& !exists|i: int| #[trigger] parent_dir_at(relative, i)
}

/// `dir` joined with the relative path `relative`: a separator goes between them unless
/// `dir` is empty or already ends in one.
pub open spec fn joined(dir: Seq<char>, relative: Seq<char>) -> Seq<char> {
    if dir.len() == 0 {
        relative
    } else if dir.last() == '/' {
        dir + relative
    } else {
        dir + seq!['/'] + relative
    }
}

/// The path of a case binary named `relative` in the case directory `dir`. Refused when
/// it could leave that directory.
pub fn safe_case_file(dir: &str, relative: &str) -> (r: Result<String, String>)
    ensures
        r is Ok <==> path_components_safe(relative@),
        r matches Ok(p) ==> p@ == joined(dir@, relative@),
        r matches Err(m) ==> m@ == "binary path must stay inside the case directory"@,
{
    let rel = str_chars(relative);
    let n = rel.len();
    if n > 0 && rel[0] == '/' {
        return Err(owned("binary path must stay inside the case directory"));
    }
    let mut i: usize = 0;
    while i < n && i + 1 < n
        invariant
            n == rel@.len(),
            rel@ == relative@,
            forall|j: int| 0 <= j < i ==> !#[trigger] parent_dir_at(rel@, j),
        decreases n - i,
    {
        if rel[i] == '.' && rel[i + 1] == '.' && (i == 0 || rel[i - 1] == '/') && (i + 2 == n || rel[i + 2] == '/') {
            assert(parent_dir_at(rel@, i as int));
            return Err(owned("binary path must stay inside the case directory"));
        }
        i = i + 1;
    }
    assert forall|j: int| !#[trigger] parent_dir_at(rel@, j) by {
        if 0 <= j < i {
        }
    }
    let d = str_chars(dir);
    let mut out: Vec<char> = Vec::new();
    let mut k: usize = 0;
    while k < d.len()
        invariant
            k <= d@.len(),
            out@ == d@.take(k as int),
        decreases d@.len() - k,
    {
        out.push(d[k]);
        k = k + 1;
        assert(out@ =~= d@.take(k as int));
    }
    assert(d@.take(k as int) =~= d@);
    if d.len() > 0 && d[d.len() - 1] != '/' {
        out.push('/');
    }
    let ghost head = out@;
    let mut k: usize = 0;
    while k < rel.len()
        invariant
            k <= rel@.len(),
            out@ == head + rel@.take(k as int),
        decreases rel@.len() - k,
    {
        out.push(rel[k]);
        k = k + 1;
        assert(out@ =~= head + rel@.take(k as int));
    }
    assert(rel@.take(k as int) =~= rel@);
    assert(out@ =~= joined(dir@, relative@));
    Ok(crate::chars::chars_to_string(out.as_slice()))
}

} // verus!
