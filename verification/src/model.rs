//! The contents of conformance case files. A table of named numbers (registers, device
//! state) is a list of `(name, value)` pairs in ascending order of name, each name once.
use vstd::prelude::*;

verus! {

/// A CPU case: an image to load, the initial state, how to run it and what to expect.
#[derive(Debug, Clone)]
pub struct CpuCase {
    pub format: String,
    pub version: u32,
    pub id: String,
    pub level: u8,
    pub binary: String,
    pub spec: Vec<String>,
    pub image: Image,
    pub initial: Initial,
    pub execution: Execution,
    pub expected: CpuExpected,
}

/// A Bus case: the initial state, direct transactions and what to expect.
#[derive(Debug, Clone)]
pub struct BusCase {
    pub format: String,
    pub version: u32,
    pub id: String,
    pub spec: Vec<String>,
    pub initial: Initial,
    pub transactions: Vec<Transaction>,
    pub expected: BusExpected,
}

/// Where the case binary is loaded.
#[derive(Debug, Clone, Copy)]
pub struct Image {
    pub load_address: u32,
}

/// State set up before a case runs.
#[derive(Debug, Clone)]
pub struct Initial {
    pub pc: Option<u32>,
    pub registers: Vec<(String, u32)>,
    pub memory: Vec<MemoryRange>,
    pub devices: Vec<DeviceState>,
}

/// Bytes of Test RAM starting at `address`.
#[derive(Debug, Clone)]
pub struct MemoryRange {
    pub address: u32,
    pub bytes: Vec<u8>,
}

/// The named state fields of one device.
#[derive(Debug, Clone)]
pub struct DeviceState {
    pub id: String,
    pub state: Vec<(String, u32)>,
}

/// How a CPU case runs: until `steps`, a `fault` or a `reporter` status, and never more
/// than `max_steps` instructions.
#[derive(Debug, Clone)]
pub struct Execution {
    pub until: String,
    pub steps: Option<u64>,
    pub max_steps: u64,
}

/// What a CPU case expects.
#[derive(Debug, Clone)]
pub struct CpuExpected {
    pub termination: ExpectedTermination,
    pub state: Option<ExpectedState>,
    pub bus: Vec<BusEvent>,
    pub devices: Vec<DeviceState>,
}

/// How a CPU case is expected to end; absent fields are not checked.
#[derive(Debug, Clone)]
pub struct ExpectedTermination {
    pub kind: String,
    pub retired: Option<u64>,
    pub fault: Option<String>,
    pub faulting_pc: Option<u32>,
    pub address: Option<u32>,
    pub width: Option<u8>,
    pub operation: Option<String>,
    pub status: Option<String>,
    pub case_id: Option<u32>,
    pub detail: Option<u32>,
}

/// Expected architectural state after a CPU case.
#[derive(Debug, Clone)]
pub struct ExpectedState {
    pub pc: Option<u32>,
    pub registers: Vec<(String, u32)>,
    pub memory: Vec<MemoryRange>,
}

/// One expected bus access of a CPU case.
#[derive(Debug, Clone, PartialEq, Eq)]
pub struct BusEvent {
    pub operation: String,
    pub address: u32,
    pub width: u8,
    pub result: String,
    pub value: Option<u32>,
}

/// One direct bus transaction of a Bus case.
#[derive(Debug, Clone)]
pub struct Transaction {
    pub operation: String,
    pub address: u32,
    pub width: u8,
    pub value: Option<u32>,
}

/// The expected answer to one transaction.
#[derive(Debug, Clone)]
pub struct ExpectedTransaction {
    pub result: String,
    pub value: Option<u32>,
}

/// What a Bus case expects.
#[derive(Debug, Clone)]
pub struct BusExpected {
    pub transactions: Vec<ExpectedTransaction>,
    pub memory: Vec<MemoryRange>,
    pub devices: Vec<DeviceState>,
}

} // verus!
