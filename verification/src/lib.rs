//! Kagura: a 32-bit fixed-width CPU ISA, its bus contract, the reference
//! devices and machines, a small assembler and the conformance-suite logic.
#![allow(unused_imports)]

pub mod bus;
pub mod device;
pub mod cpu;
pub mod ram;
pub mod debug_io;
pub mod test_reporter;
pub mod high_test_rom;
pub mod machine_device;
pub mod text;
pub mod conformance_machine;
pub mod test_machine;
pub mod chars;
pub mod assembly;
pub mod report;
pub mod model;
pub mod validate;
pub mod runner;
pub mod coverage;
pub mod cpu_tester;
pub mod cli;
pub mod assemble_command;
