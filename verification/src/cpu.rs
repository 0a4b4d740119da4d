//! The Kagura CPU: architectural state, instruction decoding and the single-step
//! state transition, specified by `step_outcome`.
use vstd::prelude::*;

use crate::bus::{AccessWidth, Bus, BusFault, lift16, lift8};

verus! {

/// Program counter after reset.
pub const RESET_PC: u32 = 0x0000_0000;

/// Number of general-purpose registers `r0..r15`.
pub const REGISTER_COUNT: usize = 16;

/// The kind of a fault, without its metadata.
#[derive(Debug, Clone, Copy, PartialEq, Eq, Structural)]
pub enum FaultCode {
    InvalidInstruction,
    UnalignedAccess,
    UnalignedPc,
    BusFault,
}

/// Which bus access of an instruction faulted.
#[derive(Debug, Clone, Copy, PartialEq, Eq, Structural)]
pub enum AccessOperation {
    Fetch,
    Load,
    Store,
}

/// A fault returned by `Cpu::step`, with the metadata the ISA prescribes.
#[derive(Debug, Clone, Copy, PartialEq, Eq, Structural)]
pub enum Fault {
    InvalidInstruction { faulting_pc: u32 },
    UnalignedAccess { faulting_pc: u32, addr: u32, width: AccessWidth, operation: AccessOperation },
    UnalignedPc { faulting_pc: u32, addr: u32 },
    BusFault { faulting_pc: u32, addr: u32, width: AccessWidth, operation: AccessOperation },
}

/// The code of a fault.
pub open spec fn fault_code(f: Fault) -> FaultCode {
    match f {
        Fault::InvalidInstruction { .. } => FaultCode::InvalidInstruction,
        Fault::UnalignedAccess { .. } => FaultCode::UnalignedAccess,
        Fault::UnalignedPc { .. } => FaultCode::UnalignedPc,
        Fault::BusFault { .. } => FaultCode::BusFault,
    }
}

/// The address of the instruction that faulted.
pub open spec fn fault_pc(f: Fault) -> u32 {
    match f {
        Fault::InvalidInstruction { faulting_pc } => faulting_pc,
        Fault::UnalignedAccess { faulting_pc, .. } => faulting_pc,
        Fault::UnalignedPc { faulting_pc, .. } => faulting_pc,
        Fault::BusFault { faulting_pc, .. } => faulting_pc,
    }
}

impl Fault {
    pub fn code(self) -> (c: FaultCode)
        ensures
            c == fault_code(self),
    {
        match self {
            Fault::InvalidInstruction { .. } => FaultCode::InvalidInstruction,
            Fault::UnalignedAccess { .. } => FaultCode::UnalignedAccess,
            Fault::UnalignedPc { .. } => FaultCode::UnalignedPc,
            Fault::BusFault { .. } => FaultCode::BusFault,
        }
    }

    pub fn faulting_pc(self) -> (pc: u32)
        ensures
            pc == fault_pc(self),
    {
        match self {
            Fault::InvalidInstruction { faulting_pc } => faulting_pc,
            Fault::UnalignedAccess { faulting_pc, .. } => faulting_pc,
            Fault::UnalignedPc { faulting_pc, .. } => faulting_pc,
            Fault::BusFault { faulting_pc, .. } => faulting_pc,
        }
    }
}

/// Architectural state: the sixteen registers as read by instructions (`r0` reads 0)
/// and the program counter.
pub struct CpuView {
    pub regs: Seq<u32>,
    pub pc: u32,
}

/// State after a retired instruction that writes `value` to `rd` (discarded for `r0`)
/// and continues at `pc`.
pub open spec fn commit(c: CpuView, rd: int, value: u32, pc: u32) -> CpuView {
    CpuView { regs: if rd == 0 { c.regs } else { c.regs.update(rd, value) }, pc }
}

/// State after a retired instruction that writes no register.
pub open spec fn advance(c: CpuView, pc: u32) -> CpuView {
    CpuView { regs: c.regs, pc }
}

/// The state right after reset.
pub open spec fn reset_view() -> CpuView {
    CpuView { regs: Seq::new(16, |i: int| 0u32), pc: RESET_PC }
}

/// Instruction fields: `op[31:28] rd[27:24] rs1[23:20] rs2[19:16] imm[15:0]`.
pub open spec fn field_op(w: u32) -> u32 { (w >> 28u32) & 0xf }
pub open spec fn field_rd(w: u32) -> u32 { (w >> 24u32) & 0xf }
pub open spec fn field_rs1(w: u32) -> u32 { (w >> 20u32) & 0xf }
pub open spec fn field_rs2(w: u32) -> u32 { (w >> 16u32) & 0xf }
pub open spec fn field_imm(w: u32) -> u32 { w & 0xffff }

/// `imm` (a 16-bit value) sign-extended to 32 bits.
pub open spec fn sext16(imm: u32) -> u32 {
    if imm < 0x8000 { imm } else { (imm + 0xffff_0000) as u32 }
}

/// `(a + b + c) mod 2^32`.
pub open spec fn add3(a: u32, b: u32, c: u32) -> u32 {
    ((a + b + c) % 0x1_0000_0000) as u32
}

/// `(a + b) mod 2^32`.
pub open spec fn add2(a: u32, b: u32) -> u32 {
    ((a + b) % 0x1_0000_0000) as u32
}

/// A 32-bit pattern read as a two's complement integer.
pub open spec fn signed(x: u32) -> int {
    if x < 0x8000_0000 { x as int } else { x - 0x1_0000_0000 }
}

/// Arithmetic right shift: vacated high bits take bit 31 of `x`.
pub open spec fn sar(x: u32, amount: u32) -> u32 {
    if x < 0x8000_0000 { x >> amount } else { !((!x) >> amount) }
}

/// Result of `SHIFT` for a valid mode (`0b00` left, `0b10` logical right, `0b11` arithmetic right).
pub open spec fn shift_value(src: u32, amount: u32, mode: u32) -> u32 {
    if mode == 0 { src << amount } else if mode == 2 { src >> amount } else { sar(src, amount) }
}

/// Boolean of `CMP` for a valid mode, before inversion.
pub open spec fn compare_value(lhs: u32, rhs: u32, mode: u32) -> bool {
    if mode == 0 { lhs == rhs } else if mode == 1 { signed(lhs) < signed(rhs) } else { lhs < rhs }
}

/// Whether `addr` satisfies the alignment of an access of width `w`.
pub open spec fn aligned(addr: u32, w: AccessWidth) -> bool {
    match w {
        AccessWidth::Byte => true,
        AccessWidth::Half => addr % 2 == 0,
        AccessWidth::Word => addr % 4 == 0,
    }
}

/// The value a store of width `w` writes: the low bits of `v`.
pub open spec fn truncate(v: u32, w: AccessWidth) -> u32 {
    match w {
        AccessWidth::Byte => v % 0x100,
        AccessWidth::Half => v % 0x1_0000,
        AccessWidth::Word => v,
    }
}

/// Width accessed by a load/store opcode.
pub open spec fn mem_width(op: u32) -> AccessWidth {
    if op == 4 || op == 8 { AccessWidth::Byte } else if op == 5 || op == 9 { AccessWidth::Half } else { AccessWidth::Word }
}

/// Outcome of executing the fetched word `w` from state `c` with the bus in state `b`:
/// the step result, the CPU state and the bus state afterwards.
pub open spec fn execute_outcome<B: Bus>(c: CpuView, w: u32, b: B::V) -> (Result<(), Fault>, CpuView, B::V) {
    let pc = c.pc;
    let next = add2(pc, 4);
    let op = field_op(w);
    let rd = field_rd(w) as int;
    let a = c.regs[field_rs1(w) as int];
    let bb = c.regs[field_rs2(w) as int];
    let imm = field_imm(w);
    let invalid = Fault::InvalidInstruction { faulting_pc: pc };
    if op == 0 {
        (Ok(()), commit(c, rd, add3(a, bb, sext16(imm)), next), b)
    } else if op == 1 {
        (Ok(()), commit(c, rd, !(a & bb), next), b)
    } else if op == 2 {
        let mode = imm >> 14u32;
        if (imm >> 5u32) & 0x1ff != 0 || mode == 1 {
            (Err(invalid), c, b)
        } else {
            let amount = ((bb + (imm & 0x1f)) % 32) as u32;
            (Ok(()), commit(c, rd, shift_value(a, amount, mode), next), b)
        }
    } else if op == 3 {
        (Ok(()), commit(c, rd, ((a * bb) % 0x1_0000_0000) as u32, next), b)
    } else if op == 4 || op == 5 || op == 7 {
        let addr = add3(a, bb, sext16(imm));
        let width = mem_width(op);
        if !aligned(addr, width) {
            (Err(Fault::UnalignedAccess { faulting_pc: pc, addr, width, operation: AccessOperation::Load }), c, b)
        } else {
            let (r, b2) = B::read_outcome(b, addr, width);
            match r {
                Err(_) => (Err(Fault::BusFault { faulting_pc: pc, addr, width, operation: AccessOperation::Load }), c, b2),
                Ok(v) => (Ok(()), commit(c, rd, v, next), b2),
            }
        }
    } else if op == 8 || op == 9 || op == 11 {
        let addr = add3(a, bb, sext16(imm));
        let width = mem_width(op);
        if !aligned(addr, width) {
            (Err(Fault::UnalignedAccess { faulting_pc: pc, addr, width, operation: AccessOperation::Store }), c, b)
        } else {
            let (r, b2) = B::write_outcome(b, addr, width, truncate(c.regs[rd], width));
            match r {
                Err(_) => (Err(Fault::BusFault { faulting_pc: pc, addr, width, operation: AccessOperation::Store }), c, b2),
                Ok(_) => (Ok(()), advance(c, next), b2),
            }
        }
    } else if op == 12 {
        if a != 0 {
            (Ok(()), advance(c, next), b)
        } else {
            let offset = ((sext16(imm) * 4) % 0x1_0000_0000) as u32;
            if field_rs2(w) == 0 {
                (Ok(()), commit(c, rd, next, add2(next, offset)), b)
            } else {
                let target = add2(bb, offset);
                if target % 4 != 0 {
                    (Err(Fault::UnalignedPc { faulting_pc: pc, addr: target }), c, b)
                } else {
                    (Ok(()), commit(c, rd, next, target), b)
                }
            }
        }
    } else if op == 13 {
        let mode = imm & 3;
        if imm >> 3u32 != 0 || mode == 3 {
            (Err(invalid), c, b)
        } else {
            let result = compare_value(a, bb, mode);
            let result = if (imm >> 2u32) & 1 == 1 { !result } else { result };
            (Ok(()), commit(c, rd, if result { 1 } else { 0 }, next), b)
        }
    } else {
        (Err(invalid), c, b)
    }
}

/// Outcome of one step from state `c` with the bus in state `b`: an unaligned PC faults
/// before any access; otherwise one 32-bit fetch at the PC, then `execute_outcome`.
pub open spec fn step_outcome<B: Bus>(c: CpuView, b: B::V) -> (Result<(), Fault>, CpuView, B::V) {
    if c.pc % 4 != 0 {
        (Err(Fault::UnalignedPc { faulting_pc: c.pc, addr: c.pc }), c, b)
    } else {
        let (f, b1) = B::read_outcome(b, c.pc, AccessWidth::Word);
        match f {
            Err(_) => (Err(Fault::BusFault { faulting_pc: c.pc, addr: c.pc, width: AccessWidth::Word, operation: AccessOperation::Fetch }), c, b1),
            Ok(w) => execute_outcome::<B>(c, w, b1),
        }
    }
}

/// A faulting instruction leaves the registers and the PC as they were.
pub proof fn lemma_fault_keeps_cpu<B: Bus>(c: CpuView, b: B::V)
    ensures
        step_outcome::<B>(c, b).0 is Err ==> step_outcome::<B>(c, b).1 == c,
{
    if c.pc % 4 == 0 {
        let (f, b1) = B::read_outcome(b, c.pc, AccessWidth::Word);
        if let Ok(w) = f {
            let op = field_op(w);
            if op == 4 || op == 5 || op == 7 {
                let addr = add3(c.regs[field_rs1(w) as int], c.regs[field_rs2(w) as int], sext16(field_imm(w)));
                let _ = B::read_outcome(b1, addr, mem_width(op));
            }
        }
    }
}

/// An instruction never makes `r0` read as anything but zero, and the register file
/// keeps its sixteen registers.
pub proof fn lemma_step_keeps_r0_zero<B: Bus>(c: CpuView, b: B::V)
    requires
        c.regs.len() == 16,
        c.regs[0] == 0,
    ensures
        step_outcome::<B>(c, b).1.regs.len() == 16,
        step_outcome::<B>(c, b).1.regs[0] == 0,
{
    if c.pc % 4 == 0 {
        let (f, b1) = B::read_outcome(b, c.pc, AccessWidth::Word);
        if let Ok(w) = f {
            let op = field_op(w);
            assert(field_rd(w) < 16) by (bit_vector);
            if op == 4 || op == 5 || op == 7 {
                let addr = add3(c.regs[field_rs1(w) as int], c.regs[field_rs2(w) as int], sext16(field_imm(w)));
                let _ = B::read_outcome(b1, addr, mem_width(op));
            }
        }
    }
}

/// Sequential execution: a retired instruction other than a taken jump continues at the
/// next word, `PC + 4` (mod 2^32). The word `w` is the one fetched at the PC.
pub proof fn lemma_sequential_pc<B: Bus>(c: CpuView, b: B::V, w: u32)
    requires
        c.regs.len() == 16,
        step_outcome::<B>(c, b).0 is Ok,
        B::read_outcome(b, c.pc, AccessWidth::Word).0 == Ok::<u32, BusFault>(w),
        field_op(w) != 12 || c.regs[field_rs1(w) as int] != 0,
    ensures
        step_outcome::<B>(c, b).1.pc == add2(c.pc, 4),
{
    let b1 = B::read_outcome(b, c.pc, AccessWidth::Word).1;
    let op = field_op(w);
    if op == 4 || op == 5 || op == 7 {
        let addr = add3(c.regs[field_rs1(w) as int], c.regs[field_rs2(w) as int], sext16(field_imm(w)));
        let _ = B::read_outcome(b1, addr, mem_width(op));
    } else if op == 8 || op == 9 || op == 11 {
        let addr = add3(c.regs[field_rs1(w) as int], c.regs[field_rs2(w) as int], sext16(field_imm(w)));
        let _ = B::write_outcome(b1, addr, mem_width(op), truncate(c.regs[field_rd(w) as int], mem_width(op)));
    }
}

/// The PC of a CPU that has retired an instruction is a multiple of four: fetches start
/// aligned and every jump target that is taken is aligned.
pub proof fn lemma_step_keeps_pc_aligned<B: Bus>(c: CpuView, b: B::V)
    requires
        c.regs.len() == 16,
        step_outcome::<B>(c, b).0 is Ok,
    ensures
        step_outcome::<B>(c, b).1.pc % 4 == 0,
{
    let pc = c.pc;
    assert(pc % 4 == 0);
    let (f, b1) = B::read_outcome(b, pc, AccessWidth::Word);
    let w = f->Ok_0;
    let next = add2(pc, 4);
    assert(next % 4 == 0) by {
        assert(pc % 4 == 0 ==> ((pc + 4) % 0x1_0000_0000) % 4 == 0) by (nonlinear_arith);
    }
    let op = field_op(w);
    if op == 4 || op == 5 || op == 7 {
        let addr = add3(c.regs[field_rs1(w) as int], c.regs[field_rs2(w) as int], sext16(field_imm(w)));
        let _ = B::read_outcome(b1, addr, mem_width(op));
    } else if op == 8 || op == 9 || op == 11 {
        let addr = add3(c.regs[field_rs1(w) as int], c.regs[field_rs2(w) as int], sext16(field_imm(w)));
        let _ = B::write_outcome(b1, addr, mem_width(op), truncate(c.regs[field_rd(w) as int], mem_width(op)));
    } else if op == 12 && c.regs[field_rs1(w) as int] == 0 && field_rs2(w) == 0 {
        let s = sext16(field_imm(w));
        let offset = ((s * 4) % 0x1_0000_0000) as u32;
        assert(offset % 4 == 0) by {
            assert(((s * 4) % 0x1_0000_0000) % 4 == 0) by (nonlinear_arith);
        }
        assert(add2(next, offset) % 4 == 0) by {
            assert(next % 4 == 0 && offset % 4 == 0 ==> ((next + offset) % 0x1_0000_0000) % 4 == 0)
                by (nonlinear_arith);
        }
    }
}

/// A step depends on the bus only through its answers: two buses, of any types, that give
/// the same answer to the fetch at the PC and then the same answer to any one load or
/// store, make the CPU end in the same state with the same result.
pub proof fn lemma_step_determined_by_answers<B1: Bus, B2: Bus>(c: CpuView, b1: B1::V, b2: B2::V)
    requires
        B1::read_outcome(b1, c.pc, AccessWidth::Word).0 == B2::read_outcome(b2, c.pc, AccessWidth::Word).0,
        forall|addr: u32, w: AccessWidth|
            #[trigger] B1::read_outcome(B1::read_outcome(b1, c.pc, AccessWidth::Word).1, addr, w).0
                == B2::read_outcome(B2::read_outcome(b2, c.pc, AccessWidth::Word).1, addr, w).0,
        forall|addr: u32, w: AccessWidth, v: u32|
            #[trigger] B1::write_outcome(B1::read_outcome(b1, c.pc, AccessWidth::Word).1, addr, w, v).0
                == B2::write_outcome(B2::read_outcome(b2, c.pc, AccessWidth::Word).1, addr, w, v).0,
    ensures
        step_outcome::<B1>(c, b1).0 == step_outcome::<B2>(c, b2).0,
        step_outcome::<B1>(c, b1).1 == step_outcome::<B2>(c, b2).1,
{
    if c.pc % 4 == 0 {
        let (f, b1f) = B1::read_outcome(b1, c.pc, AccessWidth::Word);
        let (_, b2f) = B2::read_outcome(b2, c.pc, AccessWidth::Word);
        if let Ok(w) = f {
            let op = field_op(w);
            let addr = add3(c.regs[field_rs1(w) as int], c.regs[field_rs2(w) as int], sext16(field_imm(w)));
            if op == 4 || op == 5 || op == 7 {
                assert(B1::read_outcome(b1f, addr, mem_width(op)).0 == B2::read_outcome(b2f, addr, mem_width(op)).0);
            } else if op == 8 || op == 9 || op == 11 {
                let v = truncate(c.regs[field_rd(w) as int], mem_width(op));
                assert(B1::write_outcome(b1f, addr, mem_width(op), v).0 == B2::write_outcome(b2f, addr, mem_width(op), v).0);
            }
        }
    }
}

/// Two 32-bit patterns compare as two's complement integers exactly as Rust's `i32`
/// comparison of the same bits does.
proof fn lemma_signed_is_i32(x: u32, y: u32)
    ensures
        (signed(x) < signed(y)) == ((x as i32) < (y as i32)),
{
    assert(x < 0x8000_0000u32 && y < 0x8000_0000u32 ==> (((x as i32) < (y as i32)) == (x < y))) by (bit_vector);
    assert(x >= 0x8000_0000u32 && y >= 0x8000_0000u32 ==> (((x as i32) < (y as i32)) == (x < y))) by (bit_vector);
    assert(x >= 0x8000_0000u32 && y < 0x8000_0000u32 ==> (x as i32) < (y as i32)) by (bit_vector);
    assert(x < 0x8000_0000u32 && y >= 0x8000_0000u32 ==> !((x as i32) < (y as i32))) by (bit_vector);
}

/// `CMP rd, rs1, rs2, mode` writes 1 to `rd` when its comparison holds and 0 when it does
/// not: mode `0b00` is `rs1 == rs2`, `0b01` is `rs1 < rs2` between the registers read as
/// `i32`, `0b10` is `rs1 < rs2` between them read as `u32`; bit 2 of the immediate negates
/// the result. It retires, touches no memory and continues at the next word.
pub proof fn lemma_compare_instruction<B: Bus>(c: CpuView, w: u32, b: B::V)
    requires
        c.regs.len() == 16,
        field_op(w) == 13,
        field_imm(w) < 8,
        field_imm(w) % 4 != 3,
    ensures
        ({
            let x = c.regs[field_rs1(w) as int];
            let y = c.regs[field_rs2(w) as int];
            let mode = field_imm(w) % 4;
            let holds = if mode == 0 { x == y } else if mode == 1 { (x as i32) < (y as i32) } else { x < y };
            let written: u32 = if holds != (field_imm(w) >= 4) { 1 } else { 0 };
            let (r, c2, b2) = execute_outcome::<B>(c, w, b);
            &&& r is Ok
            &&& b2 == b
            &&& c2.pc as int == (c.pc + 4) % 0x1_0000_0000
            &&& c2.regs.len() == 16
            &&& forall|i: int| 0 <= i < 16 && i != field_rd(w) ==> c2.regs[i] == c.regs[i]
            &&& field_rd(w) != 0 ==> c2.regs[field_rd(w) as int] == written
        }),
{
    let imm = field_imm(w);
    assert(imm < 8 ==> (imm >> 3u32) == 0 && (imm & 3) == imm % 4 && ((imm >> 2u32) & 1 == 1) == (imm >= 4)) by (bit_vector);
    assert(field_rd(w) < 16 && field_rs1(w) < 16 && field_rs2(w) < 16) by (bit_vector);
    lemma_signed_is_i32(c.regs[field_rs1(w) as int], c.regs[field_rs2(w) as int]);
}

/// The 16-bit immediate read as a two's complement integer.
pub open spec fn imm_value(imm: u32) -> int {
    if imm < 0x8000 { imm as int } else { imm - 0x1_0000 }
}

proof fn lemma_sext16_congruent(imm: u32, x: int)
    requires
        imm < 0x1_0000,
    ensures
        (x + sext16(imm)) % 0x1_0000_0000 == (x + imm_value(imm)) % 0x1_0000_0000,
        (sext16(imm) * 4) % 0x1_0000_0000 == (imm_value(imm) * 4) % 0x1_0000_0000,
{
    if imm >= 0x8000 {
        vstd::arithmetic::div_mod::lemma_mod_add_multiples_vanish(x + imm_value(imm), 0x1_0000_0000);
        vstd::arithmetic::div_mod::lemma_mod_multiples_vanish(4, imm_value(imm) * 4, 0x1_0000_0000);
    }
}

/// `ADD rd, rs1, rs2, imm` writes `rs1 + rs2 + imm` (the immediate signed), `NAND` writes
/// the complement of `rs1 & rs2`, and `MUL` the product; each modulo 2^32. Each retires,
/// touches no memory and continues at the next word; `r0` is never written.
pub proof fn lemma_arithmetic_instructions<B: Bus>(c: CpuView, w: u32, b: B::V)
    requires
        c.regs.len() == 16,
        field_op(w) == 0 || field_op(w) == 1 || field_op(w) == 3,
    ensures
        ({
            let x = c.regs[field_rs1(w) as int];
            let y = c.regs[field_rs2(w) as int];
            let value: u32 = if field_op(w) == 0 {
                ((x + y + imm_value(field_imm(w))) % 0x1_0000_0000) as u32
            } else if field_op(w) == 1 {
                !(x & y)
            } else {
                ((x * y) % 0x1_0000_0000) as u32
            };
            let (r, c2, b2) = execute_outcome::<B>(c, w, b);
            &&& r is Ok
            &&& b2 == b
            &&& c2.pc as int == (c.pc + 4) % 0x1_0000_0000
            &&& c2.regs.len() == 16
            &&& forall|i: int| 0 <= i < 16 && i != field_rd(w) ==> c2.regs[i] == c.regs[i]
            &&& field_rd(w) != 0 ==> c2.regs[field_rd(w) as int] == value
            &&& field_rd(w) == 0 ==> c2.regs == c.regs
        }),
{
    assert(field_rd(w) < 16 && field_rs1(w) < 16 && field_rs2(w) < 16 && field_imm(w) < 0x1_0000) by (bit_vector);
    let x = c.regs[field_rs1(w) as int];
    let y = c.regs[field_rs2(w) as int];
    lemma_sext16_congruent(field_imm(w), x + y);
}

proof fn lemma_word_multiple(x: int)
    requires
        x % 4 == 0,
    ensures
        (x % 0x1_0000_0000) % 4 == 0,
{
    vstd::arithmetic::div_mod::lemma_mod_mod(x, 4, 0x4000_0000);
}

/// `JZ rd, rs1, rs2, imm` fetched at an aligned PC: when `rs1` is not zero the jump is not
/// taken and nothing but the PC changes. Otherwise the target is `PC + 4 + imm * 4` when
/// `rs2` is `r0`, always aligned, and `rs2 + imm * 4` else (the immediate signed, modulo
/// 2^32); an unaligned target faults with `UNALIGNED_PC` and changes nothing, an aligned
/// one is jumped to and `rd` receives the address of the next word.
#[verifier::spinoff_prover]
#[verifier::rlimit(40)]
pub proof fn lemma_jump_instruction<B: Bus>(c: CpuView, w: u32, b: B::V)
    requires
        c.regs.len() == 16,
        c.pc % 4 == 0,
        field_op(w) == 12,
    ensures
        ({
            let next = (c.pc + 4) % 0x1_0000_0000;
            let offset = imm_value(field_imm(w)) * 4;
            let target = if field_rs2(w) == 0 {
                (next + offset) % 0x1_0000_0000
            } else {
                (c.regs[field_rs2(w) as int] + offset) % 0x1_0000_0000
            };
            let (r, c2, b2) = execute_outcome::<B>(c, w, b);
            &&& b2 == b
            &&& field_rs2(w) == 0 ==> target % 4 == 0
            &&& c.regs[field_rs1(w) as int] != 0 ==> r is Ok && c2.regs == c.regs && c2.pc == next
            &&& c.regs[field_rs1(w) as int] == 0 && target % 4 != 0 ==>
                r == Err::<(), Fault>(Fault::UnalignedPc { faulting_pc: c.pc, addr: target as u32 }) && c2 == c
            &&& c.regs[field_rs1(w) as int] == 0 && target % 4 == 0 ==> {
                &&& r is Ok
                &&& c2.pc == target
                &&& forall|i: int| 0 <= i < 16 && i != field_rd(w) ==> c2.regs[i] == c.regs[i]
                &&& field_rd(w) != 0 ==> c2.regs[field_rd(w) as int] == next
            }
        }),
{
    assert(field_rd(w) < 16 && field_rs1(w) < 16 && field_rs2(w) < 16 && field_imm(w) < 0x1_0000) by (bit_vector);
    let next = add2(c.pc, 4);
    let s = sext16(field_imm(w));
    lemma_sext16_congruent(field_imm(w), 0);
    let off = ((s * 4) % 0x1_0000_0000) as u32;
    let iv = imm_value(field_imm(w));
    let base: int = if field_rs2(w) == 0 { next as int } else { c.regs[field_rs2(w) as int] as int };
    vstd::arithmetic::div_mod::lemma_add_mod_noop_right(base, s * 4, 0x1_0000_0000);
    vstd::arithmetic::div_mod::lemma_add_mod_noop_right(base, iv * 4, 0x1_0000_0000);
    assert(off as int == (s * 4) % 0x1_0000_0000);
    let t_law: int = (base + iv * 4) % 0x1_0000_0000;
    assert((base + off) % 0x1_0000_0000 == t_law);
    if field_rs2(w) == 0 {
        lemma_word_multiple(c.pc + 4);
        assert((next + iv * 4) % 4 == 0);
        lemma_word_multiple(next + iv * 4);
    }
}

proof fn lemma_sar_is_i32_shift(x: u32, amount: u32)
    requires
        amount < 32,
    ensures
        sar(x, amount) == ((x as i32) >> amount) as u32,
{
    assert(x < 0x8000_0000u32 && amount < 32u32 ==> x >> amount == ((x as i32) >> amount) as u32) by (bit_vector);
    assert(x >= 0x8000_0000u32 && amount < 32u32 ==> !((!x) >> amount) == ((x as i32) >> amount) as u32) by (bit_vector);
}

/// `SHIFT rd, rs1, rs2, imm` shifts `rs1` by `(rs2 + imm[4:0]) mod 32` bits: mode
/// `imm[15:14] = 0b00` to the left, `0b10` logically to the right, `0b11` arithmetically to
/// the right (as Rust's `i32 >>`). Mode `0b01` or nonzero `imm[13:5]` is an invalid
/// instruction that changes nothing.
pub proof fn lemma_shift_instruction<B: Bus>(c: CpuView, w: u32, b: B::V)
    requires
        c.regs.len() == 16,
        field_op(w) == 2,
    ensures
        ({
            let imm = field_imm(w);
            let mode = imm / 0x4000;
            let x = c.regs[field_rs1(w) as int];
            let amount = ((c.regs[field_rs2(w) as int] + imm % 32) % 32) as u32;
            let value: u32 = if mode == 0 { x << amount } else if mode == 2 { x >> amount } else { ((x as i32) >> amount) as u32 };
            let (r, c2, b2) = execute_outcome::<B>(c, w, b);
            &&& b2 == b
            &&& (mode == 1 || (imm / 32) % 0x200 != 0) ==>
                r == Err::<(), Fault>(Fault::InvalidInstruction { faulting_pc: c.pc }) && c2 == c
            &&& !(mode == 1 || (imm / 32) % 0x200 != 0) ==> {
                &&& r is Ok
                &&& c2.pc as int == (c.pc + 4) % 0x1_0000_0000
                &&& forall|i: int| 0 <= i < 16 && i != field_rd(w) ==> c2.regs[i] == c.regs[i]
                &&& field_rd(w) != 0 ==> c2.regs[field_rd(w) as int] == value
            }
        }),
{
    assert(field_rd(w) < 16 && field_rs1(w) < 16 && field_rs2(w) < 16 && field_imm(w) < 0x1_0000) by (bit_vector);
    let imm = field_imm(w);
    assert(imm < 0x1_0000u32 ==> imm >> 14u32 == imm / 0x4000 && (imm >> 5u32) & 0x1ff == (imm / 32) % 0x200
        && imm & 0x1f == imm % 32) by (bit_vector);
    let amount = ((c.regs[field_rs2(w) as int] + imm % 32) % 32) as u32;
    lemma_sar_is_i32_shift(c.regs[field_rs1(w) as int], amount);
}

/// Loads `LDB`/`LDH`/`LDW` (opcodes 4, 5, 7) and stores `STB`/`STH`/`STW` (8, 9, 11) access
/// 1, 2 or 4 bytes at `rs1 + rs2 + imm` (the immediate signed, modulo 2^32). A 2-byte access
/// at an odd address or a 4-byte one at an address that is not a multiple of 4 faults with
/// `UNALIGNED_ACCESS` before any bus access. Otherwise the bus is accessed once: a load
/// writes the value read to `rd`, a store writes the low bytes of `rd`; a bus fault becomes
/// `BUS_FAULT` and leaves the CPU as it was.
#[verifier::spinoff_prover]
pub proof fn lemma_memory_instructions<B: Bus>(c: CpuView, w: u32, b: B::V)
    requires
        c.regs.len() == 16,
        field_op(w) == 4 || field_op(w) == 5 || field_op(w) == 7 || field_op(w) == 8 || field_op(w) == 9 || field_op(w) == 11,
    ensures
        ({
            let op = field_op(w);
            let is_load = op == 4 || op == 5 || op == 7;
            let width = if op == 4 || op == 8 { AccessWidth::Byte } else if op == 5 || op == 9 { AccessWidth::Half } else { AccessWidth::Word };
            let size: int = if width == AccessWidth::Byte { 1 } else if width == AccessWidth::Half { 2 } else { 4 };
            let addr = ((c.regs[field_rs1(w) as int] + c.regs[field_rs2(w) as int] + imm_value(field_imm(w))) % 0x1_0000_0000) as u32;
            let operation = if is_load { AccessOperation::Load } else { AccessOperation::Store };
            let stored = (c.regs[field_rd(w) as int] as int % (if size == 1 { 0x100int } else if size == 2 { 0x1_0000int } else { 0x1_0000_0000int })) as u32;
            let (r, c2, b2) = execute_outcome::<B>(c, w, b);
            &&& addr % (size as u32) != 0 ==>
                r == Err::<(), Fault>(Fault::UnalignedAccess { faulting_pc: c.pc, addr, width, operation }) && c2 == c && b2 == b
            &&& addr % (size as u32) == 0 && is_load ==> {
                let (v, b1) = B::read_outcome(b, addr, width);
                &&& b2 == b1
                &&& v is Err ==> r == Err::<(), Fault>(Fault::BusFault { faulting_pc: c.pc, addr, width, operation }) && c2 == c
                &&& v is Ok ==> r is Ok && c2.pc as int == (c.pc + 4) % 0x1_0000_0000
                    && (field_rd(w) != 0 ==> c2.regs[field_rd(w) as int] == v->Ok_0)
                    && (forall|i: int| 0 <= i < 16 && i != field_rd(w) ==> c2.regs[i] == c.regs[i])
            }
            &&& addr % (size as u32) == 0 && !is_load ==> {
                let (v, b1) = B::write_outcome(b, addr, width, stored);
                &&& b2 == b1
                &&& v is Err ==> r == Err::<(), Fault>(Fault::BusFault { faulting_pc: c.pc, addr, width, operation }) && c2 == c
                &&& v is Ok ==> r is Ok && c2.regs == c.regs && c2.pc as int == (c.pc + 4) % 0x1_0000_0000
            }
        }),
{
    assert(field_rd(w) < 16 && field_rs1(w) < 16 && field_rs2(w) < 16 && field_imm(w) < 0x1_0000) by (bit_vector);
    let x = c.regs[field_rs1(w) as int];
    let y = c.regs[field_rs2(w) as int];
    lemma_sext16_congruent(field_imm(w), x + y);
}

/// The CPU: sixteen 32-bit registers and the program counter.
#[derive(Debug, Clone, Copy, PartialEq, Eq)]
pub struct Cpu {
    regs: [u32; 16],
    pc: u32,
}

impl View for Cpu {
    type V = CpuView;

    /// The stored registers and the PC.
    closed spec fn view(&self) -> CpuView {
        CpuView { regs: self.regs@, pc: self.pc }
    }
}

impl Cpu {
    /// `r0` is hard-wired to zero: its stored slot is always 0.
    #[verifier::type_invariant]
    spec fn r0_is_zero(self) -> bool {
        self.regs[0] == 0
    }
}

/// Two CPUs with the same view are the same value: same registers, same PC.
pub proof fn lemma_view_determines_cpu(a: Cpu, b: Cpu)
    requires
        a@ == b@,
    ensures
        a == b,
{
    assert(a.regs =~= b.regs) by {
        assert forall|i: int| 0 <= i < 16 implies a.regs[i] == b.regs[i] by {
            assert(a@.regs[i] == b@.regs[i]);
        }
    }
}

impl Default for Cpu {
    fn default() -> (c: Self)
        ensures
            c@ == reset_view(),
    {
        Self::new()
    }
}

/// The fields of a fetched word, as `Cpu::execute` uses them.
struct Decoded {
    op: u32,
    rd: usize,
    rs1: usize,
    rs2: usize,
    imm: u32,
}

fn decode(w: u32) -> (d: Decoded)
    ensures
        d.op == field_op(w),
        d.rd as u32 == field_rd(w),
        d.rs1 as u32 == field_rs1(w),
        d.rs2 as u32 == field_rs2(w),
        d.imm == field_imm(w),
        d.rd < 16 && d.rs1 < 16 && d.rs2 < 16,
        d.imm < 0x1_0000,
        d.op < 16,
{
    assert((w >> 24u32) & 0xf < 16 && (w >> 20u32) & 0xf < 16 && (w >> 16u32) & 0xf < 16
        && w & 0xffff < 0x1_0000 && (w >> 28u32) & 0xf < 16) by (bit_vector);
    Decoded {
        op: (w >> 28u32) & 0xf,
        rd: ((w >> 24u32) & 0xf) as usize,
        rs1: ((w >> 20u32) & 0xf) as usize,
        rs2: ((w >> 16u32) & 0xf) as usize,
        imm: w & 0xffff,
    }
}

fn sext16_exec(imm: u32) -> (r: u32)
    requires
        imm < 0x1_0000,
    ensures
        r == sext16(imm),
{
    if imm < 0x8000 { imm } else { imm + 0xffff_0000 }
}

fn add3_exec(a: u32, b: u32, c: u32) -> (r: u32)
    ensures
        r == add3(a, b, c),
{
    ((a as u64 + b as u64 + c as u64) % 0x1_0000_0000) as u32
}

fn width_aligned(addr: u32, width: AccessWidth) -> (r: bool)
    ensures
        r == aligned(addr, width),
{
    match width {
        AccessWidth::Byte => true,
        AccessWidth::Half => addr % 2 == 0,
        AccessWidth::Word => addr % 4 == 0,
    }
}

impl Cpu {
    /// A CPU in the reset state: all registers 0 and `PC = RESET_PC`.
    pub fn new() -> (c: Self)
        ensures
            c@ == reset_view(),
    {
        let c = Cpu { regs: [0u32; 16], pc: RESET_PC };
        assert(c@.regs =~= reset_view().regs);
        c
    }

    /// Returns to the reset state.
    pub fn reset(&mut self)
        ensures
            final(self)@ == reset_view(),
    {
        self.regs = [0u32; 16];
        self.pc = RESET_PC;
        assert(self@.regs =~= reset_view().regs);
    }

    pub fn pc(&self) -> (pc: u32)
        ensures
            pc == self@.pc,
            self@.regs.len() == 16,
            self@.regs[0] == 0,
    {
        proof { use_type_invariant(self); }
        self.pc
    }

    /// The value of register `index`; `r0` always reads 0.
    pub fn reg(&self, index: usize) -> (v: u32)
        requires
            index < REGISTER_COUNT,
        ensures
            v == self@.regs[index as int],
            index == 0 ==> v == 0,
            self@.regs.len() == 16,
            self@.regs[0] == 0,
    {
        proof { use_type_invariant(self); }
        self.regs[index]
    }

    pub fn set_pc(&mut self, pc: u32)
        ensures
            final(self)@ == advance(old(self)@, pc),
            final(self)@.regs[0] == 0,
    {
        proof { use_type_invariant(&*self); }
        self.pc = pc;
    }

    /// Writes register `index`; a write to `r0` is discarded.
    pub fn set_reg(&mut self, index: usize, value: u32)
        requires
            index < REGISTER_COUNT,
        ensures
            final(self)@ == commit(old(self)@, index as int, value, old(self)@.pc),
            final(self)@.regs[0] == 0,
            index == 0 ==> *final(self) == *old(self),
    {
        proof { use_type_invariant(&*self); }
        if index != 0 {
            self.regs[index] = value;
        }
        assert(self@.regs =~= commit(old(self)@, index as int, value, old(self)@.pc).regs);
    }

    /// Commits a retired instruction: writes `value` to `rd` (not `r0`) and sets the PC.
    fn retire(&mut self, rd: usize, value: u32, pc: u32)
        requires
            rd < 16,
        ensures
            final(self)@ == commit(old(self)@, rd as int, value, pc),
    {
        proof { use_type_invariant(&*self); }
        if rd != 0 {
            self.regs[rd] = value;
        }
        self.pc = pc;
        assert(self@.regs =~= commit(old(self)@, rd as int, value, pc).regs);
    }

    /// Executes one instruction: fetches the word at the PC and applies it. On a fault
    /// the CPU state is unchanged and the fault is returned.
    pub fn step<B: Bus>(&mut self, bus: &mut B) -> (r: Result<(), Fault>)
        ensures
            (r, final(self)@, final(bus)@) == step_outcome::<B>(old(self)@, old(bus)@),
            final(self)@.regs[0] == 0,
            r is Err ==> *final(self) == *old(self),
    {
        proof { use_type_invariant(&*self); }
        let ghost before = *self;
        let current_pc = self.pc;
        if current_pc % 4 != 0 {
            return Err(Fault::UnalignedPc { faulting_pc: current_pc, addr: current_pc });
        }
        let instruction = match bus.read32(current_pc) {
            Ok(w) => w,
            Err(_) => {
                return Err(Fault::BusFault {
                    faulting_pc: current_pc,
                    addr: current_pc,
                    width: AccessWidth::Word,
                    operation: AccessOperation::Fetch,
                });
            },
        };
        let r = self.execute(bus, instruction);
        proof {
            use_type_invariant(&*self);
            lemma_fault_keeps_cpu::<B>(before@, old(bus)@);
            if r is Err {
                lemma_view_determines_cpu(*self, before);
            }
        }
        r
    }

    /// Applies the fetched word `w`.
    fn execute<B: Bus>(&mut self, bus: &mut B, w: u32) -> (r: Result<(), Fault>)
        ensures
            (r, final(self)@, final(bus)@) == execute_outcome::<B>(old(self)@, w, old(bus)@),
    {
        let d = decode(w);
        if d.op == 4 || d.op == 5 || d.op == 7 {
            self.execute_load(bus, w, d)
        } else if d.op == 8 || d.op == 9 || d.op == 11 {
            self.execute_store(bus, w, d)
        } else if d.op == 12 {
            self.execute_jump::<B>(w, d)
        } else {
            self.execute_register::<B>(w, d)
        }
    }

    /// `ADD`, `NAND`, `SHIFT`, `MUL`, `CMP` and reserved opcodes: no bus access.
    fn execute_register<B: Bus>(&mut self, w: u32, d: Decoded) -> (r: Result<(), Fault>)
        requires
            d.op == field_op(w),
            d.rd as u32 == field_rd(w),
            d.rs1 as u32 == field_rs1(w),
            d.rs2 as u32 == field_rs2(w),
            d.imm == field_imm(w),
            d.rd < 16 && d.rs1 < 16 && d.rs2 < 16,
            d.imm < 0x1_0000,
            !(d.op == 4 || d.op == 5 || d.op == 7 || d.op == 8 || d.op == 9 || d.op == 11 || d.op == 12),
        ensures
            forall|b: B::V| (r, final(self)@, b) == #[trigger] execute_outcome::<B>(old(self)@, w, b),
    {
        let pc = self.pc;
        let next = ((pc as u64 + 4) % 0x1_0000_0000) as u32;
        let a = self.reg(d.rs1);
        let bb = self.reg(d.rs2);
        let imm = d.imm;
        if d.op == 0 {
            let v = add3_exec(a, bb, sext16_exec(imm));
            self.retire(d.rd, v, next);
            Ok(())
        } else if d.op == 1 {
            self.retire(d.rd, !(a & bb), next);
            Ok(())
        } else if d.op == 2 {
            let mode = imm >> 14u32;
            if (imm >> 5u32) & 0x1ff != 0 || mode == 1 {
                return Err(Fault::InvalidInstruction { faulting_pc: pc });
            }
            let amount = ((bb as u64 + (imm & 0x1f) as u64) % 32) as u32;
            let v = if mode == 0 {
                a << amount
            } else if mode == 2 {
                a >> amount
            } else if a < 0x8000_0000 {
                a >> amount
            } else {
                !((!a) >> amount)
            };
            self.retire(d.rd, v, next);
            Ok(())
        } else if d.op == 3 {
            self.retire(d.rd, a.wrapping_mul(bb), next);
            Ok(())
        } else if d.op == 13 {
            let mode = imm & 3;
            if imm >> 3u32 != 0 || mode == 3 {
                return Err(Fault::InvalidInstruction { faulting_pc: pc });
            }
            let result = if mode == 0 {
                a == bb
            } else if mode == 1 {
                let a_neg = a >= 0x8000_0000;
                let b_neg = bb >= 0x8000_0000;
                if a_neg == b_neg { a < bb } else { a_neg }
            } else {
                a < bb
            };
            let result = if (imm >> 2u32) & 1 == 1 { !result } else { result };
            self.retire(d.rd, if result { 1 } else { 0 }, next);
            Ok(())
        } else {
            Err(Fault::InvalidInstruction { faulting_pc: pc })
        }
    }

    /// `LDB`, `LDH`, `LDW`.
    fn execute_load<B: Bus>(&mut self, bus: &mut B, w: u32, d: Decoded) -> (r: Result<(), Fault>)
        requires
            d.op == field_op(w),
            d.rd as u32 == field_rd(w),
            d.rs1 as u32 == field_rs1(w),
            d.rs2 as u32 == field_rs2(w),
            d.imm == field_imm(w),
            d.rd < 16 && d.rs1 < 16 && d.rs2 < 16,
            d.imm < 0x1_0000,
            d.op == 4 || d.op == 5 || d.op == 7,
        ensures
            (r, final(self)@, final(bus)@) == execute_outcome::<B>(old(self)@, w, old(bus)@),
    {
        let pc = self.pc;
        let next = ((pc as u64 + 4) % 0x1_0000_0000) as u32;
        let addr = add3_exec(self.reg(d.rs1), self.reg(d.rs2), sext16_exec(d.imm));
        let width = if d.op == 4 { AccessWidth::Byte } else if d.op == 5 { AccessWidth::Half } else { AccessWidth::Word };
        if !width_aligned(addr, width) {
            return Err(Fault::UnalignedAccess { faulting_pc: pc, addr, width, operation: AccessOperation::Load });
        }
        let fault = Fault::BusFault { faulting_pc: pc, addr, width, operation: AccessOperation::Load };
        let value: u32 = match width {
            AccessWidth::Byte => match bus.read8(addr) {
                Ok(v) => v as u32,
                Err(_) => return Err(fault),
            },
            AccessWidth::Half => match bus.read16(addr) {
                Ok(v) => v as u32,
                Err(_) => return Err(fault),
            },
            AccessWidth::Word => match bus.read32(addr) {
                Ok(v) => v,
                Err(_) => return Err(fault),
            },
        };
        self.retire(d.rd, value, next);
        Ok(())
    }

    /// `STB`, `STH`, `STW`: the value stored is the low bits of `rd`.
    fn execute_store<B: Bus>(&mut self, bus: &mut B, w: u32, d: Decoded) -> (r: Result<(), Fault>)
        requires
            d.op == field_op(w),
            d.rd as u32 == field_rd(w),
            d.rs1 as u32 == field_rs1(w),
            d.rs2 as u32 == field_rs2(w),
            d.imm == field_imm(w),
            d.rd < 16 && d.rs1 < 16 && d.rs2 < 16,
            d.imm < 0x1_0000,
            d.op == 8 || d.op == 9 || d.op == 11,
        ensures
            (r, final(self)@, final(bus)@) == execute_outcome::<B>(old(self)@, w, old(bus)@),
    {
        let pc = self.pc;
        let next = ((pc as u64 + 4) % 0x1_0000_0000) as u32;
        let addr = add3_exec(self.reg(d.rs1), self.reg(d.rs2), sext16_exec(d.imm));
        let width = if d.op == 8 { AccessWidth::Byte } else if d.op == 9 { AccessWidth::Half } else { AccessWidth::Word };
        if !width_aligned(addr, width) {
            return Err(Fault::UnalignedAccess { faulting_pc: pc, addr, width, operation: AccessOperation::Store });
        }
        let value = self.reg(d.rd);
        let result = match width {
            AccessWidth::Byte => bus.write8(addr, (value % 0x100) as u8),
            AccessWidth::Half => bus.write16(addr, (value % 0x1_0000) as u16),
            AccessWidth::Word => bus.write32(addr, value),
        };
        match result {
            Ok(()) => {
                self.pc = next;
                Ok(())
            },
            Err(_) => Err(Fault::BusFault { faulting_pc: pc, addr, width, operation: AccessOperation::Store }),
        }
    }

    /// `JZ`: when `rs1` is zero, link `PC + 4` into `rd` and jump.
    fn execute_jump<B: Bus>(&mut self, w: u32, d: Decoded) -> (r: Result<(), Fault>)
        requires
            d.op == field_op(w),
            d.rd as u32 == field_rd(w),
            d.rs1 as u32 == field_rs1(w),
            d.rs2 as u32 == field_rs2(w),
            d.imm == field_imm(w),
            d.rd < 16 && d.rs1 < 16 && d.rs2 < 16,
            d.imm < 0x1_0000,
            d.op == 12,
        ensures
            forall|b: B::V| (r, final(self)@, b) == #[trigger] execute_outcome::<B>(old(self)@, w, b),
    {
        let pc = self.pc;
        let next = ((pc as u64 + 4) % 0x1_0000_0000) as u32;
        if self.reg(d.rs1) != 0 {
            self.pc = next;
            return Ok(());
        }
        let offset = ((sext16_exec(d.imm) as u64 * 4) % 0x1_0000_0000) as u32;
        if d.rs2 == 0 {
            let target = ((next as u64 + offset as u64) % 0x1_0000_0000) as u32;
            self.retire(d.rd, next, target);
            Ok(())
        } else {
            let target = ((self.reg(d.rs2) as u64 + offset as u64) % 0x1_0000_0000) as u32;
            if target % 4 != 0 {
                return Err(Fault::UnalignedPc { faulting_pc: pc, addr: target });
            }
            self.retire(d.rd, next, target);
            Ok(())
        }
    }
}

} // verus!
