//! The fetch-decode-execute core.
//!
//! A [`Program`] is a shared-ownership immutable instruction vector together
//! with a program counter; forking clones the shared handle and sets a new
//! counter. One [`cycle`] executes the instruction under the counter against
//! the coroutine's memory and returns an [`Interrupt`].
//!
//! The meaning of one step is pinned by the specification function
//! [`spec_step`]: what the memory holds afterwards, where the program counter
//! stands, and which interrupt surfaces. The program counter steps by one
//! except for control flow: jumps set it themselves, and `Await`,
//! `CreateCoroutine` and `Ret` leave it for the scheduler to advance.

use crate::codec::{spec_bool_byte, spec_i64_bytes};
use crate::fault::Fault;
use crate::instructions::{Instruction, Interrupt};
use crate::memory::{
    spec_in_bounds, spec_read_bool, spec_read_bytes, spec_read_int, spec_read_uint,
    spec_write_bytes, Memory,
};
use std::rc::Rc;
use vstd::prelude::*;
use vstd::utf8::encode_utf8;

verus! {

broadcast use crate::codec::lemma_i64_bytes_len, crate::codec::lemma_u64_bytes_len;

/// A shared, immutable instruction vector and a program counter into it.
pub struct Program {
    /// The instructions, shared across every coroutine forked from this
    /// program.
    pub code: Rc<Vec<Instruction>>,
    /// The index of the next instruction to execute.
    pub pc: usize,
}

/// Relies on `Rc::clone`: the clone is a handle to the same shared vector of
/// instructions; nothing is copied.
#[verifier::external_body]
fn clone_code(code: &Rc<Vec<Instruction>>) -> (r: Rc<Vec<Instruction>>)
    ensures
        r@ == code@,
{
    Rc::clone(code)
}

impl Program {
    /// Wrap an instruction vector as a program entered at `entry`.
    pub fn new(instructions: Vec<Instruction>, entry: usize) -> (r: Program)
        ensures
            r.code@ == instructions@,
            r.pc == entry,
    {
        Program { code: Rc::new(instructions), pc: entry }
    }

    /// Fork: a new handle to the same shared instructions, at a new program
    /// counter.
    pub fn fork(&self, entry: usize) -> (r: Program)
        ensures
            r.code@ == self.code@,
            r.pc == entry,
    {
        Program { code: clone_code(&self.code), pc: entry }
    }

    /// The number of instructions.
    pub fn len(&self) -> (r: usize)
        ensures
            r == self.code@.len(),
    {
        self.code.len()
    }
}

/// What one successful interpreter step leaves behind.
pub struct SpecStep {
    /// The memory after the step.
    pub mem: Seq<u8>,
    /// The program counter after the step.
    pub pc: int,
    /// The event surfaced to the scheduler.
    pub interrupt: Interrupt,
}

/// Truncated division, wrapping on the one overflowing case.
pub open spec fn spec_div_wrap(a: i64, b: i64) -> i64
    recommends
        b != 0,
{
    match a.checked_div(b) {
        Some(q) => q,
        None => i64::MIN,
    }
}

/// Remainder with the dividend's sign; zero on the one overflowing case.
pub open spec fn spec_rem_wrap(a: i64, b: i64) -> i64
    recommends
        b != 0,
{
    match a.checked_rem(b) {
        Some(r) => r,
        None => 0,
    }
}

/// A step that writes `data` at `addr` and moves to the next instruction.
pub open spec fn spec_step_write(m: Seq<u8>, pc: int, addr: int, data: Seq<u8>) -> Result<
    SpecStep,
    Fault,
> {
    if spec_in_bounds(m.len() as int, addr, data.len() as int) {
        Ok(
            SpecStep {
                mem: spec_write_bytes(m, addr, data),
                pc: pc + 1,
                interrupt: Interrupt::Continue,
            },
        )
    } else {
        Err(Fault::OutOfBounds)
    }
}

/// The two 64-bit integer operands of a binary instruction, or the fault
/// raised fetching them.
pub open spec fn spec_operands(m: Seq<u8>, a: int, b: int) -> Result<(i64, i64), Fault> {
    if spec_in_bounds(m.len() as int, a, 8) && spec_in_bounds(m.len() as int, b, 8) {
        Ok((spec_read_int(m, a), spec_read_int(m, b)))
    } else {
        Err(Fault::OutOfBounds)
    }
}

/// A step that reads two integers and writes an integer result.
pub open spec fn spec_step_arith(
    m: Seq<u8>,
    pc: int,
    a: int,
    b: int,
    dest: int,
    v: i64,
) -> Result<SpecStep, Fault>
    recommends
        spec_operands(m, a, b) is Ok,
{
    spec_step_write(m, pc, dest, spec_i64_bytes(v))
}

/// The meaning of one instruction: the memory, program counter and interrupt
/// it leaves behind, or the fault it raises. A faulting step changes nothing.
pub open spec fn spec_step(m: Seq<u8>, instr: Instruction, pc: int) -> Result<SpecStep, Fault> {
    match instr {
        Instruction::WriteString(addr, s) => spec_step_write(m, pc, addr as int, encode_utf8(s@)),
        Instruction::WriteInt(addr, v) => spec_step_write(m, pc, addr as int, spec_i64_bytes(v)),
        Instruction::WriteBool(addr, v) => spec_step_write(
            m,
            pc,
            addr as int,
            seq![spec_bool_byte(v)],
        ),
        Instruction::WriteBytes(addr, data) => spec_step_write(m, pc, addr as int, data@),
        Instruction::MemCpy(src, dst, n) => {
            if spec_in_bounds(m.len() as int, src as int, n as int) {
                spec_step_write(m, pc, dst as int, spec_read_bytes(m, src as int, n as int))
            } else {
                Err(Fault::OutOfBounds)
            }
        },
        Instruction::MemExtend(n) => {
            if m.len() + n <= usize::MAX {
                Ok(
                    SpecStep {
                        mem: m + Seq::new(n as nat, |i: int| 0u8),
                        pc: pc + 1,
                        interrupt: Interrupt::Continue,
                    },
                )
            } else {
                Err(Fault::OutOfBounds)
            }
        },
        Instruction::Add(a, b, dest) => match spec_operands(m, a as int, b as int) {
            Ok((x, y)) => spec_step_arith(
                m,
                pc,
                a as int,
                b as int,
                dest as int,
                vstd::wrapping::i64_specs::wrapping_add(x, y),
            ),
            Err(f) => Err(f),
        },
        Instruction::Sub(a, b, dest) => match spec_operands(m, a as int, b as int) {
            Ok((x, y)) => spec_step_arith(
                m,
                pc,
                a as int,
                b as int,
                dest as int,
                vstd::wrapping::i64_specs::wrapping_sub(x, y),
            ),
            Err(f) => Err(f),
        },
        Instruction::Mul(a, b, dest) => match spec_operands(m, a as int, b as int) {
            Ok((x, y)) => spec_step_arith(
                m,
                pc,
                a as int,
                b as int,
                dest as int,
                vstd::wrapping::i64_specs::wrapping_mul(x, y),
            ),
            Err(f) => Err(f),
        },
        Instruction::Div(a, b, dest) => match spec_operands(m, a as int, b as int) {
            Ok((x, y)) => {
                if y == 0 {
                    Err(Fault::DivisionByZero)
                } else {
                    spec_step_arith(m, pc, a as int, b as int, dest as int, spec_div_wrap(x, y))
                }
            },
            Err(f) => Err(f),
        },
        Instruction::Mod(a, b, dest) => match spec_operands(m, a as int, b as int) {
            Ok((x, y)) => {
                if y == 0 {
                    Err(Fault::DivisionByZero)
                } else {
                    spec_step_arith(m, pc, a as int, b as int, dest as int, spec_rem_wrap(x, y))
                }
            },
            Err(f) => Err(f),
        },
        Instruction::Min(a, b, dest) => match spec_operands(m, a as int, b as int) {
            Ok((x, y)) => spec_step_arith(
                m,
                pc,
                a as int,
                b as int,
                dest as int,
                if x < y {
                    x
                } else {
                    y
                },
            ),
            Err(f) => Err(f),
        },
        Instruction::Max(a, b, dest) => match spec_operands(m, a as int, b as int) {
            Ok((x, y)) => spec_step_arith(
                m,
                pc,
                a as int,
                b as int,
                dest as int,
                if x > y {
                    x
                } else {
                    y
                },
            ),
            Err(f) => Err(f),
        },
        Instruction::Fma(a, b, c, dest) => {
            if spec_in_bounds(m.len() as int, a as int, 8) && spec_in_bounds(
                m.len() as int,
                b as int,
                8,
            ) && spec_in_bounds(m.len() as int, c as int, 8) {
                let x = spec_read_int(m, a as int);
                let y = spec_read_int(m, b as int);
                let z = spec_read_int(m, c as int);
                spec_step_write(
                    m,
                    pc,
                    dest as int,
                    spec_i64_bytes(
                        vstd::wrapping::i64_specs::wrapping_add(
                            vstd::wrapping::i64_specs::wrapping_mul(x, y),
                            z,
                        ),
                    ),
                )
            } else {
                Err(Fault::OutOfBounds)
            }
        },
        Instruction::CompareEqual(a, b, dest) => match spec_operands(m, a as int, b as int) {
            Ok((x, y)) => spec_step_write(m, pc, dest as int, seq![spec_bool_byte(x == y)]),
            Err(f) => Err(f),
        },
        Instruction::CompareGreater(a, b, dest) => match spec_operands(m, a as int, b as int) {
            Ok((x, y)) => spec_step_write(m, pc, dest as int, seq![spec_bool_byte(x > y)]),
            Err(f) => Err(f),
        },
        Instruction::CompareLesser(a, b, dest) => match spec_operands(m, a as int, b as int) {
            Ok((x, y)) => spec_step_write(m, pc, dest as int, seq![spec_bool_byte(x < y)]),
            Err(f) => Err(f),
        },
        Instruction::Jump(target) => Ok(
            SpecStep { mem: m, pc: target as int, interrupt: Interrupt::Continue },
        ),
        Instruction::JumpIfTrue(target, cond) => {
            if spec_in_bounds(m.len() as int, cond as int, 1) {
                Ok(
                    SpecStep {
                        mem: m,
                        pc: if spec_read_bool(m, cond as int) {
                            target as int
                        } else {
                            pc + 1
                        },
                        interrupt: Interrupt::Continue,
                    },
                )
            } else {
                Err(Fault::OutOfBounds)
            }
        },
        Instruction::Await(fid_addr, write_addr) => {
            if spec_in_bounds(m.len() as int, fid_addr as int, 8) {
                Ok(
                    SpecStep {
                        mem: m,
                        pc: pc,
                        interrupt: Interrupt::Await(spec_read_uint(m, fid_addr as int), write_addr),
                    },
                )
            } else {
                Err(Fault::OutOfBounds)
            }
        },
        Instruction::CreateCoroutine(entry, arg_addr, arg_len, out_addr) => Ok(
            SpecStep {
                mem: m,
                pc: pc,
                interrupt: Interrupt::CreateCoroutine(entry, arg_addr, arg_len, out_addr),
            },
        ),
        Instruction::Ret(addr, len) => Ok(
            SpecStep { mem: m, pc: pc, interrupt: Interrupt::Ret(addr, len) },
        ),
        Instruction::DeleteFuture(fid_addr) => {
            if spec_in_bounds(m.len() as int, fid_addr as int, 8) {
                Ok(
                    SpecStep {
                        mem: m,
                        pc: pc + 1,
                        interrupt: Interrupt::DeleteFuture(spec_read_uint(m, fid_addr as int)),
                    },
                )
            } else {
                Err(Fault::OutOfBounds)
            }
        },
        Instruction::NoOp => Ok(SpecStep { mem: m, pc: pc + 1, interrupt: Interrupt::Continue }),
    }
}

/// Any instruction that is not control flow, and that steps without a fault,
/// leaves the program counter one past where it stood. A jump sets it to the
/// target; a conditional jump sets it to the target exactly when the byte at
/// the condition address is non-zero.
pub proof fn lemma_pc_advancement(m: Seq<u8>, instr: Instruction, pc: int)
    requires
        spec_step(m, instr, pc) is Ok,
    ensures
        !instr.is_control_flow() ==> spec_step(m, instr, pc)->Ok_0.pc == pc + 1,
        instr matches Instruction::Jump(target) ==> spec_step(m, instr, pc)->Ok_0.pc
            == target as int,
        instr matches Instruction::JumpIfTrue(target, cond) ==> spec_step(m, instr, pc)->Ok_0.pc
            == if spec_read_bool(m, cond as int) {
            target as int
        } else {
            pc + 1
        },
{
}

/// Execute one instruction at program counter `pc` against `memory`,
/// returning the interrupt and the next program counter, or the fault.
/// The effect is exactly [`spec_step`]; a fault leaves memory unchanged.
pub fn execute_instruction(instruction: &Instruction, memory: &mut Memory, pc: usize) -> (r:
    Result<(Interrupt, usize), Fault>)
    requires
        pc < usize::MAX,
    ensures
        match r {
            Ok((interrupt, new_pc)) => spec_step(old(memory)@, *instruction, pc as int) == Ok::<
                SpecStep,
                Fault,
            >(SpecStep { mem: final(memory)@, pc: new_pc as int, interrupt }),
            Err(f) => spec_step(old(memory)@, *instruction, pc as int) == Err::<SpecStep, Fault>(f)
                && final(memory)@ == old(memory)@,
        },
{
    match instruction {
        Instruction::WriteString(addr, s) => {
            let data = crate::codec::string_to_bytes(s.as_str());
            memory.write_bytes(*addr, data.as_slice())?;
            Ok((Interrupt::Continue, pc + 1))
        },
        Instruction::WriteInt(addr, v) => {
            memory.write_int(*addr, *v)?;
            Ok((Interrupt::Continue, pc + 1))
        },
        Instruction::WriteBool(addr, v) => {
            memory.write_bool(*addr, *v)?;
            Ok((Interrupt::Continue, pc + 1))
        },
        Instruction::WriteBytes(addr, data) => {
            memory.write_bytes(*addr, data.as_slice())?;
            Ok((Interrupt::Continue, pc + 1))
        },
        Instruction::MemCpy(src, dst, n) => {
            if *n > memory.capacity() || *src > memory.capacity() - *n {
                return Err(Fault::OutOfBounds);
            }
            memory.memcpy(*src, *dst, *n)?;
            Ok((Interrupt::Continue, pc + 1))
        },
        Instruction::MemExtend(n) => {
            if *n > usize::MAX - memory.capacity() {
                return Err(Fault::OutOfBounds);
            }
            memory.extend(*n);
            Ok((Interrupt::Continue, pc + 1))
        },
        Instruction::Add(a, b, dest) => {
            let x = memory.read_int(*a)?;
            let y = memory.read_int(*b)?;
            memory.write_int(*dest, x.wrapping_add(y))?;
            Ok((Interrupt::Continue, pc + 1))
        },
        Instruction::Sub(a, b, dest) => {
            let x = memory.read_int(*a)?;
            let y = memory.read_int(*b)?;
            memory.write_int(*dest, x.wrapping_sub(y))?;
            Ok((Interrupt::Continue, pc + 1))
        },
        Instruction::Mul(a, b, dest) => {
            let x = memory.read_int(*a)?;
            let y = memory.read_int(*b)?;
            memory.write_int(*dest, x.wrapping_mul(y))?;
            Ok((Interrupt::Continue, pc + 1))
        },
        Instruction::Div(a, b, dest) => {
            let x = memory.read_int(*a)?;
            let y = memory.read_int(*b)?;
            if y == 0 {
                return Err(Fault::DivisionByZero);
            }
            let q = match x.checked_div(y) {
                Some(q) => q,
                None => i64::MIN,
            };
            memory.write_int(*dest, q)?;
            Ok((Interrupt::Continue, pc + 1))
        },
        Instruction::Mod(a, b, dest) => {
            let x = memory.read_int(*a)?;
            let y = memory.read_int(*b)?;
            if y == 0 {
                return Err(Fault::DivisionByZero);
            }
            let rem = match x.checked_rem(y) {
                Some(rem) => rem,
                None => 0,
            };
            memory.write_int(*dest, rem)?;
            Ok((Interrupt::Continue, pc + 1))
        },
        Instruction::Min(a, b, dest) => {
            let x = memory.read_int(*a)?;
            let y = memory.read_int(*b)?;
            let v = if x < y {
                x
            } else {
                y
            };
            memory.write_int(*dest, v)?;
            Ok((Interrupt::Continue, pc + 1))
        },
        Instruction::Max(a, b, dest) => {
            let x = memory.read_int(*a)?;
            let y = memory.read_int(*b)?;
            let v = if x > y {
                x
            } else {
                y
            };
            memory.write_int(*dest, v)?;
            Ok((Interrupt::Continue, pc + 1))
        },
        Instruction::Fma(a, b, c, dest) => {
            let x = memory.read_int(*a)?;
            let y = memory.read_int(*b)?;
            let z = memory.read_int(*c)?;
            memory.write_int(*dest, x.wrapping_mul(y).wrapping_add(z))?;
            Ok((Interrupt::Continue, pc + 1))
        },
        Instruction::CompareEqual(a, b, dest) => {
            let x = memory.read_int(*a)?;
            let y = memory.read_int(*b)?;
            memory.write_bool(*dest, x == y)?;
            Ok((Interrupt::Continue, pc + 1))
        },
        Instruction::CompareGreater(a, b, dest) => {
            let x = memory.read_int(*a)?;
            let y = memory.read_int(*b)?;
            memory.write_bool(*dest, x > y)?;
            Ok((Interrupt::Continue, pc + 1))
        },
        Instruction::CompareLesser(a, b, dest) => {
            let x = memory.read_int(*a)?;
            let y = memory.read_int(*b)?;
            memory.write_bool(*dest, x < y)?;
            Ok((Interrupt::Continue, pc + 1))
        },
        Instruction::Jump(target) => Ok((Interrupt::Continue, *target)),
        Instruction::JumpIfTrue(target, cond) => {
            let c = memory.read_bool(*cond)?;
            if c {
                Ok((Interrupt::Continue, *target))
            } else {
                Ok((Interrupt::Continue, pc + 1))
            }
        },
        Instruction::Await(fid_addr, write_addr) => {
            let fid = memory.read_uint(*fid_addr)?;
            Ok((Interrupt::Await(fid, *write_addr), pc))
        },
        Instruction::CreateCoroutine(entry, arg_addr, arg_len, out_addr) => {
            Ok((Interrupt::CreateCoroutine(*entry, *arg_addr, *arg_len, *out_addr), pc))
        },
        Instruction::Ret(addr, len) => Ok((Interrupt::Ret(*addr, *len), pc)),
        Instruction::DeleteFuture(fid_addr) => {
            let fid = memory.read_uint(*fid_addr)?;
            Ok((Interrupt::DeleteFuture(fid), pc + 1))
        },
        Instruction::NoOp => Ok((Interrupt::Continue, pc + 1)),
    }
}

/// Complete one fetch-decode-execute cycle: execute the instruction under the
/// program counter, or raise [`Interrupt::Eof`] when the counter stands past
/// the end of the code. The shared code is never changed.
pub fn cycle(memory: &mut Memory, program: &mut Program) -> (r: Result<Interrupt, Fault>)
    ensures
        final(program).code@ == old(program).code@,
        old(program).pc >= old(program).code@.len() ==> r == Ok::<Interrupt, Fault>(Interrupt::Eof)
            && final(memory)@ == old(memory)@ && final(program).pc == old(program).pc,
        old(program).pc < old(program).code@.len() ==> match spec_step(
            old(memory)@,
            old(program).code@[old(program).pc as int],
            old(program).pc as int,
        ) {
            Ok(st) => r == Ok::<Interrupt, Fault>(st.interrupt) && final(memory)@ == st.mem
                && final(program).pc == st.pc,
            Err(f) => r == Err::<Interrupt, Fault>(f) && final(memory)@ == old(memory)@
                && final(program).pc == old(program).pc,
        },
{
    if program.pc >= program.code.len() {
        return Ok(Interrupt::Eof);
    }
    let instruction = &program.code[program.pc];
    match execute_instruction(instruction, memory, program.pc) {
        Ok((interrupt, new_pc)) => {
            program.pc = new_pc;
            Ok(interrupt)
        },
        Err(f) => Err(f),
    }
}

} // verus!
