//! The instruction set and the interrupts one execution step can raise.
//!
//! Instruction operands are byte addresses into the executing coroutine's
//! linear memory; immediate writes carry their literal payload inside the
//! instruction. Integer operands are 64-bit signed values stored at the
//! addressed bytes; comparison results are one-byte booleans.

use vstd::prelude::*;

verus! {

/// One opcode of the VM.
#[derive(Debug)]
pub enum Instruction {
    /// Write the string's UTF-8 bytes at the address, no length prefix.
    WriteString(usize, String),
    /// Write a 64-bit signed integer at the address.
    WriteInt(usize, i64),
    /// Write a one-byte boolean at the address.
    WriteBool(usize, bool),
    /// Write the raw bytes at the address.
    WriteBytes(usize, Vec<u8>),
    /// Copy bytes inside memory: source address, destination address, count.
    MemCpy(usize, usize, usize),
    /// Grow memory by this many zero bytes.
    MemExtend(usize),
    /// Integer addition, wrapping: addresses of the two operands, then of the result.
    Add(usize, usize, usize),
    /// Integer subtraction, wrapping: operand addresses, then the result address.
    Sub(usize, usize, usize),
    /// Integer multiplication, wrapping: operand addresses, then the result address.
    Mul(usize, usize, usize),
    /// Truncated integer division; a zero divisor is a fault.
    Div(usize, usize, usize),
    /// Integer remainder, with the dividend's sign; a zero divisor is a fault.
    Mod(usize, usize, usize),
    /// The smaller operand.
    Min(usize, usize, usize),
    /// The larger operand.
    Max(usize, usize, usize),
    /// Fused multiply-add, wrapping: addresses of `a`, `b`, `c`, then of `a * b + c`.
    Fma(usize, usize, usize, usize),
    /// One-byte boolean `a == b` written at the third address.
    CompareEqual(usize, usize, usize),
    /// One-byte boolean `a > b` written at the third address.
    CompareGreater(usize, usize, usize),
    /// One-byte boolean `a < b` written at the third address.
    CompareLesser(usize, usize, usize),
    /// Set the program counter to the target.
    Jump(usize),
    /// Set the program counter to the target when the byte at the condition
    /// address is non-zero; step past otherwise.
    JumpIfTrue(usize, usize),
    /// Suspend on the future whose id is stored at the first address; its
    /// payload is delivered at the second address.
    Await(usize, usize),
    /// Fork a coroutine: entry program counter, argument address, argument
    /// length, and the address at which the new result future's id is written.
    CreateCoroutine(usize, usize, usize, usize),
    /// Finish the coroutine, returning the bytes at `[addr, addr + len)`.
    Ret(usize, usize),
    /// Drop the future whose id is stored at the address.
    DeleteFuture(usize),
    /// Do nothing.
    NoOp,
}

impl Instruction {
    /// Control-flow instructions do not step the program counter by one:
    /// jumps set it themselves; awaiting, forking and returning leave it to
    /// the scheduler.
    pub open spec fn is_control_flow(&self) -> bool {
        match self {
            Instruction::Jump(..) => true,
            Instruction::JumpIfTrue(..) => true,
            Instruction::Await(..) => true,
            Instruction::CreateCoroutine(..) => true,
            Instruction::Ret(..) => true,
            _ => false,
        }
    }
}

/// The scheduler-visible event returned by one interpreter step.
#[derive(Clone, Copy, Debug, PartialEq, Eq, Structural)]
pub enum Interrupt {
    /// The instruction ran to completion; execution continues with the next.
    Continue,
    /// Suspend until the future completes: its id, and the address at which
    /// its payload is to be delivered.
    Await(u64, usize),
    /// Fork a coroutine: entry program counter, argument address, argument
    /// length, and the address for the new future id.
    CreateCoroutine(usize, usize, usize, usize),
    /// The coroutine returns the bytes at (address, length).
    Ret(usize, usize),
    /// Drop the future with this id.
    DeleteFuture(u64),
    /// The program counter ran past the end of the program.
    Eof,
}

} // verus!
