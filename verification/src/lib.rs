//! A small, embeddable virtual machine: a bytecode interpreter over a linear
//! byte-addressed memory, with a cooperative coroutine scheduler and awaitable
//! futures.
//!
//! The crate is organised leaf to root:
//! - [`codec`] turns typed values into byte sequences inside linear memory and back;
//! - [`memory`] is the growable linear byte buffer with typed reads and writes;
//! - [`instructions`] defines the instruction set and the interrupts a single
//!   execution step can raise;
//! - [`interp`] executes one instruction at a time, advancing a program counter;
//! - [`scheduler`] owns the coroutines and futures and drives the run loop;
//! - [`fault`] names everything that can go fatally wrong along the way.

pub mod codec;
pub mod fault;
pub mod instructions;
pub mod interp;
pub mod memory;
pub mod scheduler;
