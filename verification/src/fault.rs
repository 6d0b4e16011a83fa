//! The fault taxonomy: everything that can go fatally wrong while executing
//! an instruction or driving the scheduler.

use vstd::prelude::*;

verus! {

/// A fatal error raised by the interpreter or the scheduler.
///
/// A fault in an instruction terminates the current coroutine; the scheduler
/// surfaces it to the caller of `run` as a scheduler-level fault, delivered in
/// place of a result to every transitive dependant.
#[derive(Clone, Copy, Debug, PartialEq, Eq, Structural)]
pub enum Fault {
    /// A read, write or copy reached past the memory's capacity.
    OutOfBounds,
    /// Bytes could not be parsed as a value of the requested type
    /// (for example, invalid UTF-8 where a string was expected).
    TypeParse,
    /// An integer division or remainder with divisor zero.
    DivisionByZero,
    /// An await, completion or delivery named a future id that is not in the
    /// scheduler's table.
    MissingFuture,
    /// A completion of a future that is no longer in the `Waiting` state.
    DoubleComplete,
    /// An await of a future that was cancelled.
    Cancelled,
    /// No coroutine is runnable, yet the run is not finished and no external
    /// completion source is available.
    Deadlock,
}

impl Fault {
    /// A short human-readable tag for the fault, for diagnostics.
    pub fn describe(&self) -> (r: &'static str)
        ensures
            r@ =~= self.spec_describe(),
    {
        match self {
            Fault::OutOfBounds => "out of bounds",
            Fault::TypeParse => "type parse error",
            Fault::DivisionByZero => "division by zero",
            Fault::MissingFuture => "missing future",
            Fault::DoubleComplete => "double completion of a future",
            Fault::Cancelled => "future cancelled",
            Fault::Deadlock => "deadlock",
        }
    }

    /// The characters of [`Fault::describe`].
    pub open spec fn spec_describe(self) -> Seq<char> {
        match self {
            Fault::OutOfBounds => "out of bounds"@,
            Fault::TypeParse => "type parse error"@,
            Fault::DivisionByZero => "division by zero"@,
            Fault::MissingFuture => "missing future"@,
            Fault::DoubleComplete => "double completion of a future"@,
            Fault::Cancelled => "future cancelled"@,
            Fault::Deadlock => "deadlock"@,
        }
    }
}

} // verus!
