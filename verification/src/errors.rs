use vstd::prelude::*;

verus! {

/// The ways a run can fail. Every error is terminal for the run that
/// produced it: the engine never retries or recovers on its own.
#[derive(Clone, Copy, Debug, PartialEq, Eq, Structural)]
pub enum InterpreterError {
    /// A pop was attempted on an empty stack.
    StackUnderflow,
    /// Reserved for an implementation-imposed stack bound; no current
    /// operation reports it.
    StackOverflow,
    /// A read of an identifier that no cell on the stack carries.
    UnknownVariable { identifier: char },
    /// The instruction pointer, including a jump target, landed outside
    /// the instruction sequence.
    InvalidPointerAddress,
    /// A division whose divisor was zero. Host-language division would
    /// abort the whole process here; the engine reports it instead.
    DivisionByZero,
}

} // verus!
