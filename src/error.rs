use vstd::prelude::*;

verus! {

/// The ways a single machine step can fail. Every one of them is terminal:
/// the machine state is left as it was before the failing step.
#[derive(Clone, Copy, Debug, PartialEq, Eq, Structural)]
pub enum MachineError {
    /// A push (or `dup`) onto a full stack.
    StackOverflow,
    /// An instruction needed more stack entries than there are.
    StackUnderflow,
    /// The operands' variants do not fit the operation.
    TypeMismatch,
    /// Integer division by zero.
    DivisionByZero,
    /// The instruction pointer ran past the end of the program.
    ProgramBoundsExceeded,
}

} // verus!
