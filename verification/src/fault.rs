//! The ways in which building or running a flat program can go wrong.

use vstd::prelude::*;
use crate::syntax::Name;

verus! {

/// Why an expression could not be turned into a flat program.
#[derive(Debug, Clone, PartialEq, Eq)]
pub enum BuildError {
    /// The expression reads a name that nothing around the read binds.
    UnboundVariable { name: String },
    /// The counter behind the generated names has run out.
    TooManyNames,
    /// A function would get more blocks, or the program more functions, than
    /// can be numbered.
    ProgramTooLarge,
}

pub enum BuildErrorView {
    UnboundVariable { name: Name },
    TooManyNames,
    ProgramTooLarge,
}

impl View for BuildError {
    type V = BuildErrorView;

    open spec fn view(&self) -> BuildErrorView {
        match self {
            BuildError::UnboundVariable { name } => BuildErrorView::UnboundVariable { name: name@ },
            BuildError::TooManyNames => BuildErrorView::TooManyNames,
            BuildError::ProgramTooLarge => BuildErrorView::ProgramTooLarge,
        }
    }
}

/// A fatal condition met while interpreting a program. None of them is
/// recovered from: the run that meets one is over.
#[derive(Debug, Copy, Clone, PartialEq, Eq)]
pub enum RuntimeFault {
    /// A primitive was applied to a value of the wrong kind.
    TypeMismatch,
    /// A tuple was read or written outside its fields.
    IndexOutOfRange,
    /// A closure was called with the wrong number of arguments.
    ArityMismatch,
    /// A name was looked up that the current call frame does not bind.
    UnboundVariable,
    /// An address was used that the heap does not hold.
    InvalidAddress,
    /// A reference count of zero was decremented.
    RefcountUnderflow,
    /// A reference count could not be incremented any further.
    RefcountOverflow,
    /// The sum or difference of two integers does not fit in 32 bits.
    ArithmeticOverflow,
    /// Every heap address has been handed out.
    AddressSpaceExhausted,
    /// The program counter names no instruction of the program.
    InvalidTarget,
    /// An instruction needed a frame and the stack had none.
    EmptyStack,
}

} // verus!
