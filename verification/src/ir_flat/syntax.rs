//! The slot-addressed form of a program: names replaced by references to
//! the slots of a function's activation.

use vstd::prelude::*;
use crate::syntax::{BinOp, Constant};

verus! {

/// Where a name of a function lives.
#[derive(Debug, Copy, Clone, PartialEq, Eq)]
pub enum Reference {
    /// A slot in the function's local space.
    Local(LocalReference),
    /// A parameter, by position.
    Argument(ArgumentReference),
    /// A captured value, by position among the captured names.
    Closure(ClosureReference),
    /// The function itself.
    This,
}

#[derive(Debug, Copy, Clone, PartialEq, Eq)]
pub struct LocalReference(pub usize);

#[derive(Debug, Copy, Clone, PartialEq, Eq)]
pub struct ArgumentReference(pub usize);

#[derive(Debug, Copy, Clone, PartialEq, Eq)]
pub struct ClosureReference(pub usize);

#[derive(Debug, Clone, PartialEq, Eq)]
pub struct Program {
    pub functions: Vec<Function>,
}

#[derive(Debug, Clone, PartialEq, Eq)]
pub struct Function {
    pub args_size: usize,
    pub closure_env_size: usize,
    pub blocks: Vec<Block>,
}

#[derive(Debug, Clone, PartialEq, Eq)]
pub struct Block {
    pub frame_size: usize,
    pub instructions: Vec<Instruction>,
}

#[derive(Debug, Clone, PartialEq, Eq)]
pub enum Instruction {
    EnterBlock,
    ExitBlock,
    Assignment(Assignment),
}

#[derive(Debug, Clone, PartialEq, Eq)]
pub struct Assignment {
    pub name: LocalReference,
    pub definition: Definition,
}

#[derive(Debug, Clone, PartialEq, Eq)]
pub enum Definition {
    Var(Reference),
    Step(Step),
}

#[derive(Debug, Copy, Clone, PartialEq, Eq)]
pub struct TargetAddress {
    pub function_index: usize,
    pub block_index: usize,
    pub instruction_index: usize,
}

#[derive(Debug, Clone, PartialEq, Eq)]
pub struct AllocClosure {
    pub name: String,
    pub arg_names: Vec<String>,
    pub free_names: Vec<String>,
    pub body: TargetAddress,
}

#[derive(Debug, Clone, PartialEq, Eq)]
pub enum Simple {
    Literal(Constant),
    Fun(AllocClosure),
    BinOp { op: BinOp, lhs: Reference, rhs: Reference },
    Tuple { args: Vec<Reference> },
    SetField { tuple: Reference, index: u32, new_value: Reference },
}

#[derive(Debug, Clone, PartialEq, Eq)]
pub enum Control {
    Call { func: Reference, args: Vec<Reference> },
    If { condition: Reference, branch_success: TargetAddress, branch_failure: TargetAddress },
}

#[derive(Debug, Clone, PartialEq, Eq)]
pub enum Step {
    Simple(Simple),
    Control(Control),
}

} // verus!
