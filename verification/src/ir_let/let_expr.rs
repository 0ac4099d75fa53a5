//! The flat program: functions made of blocks made of instructions.

use vstd::prelude::*;
use crate::syntax::{BinOp, Constant, Name, views};

verus! {

#[derive(Debug, Clone, PartialEq, Eq)]
pub struct VariableReference {
    pub var_name: String,
}

impl View for VariableReference {
    type V = Name;

    open spec fn view(&self) -> Name {
        self.var_name@
    }
}

/// A point in a program: function, block within it, instruction within that.
#[derive(Debug, Copy, Clone, PartialEq, Eq)]
pub struct TargetAddress {
    pub function_index: usize,
    pub block_index: usize,
    pub instruction_index: usize,
}

impl View for TargetAddress {
    type V = TargetAddress;

    open spec fn view(&self) -> TargetAddress {
        *self
    }
}

impl TargetAddress {
    /// The address of the following instruction in the same block.
    pub open spec fn successor(self) -> TargetAddress {
        TargetAddress {
            function_index: self.function_index,
            block_index: self.block_index,
            instruction_index: (self.instruction_index + 1) as usize,
        }
    }

    pub fn next(&self) -> (following: TargetAddress)
        requires
            self.instruction_index < usize::MAX,
        ensures
            following == self.successor(),
    {
        TargetAddress {
            function_index: self.function_index,
            block_index: self.block_index,
            instruction_index: self.instruction_index + 1,
        }
    }
}

/// A lifted function as a closure allocation names it.
#[derive(Debug, Clone, PartialEq, Eq)]
pub struct AllocClosure {
    pub name: String,
    pub arg_names: Vec<String>,
    pub free_names: Vec<String>,
    pub body: TargetAddress,
}

pub struct AllocClosureView {
    pub name: Name,
    pub arg_names: Seq<Name>,
    pub free_names: Seq<Name>,
    pub body: TargetAddress,
}

impl View for AllocClosure {
    type V = AllocClosureView;

    open spec fn view(&self) -> AllocClosureView {
        AllocClosureView {
            name: self.name@,
            arg_names: views(self.arg_names@),
            free_names: views(self.free_names@),
            body: self.body,
        }
    }
}

#[derive(Debug, Clone, PartialEq, Eq)]
pub enum Simple {
    Literal(Constant),
    Fun(AllocClosure),
    BinOp { op: BinOp, lhs: VariableReference, rhs: VariableReference },
    Tuple { args: Vec<VariableReference> },
    SetField { tuple: VariableReference, index: u32, new_value: VariableReference },
}

#[derive(Debug, Clone, PartialEq, Eq)]
pub enum Control {
    Call { func: VariableReference, args: Vec<VariableReference> },
    If { condition: VariableReference, branch_success: TargetAddress, branch_failure: TargetAddress },
}

#[derive(Debug, Clone, PartialEq, Eq)]
pub enum Step {
    Simple(Simple),
    Control(Control),
}

#[derive(Debug, Clone, PartialEq, Eq)]
pub enum Definition {
    Var(VariableReference),
    Step(Step),
}

/// The right-hand side of an assignment, with the layers of `Definition`,
/// `Step`, `Simple` and `Control` folded into one sum.
pub enum DefinitionView {
    Var(Name),
    Literal(Constant),
    Fun(AllocClosureView),
    BinOp { op: BinOp, lhs: Name, rhs: Name },
    Tuple { args: Seq<Name> },
    SetField { tuple: Name, index: u32, new_value: Name },
    Call { func: Name, args: Seq<Name> },
    If { condition: Name, branch_success: TargetAddress, branch_failure: TargetAddress },
}

impl View for Simple {
    type V = DefinitionView;

    open spec fn view(&self) -> DefinitionView {
        match self {
            Simple::Literal(c) => DefinitionView::Literal(*c),
            Simple::Fun(f) => DefinitionView::Fun(f@),
            Simple::BinOp { op, lhs, rhs } => DefinitionView::BinOp { op: *op, lhs: lhs@, rhs: rhs@ },
            Simple::Tuple { args } => DefinitionView::Tuple { args: views(args@) },
            Simple::SetField { tuple, index, new_value } => DefinitionView::SetField {
                tuple: tuple@,
                index: *index,
                new_value: new_value@,
            },
        }
    }
}

impl View for Control {
    type V = DefinitionView;

    open spec fn view(&self) -> DefinitionView {
        match self {
            Control::Call { func, args } => DefinitionView::Call { func: func@, args: views(args@) },
            Control::If { condition, branch_success, branch_failure } => DefinitionView::If {
                condition: condition@,
                branch_success: *branch_success,
                branch_failure: *branch_failure,
            },
        }
    }
}

impl View for Step {
    type V = DefinitionView;

    open spec fn view(&self) -> DefinitionView {
        match self {
            Step::Simple(simple) => simple@,
            Step::Control(control) => control@,
        }
    }
}

impl View for Definition {
    type V = DefinitionView;

    open spec fn view(&self) -> DefinitionView {
        match self {
            Definition::Var(var) => DefinitionView::Var(var@),
            Definition::Step(step) => step@,
        }
    }
}

impl DefinitionView {
    /// Whether the definition may transfer execution (a call or a conditional).
    pub open spec fn is_control(self) -> bool {
        self is Call || self is If
    }
}

#[derive(Debug, Clone, PartialEq, Eq)]
pub struct Assignment {
    pub name: String,
    pub definition: Definition,
}

#[derive(Debug, Clone, PartialEq, Eq)]
pub enum Instruction {
    EnterBlock,
    ExitBlock(VariableReference),
    Assignment(Assignment),
}

pub enum InstructionView {
    EnterBlock,
    ExitBlock(Name),
    Assignment { name: Name, definition: DefinitionView },
}

impl View for Instruction {
    type V = InstructionView;

    open spec fn view(&self) -> InstructionView {
        match self {
            Instruction::EnterBlock => InstructionView::EnterBlock,
            Instruction::ExitBlock(var) => InstructionView::ExitBlock(var@),
            Instruction::Assignment(assignment) => InstructionView::Assignment {
                name: assignment.name@,
                definition: assignment.definition@,
            },
        }
    }
}

#[derive(Debug, Clone, PartialEq, Eq)]
pub struct Block {
    pub instructions: Vec<Instruction>,
    pub parent_block_index: Option<usize>,
}

pub struct BlockView {
    pub instructions: Seq<InstructionView>,
    pub parent_block_index: Option<usize>,
}

impl View for Block {
    type V = BlockView;

    open spec fn view(&self) -> BlockView {
        BlockView {
            instructions: views(self.instructions@),
            parent_block_index: self.parent_block_index,
        }
    }
}

#[derive(Debug, Clone, PartialEq, Eq)]
pub struct Function {
    pub name: String,
    pub arg_names: Vec<String>,
    /// The captured names; `None` until the body has been analysed.
    pub free_names: Option<Vec<String>>,
    pub blocks: Vec<Block>,
}

pub struct FunctionView {
    pub name: Name,
    pub arg_names: Seq<Name>,
    pub free_names: Option<Seq<Name>>,
    pub blocks: Seq<BlockView>,
}

impl View for Function {
    type V = FunctionView;

    open spec fn view(&self) -> FunctionView {
        FunctionView {
            name: self.name@,
            arg_names: views(self.arg_names@),
            free_names: match self.free_names {
                Some(names) => Some(views(names@)),
                None => None,
            },
            blocks: views(self.blocks@),
        }
    }
}

#[derive(Debug, Clone, PartialEq, Eq)]
pub struct Program {
    pub functions: Vec<Function>,
}

pub struct ProgramView {
    pub functions: Seq<FunctionView>,
}

impl View for Program {
    type V = ProgramView;

    open spec fn view(&self) -> ProgramView {
        ProgramView { functions: views(self.functions@) }
    }
}

impl ProgramView {
    /// Whether `address` names an instruction of the program.
    pub open spec fn has_instruction(self, address: TargetAddress) -> bool {
        &&& address.function_index < self.functions.len()
        &&& address.block_index < self.functions[address.function_index as int].blocks.len()
        &&& address.instruction_index < self.functions[address.function_index as int].blocks[address.block_index as int].instructions.len()
    }

    pub open spec fn instruction_at(self, address: TargetAddress) -> InstructionView {
        self.functions[address.function_index as int].blocks[address.block_index as int].instructions[address.instruction_index as int]
    }
}

impl Program {
    /// Whether `address` names an instruction of the program.
    pub fn has_instruction(&self, address: TargetAddress) -> (present: bool)
        ensures
            present == self@.has_instruction(address),
            present ==> address.instruction_index < usize::MAX,
    {
        if address.function_index >= self.functions.len() {
            return false;
        }
        let function = &self.functions[address.function_index];
        if address.block_index >= function.blocks.len() {
            return false;
        }
        address.instruction_index < function.blocks[address.block_index].instructions.len()
    }

    pub fn get_instruction(&self, address: TargetAddress) -> (instruction: &Instruction)
        requires
            self@.has_instruction(address),
        ensures
            instruction@ == self@.instruction_at(address),
    {
        &self.functions[address.function_index].blocks[address.block_index].instructions[address.instruction_index]
    }
}

} // verus!
