//! Renaming: programs and machines with other names in place of theirs.

use vstd::prelude::*;
use crate::fault::RuntimeFault;
use crate::heap::Cells;
use crate::heap_value::{CellView, ClosureView, HeapAddress, HeapValueView};
use crate::ir_let::interpreter::machine::{Machine, Progress};
use crate::ir_let::let_expr::{
    AllocClosureView, BlockView, DefinitionView, FunctionView, InstructionView, ProgramView,
};
use crate::stack::{BlockFrameView, Frames, ReturnInfoView};
use crate::syntax::Name;

verus! {

/// A name for every name.
pub type Renaming = spec_fn(Name) -> Name;

/// Whether different names get different names.
pub open spec fn injective(renaming: Renaming) -> bool {
    forall|a: Name, b: Name| #[trigger] renaming(a) == #[trigger] renaming(b) ==> a == b
}

/// The names, renamed.
pub open spec fn rename_names(renaming: Renaming, names: Seq<Name>) -> Seq<Name> {
    Seq::new(names.len(), |i: int| renaming(names[i]))
}

/// The bindings, with their names renamed.
pub open spec fn rename_bindings(renaming: Renaming, bindings: Seq<(Name, HeapAddress)>) -> Seq<(Name, HeapAddress)> {
    Seq::new(bindings.len(), |i: int| (renaming(bindings[i].0), bindings[i].1))
}

/// The definition, with every name in it renamed.
pub open spec fn rename_definition(renaming: Renaming, definition: DefinitionView) -> DefinitionView {
    match definition {
        DefinitionView::Var(name) => DefinitionView::Var(renaming(name)),
        DefinitionView::Literal(c) => DefinitionView::Literal(c),
        DefinitionView::Fun(function) => DefinitionView::Fun(
            AllocClosureView {
                name: renaming(function.name),
                arg_names: rename_names(renaming, function.arg_names),
                free_names: rename_names(renaming, function.free_names),
                body: function.body,
            },
        ),
        DefinitionView::BinOp { op, lhs, rhs } => DefinitionView::BinOp {
            op,
            lhs: renaming(lhs),
            rhs: renaming(rhs),
        },
        DefinitionView::Tuple { args } => DefinitionView::Tuple { args: rename_names(renaming, args) },
        DefinitionView::SetField { tuple, index, new_value } => DefinitionView::SetField {
            tuple: renaming(tuple),
            index,
            new_value: renaming(new_value),
        },
        DefinitionView::Call { func, args } => DefinitionView::Call {
            func: renaming(func),
            args: rename_names(renaming, args),
        },
        DefinitionView::If { condition, branch_success, branch_failure } => DefinitionView::If {
            condition: renaming(condition),
            branch_success,
            branch_failure,
        },
    }
}

/// The instruction, with every name in it renamed.
pub open spec fn rename_instruction(renaming: Renaming, instruction: InstructionView) -> InstructionView {
    match instruction {
        InstructionView::EnterBlock => InstructionView::EnterBlock,
        InstructionView::ExitBlock(name) => InstructionView::ExitBlock(renaming(name)),
        InstructionView::Assignment { name, definition } => InstructionView::Assignment {
            name: renaming(name),
            definition: rename_definition(renaming, definition),
        },
    }
}

/// The block, with every name in it renamed.
pub open spec fn rename_block(renaming: Renaming, block: BlockView) -> BlockView {
    BlockView {
        instructions: Seq::new(
            block.instructions.len(),
            |i: int| rename_instruction(renaming, block.instructions[i]),
        ),
        parent_block_index: block.parent_block_index,
    }
}

/// The function, with every name in it renamed.
pub open spec fn rename_function(renaming: Renaming, function: FunctionView) -> FunctionView {
    FunctionView {
        name: renaming(function.name),
        arg_names: rename_names(renaming, function.arg_names),
        free_names: match function.free_names {
            Some(names) => Some(rename_names(renaming, names)),
            None => None,
        },
        blocks: Seq::new(function.blocks.len(), |j: int| rename_block(renaming, function.blocks[j])),
    }
}

/// The program, with every name in it renamed.
pub open spec fn rename_program(renaming: Renaming, program: ProgramView) -> ProgramView {
    ProgramView {
        functions: Seq::new(
            program.functions.len(),
            |g: int| rename_function(renaming, program.functions[g]),
        ),
    }
}

/// The value, with the names of a closure renamed.
pub open spec fn rename_value(renaming: Renaming, value: HeapValueView) -> HeapValueView {
    match value {
        HeapValueView::Closure(closure) => HeapValueView::Closure(
            ClosureView {
                name: renaming(closure.name),
                arg_names: rename_names(renaming, closure.arg_names),
                environment: rename_bindings(renaming, closure.environment),
                body: closure.body,
            },
        ),
        other => other,
    }
}

/// The cells, with the names of their closures renamed.
pub open spec fn rename_cells(renaming: Renaming, cells: Cells) -> Cells {
    Map::new(
        |address: HeapAddress| cells.contains_key(address),
        |address: HeapAddress|
            CellView {
                refcount: cells[address].refcount,
                value: rename_value(renaming, cells[address].value),
            },
    )
}

/// The return info, with its name renamed.
pub open spec fn rename_return_info(renaming: Renaming, info: Option<ReturnInfoView>) -> Option<
    ReturnInfoView,
> {
    match info {
        Some(info) => Some(
            ReturnInfoView {
                result_variable: renaming(info.result_variable),
                return_address: info.return_address,
            },
        ),
        None => None,
    }
}

/// The frame, with its names renamed.
pub open spec fn rename_frame(renaming: Renaming, frame: BlockFrameView) -> BlockFrameView {
    BlockFrameView {
        values: frame.values,
        variable_names: rename_names(renaming, frame.variable_names),
        return_info: rename_return_info(renaming, frame.return_info),
    }
}

/// The frames of a call, with their names renamed.
pub open spec fn rename_call(renaming: Renaming, frames: Seq<BlockFrameView>) -> Seq<BlockFrameView> {
    Seq::new(frames.len(), |j: int| rename_frame(renaming, frames[j]))
}

/// The stack, with its names renamed.
pub open spec fn rename_frames(renaming: Renaming, frames: Frames) -> Frames {
    Seq::new(frames.len(), |i: int| rename_call(renaming, frames[i]))
}

/// The machine, with every name in it renamed.
pub open spec fn rename_machine(renaming: Renaming, machine: Machine) -> Machine {
    Machine {
        cells: rename_cells(renaming, machine.cells),
        next_address: machine.next_address,
        frames: rename_frames(renaming, machine.frames),
    }
}

/// Where a run stands, with every name renamed.
pub open spec fn rename_progress(renaming: Renaming, progress: Progress) -> Progress {
    match progress {
        Progress::Running(machine, target) => Progress::Running(rename_machine(renaming, machine), target),
        Progress::Finished(machine, value) => Progress::Finished(
            rename_machine(renaming, machine),
            rename_value(renaming, value),
        ),
    }
}

/// How a run stands or ended, with every name renamed.
pub open spec fn rename_outcome(renaming: Renaming, outcome: Result<Progress, RuntimeFault>) -> Result<
    Progress,
    RuntimeFault,
> {
    match outcome {
        Ok(progress) => Ok(rename_progress(renaming, progress)),
        Err(fault) => Err(fault),
    }
}

} // verus!
