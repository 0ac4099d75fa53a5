//! The shape of a flat program.
//!
//! A finished program is made of finished functions: every block runs from
//! its entry through assignments to its exit, conditionals branch to the
//! first instruction of two different later blocks of the same function
//! whose parent is the conditional's own block, closure allocations name
//! later functions of
//! the program, and each function's captured names are those that the
//! analysis of its blocks finds.

use vstd::prelude::*;
use crate::ir_let::free_vars::{branches_forward, free_names_of, is_later_block};
use crate::ir_let::let_expr::{
    AllocClosureView, BlockView, DefinitionView, FunctionView, InstructionView, ProgramView,
    TargetAddress,
};

verus! {

impl BlockView {
    /// An entry followed by assignments: a block that is being built.
    pub open spec fn is_open(self) -> bool {
        &&& self.instructions.len() >= 1
        &&& self.instructions[0] is EnterBlock
        &&& forall|i: int| 1 <= i < self.instructions.len() ==> #[trigger] self.instructions[i] is Assignment
    }

    /// An entry, assignments, and an exit: the entry is the first
    /// instruction, the exit the last, and every other an assignment.
    pub open spec fn is_closed(self) -> bool {
        &&& self.instructions.len() >= 2
        &&& self.instructions[0] is EnterBlock
        &&& self.instructions.last() is ExitBlock
        &&& forall|i: int|
            1 <= i < self.instructions.len() - 1 ==> #[trigger] self.instructions[i] is Assignment
    }
}

/// Whether `target` is the entry of a later block of function
/// `function_index` whose parent is block `block_index`.
pub open spec fn target_ok(
    blocks: Seq<BlockView>,
    function_index: int,
    block_index: int,
    target: TargetAddress,
) -> bool {
    &&& target.function_index == function_index
    &&& target.instruction_index == 0
    &&& block_index < target.block_index < blocks.len()
    &&& blocks[target.block_index as int].parent_block_index == Some(block_index as usize)
}

/// Whether `closure` names the entry of a function that comes after
/// function `function_index`, by its name, parameters and captured names.
pub open spec fn closure_ok(functions: Seq<FunctionView>, function_index: int, closure: AllocClosureView) -> bool {
    &&& closure.body.block_index == 0
    &&& closure.body.instruction_index == 0
    &&& function_index < closure.body.function_index < functions.len()
    &&& functions[closure.body.function_index as int].name == closure.name
    &&& functions[closure.body.function_index as int].arg_names == closure.arg_names
    &&& functions[closure.body.function_index as int].free_names == Some(closure.free_names)
}

/// Whether `definition` can stand in block `block_index` of function
/// `function_index`.
pub open spec fn definition_ok(
    functions: Seq<FunctionView>,
    function_index: int,
    block_index: int,
    definition: DefinitionView,
) -> bool {
    match definition {
        DefinitionView::If { branch_success, branch_failure, .. } => {
            &&& target_ok(functions[function_index].blocks, function_index, block_index, branch_success)
            &&& target_ok(functions[function_index].blocks, function_index, block_index, branch_failure)
            &&& branch_success.block_index < branch_failure.block_index
        },
        DefinitionView::Fun(closure) => closure_ok(functions, function_index, closure),
        _ => true,
    }
}

/// Whether `instruction` can stand in block `block_index` of function
/// `function_index`.
pub open spec fn instruction_ok(
    functions: Seq<FunctionView>,
    function_index: int,
    block_index: int,
    instruction: InstructionView,
) -> bool {
    instruction matches InstructionView::Assignment { definition, .. } ==> definition_ok(
        functions,
        function_index,
        block_index,
        definition,
    )
}

/// Whether block `block_index` of function `function_index` has the shape of
/// a block, comes after its parent, and holds only what can stand in it.
pub open spec fn block_ok(functions: Seq<FunctionView>, function_index: int, block_index: int) -> bool {
    let block = functions[function_index].blocks[block_index];
    &&& block.is_open() || block.is_closed()
    &&& block.parent_block_index matches Some(parent) ==> parent < block_index
    &&& forall|i: int|
        0 <= i < block.instructions.len() ==> instruction_ok(
            functions,
            function_index,
            block_index,
            #[trigger] block.instructions[i],
        )
}

/// Whether a function is finished: it has an entry block without a parent,
/// all its blocks are closed, and its captured names are those that the
/// analysis of its blocks finds.
pub open spec fn function_complete(function: FunctionView) -> bool {
    &&& function.blocks.len() >= 1
    &&& function.blocks[0].parent_block_index is None
    &&& forall|j: int| 0 <= j < function.blocks.len() ==> (#[trigger] function.blocks[j]).is_closed()
    &&& function.free_names == Some(free_names_of(function.blocks, function.name, function.arg_names, 0))
}

/// Whether every block of function `function_index` is in order, and the
/// function is finished if its captured names are known.
pub open spec fn function_ok(functions: Seq<FunctionView>, function_index: int) -> bool {
    &&& forall|j: int|
        0 <= j < functions[function_index].blocks.len() ==> #[trigger] block_ok(functions, function_index, j)
    &&& functions[function_index].free_names is Some ==> function_complete(functions[function_index])
}

impl ProgramView {
    /// Whether every function of the program is finished and in order.
    pub open spec fn well_formed(self) -> bool {
        forall|g: int|
            0 <= g < self.functions.len() ==> #[trigger] function_ok(self.functions, g)
                && self.functions[g].free_names is Some
    }
}

impl ProgramView {
    /// Whether the two branches of every conditional are different blocks.
    pub open spec fn branches_apart(self) -> bool {
        forall|g: int, j: int, i: int|
            #![trigger self.functions[g].blocks[j].instructions[i]]
            0 <= g < self.functions.len() && 0 <= j < self.functions[g].blocks.len() && 0 <= i
                < self.functions[g].blocks[j].instructions.len() ==> (
            self.functions[g].blocks[j].instructions[i] matches InstructionView::Assignment {
                definition: DefinitionView::If { branch_success, branch_failure, .. },
                ..
            } ==> branch_success.block_index != branch_failure.block_index)
    }
}

/// In a well-formed program the two branches of every conditional are
/// different blocks.
pub proof fn lemma_well_formed_branches_apart(program: ProgramView)
    requires
        program.well_formed(),
    ensures
        program.branches_apart(),
{
    assert forall|g: int, j: int, i: int|
        #![trigger program.functions[g].blocks[j].instructions[i]]
        0 <= g < program.functions.len() && 0 <= j < program.functions[g].blocks.len() && 0 <= i
            < program.functions[g].blocks[j].instructions.len() implies (
    program.functions[g].blocks[j].instructions[i] matches InstructionView::Assignment {
        definition: DefinitionView::If { branch_success, branch_failure, .. },
        ..
    } ==> branch_success.block_index != branch_failure.block_index) by {
        assert(function_ok(program.functions, g));
        assert(block_ok(program.functions, g, j));
        assert(instruction_ok(program.functions, g, j, program.functions[g].blocks[j].instructions[i]));
    }
}

/// The blocks of a function that is in order branch forward.
pub proof fn lemma_ok_branches_forward(functions: Seq<FunctionView>, g: int)
    requires
        0 <= g < functions.len(),
        function_ok(functions, g),
    ensures
        branches_forward(functions[g].blocks),
{
    let blocks = functions[g].blocks;
    assert forall|b: int, i: int|
        #![trigger blocks[b].instructions[i]]
        0 <= b < blocks.len() && 0 <= i < blocks[b].instructions.len() implies (
    blocks[b].instructions[i] matches InstructionView::Assignment {
        definition: DefinitionView::If { branch_success, branch_failure, .. },
        ..
    } ==> is_later_block(blocks, b, branch_success.block_index as int)
        && is_later_block(blocks, b, branch_failure.block_index as int)) by {
        assert(block_ok(functions, g, b));
        assert(instruction_ok(functions, g, b, blocks[b].instructions[i]));
    }
}

} // verus!
