//! What every state of a build has in common, and how one state grows into
//! the next. From this follows that a program that let-normalization yields
//! is well formed.

use vstd::prelude::*;
use crate::ir_let::free_vars::free_names_of;
use crate::ir_let::let_expr::{
    AllocClosureView, BlockView, DefinitionView, FunctionView, InstructionView, TargetAddress,
};
use crate::ir_let::normal_form::{
    NormalizerView, all_variables, generated_base, needs_block, normal_block,
    normal_function_body, normal_program, normal_rhs, normal_var, normal_vars, toplevel_name,
};
use crate::ir_let::well_formed::{
    block_ok, closure_ok, definition_ok, function_ok, instruction_ok,
    lemma_well_formed_branches_apart,
};
use crate::syntax::{Expr, Name, views};

verus! {

/// Whether the functions of `before` are still there in `after`, each with
/// its name, its parameters, its captured names if they were known, and its
/// blocks' parents. What can stand in a block of `before` can then stand in
/// the same block of `after`.
pub open spec fn metadata_kept(before: Seq<FunctionView>, after: Seq<FunctionView>) -> bool {
    &&& before.len() <= after.len()
    &&& forall|g: int|
        #![trigger after[g]]
        0 <= g < before.len() ==> {
            &&& after[g].name == before[g].name
            &&& after[g].arg_names == before[g].arg_names
            &&& before[g].free_names is Some ==> after[g].free_names == before[g].free_names
            &&& before[g].blocks.len() <= after[g].blocks.len()
            &&& forall|j: int|
                #![trigger after[g].blocks[j]]
                0 <= j < before[g].blocks.len() ==> after[g].blocks[j].parent_block_index
                    == before[g].blocks[j].parent_block_index
        }
}

/// Whether the functions of `before` other than `active` are unchanged in
/// `after`, and every function added since is finished.
pub open spec fn others_kept(before: Seq<FunctionView>, after: Seq<FunctionView>, active: int) -> bool {
    &&& before.len() <= after.len()
    &&& forall|g: int| 0 <= g < before.len() && g != active ==> #[trigger] after[g] == before[g]
    &&& forall|g: int| before.len() <= g < after.len() ==> (#[trigger] after[g]).free_names is Some
}

/// Whether `after` is `before` with more blocks, all closed, the blocks of
/// `before` other than `active_block` being unchanged.
pub open spec fn function_grown(before: FunctionView, after: FunctionView, active_block: int) -> bool {
    &&& after.name == before.name
    &&& after.arg_names == before.arg_names
    &&& after.free_names == before.free_names
    &&& before.blocks.len() <= after.blocks.len()
    &&& forall|j: int|
        0 <= j < before.blocks.len() && j != active_block ==> #[trigger] after.blocks[j] == before.blocks[j]
    &&& forall|j: int| before.blocks.len() <= j < after.blocks.len() ==> (#[trigger] after.blocks[j]).is_closed()
}

/// Whether `after` is `before` with more instructions at its end.
pub open spec fn block_grown(before: BlockView, after: BlockView) -> bool {
    &&& after.parent_block_index == before.parent_block_index
    &&& before.instructions.len() <= after.instructions.len()
    &&& forall|i: int|
        0 <= i < before.instructions.len() ==> #[trigger] after.instructions[i] == before.instructions[i]
}

impl NormalizerView {
    /// What holds of every state of a build.
    pub open spec fn inv(self) -> bool {
        &&& self.current_function_index matches Some(f) ==> f < self.functions.len()
            && self.functions[f as int].free_names is None
        &&& self.current_function_index is None ==> self.current_block_index is None
        &&& self.current_block_index matches Some(b) ==> b < self.functions[self.function_index()].blocks.len()
            && self.functions[self.function_index()].blocks[b as int].is_open()
        &&& forall|g: int| 0 <= g < self.functions.len() ==> #[trigger] function_ok(self.functions, g)
    }

    /// Whether the cursor is that of `before`, and the counter is no lower.
    pub open spec fn resumes(self, before: NormalizerView) -> bool {
        &&& self.current_function_index == before.current_function_index
        &&& self.current_block_index == before.current_block_index
        &&& self.var_counter >= before.var_counter
    }

    /// How a state grows while an expression is normalized into the active
    /// block: the block gets more instructions, its function more blocks, the
    /// program more functions, and nothing else changes.
    pub open spec fn grows_to(self, after: NormalizerView) -> bool {
        let f = self.function_index();
        let b = self.block_index();
        &&& after.resumes(self)
        &&& others_kept(self.functions, after.functions, f)
        &&& function_grown(self.functions[f], after.functions[f], b)
        &&& block_grown(self.functions[f].blocks[b], after.functions[f].blocks[b])
    }

    /// How a state grows while a block is added to the active function: the
    /// function gets more blocks, the first of them at `address` with the
    /// block that is active as its parent, the program more functions, and
    /// nothing else changes.
    pub open spec fn grows_by_block(self, after: NormalizerView, address: TargetAddress) -> bool {
        let f = self.function_index();
        &&& after.resumes(self)
        &&& others_kept(self.functions, after.functions, f)
        &&& function_grown(self.functions[f], after.functions[f], -1)
        &&& address.function_index == f
        &&& address.block_index == self.functions[f].blocks.len()
        &&& address.instruction_index == 0
        &&& address.block_index < after.functions[f].blocks.len()
        &&& after.functions[f].blocks[address.block_index as int].parent_block_index
            == self.current_block_index
    }

    /// How a state stands after functions were lifted from it and nothing
    /// else was done: the cursor is where it was, the functions that were
    /// there are unchanged, and those added are finished.
    pub open spec fn lifts_to(self, after: NormalizerView) -> bool {
        after.resumes(self) && others_kept(self.functions, after.functions, -1)
    }

    /// How a state stands after an expression was normalized from it: the
    /// scopes and the cursor are as they were and the counter is no lower;
    /// where there was an active block the state has grown into it; and
    /// where the expression needed none, functions were lifted at most.
    pub open spec fn normalized_to(self, needed_block: bool, after: NormalizerView) -> bool {
        &&& after.substitution == self.substitution
        &&& after.resumes(self)
        &&& self.current_block_index is Some ==> self.grows_to(after)
        &&& !needed_block ==> self.lifts_to(after)
    }

    /// How a state grows while a function is added to the program: the
    /// function that `closure` names is the first of those added, and
    /// nothing else changes.
    pub open spec fn grows_by_function(self, after: NormalizerView, closure: AllocClosureView) -> bool {
        &&& after.resumes(self)
        &&& others_kept(self.functions, after.functions, -1)
        &&& closure.body.function_index == self.functions.len()
        &&& closure_ok(after.functions, -1, closure)
    }
}

/// What can stand in a block still can when names, parameters, known
/// captured names and parents are kept.
pub proof fn lemma_definition_stays_ok(
    before: Seq<FunctionView>,
    after: Seq<FunctionView>,
    g: int,
    j: int,
    definition: DefinitionView,
)
    requires
        metadata_kept(before, after),
        0 <= g < before.len(),
        definition_ok(before, g, j, definition),
    ensures
        definition_ok(after, g, j, definition),
{
    match definition {
        DefinitionView::If { branch_success, branch_failure, .. } => {
            assert(after[g].blocks[branch_success.block_index as int].parent_block_index
                == before[g].blocks[branch_success.block_index as int].parent_block_index);
            assert(after[g].blocks[branch_failure.block_index as int].parent_block_index
                == before[g].blocks[branch_failure.block_index as int].parent_block_index);
        },
        DefinitionView::Fun(closure) => {
            let h = closure.body.function_index as int;
            assert(after[h].name == before[h].name);
        },
        _ => {},
    }
}

/// The blocks of a function that are unchanged stay in order when names,
/// parameters, known captured names and parents are kept around them.
pub proof fn lemma_blocks_stay_ok(before: Seq<FunctionView>, after: Seq<FunctionView>, g: int)
    requires
        metadata_kept(before, after),
        0 <= g < before.len(),
        after[g].blocks == before[g].blocks,
        function_ok(before, g),
    ensures
        forall|j: int| 0 <= j < after[g].blocks.len() ==> #[trigger] block_ok(after, g, j),
{
    assert forall|j: int| 0 <= j < after[g].blocks.len() implies #[trigger] block_ok(after, g, j) by {
        assert(block_ok(before, g, j));
        let block = after[g].blocks[j];
        assert forall|i: int| 0 <= i < block.instructions.len() implies instruction_ok(
            after,
            g,
            j,
            #[trigger] block.instructions[i],
        ) by {
            assert(instruction_ok(before, g, j, block.instructions[i]));
            if let InstructionView::Assignment { definition, .. } = block.instructions[i] {
                lemma_definition_stays_ok(before, after, g, j, definition);
            }
        }
    }
}

/// Growth keeps names, parameters, captured names and parents.
pub proof fn lemma_growth_keeps_metadata(before: NormalizerView, after: NormalizerView)
    requires
        before.has_active_block(),
        before.grows_to(after),
    ensures
        metadata_kept(before.functions, after.functions),
{
    let f = before.function_index();
    let b = before.block_index();
    assert forall|g: int| #![trigger after.functions[g]] 0 <= g < before.functions.len() implies {
        &&& after.functions[g].name == before.functions[g].name
        &&& after.functions[g].arg_names == before.functions[g].arg_names
        &&& before.functions[g].free_names is Some ==> after.functions[g].free_names
            == before.functions[g].free_names
        &&& before.functions[g].blocks.len() <= after.functions[g].blocks.len()
        &&& forall|j: int|
            #![trigger after.functions[g].blocks[j]]
            0 <= j < before.functions[g].blocks.len() ==> after.functions[g].blocks[j].parent_block_index
                == before.functions[g].blocks[j].parent_block_index
    } by {
        if g != f {
            assert(after.functions[g] == before.functions[g]);
        } else {
            assert forall|j: int|
                #![trigger after.functions[g].blocks[j]]
                0 <= j < before.functions[g].blocks.len() implies after.functions[g].blocks[j].parent_block_index
                == before.functions[g].blocks[j].parent_block_index by {
                if j != b {
                    assert(after.functions[f].blocks[j] == before.functions[f].blocks[j]);
                }
            }
        }
    }
}

/// Growth after growth is growth.
pub proof fn lemma_growth_composes(first: NormalizerView, second: NormalizerView, third: NormalizerView)
    requires
        first.has_active_block(),
        first.grows_to(second),
        second.grows_to(third),
    ensures
        first.grows_to(third),
{
    let f = first.function_index();
    let b = first.block_index();
    assert forall|g: int| 0 <= g < first.functions.len() && g != f implies #[trigger] third.functions[g]
        == first.functions[g] by {
        assert(second.functions[g] == first.functions[g]);
    }
    assert forall|g: int| first.functions.len() <= g < third.functions.len() implies (#[trigger] third.functions[g]).free_names is Some by {
        if g < second.functions.len() {
            assert(second.functions[g].free_names is Some);
            assert(third.functions[g] == second.functions[g]);
        }
    }
    assert forall|j: int| 0 <= j < first.functions[f].blocks.len() && j != b implies #[trigger] third.functions[f].blocks[j]
        == first.functions[f].blocks[j] by {
        assert(second.functions[f].blocks[j] == first.functions[f].blocks[j]);
    }
    assert forall|j: int|
        first.functions[f].blocks.len() <= j < third.functions[f].blocks.len() implies (#[trigger] third.functions[f].blocks[j]).is_closed() by {
        if j < second.functions[f].blocks.len() {
            assert(second.functions[f].blocks[j].is_closed());
            assert(third.functions[f].blocks[j] == second.functions[f].blocks[j]);
        }
    }
    assert forall|i: int| 0 <= i < first.functions[f].blocks[b].instructions.len() implies #[trigger] third.functions[f].blocks[b].instructions[i]
        == first.functions[f].blocks[b].instructions[i] by {
        assert(second.functions[f].blocks[b].instructions[i] == first.functions[f].blocks[b].instructions[i]);
    }
}

/// A fresh name changes nothing but the counter.
pub proof fn lemma_fresh(state: NormalizerView, base: Name)
    requires
        state.inv(),
    ensures
        state.fresh(base) matches Ok((_, after)) ==> after.inv() && after.functions == state.functions
            && after.resumes(state),
{
}

/// An assignment at the end of the active block keeps the state in order, if
/// its definition can stand there.
pub proof fn lemma_emit_assignment(state: NormalizerView, name: Name, definition: DefinitionView)
    requires
        state.inv(),
        state.current_block_index is Some,
        definition_ok(state.functions, state.function_index(), state.block_index(), definition),
    ensures
        state.emit(InstructionView::Assignment { name, definition }).inv(),
        state.grows_to(state.emit(InstructionView::Assignment { name, definition })),
{
    let instruction = InstructionView::Assignment { name, definition };
    let after = state.emit(instruction);
    let f = state.function_index();
    let b = state.block_index();
    let block = state.functions[f].blocks[b];
    assert(after.functions[f].blocks[b] == block.emit(instruction));
    assert(after.functions[f].blocks[b].is_open()) by {
        let grown = block.emit(instruction);
        assert forall|i: int| 1 <= i < grown.instructions.len() implies #[trigger] grown.instructions[i] is Assignment by {
            if i < block.instructions.len() {
                assert(grown.instructions[i] == block.instructions[i]);
            }
        }
    }
    assert(state.grows_to(after));
    lemma_growth_keeps_metadata(state, after);
    assert forall|g: int| 0 <= g < after.functions.len() implies #[trigger] function_ok(after.functions, g) by {
        assert(function_ok(state.functions, g));
        if g != f {
            lemma_blocks_stay_ok(state.functions, after.functions, g);
        } else {
            assert forall|j: int| 0 <= j < after.functions[g].blocks.len() implies #[trigger] block_ok(
                after.functions,
                g,
                j,
            ) by {
                assert(block_ok(state.functions, g, j));
                let grown = after.functions[g].blocks[j];
                assert forall|i: int| 0 <= i < grown.instructions.len() implies instruction_ok(
                    after.functions,
                    g,
                    j,
                    #[trigger] grown.instructions[i],
                ) by {
                    if j == b && i == block.instructions.len() {
                        lemma_definition_stays_ok(state.functions, after.functions, g, j, definition);
                    } else {
                        let kept = state.functions[g].blocks[j].instructions[i];
                        assert(grown.instructions[i] == kept);
                        assert(instruction_ok(state.functions, g, j, kept));
                        if let InstructionView::Assignment { definition: kept_definition, .. } = kept {
                            lemma_definition_stays_ok(
                                state.functions,
                                after.functions,
                                g,
                                j,
                                kept_definition,
                            );
                        }
                    }
                }
            }
        }
    }
}

/// Growth while a block is added is growth.
pub proof fn lemma_block_growth_is_growth(before: NormalizerView, after: NormalizerView, address: TargetAddress)
    requires
        before.has_active_block(),
        before.grows_by_block(after, address),
    ensures
        before.grows_to(after),
{
    let f = before.function_index();
    let b = before.block_index();
    assert(after.functions[f].blocks[b] == before.functions[f].blocks[b]);
}

/// Fresh names change nothing but the counter.
pub proof fn lemma_fresh_each(state: NormalizerView, bases: Seq<Name>, remaining: int, generated: Seq<Name>)
    requires
        state.inv(),
    ensures
        state.fresh_each(bases, remaining, generated) matches Ok((_, after)) ==> after.inv()
            && after.functions == state.functions && after.resumes(state) && after.substitution
            == state.substitution,
    decreases remaining,
{
    if 0 < remaining <= bases.len() {
        if let Ok((name, following)) = state.fresh(bases[remaining - 1]) {
            lemma_fresh_each(following, bases, remaining - 1, seq![name] + generated);
        }
    }
}

/// The exit at the end of the active block closes it. With the cursor back
/// where it was when the block was opened, the state is in order.
pub proof fn lemma_close_block(
    state: NormalizerView,
    opened: NormalizerView,
    computed: NormalizerView,
    result: Name,
)
    requires
        state.inv(),
        state.current_function_index is Some,
        opened == state.with_functions(
            state.functions.update(
                state.function_index(),
                state.functions[state.function_index()].open_block(state.current_block_index),
            ),
        ).with_cursor(
            state.current_function_index,
            Some(state.functions[state.function_index()].blocks.len() as usize),
        ).emit(InstructionView::EnterBlock),
        state.functions[state.function_index()].blocks.len() <= usize::MAX,
        opened.inv(),
        computed.inv(),
        opened.grows_to(computed),
    ensures
        computed.emit(InstructionView::ExitBlock(result)).with_cursor(
            state.current_function_index,
            state.current_block_index,
        ).inv(),
        state.grows_by_block(
            computed.emit(InstructionView::ExitBlock(result)).with_cursor(
                state.current_function_index,
                state.current_block_index,
            ),
            TargetAddress {
                function_index: state.function_index() as usize,
                block_index: state.functions[state.function_index()].blocks.len() as usize,
                instruction_index: 0,
            },
        ),
{
    let f = state.function_index();
    let new = state.functions[f].blocks.len() as int;
    let instruction = InstructionView::ExitBlock(result);
    let exited = computed.emit(instruction);
    let after = exited.with_cursor(state.current_function_index, state.current_block_index);
    let block = computed.functions[f].blocks[new];
    assert(opened.function_index() == f && opened.block_index() == new);
    assert(opened.functions[f].blocks.len() == new + 1);
    assert(exited.functions[f].blocks[new] == block.emit(instruction));
    assert(exited.functions[f].blocks[new].is_closed()) by {
        let grown = block.emit(instruction);
        assert(block.is_open());
        assert forall|i: int| 1 <= i < grown.instructions.len() - 1 implies #[trigger] grown.instructions[i] is Assignment by {
            assert(grown.instructions[i] == block.instructions[i]);
        }
    }
    assert(computed.grows_to(exited));
    lemma_growth_keeps_metadata(computed, exited);
    assert forall|g: int| 0 <= g < after.functions.len() implies #[trigger] function_ok(after.functions, g) by {
        assert(function_ok(computed.functions, g));
        if g != f {
            lemma_blocks_stay_ok(computed.functions, exited.functions, g);
        } else {
            assert forall|j: int| 0 <= j < exited.functions[g].blocks.len() implies #[trigger] block_ok(
                exited.functions,
                g,
                j,
            ) by {
                assert(block_ok(computed.functions, g, j));
                let grown = exited.functions[g].blocks[j];
                assert forall|i: int| 0 <= i < grown.instructions.len() implies instruction_ok(
                    exited.functions,
                    g,
                    j,
                    #[trigger] grown.instructions[i],
                ) by {
                    if j == new && i == block.instructions.len() {
                    } else {
                        let kept = computed.functions[g].blocks[j].instructions[i];
                        assert(grown.instructions[i] == kept);
                        assert(instruction_ok(computed.functions, g, j, kept));
                        if let InstructionView::Assignment { definition: kept_definition, .. } = kept {
                            lemma_definition_stays_ok(
                                computed.functions,
                                exited.functions,
                                g,
                                j,
                                kept_definition,
                            );
                        }
                    }
                }
            }
        }
    }
    // The blocks that were there before the new one are as they were.
    assert forall|j: int| 0 <= j < new implies #[trigger] after.functions[f].blocks[j]
        == state.functions[f].blocks[j] by {
        assert(computed.functions[f].blocks[j] == opened.functions[f].blocks[j]);
    }
    assert forall|j: int| new <= j < after.functions[f].blocks.len() implies (#[trigger] after.functions[f].blocks[j]).is_closed() by {
        if j != new {
            assert(computed.functions[f].blocks[j].is_closed());
        }
    }
    assert forall|g: int| 0 <= g < state.functions.len() && g != f implies #[trigger] after.functions[g]
        == state.functions[g] by {
        assert(computed.functions[g] == opened.functions[g]);
    }
    assert forall|g: int| state.functions.len() <= g < after.functions.len() implies (#[trigger] after.functions[g]).free_names is Some by {
        assert(computed.functions[g].free_names is Some);
    }
    assert(computed.functions[f].blocks[new].parent_block_index == opened.functions[f].blocks[new].parent_block_index);
}

/// A new block with its entry, made the active block, leaves the state in
/// order.
pub proof fn lemma_open_block(state: NormalizerView)
    requires
        state.inv(),
        state.current_function_index is Some,
        state.functions[state.function_index()].blocks.len() <= usize::MAX,
    ensures
        state.with_functions(
            state.functions.update(
                state.function_index(),
                state.functions[state.function_index()].open_block(state.current_block_index),
            ),
        ).with_cursor(
            state.current_function_index,
            Some(state.functions[state.function_index()].blocks.len() as usize),
        ).emit(InstructionView::EnterBlock).inv(),
{
    let f = state.function_index();
    let new = state.functions[f].blocks.len() as int;
    let added = state.with_functions(
        state.functions.update(f, state.functions[f].open_block(state.current_block_index)),
    ).with_cursor(state.current_function_index, Some(new as usize));
    let opened = added.emit(InstructionView::EnterBlock);
    assert(opened.functions[f].blocks[new].instructions =~= seq![InstructionView::EnterBlock]);
    assert(opened.functions[f].blocks[new].is_open());
    assert(metadata_kept(state.functions, opened.functions)) by {
        assert forall|g: int| #![trigger opened.functions[g]] 0 <= g < state.functions.len() implies {
            &&& opened.functions[g].name == state.functions[g].name
            &&& opened.functions[g].arg_names == state.functions[g].arg_names
            &&& state.functions[g].free_names is Some ==> opened.functions[g].free_names
                == state.functions[g].free_names
            &&& state.functions[g].blocks.len() <= opened.functions[g].blocks.len()
            &&& forall|j: int|
                #![trigger opened.functions[g].blocks[j]]
                0 <= j < state.functions[g].blocks.len() ==> opened.functions[g].blocks[j].parent_block_index
                    == state.functions[g].blocks[j].parent_block_index
        } by {
            if g != f {
                assert(opened.functions[g] == state.functions[g]);
            }
        }
    }
    assert forall|g: int| 0 <= g < opened.functions.len() implies #[trigger] function_ok(opened.functions, g) by {
        assert(function_ok(state.functions, g));
        if g != f {
            assert(opened.functions[g] == state.functions[g]);
            lemma_blocks_stay_ok(state.functions, opened.functions, g);
        } else {
            assert forall|j: int| 0 <= j < opened.functions[g].blocks.len() implies #[trigger] block_ok(
                opened.functions,
                g,
                j,
            ) by {
                let block = opened.functions[g].blocks[j];
                if j < new {
                    assert(block == state.functions[g].blocks[j]);
                    assert(block_ok(state.functions, g, j));
                    assert forall|i: int| 0 <= i < block.instructions.len() implies instruction_ok(
                        opened.functions,
                        g,
                        j,
                        #[trigger] block.instructions[i],
                    ) by {
                        assert(instruction_ok(state.functions, g, j, block.instructions[i]));
                        if let InstructionView::Assignment { definition, .. } = block.instructions[i] {
                            lemma_definition_stays_ok(state.functions, opened.functions, g, j, definition);
                        }
                    }
                }
            }
        }
    }
}

/// A new function without blocks, made the active function, leaves the
/// state in order.
pub proof fn lemma_start_function(state: NormalizerView, name: Name, arg_names: Seq<Name>)
    requires
        state.inv(),
        state.functions.len() <= usize::MAX,
    ensures
        state.with_functions(
            state.functions.push(FunctionView { name, arg_names, free_names: None, blocks: Seq::empty() }),
        ).with_cursor(Some(state.functions.len() as usize), None).inv(),
{
    let started = state.with_functions(
        state.functions.push(FunctionView { name, arg_names, free_names: None, blocks: Seq::empty() }),
    ).with_cursor(Some(state.functions.len() as usize), None);
    assert(metadata_kept(state.functions, started.functions)) by {
        assert forall|g: int| 0 <= g < state.functions.len() implies #[trigger] started.functions[g]
            == state.functions[g] by {}
    }
    assert forall|g: int| 0 <= g < started.functions.len() implies #[trigger] function_ok(
        started.functions,
        g,
    ) by {
        if g < state.functions.len() {
            assert(started.functions[g] == state.functions[g]);
            assert(function_ok(state.functions, g));
            lemma_blocks_stay_ok(state.functions, started.functions, g);
        }
    }
}

/// A function whose entry block has been added is finished when its
/// captured names are recorded. With the cursor back where it was when the
/// function was started, the state is in order.
pub proof fn lemma_finish_function(
    state: NormalizerView,
    started: NormalizerView,
    built: NormalizerView,
    body: TargetAddress,
    name: Name,
    arg_names: Seq<Name>,
)
    requires
        state.inv(),
        state.functions.len() <= usize::MAX,
        started == state.with_functions(
            state.functions.push(FunctionView { name, arg_names, free_names: None, blocks: Seq::empty() }),
        ).with_cursor(Some(state.functions.len() as usize), None),
        built.inv(),
        started.grows_by_block(built, body),
    ensures
        ({
            let h = state.functions.len() as int;
            let free_names = free_names_of(built.functions[h].blocks, name, arg_names, body.block_index as int);
            let finished = built.with_functions(
                built.functions.update(h, built.functions[h].with_free_names(free_names)),
            ).with_cursor(state.current_function_index, state.current_block_index);
            &&& finished.inv()
            &&& state.grows_by_function(finished, AllocClosureView { name, arg_names, free_names, body })
            &&& finished.substitution == built.substitution
        }),
{
    let h = state.functions.len() as int;
    let free_names = free_names_of(built.functions[h].blocks, name, arg_names, body.block_index as int);
    let finished = built.with_functions(
        built.functions.update(h, built.functions[h].with_free_names(free_names)),
    ).with_cursor(state.current_function_index, state.current_block_index);
    assert(started.function_index() == h);
    assert(started.functions[h].blocks.len() == 0);
    assert(body.block_index == 0);
    assert forall|g: int| 0 <= g < state.functions.len() implies #[trigger] finished.functions[g]
        == state.functions[g] by {
        assert(built.functions[g] == started.functions[g]);
    }
    assert forall|g: int| state.functions.len() <= g < finished.functions.len() implies (#[trigger] finished.functions[g]).free_names is Some by {
        if g != h {
            assert(built.functions[g].free_names is Some);
        }
    }
    assert(metadata_kept(built.functions, finished.functions)) by {
        assert forall|g: int| #![trigger finished.functions[g]] 0 <= g < built.functions.len() implies {
            &&& finished.functions[g].name == built.functions[g].name
            &&& finished.functions[g].arg_names == built.functions[g].arg_names
            &&& built.functions[g].free_names is Some ==> finished.functions[g].free_names
                == built.functions[g].free_names
            &&& built.functions[g].blocks.len() <= finished.functions[g].blocks.len()
            &&& forall|j: int|
                #![trigger finished.functions[g].blocks[j]]
                0 <= j < built.functions[g].blocks.len() ==> finished.functions[g].blocks[j].parent_block_index
                    == built.functions[g].blocks[j].parent_block_index
        } by {
            if g != h {
                assert(finished.functions[g] == built.functions[g]);
            }
        }
    }
    assert forall|g: int| 0 <= g < finished.functions.len() implies #[trigger] function_ok(
        finished.functions,
        g,
    ) by {
        assert(function_ok(built.functions, g));
        lemma_blocks_stay_ok(built.functions, finished.functions, g);
        if g == h {
            assert forall|j: int| 0 <= j < finished.functions[h].blocks.len() implies (#[trigger] finished.functions[h].blocks[j]).is_closed() by {
                assert(built.functions[h].blocks[j].is_closed());
            }
        } else {
            assert(finished.functions[g] == built.functions[g]);
        }
    }
}

/// What normalizing a function into the active block does to a state in order.
proof fn lemma_normal_fun(e: Expr, state: NormalizerView)
    requires
        state.inv(),
        state.current_block_index is Some,
        e is Fun,
    ensures
        normal_rhs(e, state) matches Ok((definition, after)) ==> {
            &&& after.inv()
            &&& state.grows_to(after)
            &&& after.substitution == state.substitution
            &&& definition_ok(after.functions, state.function_index(), state.block_index(), definition)
        },
    decreases e, 0nat,
{
    let f = state.function_index();
    if let Expr::Fun { name, arg_names, body } = e {
            lemma_fresh(state, name@);
            if let Ok((unique_name, named)) = state.fresh(name@) {
                lemma_fresh_each(named, views(arg_names@), arg_names@.len() as int, Seq::empty());
                if let Ok((unique_arg_names, generated)) = named.fresh_each(
                    views(arg_names@),
                    arg_names@.len() as int,
                    Seq::empty(),
                ) {
                    let bound = generated.bind_each(views(arg_names@), unique_arg_names).bind(
                        name@,
                        unique_name,
                    );
                    lemma_normal_function_body(*body, bound, unique_name, unique_arg_names);
                    if let Ok((function, lifted)) = normal_function_body(
                        *body,
                        bound,
                        unique_name,
                        unique_arg_names,
                    ) {
                        let after = lifted.restore(state.substitution.len() as int);
                        assert(after.substitution =~= state.substitution);
                        assert(after.functions[f] == state.functions[f]);
                    }
                }
            }
    }
}

/// What normalizing a call into the active block does to a state in order.
proof fn lemma_normal_call(e: Expr, state: NormalizerView)
    requires
        state.inv(),
        state.current_block_index is Some,
        e is Call,
    ensures
        normal_rhs(e, state) matches Ok((definition, after)) ==> {
            &&& after.inv()
            &&& state.grows_to(after)
            &&& after.substitution == state.substitution
            &&& definition_ok(after.functions, state.function_index(), state.block_index(), definition)
        },
    decreases e, 0nat,
{
    if let Expr::Call { func, args } = e {
            lemma_normal_var(*func, state);
            if let Ok((func_name, after_func)) = normal_var(*func, state) {
                lemma_normal_vars(args@, 0, after_func, Seq::empty());
                if let Ok((arg_names, after_args)) = normal_vars(args@, 0, after_func, Seq::empty()) {
                    lemma_growth_composes(state, after_func, after_args);
                }
            }
    }
}

/// What normalizing a binary operation into the active block does to a state in order.
proof fn lemma_normal_binop(e: Expr, state: NormalizerView)
    requires
        state.inv(),
        state.current_block_index is Some,
        e is BinOp,
    ensures
        normal_rhs(e, state) matches Ok((definition, after)) ==> {
            &&& after.inv()
            &&& state.grows_to(after)
            &&& after.substitution == state.substitution
            &&& definition_ok(after.functions, state.function_index(), state.block_index(), definition)
        },
    decreases e, 0nat,
{
    if let Expr::BinOp { op, lhs, rhs } = e {
            lemma_normal_var(*lhs, state);
            if let Ok((lhs_name, after_lhs)) = normal_var(*lhs, state) {
                lemma_normal_var(*rhs, after_lhs);
                if let Ok((rhs_name, after_rhs)) = normal_var(*rhs, after_lhs) {
                    lemma_growth_composes(state, after_lhs, after_rhs);
                }
            }
    }
}

/// What normalizing a let-binding into the active block does to a state in order.
proof fn lemma_normal_let(e: Expr, state: NormalizerView)
    requires
        state.inv(),
        state.current_block_index is Some,
        e is Let,
    ensures
        normal_rhs(e, state) matches Ok((definition, after)) ==> {
            &&& after.inv()
            &&& state.grows_to(after)
            &&& after.substitution == state.substitution
            &&& definition_ok(after.functions, state.function_index(), state.block_index(), definition)
        },
    decreases e, 0nat,
{
    if let Expr::Let { name, definition, body } = e {
            lemma_normal_rhs(*definition, state);
            if let Ok((defined, after_definition)) = normal_rhs(*definition, state) {
                lemma_fresh(after_definition, name@);
                if let Ok((unique_name, named)) = after_definition.fresh(name@) {
                    lemma_emit_assignment(named, unique_name, defined);
                    let emitted = named.emit(
                        InstructionView::Assignment { name: unique_name, definition: defined },
                    );
                    let bound = emitted.bind(name@, unique_name);
                    lemma_normal_rhs(*body, bound);
                    if let Ok((result, after_body)) = normal_rhs(*body, bound) {
                        let after = after_body.restore(state.substitution.len() as int);
                        assert(after.substitution =~= state.substitution);
                        assert(state.grows_to(named));
                        lemma_growth_composes(state, named, emitted);
                        assert(emitted.grows_to(after));
                        lemma_growth_composes(state, emitted, after);
                    }
                }
            }
    }
}

/// What normalizing a conditional into the active block does to a state in order.
proof fn lemma_normal_if(e: Expr, state: NormalizerView)
    requires
        state.inv(),
        state.current_block_index is Some,
        e is If,
    ensures
        normal_rhs(e, state) matches Ok((definition, after)) ==> {
            &&& after.inv()
            &&& state.grows_to(after)
            &&& after.substitution == state.substitution
            &&& definition_ok(after.functions, state.function_index(), state.block_index(), definition)
        },
    decreases e, 0nat,
{
    let f = state.function_index();
    if let Expr::If { condition, branch_success, branch_failure } = e {
            lemma_normal_var(*condition, state);
            if let Ok((condition_name, after_condition)) = normal_var(*condition, state) {
                lemma_normal_block(*branch_success, after_condition);
                if let Ok((success, after_success)) = normal_block(*branch_success, after_condition) {
                    lemma_normal_block(*branch_failure, after_success);
                    if let Ok((failure, after_failure)) = normal_block(*branch_failure, after_success) {
                        lemma_block_growth_is_growth(after_condition, after_success, success);
                        lemma_block_growth_is_growth(after_success, after_failure, failure);
                        lemma_growth_composes(state, after_condition, after_success);
                        lemma_growth_composes(state, after_success, after_failure);
                        assert(after_failure.functions[f].blocks[success.block_index as int]
                            == after_success.functions[f].blocks[success.block_index as int]);
                    }
                }
            }
    }
}

/// What normalizing a tuple into the active block does to a state in order.
proof fn lemma_normal_tuple(e: Expr, state: NormalizerView)
    requires
        state.inv(),
        state.current_block_index is Some,
        e is Tuple,
    ensures
        normal_rhs(e, state) matches Ok((definition, after)) ==> {
            &&& after.inv()
            &&& state.grows_to(after)
            &&& after.substitution == state.substitution
            &&& definition_ok(after.functions, state.function_index(), state.block_index(), definition)
        },
    decreases e, 0nat,
{
    if let Expr::Tuple { values } = e {
            lemma_normal_vars(values@, 0, state, Seq::empty());
    }
}

/// What normalizing a field assignment into the active block does to a state in order.
proof fn lemma_normal_set_field(e: Expr, state: NormalizerView)
    requires
        state.inv(),
        state.current_block_index is Some,
        e is SetField,
    ensures
        normal_rhs(e, state) matches Ok((definition, after)) ==> {
            &&& after.inv()
            &&& state.grows_to(after)
            &&& after.substitution == state.substitution
            &&& definition_ok(after.functions, state.function_index(), state.block_index(), definition)
        },
    decreases e, 0nat,
{
    if let Expr::SetField { tuple, index, new_expr } = e {
            lemma_normal_var(*tuple, state);
            if let Ok((tuple_name, after_tuple)) = normal_var(*tuple, state) {
                lemma_normal_var(*new_expr, after_tuple);
                if let Ok((new_name, after_new)) = normal_var(*new_expr, after_tuple) {
                    lemma_growth_composes(state, after_tuple, after_new);
                }
            }
    }
}

/// What normalizing an expression into the active block does to a state in
/// order: the state that follows is in order, has grown from the first, and
/// has the same scopes; and the definition can stand in the active block.
pub proof fn lemma_normal_rhs(e: Expr, state: NormalizerView)
    requires
        state.inv(),
        state.current_block_index is Some,
    ensures
        normal_rhs(e, state) matches Ok((definition, after)) ==> {
            &&& after.inv()
            &&& state.grows_to(after)
            &&& after.substitution == state.substitution
            &&& definition_ok(after.functions, state.function_index(), state.block_index(), definition)
        },
    decreases e, 1nat,
{
    match e {
        Expr::Literal(_) => {},
        Expr::Var { .. } => {},
        Expr::Fun { .. } => lemma_normal_fun(e, state),
        Expr::Call { .. } => lemma_normal_call(e, state),
        Expr::BinOp { .. } => lemma_normal_binop(e, state),
        Expr::Let { .. } => lemma_normal_let(e, state),
        Expr::If { .. } => lemma_normal_if(e, state),
        Expr::Tuple { .. } => lemma_normal_tuple(e, state),
        Expr::SetField { .. } => lemma_normal_set_field(e, state),
    }
}

/// What normalizing an expression to a name does to a state in order.
pub proof fn lemma_normal_var(e: Expr, state: NormalizerView)
    requires
        state.inv(),
        state.current_block_index is Some,
    ensures
        normal_var(e, state) matches Ok((_, after)) ==> {
            &&& after.inv()
            &&& state.grows_to(after)
            &&& after.substitution == state.substitution
        },
    decreases e, 2nat,
{
    lemma_normal_rhs(e, state);
    if let Ok((step, following)) = normal_rhs(e, state) {
        if !(step is Var) {
            lemma_fresh(following, generated_base());
            if let Ok((name, named)) = following.fresh(generated_base()) {
                lemma_emit_assignment(named, name, step);
                let after = named.emit(InstructionView::Assignment { name, definition: step });
                assert(state.grows_to(named));
                lemma_growth_composes(state, named, after);
            }
        }
    }
}

/// What normalizing expressions to names, one after the other, does to a
/// state in order.
pub proof fn lemma_normal_vars(es: Seq<Expr>, from: int, state: NormalizerView, done: Seq<Name>)
    requires
        state.inv(),
        state.current_block_index is Some,
    ensures
        normal_vars(es, from, state, done) matches Ok((_, after)) ==> {
            &&& after.inv()
            &&& state.grows_to(after)
            &&& after.substitution == state.substitution
        },
    decreases es, es.len() - from,
{
    if 0 <= from < es.len() {
        lemma_normal_var(es[from], state);
        if let Ok((name, following)) = normal_var(es[from], state) {
            lemma_normal_vars(es, from + 1, following, done.push(name));
            if let Ok((_, after)) = normal_vars(es, from + 1, following, done.push(name)) {
                lemma_growth_composes(state, following, after);
            }
        }
    }
}

/// What normalizing an expression into a new block does to a state in order.
pub proof fn lemma_normal_block(e: Expr, state: NormalizerView)
    requires
        state.inv(),
        state.current_function_index is Some,
    ensures
        normal_block(e, state) matches Ok((address, after)) ==> {
            &&& after.inv()
            &&& state.grows_by_block(after, address)
            &&& after.substitution == state.substitution
        },
    decreases e, 3nat,
{
    let f = state.function_index();
    let new_block_index = state.functions[f].blocks.len() as usize;
    let opened = state.with_functions(
        state.functions.update(f, state.functions[f].open_block(state.current_block_index)),
    ).with_cursor(state.current_function_index, Some(new_block_index)).emit(InstructionView::EnterBlock);
    if state.functions[f].blocks.len() < usize::MAX {
        lemma_open_block(state);
        lemma_normal_var(e, opened);
        if let Ok((result, computed)) = normal_var(e, opened) {
            lemma_close_block(state, opened, computed, result);
        }
    }
}

/// What normalizing an expression into a new function does to a state in
/// order.
pub proof fn lemma_normal_function_body(e: Expr, state: NormalizerView, name: Name, arg_names: Seq<Name>)
    requires
        state.inv(),
    ensures
        normal_function_body(e, state, name, arg_names) matches Ok((closure, after)) ==> {
            &&& after.inv()
            &&& state.grows_by_function(after, closure)
            &&& after.substitution == state.substitution
        },
    decreases e, 4nat,
{
    let new_function_index = state.functions.len() as usize;
    let started = state.with_functions(
        state.functions.push(FunctionView { name, arg_names, free_names: None, blocks: Seq::empty() }),
    ).with_cursor(Some(new_function_index), None);
    if state.functions.len() < usize::MAX {
        lemma_start_function(state, name, arg_names);
        lemma_normal_block(e, started);
        if let Ok((body, built)) = normal_block(e, started) {
            lemma_finish_function(state, started, built, body, name, arg_names);
        }
    }
}

/// A program that let-normalization yields is well formed, and the two
/// branches of each of its conditionals are different blocks.
pub proof fn lemma_normal_program_well_formed(e: Expr)
    ensures
        normal_program(e) matches Ok(program) ==> program.well_formed() && program.branches_apart(),
{
    let state = NormalizerView::initial();
    lemma_normal_function_body(e, state, toplevel_name(), Seq::empty());
    if let Ok(program) = normal_program(e) {
        lemma_well_formed_branches_apart(program);
    }
}

/// A variable stands for itself: normalizing it to a name leaves the state
/// as it is.
pub proof fn lemma_normal_var_of_variable(e: Expr, state: NormalizerView)
    requires
        e is Var,
    ensures
        normal_var(e, state) matches Ok((_, after)) ==> after == state,
{
}

/// Normalizing variables to names leaves the state as it is.
pub proof fn lemma_normal_vars_of_variables(es: Seq<Expr>, from: int, state: NormalizerView, done: Seq<Name>)
    requires
        all_variables(es),
    ensures
        normal_vars(es, from, state, done) matches Ok((_, after)) ==> after == state,
    decreases es.len() - from,
{
    if 0 <= from < es.len() {
        lemma_normal_var_of_variable(es[from], state);
        if let Ok((name, following)) = normal_var(es[from], state) {
            lemma_normal_vars_of_variables(es, from + 1, following, done.push(name));
        }
    }
}

/// What normalizing an expression that needs no active block does to a
/// state in order, with or without an active block: at most functions are
/// lifted, and the state that follows is in order.
pub proof fn lemma_normal_rhs_without_block(e: Expr, state: NormalizerView)
    requires
        state.inv(),
        !needs_block(e),
    ensures
        normal_rhs(e, state) matches Ok((definition, after)) ==> {
            &&& after.inv()
            &&& state.lifts_to(after)
            &&& after.substitution == state.substitution
            &&& definition matches DefinitionView::Fun(closure) ==> closure.body.function_index
                == state.functions.len() && closure_ok(after.functions, -1, closure)
        },
    decreases e, 0nat,
{
    match e {
        Expr::Fun { name, arg_names, body } => {
            lemma_fresh(state, name@);
            if let Ok((unique_name, named)) = state.fresh(name@) {
                lemma_fresh_each(named, views(arg_names@), arg_names@.len() as int, Seq::empty());
                if let Ok((unique_arg_names, generated)) = named.fresh_each(
                    views(arg_names@),
                    arg_names@.len() as int,
                    Seq::empty(),
                ) {
                    let bound = generated.bind_each(views(arg_names@), unique_arg_names).bind(
                        name@,
                        unique_name,
                    );
                    lemma_normal_function_body(*body, bound, unique_name, unique_arg_names);
                    if let Ok((function, lifted)) = normal_function_body(
                        *body,
                        bound,
                        unique_name,
                        unique_arg_names,
                    ) {
                        let after = lifted.restore(state.substitution.len() as int);
                        assert(after.substitution =~= state.substitution);
                    }
                }
            }
        },
        Expr::Call { func, args } => {
            lemma_normal_var_of_variable(*func, state);
            if let Ok((_, after_func)) = normal_var(*func, state) {
                lemma_normal_vars_of_variables(args@, 0, after_func, Seq::empty());
            }
        },
        Expr::BinOp { lhs, rhs, .. } => {
            lemma_normal_var_of_variable(*lhs, state);
            lemma_normal_var_of_variable(*rhs, state);
        },
        Expr::Tuple { values } => {
            lemma_normal_vars_of_variables(values@, 0, state, Seq::empty());
        },
        Expr::SetField { tuple, new_expr, .. } => {
            lemma_normal_var_of_variable(*tuple, state);
            lemma_normal_var_of_variable(*new_expr, state);
        },
        _ => {},
    }
}

} // verus!
