//! The scopes of a normalized program: every name is read where it can be
//! found.
//!
//! A name that an instruction reads is bound by the instruction's own block
//! or by a block around it, or it is bound nowhere in the function: then it
//! comes from outside, as a parameter, as the function's own name or as a
//! captured name.

use vstd::prelude::*;
use crate::ir_flat::frame_layout::assigned_names;
use crate::ir_let::binders::lemma_assigned_names_push;
use crate::ir_let::free_vars_laws::{definition_mentions, mentions};
use crate::ir_let::invariants::block_grown;
use crate::ir_let::let_expr::{BlockView, DefinitionView, FunctionView, InstructionView};
use crate::ir_let::names::generation;
use crate::ir_let::normal_form::NormalizerView;
use crate::syntax::Name;

verus! {

/// The names that a block binds.
pub open spec fn names_of(block: BlockView) -> Seq<Name> {
    assigned_names(block.instructions)
}

/// Whether block `block_index` or a block around it binds `name`.
pub open spec fn bound_in_chain(blocks: Seq<BlockView>, block_index: int, name: Name) -> bool
    decreases block_index,
{
    &&& 0 <= block_index < blocks.len()
    &&& (names_of(blocks[block_index]).contains(name) || (
    blocks[block_index].parent_block_index matches Some(parent) && parent < block_index && bound_in_chain(
        blocks,
        parent as int,
        name,
    )))
}

/// Whether some block binds `name`.
pub open spec fn bound_anywhere(blocks: Seq<BlockView>, name: Name) -> bool {
    exists|j: int| 0 <= j < blocks.len() && (#[trigger] names_of(blocks[j])).contains(name)
}

/// Whether `name` can be read in block `block_index`: the block or a block
/// around it binds the name, or no block at all.
pub open spec fn in_scope(blocks: Seq<BlockView>, block_index: int, name: Name) -> bool {
    bound_in_chain(blocks, block_index, name) || !bound_anywhere(blocks, name)
}

/// Whether `name` stands for some name in scope.
pub open spec fn known(substitution: Seq<(Name, Name)>, name: Name) -> bool {
    exists|i: int| 0 <= i < substitution.len() && (#[trigger] substitution[i]).1 == name
}

/// Whether the blocks of `before` are still there in `after`, with their
/// parents and with every name that they bound.
pub open spec fn keeps_names(before: Seq<BlockView>, after: Seq<BlockView>) -> bool {
    &&& before.len() <= after.len()
    &&& forall|j: int|
        #![trigger after[j]]
        0 <= j < before.len() ==> {
            &&& after[j].parent_block_index == before[j].parent_block_index
            &&& forall|name: Name|
                names_of(before[j]).contains(name) ==> #[trigger] names_of(after[j]).contains(name)
        }
}

/// Whether every name that a block of `after` binds was bound by the same
/// block of `before` or was generated at `limit` or later.
pub open spec fn binds_only_young(before: Seq<BlockView>, after: Seq<BlockView>, limit: int) -> bool {
    forall|j: int, name: Name|
        0 <= j < after.len() && (#[trigger] names_of(after[j]).contains(name)) ==> (j < before.len()
            && names_of(before[j]).contains(name)) || generation(name) >= limit
}

/// How the names bound in a function grow while the build goes on.
pub open spec fn names_grow(before: Seq<BlockView>, after: Seq<BlockView>, limit: int) -> bool {
    keeps_names(before, after) && binds_only_young(before, after, limit)
}

/// Nothing has changed: the names have grown.
pub proof fn lemma_names_grow_reflexive(blocks: Seq<BlockView>, limit: int)
    ensures
        names_grow(blocks, blocks, limit),
{
}

/// Growth after growth is growth.
pub proof fn lemma_names_grow_composes(
    first: Seq<BlockView>,
    second: Seq<BlockView>,
    third: Seq<BlockView>,
    first_limit: int,
    second_limit: int,
)
    requires
        names_grow(first, second, first_limit),
        names_grow(second, third, second_limit),
        first_limit <= second_limit,
    ensures
        names_grow(first, third, first_limit),
{
    assert forall|j: int| #![trigger third[j]] 0 <= j < first.len() implies {
        &&& third[j].parent_block_index == first[j].parent_block_index
        &&& forall|name: Name| names_of(first[j]).contains(name) ==> #[trigger] names_of(third[j]).contains(name)
    } by {
        assert(second[j].parent_block_index == first[j].parent_block_index);
        assert forall|name: Name| names_of(first[j]).contains(name) implies #[trigger] names_of(
            third[j],
        ).contains(name) by {
            assert(names_of(second[j]).contains(name));
        }
    }
    assert forall|j: int, name: Name|
        0 <= j < third.len() && (#[trigger] names_of(third[j]).contains(name)) implies (j < first.len()
        && names_of(first[j]).contains(name)) || generation(name) >= first_limit by {
        if j < second.len() && names_of(second[j]).contains(name) {
        }
    }
}

/// A name that a block or a block around it bound is still bound there
/// after the names have grown.
pub proof fn lemma_chain_grows(before: Seq<BlockView>, after: Seq<BlockView>, block_index: int, name: Name)
    requires
        keeps_names(before, after),
        bound_in_chain(before, block_index, name),
    ensures
        bound_in_chain(after, block_index, name),
    decreases block_index,
{
    assert(after[block_index].parent_block_index == before[block_index].parent_block_index);
    if names_of(before[block_index]).contains(name) {
        assert(names_of(after[block_index]).contains(name));
    } else {
        let parent = before[block_index].parent_block_index->Some_0;
        lemma_chain_grows(before, after, parent as int, name);
    }
}

/// A name generated before `limit` that could be read in a block can still
/// be read there after the names have grown.
pub proof fn lemma_scope_grows(
    before: Seq<BlockView>,
    after: Seq<BlockView>,
    limit: int,
    block_index: int,
    name: Name,
)
    requires
        names_grow(before, after, limit),
        in_scope(before, block_index, name),
        generation(name) < limit,
    ensures
        in_scope(after, block_index, name),
{
    if bound_in_chain(before, block_index, name) {
        lemma_chain_grows(before, after, block_index, name);
    } else {
        if bound_anywhere(after, name) {
            let j = choose|j: int| 0 <= j < after.len() && (#[trigger] names_of(after[j])).contains(name);
            assert(names_of(after[j]).contains(name));
            assert(j < before.len() && names_of(before[j]).contains(name));
            assert(bound_anywhere(before, name));
        }
    }
}

/// A name generated before `limit` that no block bound is still bound by
/// none after the names have grown.
pub proof fn lemma_unbound_grows(before: Seq<BlockView>, after: Seq<BlockView>, limit: int, name: Name)
    requires
        names_grow(before, after, limit),
        !bound_anywhere(before, name),
        generation(name) < limit,
    ensures
        !bound_anywhere(after, name),
{
    if bound_anywhere(after, name) {
        let j = choose|j: int| 0 <= j < after.len() && (#[trigger] names_of(after[j])).contains(name);
        assert(names_of(after[j]).contains(name));
        assert(j < before.len() && names_of(before[j]).contains(name));
        assert(bound_anywhere(before, name));
    }
}

/// Whether every name that block `block_index` reads can be read there and
/// was generated before `limit`.
pub open spec fn block_scoped(blocks: Seq<BlockView>, block_index: int, limit: int) -> bool {
    forall|i: int, name: Name|
        0 <= i < blocks[block_index].instructions.len() && #[trigger] mentions(
            blocks[block_index].instructions[i],
            name,
        ) ==> in_scope(blocks, block_index, name) && generation(name) < limit
}

/// Whether every name that a function reads can be read where it is read,
/// and every name that it reads or captures was generated before `limit`.
pub open spec fn function_scoped(function: FunctionView, limit: int) -> bool {
    &&& forall|j: int| 0 <= j < function.blocks.len() ==> #[trigger] block_scoped(function.blocks, j, limit)
    &&& function.free_names matches Some(free) ==> forall|i: int|
        0 <= i < free.len() ==> generation(#[trigger] free[i]) < limit
}

/// Whether every function reads names where they can be read, and reads and
/// captures only names generated before `limit`.
pub open spec fn reads_scoped(functions: Seq<FunctionView>, limit: int) -> bool {
    forall|g: int| 0 <= g < functions.len() ==> function_scoped(#[trigger] functions[g], limit)
}

impl NormalizerView {
    /// Whether `name` can be read where the cursor stands.
    pub open spec fn sees(self, name: Name) -> bool {
        match self.current_function_index {
            Some(f) => match self.current_block_index {
                Some(b) => in_scope(self.functions[f as int].blocks, b as int, name),
                None => !bound_anywhere(self.functions[f as int].blocks, name),
            },
            None => true,
        }
    }

    /// Whether every name that stands for a name in scope was generated
    /// before `limit` and can be read where the cursor stands.
    pub open spec fn scopes_seen(self, limit: int) -> bool {
        forall|i: int|
            0 <= i < self.substitution.len() ==> generation((#[trigger] self.substitution[i]).1) < limit
                && self.sees(self.substitution[i].1)
    }

    /// What holds of the scopes in every state of a build: every function
    /// reads names where they can be read, and every name that stands for a
    /// name in scope can be read where the cursor stands.
    pub open spec fn scope_inv(self) -> bool {
        &&& reads_scoped(self.functions, self.var_counter as int)
        &&& self.scopes_seen(self.var_counter as int)
    }

    /// The blocks of the active function.
    pub open spec fn active_blocks(self) -> Seq<BlockView> {
        self.functions[self.function_index()].blocks
    }

    /// Whether instruction `i` of block `j` of the active function has been
    /// emitted since the state `self`.
    pub open spec fn is_later(self, j: int, i: int) -> bool {
        j >= self.active_blocks().len() || (self.current_block_index is Some && j == self.block_index()
            && i >= self.active_blocks()[j].instructions.len())
    }

    /// Whether every name generated before the state `self` that the active
    /// function reads in an instruction emitted since stands for a name in
    /// the scopes of `self`.
    pub open spec fn reads_known(self, after: Seq<BlockView>) -> bool {
        forall|j: int, i: int, name: Name|
            0 <= j < after.len() && 0 <= i < after[j].instructions.len() && self.is_later(j, i)
                && #[trigger] mentions(after[j].instructions[i], name) && generation(name)
                < self.var_counter ==> known(self.substitution, name)
    }
}

/// A fresh name leaves the scopes in order.
pub proof fn lemma_fresh_scope(state: NormalizerView, base: Name)
    requires
        state.scope_inv(),
    ensures
        state.fresh(base) matches Ok((_, after)) ==> after.scope_inv() && reads_scoped(
            after.functions,
            state.var_counter as int,
        ) && after.scopes_seen(state.var_counter as int),
{
    if let Ok((_, after)) = state.fresh(base) {
        assert forall|g: int| 0 <= g < after.functions.len() implies function_scoped(
            #[trigger] after.functions[g],
            after.var_counter as int,
        ) by {
            let function = state.functions[g];
            assert(function_scoped(function, state.var_counter as int));
            assert forall|j: int| 0 <= j < function.blocks.len() implies #[trigger] block_scoped(
                function.blocks,
                j,
                after.var_counter as int,
            ) by {
                assert(block_scoped(function.blocks, j, state.var_counter as int));
            }
        }
        assert forall|i: int| 0 <= i < after.substitution.len() implies generation(
            (#[trigger] after.substitution[i]).1,
        ) < after.var_counter && after.sees(after.substitution[i].1) by {
            assert(state.sees(state.substitution[i].1));
        }
    }
}

/// What an instruction at the end of the active block does to the names
/// that the blocks bind.
pub proof fn lemma_emit_names_grow(state: NormalizerView, instruction: InstructionView, limit: int)
    requires
        state.has_active_block(),
        instruction matches InstructionView::Assignment { name, .. } ==> generation(name) >= limit,
    ensures
        names_grow(state.active_blocks(), state.emit(instruction).active_blocks(), limit),
        names_of(state.emit(instruction).active_blocks()[state.block_index()]) == (match instruction {
            InstructionView::Assignment { name, .. } => names_of(
                state.active_blocks()[state.block_index()],
            ).push(name),
            _ => names_of(state.active_blocks()[state.block_index()]),
        }),
        forall|j: int|
            0 <= j < state.active_blocks().len() && j != state.block_index() ==> #[trigger] state.emit(
                instruction,
            ).active_blocks()[j] == state.active_blocks()[j],
        state.emit(instruction).active_blocks().len() == state.active_blocks().len(),
{
    let before = state.active_blocks();
    let after = state.emit(instruction).active_blocks();
    let b = state.block_index();
    lemma_assigned_names_push(before[b].instructions, instruction);
    assert(after[b].instructions == before[b].instructions.push(instruction));
    assert forall|j: int| #![trigger after[j]] 0 <= j < before.len() implies {
        &&& after[j].parent_block_index == before[j].parent_block_index
        &&& forall|name: Name| names_of(before[j]).contains(name) ==> #[trigger] names_of(after[j]).contains(name)
    } by {
        if j == b {
            assert forall|name: Name| names_of(before[j]).contains(name) implies #[trigger] names_of(
                after[j],
            ).contains(name) by {
                let i = choose|i: int| 0 <= i < names_of(before[j]).len() && names_of(before[j])[i] == name;
                assert(names_of(after[j])[i] == name);
            }
        }
    }
    assert forall|j: int, name: Name|
        0 <= j < after.len() && (#[trigger] names_of(after[j]).contains(name)) implies (j < before.len()
        && names_of(before[j]).contains(name)) || generation(name) >= limit by {
        if j == b {
            let i = choose|i: int| 0 <= i < names_of(after[j]).len() && names_of(after[j])[i] == name;
            if i < names_of(before[j]).len() {
                assert(names_of(before[j])[i] == name);
            }
        }
    }
}

/// The instructions of the active function after one more has been emitted:
/// those that were there, and the new one at the end of the active block.
pub proof fn lemma_emit_instructions(state: NormalizerView, instruction: InstructionView, j: int, i: int)
    requires
        state.has_active_block(),
        0 <= j < state.active_blocks().len(),
        0 <= i < state.emit(instruction).active_blocks()[j].instructions.len(),
    ensures
        state.emit(instruction).active_blocks()[j].instructions[i] == (if j == state.block_index() && i
            == state.active_blocks()[j].instructions.len() {
            instruction
        } else {
            state.active_blocks()[j].instructions[i]
        }),
        !(j == state.block_index() && i == state.active_blocks()[j].instructions.len()) ==> i
            < state.active_blocks()[j].instructions.len(),
{
}

/// An assignment of the name generated last, whose definition reads only
/// names that can be read at the cursor, leaves the scopes in order.
pub proof fn lemma_emit_assignment_scope(state: NormalizerView, name: Name, definition: DefinitionView)
    requires
        state.has_active_block(),
        state.var_counter >= 1,
        reads_scoped(state.functions, state.var_counter - 1),
        state.scopes_seen(state.var_counter - 1),
        generation(name) == state.var_counter - 1,
        forall|read: Name|
            definition_mentions(definition, read) ==> generation(read) < state.var_counter - 1 && state.sees(
                read,
            ),
    ensures
        state.emit(InstructionView::Assignment { name, definition }).scope_inv(),
        state.emit(InstructionView::Assignment { name, definition }).sees(name),
{
    let instruction = InstructionView::Assignment { name, definition };
    let after = state.emit(instruction);
    let f = state.function_index();
    let b = state.block_index();
    let limit = state.var_counter - 1;
    let before_blocks = state.active_blocks();
    let after_blocks = after.active_blocks();
    lemma_emit_names_grow(state, instruction, limit);
    assert(names_of(after_blocks[b]).last() == name);
    assert(names_of(after_blocks[b]).contains(name));
    assert forall|g: int| 0 <= g < after.functions.len() implies function_scoped(
        #[trigger] after.functions[g],
        after.var_counter as int,
    ) by {
        assert(function_scoped(state.functions[g], limit));
        if g == f {
            assert forall|j: int| 0 <= j < after_blocks.len() implies #[trigger] block_scoped(
                after_blocks,
                j,
                after.var_counter as int,
            ) by {
                assert(block_scoped(before_blocks, j, limit));
                assert forall|i: int, read: Name|
                    0 <= i < after_blocks[j].instructions.len() && #[trigger] mentions(
                        after_blocks[j].instructions[i],
                        read,
                    ) implies in_scope(after_blocks, j, read) && generation(read) < after.var_counter by {
                    lemma_emit_instructions(state, instruction, j, i);
                    if j == b && i == before_blocks[j].instructions.len() {
                        assert(definition_mentions(definition, read));
                        assert(state.sees(read));
                    } else {
                        assert(mentions(before_blocks[j].instructions[i], read));
                    }
                    lemma_scope_grows(before_blocks, after_blocks, limit, j, read);
                }
            }
        } else {
            let function = state.functions[g];
            assert forall|j: int| 0 <= j < function.blocks.len() implies #[trigger] block_scoped(
                function.blocks,
                j,
                after.var_counter as int,
            ) by {
                assert(block_scoped(function.blocks, j, limit));
            }
        }
    }
    assert forall|i: int| 0 <= i < after.substitution.len() implies generation(
        (#[trigger] after.substitution[i]).1,
    ) < after.var_counter && after.sees(after.substitution[i].1) by {
        assert(state.sees(state.substitution[i].1));
        lemma_scope_grows(before_blocks, after_blocks, limit, b, state.substitution[i].1);
    }
}

/// An exit at the end of the active block, whose result can be read at the
/// cursor, leaves in order what the functions read.
pub proof fn lemma_emit_exit_scope(state: NormalizerView, result: Name)
    requires
        state.has_active_block(),
        reads_scoped(state.functions, state.var_counter as int),
        generation(result) < state.var_counter,
        state.sees(result),
    ensures
        reads_scoped(state.emit(InstructionView::ExitBlock(result)).functions, state.var_counter as int),
{
    let instruction = InstructionView::ExitBlock(result);
    let after = state.emit(instruction);
    let f = state.function_index();
    let b = state.block_index();
    let limit = state.var_counter as int;
    let before_blocks = state.active_blocks();
    let after_blocks = after.active_blocks();
    lemma_emit_names_grow(state, instruction, limit);
    assert forall|g: int| 0 <= g < after.functions.len() implies function_scoped(
        #[trigger] after.functions[g],
        limit,
    ) by {
        assert(function_scoped(state.functions[g], limit));
        if g == f {
            assert forall|j: int| 0 <= j < after_blocks.len() implies #[trigger] block_scoped(
                after_blocks,
                j,
                limit,
            ) by {
                assert(block_scoped(before_blocks, j, limit));
                assert forall|i: int, read: Name|
                    0 <= i < after_blocks[j].instructions.len() && #[trigger] mentions(
                        after_blocks[j].instructions[i],
                        read,
                    ) implies in_scope(after_blocks, j, read) && generation(read) < limit by {
                    lemma_emit_instructions(state, instruction, j, i);
                    if j == b && i == before_blocks[j].instructions.len() {
                        assert(read == result);
                    } else {
                        assert(mentions(before_blocks[j].instructions[i], read));
                    }
                    lemma_scope_grows(before_blocks, after_blocks, limit, j, read);
                }
            }
        }
    }
}

impl NormalizerView {
    /// What a step of the build does to the scopes: they are in order, the
    /// names bound in the active function have grown, and the names
    /// generated before that the function reads in what was emitted stand
    /// for names in scope.
    pub open spec fn scope_step(self, after: NormalizerView) -> bool {
        &&& after.scope_inv()
        &&& names_grow(self.active_blocks(), after.active_blocks(), self.var_counter as int)
        &&& self.reads_known(after.active_blocks())
    }

    /// What holds of a name that a step of the build has yielded: it was
    /// generated before the counter's value, it can be read at the cursor,
    /// and if it was generated before the step it stands for a name in
    /// scope.
    pub open spec fn yields_name(self, after: NormalizerView, name: Name) -> bool {
        &&& generation(name) < after.var_counter
        &&& after.sees(name)
        &&& generation(name) < self.var_counter ==> known(self.substitution, name)
    }
}

/// A name that a step has yielded is still good after a further step at the
/// same cursor.
pub proof fn lemma_name_persists(
    origin: NormalizerView,
    middle: NormalizerView,
    after: NormalizerView,
    name: Name,
)
    requires
        origin.yields_name(middle, name),
        middle.current_block_index is Some,
        middle.current_function_index is Some,
        after.resumes(middle),
        names_grow(middle.active_blocks(), after.active_blocks(), middle.var_counter as int),
    ensures
        origin.yields_name(after, name),
{
    lemma_scope_grows(
        middle.active_blocks(),
        after.active_blocks(),
        middle.var_counter as int,
        middle.block_index(),
        name,
    );
}

/// What has grown and been read over a step and a further step at the same
/// cursor has grown and been read over both, where every name generated
/// before the first step that stands for a name in scope at the second did
/// so at the first.
pub proof fn lemma_steps_compose(first: NormalizerView, second: NormalizerView, third: NormalizerView)
    requires
        first.has_active_function(),
        names_grow(first.active_blocks(), second.active_blocks(), first.var_counter as int),
        first.reads_known(second.active_blocks()),
        names_grow(second.active_blocks(), third.active_blocks(), second.var_counter as int),
        second.reads_known(third.active_blocks()),
        second.resumes(first),
        third.resumes(second),
        forall|name: Name|
            known(second.substitution, name) && generation(name) < first.var_counter ==> known(
                first.substitution,
                name,
            ),
        first.active_blocks().len() <= second.active_blocks().len(),
        forall|j: int|
            0 <= j < second.active_blocks().len() && !(second.current_block_index is Some && j
                == second.block_index()) ==> #[trigger] third.active_blocks()[j]
                == second.active_blocks()[j],
        second.current_block_index is Some ==> second.block_index() < second.active_blocks().len()
            && block_grown(
            second.active_blocks()[second.block_index()],
            third.active_blocks()[second.block_index()],
        ),
    ensures
        names_grow(first.active_blocks(), third.active_blocks(), first.var_counter as int),
        first.reads_known(third.active_blocks()),
{
    let a = first.active_blocks();
    let b = second.active_blocks();
    let c = third.active_blocks();
    lemma_names_grow_composes(a, b, c, first.var_counter as int, second.var_counter as int);
    assert forall|j: int, i: int, name: Name|
        0 <= j < c.len() && 0 <= i < c[j].instructions.len() && first.is_later(j, i) && #[trigger] mentions(
            c[j].instructions[i],
            name,
        ) && generation(name) < first.var_counter implies known(first.substitution, name) by {
        if second.is_later(j, i) {
            assert(known(second.substitution, name));
        } else {
            assert(j < b.len());
            if second.current_block_index is Some && j == second.block_index() {
                assert(i < b[j].instructions.len());
                assert(c[j].instructions[i] == b[j].instructions[i]);
            } else {
                assert(c[j] == b[j]);
            }
            assert(mentions(b[j].instructions[i], name));
        }
    }
}

/// A step after a step, at the same cursor and with the same scopes, is a
/// step.
pub proof fn lemma_scope_step_composes(first: NormalizerView, second: NormalizerView, third: NormalizerView)
    requires
        first.has_active_block(),
        first.scope_step(second),
        second.scope_step(third),
        first.grows_to(second),
        second.grows_to(third),
        second.substitution == first.substitution,
    ensures
        first.scope_step(third),
{
    let f = first.function_index();
    assert forall|j: int|
        0 <= j < second.active_blocks().len() && !(second.current_block_index is Some && j
            == second.block_index()) implies #[trigger] third.active_blocks()[j]
        == second.active_blocks()[j] by {
        assert(third.functions[f].blocks[j] == second.functions[f].blocks[j]);
    }
    lemma_steps_compose(first, second, third);
}

/// A new block with its entry, made the active block, leaves the scopes in
/// order.
pub proof fn lemma_open_block_scope(state: NormalizerView)
    requires
        state.has_active_function(),
        state.current_block_index matches Some(b) ==> b < state.active_blocks().len(),
        state.scope_inv(),
        state.active_blocks().len() < usize::MAX,
    ensures
        ({
            let opened = state.with_functions(
                state.functions.update(
                    state.function_index(),
                    state.functions[state.function_index()].open_block(state.current_block_index),
                ),
            ).with_cursor(state.current_function_index, Some(state.active_blocks().len() as usize)).emit(
                InstructionView::EnterBlock,
            );
            &&& opened.scope_inv()
            &&& names_grow(state.active_blocks(), opened.active_blocks(), state.var_counter as int)
            &&& opened.active_blocks().len() == state.active_blocks().len() + 1
            &&& opened.active_blocks()[state.active_blocks().len() as int].instructions
                == seq![InstructionView::EnterBlock]
            &&& forall|j: int|
                0 <= j < state.active_blocks().len() ==> #[trigger] opened.active_blocks()[j]
                    == state.active_blocks()[j]
        }),
{
    let f = state.function_index();
    let new = state.active_blocks().len() as int;
    let limit = state.var_counter as int;
    let added = state.with_functions(
        state.functions.update(f, state.functions[f].open_block(state.current_block_index)),
    ).with_cursor(state.current_function_index, Some(new as usize));
    let opened = added.emit(InstructionView::EnterBlock);
    let before = state.active_blocks();
    let after = opened.active_blocks();
    assert(after[new].instructions =~= seq![InstructionView::EnterBlock]);
    lemma_assigned_names_push(Seq::empty(), InstructionView::EnterBlock);
    assert(after[new].instructions =~= Seq::<InstructionView>::empty().push(InstructionView::EnterBlock));
    assert(names_of(after[new]) =~= Seq::<Name>::empty());
    assert forall|j: int| 0 <= j < before.len() implies #[trigger] after[j] == before[j] by {
        assert(added.active_blocks()[j] == before[j]);
    }
    assert(names_grow(before, after, limit)) by {
        assert forall|j: int, name: Name|
            0 <= j < after.len() && (#[trigger] names_of(after[j]).contains(name)) implies (j < before.len()
            && names_of(before[j]).contains(name)) || generation(name) >= limit by {
            if j < new {
                assert(after[j] == before[j]);
            }
        }
        assert forall|j: int| #![trigger after[j]] 0 <= j < before.len() implies {
            &&& after[j].parent_block_index == before[j].parent_block_index
            &&& forall|name: Name|
                names_of(before[j]).contains(name) ==> #[trigger] names_of(after[j]).contains(name)
        } by {
            assert(after[j] == before[j]);
        }
    }
    assert forall|g: int| 0 <= g < opened.functions.len() implies function_scoped(
        #[trigger] opened.functions[g],
        limit,
    ) by {
        assert(function_scoped(state.functions[g], limit));
        if g == f {
            assert forall|j: int| 0 <= j < after.len() implies #[trigger] block_scoped(after, j, limit) by {
                assert forall|i: int, read: Name|
                    0 <= i < after[j].instructions.len() && #[trigger] mentions(after[j].instructions[i], read) implies in_scope(
                    after,
                    j,
                    read,
                ) && generation(read) < limit by {
                    if j < new {
                        assert(after[j] == before[j]);
                        assert(block_scoped(before, j, limit));
                        assert(mentions(before[j].instructions[i], read));
                        lemma_scope_grows(before, after, limit, j, read);
                    }
                }
            }
        }
    }
    assert forall|i: int| 0 <= i < opened.substitution.len() implies generation(
        (#[trigger] opened.substitution[i]).1,
    ) < limit && opened.sees(opened.substitution[i].1) by {
        let name = state.substitution[i].1;
        assert(state.sees(name));
        assert(after[new].parent_block_index == state.current_block_index);
        match state.current_block_index {
            Some(b) => {
                lemma_scope_grows(before, after, limit, b as int, name);
            },
            None => {
                lemma_unbound_grows(before, after, limit, name);
            },
        }
    }
}

/// With the cursor back where it was before a step that left the block at
/// the cursor alone, the scopes are in order.
pub proof fn lemma_cursor_back_scope(state: NormalizerView, done: NormalizerView)
    requires
        state.has_active_function(),
        state.current_block_index matches Some(b) ==> b < state.active_blocks().len(),
        state.scope_inv(),
        done.current_function_index == state.current_function_index,
        done.substitution == state.substitution,
        done.var_counter >= state.var_counter,
        reads_scoped(done.functions, done.var_counter as int),
        names_grow(state.active_blocks(), done.active_blocks(), state.var_counter as int),
    ensures
        done.with_cursor(state.current_function_index, state.current_block_index).scope_inv(),
{
    let after = done.with_cursor(state.current_function_index, state.current_block_index);
    assert forall|i: int| 0 <= i < after.substitution.len() implies generation(
        (#[trigger] after.substitution[i]).1,
    ) < after.var_counter && after.sees(after.substitution[i].1) by {
        let name = state.substitution[i].1;
        assert(state.sees(name));
        match state.current_block_index {
            Some(b) => {
                lemma_scope_grows(
                    state.active_blocks(),
                    after.active_blocks(),
                    state.var_counter as int,
                    b as int,
                    name,
                );
            },
            None => {
                lemma_unbound_grows(
                    state.active_blocks(),
                    after.active_blocks(),
                    state.var_counter as int,
                    name,
                );
            },
        }
    }
}

} // verus!
