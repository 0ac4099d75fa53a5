//! The blocks of a normalized program: every block but the entry is the
//! branch of a conditional in its parent.

use vstd::prelude::*;
use crate::ir_let::invariants::{
    block_grown, lemma_block_growth_is_growth, lemma_emit_assignment, lemma_fresh,
    lemma_fresh_each, lemma_growth_composes, lemma_normal_block, lemma_normal_function_body,
    lemma_normal_rhs, lemma_normal_var, lemma_normal_vars, lemma_open_block, lemma_start_function,
};
use crate::ir_let::let_expr::{
    BlockView, DefinitionView, FunctionView, InstructionView, ProgramView,
};
use crate::ir_let::normal_form::{
    NormalizerView, generated_base, normal_block, normal_function_body, normal_program, normal_rhs,
    normal_var, normal_vars, toplevel_name,
};
use crate::syntax::{Expr, Name, views};

verus! {

/// Whether a definition is a conditional with block `j` as a branch.
pub open spec fn definition_targets(definition: DefinitionView, j: int) -> bool {
    definition matches DefinitionView::If { branch_success, branch_failure, .. } && (
    branch_success.block_index == j || branch_failure.block_index == j)
}

/// Whether an instruction assigns a conditional with block `j` as a branch.
pub open spec fn branches_to(instruction: InstructionView, j: int) -> bool {
    instruction matches InstructionView::Assignment { definition, .. } && definition_targets(definition, j)
}

/// Whether block `j` is the branch of a conditional in its parent, which
/// comes before it.
pub open spec fn targeted(blocks: Seq<BlockView>, j: int) -> bool {
    blocks[j].parent_block_index matches Some(parent) && parent < j && exists|i: int|
        0 <= i < blocks[parent as int].instructions.len() && branches_to(
            #[trigger] blocks[parent as int].instructions[i],
            j,
        )
}

/// Whether every block but the first has a parent before it, and is a
/// branch of a conditional in its parent if the parent is closed.
pub open spec fn blocks_reached(blocks: Seq<BlockView>) -> bool {
    forall|j: int|
        #![trigger blocks[j]]
        0 < j < blocks.len() ==> (blocks[j].parent_block_index matches Some(parent) && parent < j && (
        blocks[parent as int].is_closed() ==> targeted(blocks, j)))
}

/// Whether the blocks of every function are reached.
pub open spec fn functions_reached(functions: Seq<FunctionView>) -> bool {
    forall|g: int| 0 <= g < functions.len() ==> blocks_reached((#[trigger] functions[g]).blocks)
}

impl NormalizerView {
    /// What holds of the blocks in every state of a build.
    pub open spec fn reach_inv(self) -> bool {
        functions_reached(self.functions)
    }

    /// What a step of the build into the active block does to the blocks:
    /// they are reached, the children of the active block are targeted, by
    /// one of its conditionals or by `pending`, and the new blocks nest into
    /// the active block.
    pub open spec fn reach_step(self, after: NormalizerView, pending: DefinitionView) -> bool {
        &&& after.reach_inv()
        &&& after.children_targeted(pending)
        &&& self.nests_into(after)
    }

    /// Whether every block whose parent is the active block is a branch of
    /// a conditional in it, or of `pending`.
    pub open spec fn children_targeted(self, pending: DefinitionView) -> bool {
        let blocks = self.functions[self.function_index()].blocks;
        forall|j: int|
            #![trigger blocks[j]]
            0 <= j < blocks.len() && blocks[j].parent_block_index == self.current_block_index ==> targeted(
                blocks,
                j,
            ) || definition_targets(pending, j)
    }

    /// Whether every block of `after` that `self` does not have has as its
    /// parent the active block or another such block.
    pub open spec fn nests_into(self, after: NormalizerView) -> bool {
        let before = self.functions[self.function_index()].blocks;
        let blocks = after.functions[self.function_index()].blocks;
        forall|j: int|
            #![trigger blocks[j]]
            before.len() <= j < blocks.len() ==> (blocks[j].parent_block_index
                == self.current_block_index || (blocks[j].parent_block_index matches Some(parent) && parent
                >= before.len()))
    }
}

/// A definition that is no conditional: nothing is pending.
pub open spec fn nothing_pending() -> DefinitionView {
    DefinitionView::Tuple { args: Seq::empty() }
}

/// A block that is a branch of a conditional in its parent stays one while
/// the function grows.
pub proof fn lemma_targeted_grows(before: Seq<BlockView>, after: Seq<BlockView>, j: int)
    requires
        0 <= j < before.len() <= after.len(),
        targeted(before, j),
        after[j].parent_block_index == before[j].parent_block_index,
        block_grown(
            before[before[j].parent_block_index->Some_0 as int],
            after[before[j].parent_block_index->Some_0 as int],
        ),
    ensures
        targeted(after, j),
{
    let parent = before[j].parent_block_index->Some_0 as int;
    let i = choose|i: int|
        0 <= i < before[parent].instructions.len() && branches_to(#[trigger] before[parent].instructions[i], j);
    assert(after[parent].instructions[i] == before[parent].instructions[i]);
    assert(branches_to(after[parent].instructions[i], j));
}

/// An instruction that is no exit, at the end of the active block, keeps
/// the blocks reached; and the children of the active block are targeted
/// with it, if they were with its definition pending.
pub proof fn lemma_emit_reach(state: NormalizerView, instruction: InstructionView, pending: DefinitionView)
    requires
        state.inv(),
        state.current_block_index is Some,
        state.reach_inv(),
        state.children_targeted(pending),
        !(instruction is ExitBlock),
        instruction matches InstructionView::Assignment { definition, .. } ==> definition == pending,
        instruction is EnterBlock ==> pending == nothing_pending(),
    ensures
        state.emit(instruction).reach_inv(),
        instruction is Assignment ==> state.emit(instruction).children_targeted(nothing_pending()),
{
    let after = state.emit(instruction);
    let f = state.function_index();
    let b = state.block_index();
    let before_blocks = state.functions[f].blocks;
    let after_blocks = after.functions[f].blocks;
    assert(after_blocks[b].instructions == before_blocks[b].instructions.push(instruction));
    assert(!after_blocks[b].is_closed());
    assert forall|j: int| 0 <= j < before_blocks.len() implies block_grown(
        before_blocks[j],
        #[trigger] after_blocks[j],
    ) by {}
    assert forall|g: int| 0 <= g < after.functions.len() implies blocks_reached(
        (#[trigger] after.functions[g]).blocks,
    ) by {
        assert(blocks_reached(state.functions[g].blocks));
        if g == f {
            assert forall|j: int| #![trigger after_blocks[j]] 0 < j < after_blocks.len() implies (
            after_blocks[j].parent_block_index matches Some(parent) && parent < j && (
            after_blocks[parent as int].is_closed() ==> targeted(after_blocks, j))) by {
                assert(before_blocks[j].parent_block_index == after_blocks[j].parent_block_index);
                let parent = before_blocks[j].parent_block_index->Some_0 as int;
                if after_blocks[parent].is_closed() {
                    assert(after_blocks[parent] == before_blocks[parent]);
                    assert(block_grown(before_blocks[parent], after_blocks[parent]));
                    lemma_targeted_grows(before_blocks, after_blocks, j);
                }
            }
        }
    }
    if instruction is Assignment {
        assert forall|j: int|
            #![trigger after_blocks[j]]
            0 <= j < after_blocks.len() && after_blocks[j].parent_block_index
                == after.current_block_index implies targeted(after_blocks, j) || definition_targets(
            nothing_pending(),
            j,
        ) by {
            assert(before_blocks[j].parent_block_index == after_blocks[j].parent_block_index);
            assert(crate::ir_let::well_formed::function_ok(state.functions, f));
            assert(crate::ir_let::well_formed::block_ok(state.functions, f, j));
            if targeted(before_blocks, j) {
                assert(block_grown(before_blocks[b], after_blocks[b]));
                lemma_targeted_grows(before_blocks, after_blocks, j);
            } else {
                assert(definition_targets(pending, j));
                let last = before_blocks[b].instructions.len() as int;
                assert(after_blocks[b].instructions[last] == instruction);
                assert(branches_to(after_blocks[b].instructions[last], j));
            }
        }
    }
}

/// New blocks into new blocks: nesting composes.
pub proof fn lemma_nests_compose(first: NormalizerView, second: NormalizerView, third: NormalizerView)
    requires
        first.has_active_block(),
        first.grows_to(second),
        second.grows_to(third),
        first.nests_into(second),
        second.nests_into(third),
    ensures
        first.nests_into(third),
{
    let f = first.function_index();
    let a = first.functions[f].blocks;
    let b = second.functions[f].blocks;
    let c = third.functions[f].blocks;
    assert forall|j: int| #![trigger c[j]] a.len() <= j < c.len() implies (c[j].parent_block_index
        == first.current_block_index || (c[j].parent_block_index matches Some(parent) && parent >= a.len())) by {
        if j < b.len() {
            assert(c[j] == b[j]);
        }
    }
}

/// A new block with its entry, made the active block, keeps the blocks
/// reached; it has no children yet.
pub proof fn lemma_open_block_reach(state: NormalizerView)
    requires
        state.inv(),
        state.reach_inv(),
        state.current_function_index is Some,
        state.current_block_index is None ==> state.functions[state.function_index()].blocks.len() == 0,
        state.functions[state.function_index()].blocks.len() < usize::MAX,
    ensures
        ({
            let opened = state.with_functions(
                state.functions.update(
                    state.function_index(),
                    state.functions[state.function_index()].open_block(state.current_block_index),
                ),
            ).with_cursor(
                state.current_function_index,
                Some(state.functions[state.function_index()].blocks.len() as usize),
            ).emit(InstructionView::EnterBlock);
            opened.reach_inv() && opened.children_targeted(nothing_pending())
        }),
{
    let f = state.function_index();
    let new = state.functions[f].blocks.len() as int;
    let added = state.with_functions(
        state.functions.update(f, state.functions[f].open_block(state.current_block_index)),
    ).with_cursor(state.current_function_index, Some(new as usize));
    let opened = added.emit(InstructionView::EnterBlock);
    let before = state.functions[f].blocks;
    let after = opened.functions[f].blocks;
    assert(crate::ir_let::well_formed::function_ok(state.functions, f));
    assert forall|j: int| 0 <= j < new implies #[trigger] after[j] == before[j] by {
        assert(added.functions[f].blocks[j] == before[j]);
    }
    assert(after[new].parent_block_index == state.current_block_index);
    assert forall|g: int| 0 <= g < opened.functions.len() implies blocks_reached(
        (#[trigger] opened.functions[g]).blocks,
    ) by {
        assert(blocks_reached(state.functions[g].blocks));
        if g == f {
            assert forall|j: int| #![trigger after[j]] 0 < j < after.len() implies (
            after[j].parent_block_index matches Some(parent) && parent < j && (after[parent as int].is_closed()
                ==> targeted(after, j))) by {
                if j < new {
                    assert(after[j] == before[j]);
                    let parent = before[j].parent_block_index->Some_0 as int;
                    assert(after[parent] == before[parent]);
                    if after[parent].is_closed() {
                        lemma_targeted_grows(before, after, j);
                    }
                }
            }
        }
    }
    assert forall|j: int|
        #![trigger after[j]]
        0 <= j < after.len() && after[j].parent_block_index == opened.current_block_index implies targeted(
        after,
        j,
    ) || definition_targets(nothing_pending(), j) by {
        if j < new {
            assert(after[j] == before[j]);
            assert(crate::ir_let::well_formed::block_ok(state.functions, f, j));
        }
    }
}

/// The exit at the end of the active block, all of whose children are
/// targeted, keeps the blocks reached when the cursor goes back.
pub proof fn lemma_close_block_reach(computed: NormalizerView, result: Name)
    requires
        computed.inv(),
        computed.current_block_index is Some,
        computed.reach_inv(),
        computed.children_targeted(nothing_pending()),
    ensures
        functions_reached(computed.emit(InstructionView::ExitBlock(result)).functions),
{
    let instruction = InstructionView::ExitBlock(result);
    let after = computed.emit(instruction);
    let f = computed.function_index();
    let b = computed.block_index();
    let before_blocks = computed.functions[f].blocks;
    let after_blocks = after.functions[f].blocks;
    assert(after_blocks[b].instructions == before_blocks[b].instructions.push(instruction));
    assert forall|j: int| 0 <= j < before_blocks.len() implies block_grown(
        before_blocks[j],
        #[trigger] after_blocks[j],
    ) by {}
    assert forall|g: int| 0 <= g < after.functions.len() implies blocks_reached(
        (#[trigger] after.functions[g]).blocks,
    ) by {
        assert(blocks_reached(computed.functions[g].blocks));
        if g == f {
            assert forall|j: int| #![trigger after_blocks[j]] 0 < j < after_blocks.len() implies (
            after_blocks[j].parent_block_index matches Some(parent) && parent < j && (
            after_blocks[parent as int].is_closed() ==> targeted(after_blocks, j))) by {
                assert(before_blocks[j].parent_block_index == after_blocks[j].parent_block_index);
                let parent = before_blocks[j].parent_block_index->Some_0 as int;
                if after_blocks[parent].is_closed() {
                    if parent == b {
                        assert(before_blocks[j].parent_block_index == computed.current_block_index);
                        assert(targeted(before_blocks, j) || definition_targets(nothing_pending(), j));
                    } else {
                        assert(after_blocks[parent] == before_blocks[parent]);
                    }
                    lemma_targeted_grows(before_blocks, after_blocks, j);
                }
            }
        }
    }
}

/// What normalizing an expression to a name does to the blocks.
pub proof fn lemma_var_reach(e: Expr, state: NormalizerView)
    requires
        state.inv(),
        state.reach_inv(),
        state.current_block_index is Some,
        state.children_targeted(nothing_pending()),
    ensures
        normal_var(e, state) matches Ok((_, after)) ==> state.reach_step(after, nothing_pending()),
    decreases e, 2nat,
{
    lemma_normal_rhs(e, state);
    lemma_rhs_reach(e, state);
    if let Ok((step, following)) = normal_rhs(e, state) {
        if !(step is Var) {
            lemma_fresh(following, generated_base());
            if let Ok((name, named)) = following.fresh(generated_base()) {
                let instruction = InstructionView::Assignment { name, definition: step };
                lemma_emit_reach(named, instruction, step);
                lemma_emit_assignment(named, name, step);
                let after = named.emit(instruction);
                assert(state.grows_to(named));
                assert(state.nests_into(named));
                assert(named.nests_into(after));
                lemma_nests_compose(state, named, after);
            }
        }
    }
}

/// What normalizing expressions to names, one after the other, does to the
/// blocks.
pub proof fn lemma_vars_reach(es: Seq<Expr>, from: int, state: NormalizerView, done: Seq<Name>)
    requires
        state.inv(),
        state.reach_inv(),
        state.current_block_index is Some,
        state.children_targeted(nothing_pending()),
    ensures
        normal_vars(es, from, state, done) matches Ok((_, after)) ==> state.reach_step(
            after,
            nothing_pending(),
        ),
    decreases es, es.len() - from,
{
    if 0 <= from < es.len() {
        lemma_normal_var(es[from], state);
        lemma_var_reach(es[from], state);
        if let Ok((name, following)) = normal_var(es[from], state) {
            lemma_normal_vars(es, from + 1, following, done.push(name));
            lemma_vars_reach(es, from + 1, following, done.push(name));
            if let Ok((_, after)) = normal_vars(es, from + 1, following, done.push(name)) {
                lemma_nests_compose(state, following, after);
            }
        }
    }
}

/// What normalizing an expression into a new block does to the blocks: they
/// are reached, and the new block is the only new child of the active
/// block.
pub proof fn lemma_block_reach(e: Expr, state: NormalizerView, pending: DefinitionView)
    requires
        state.inv(),
        state.reach_inv(),
        state.current_function_index is Some,
        state.current_block_index is None ==> state.functions[state.function_index()].blocks.len() == 0,
        state.current_block_index is Some ==> state.children_targeted(pending),
    ensures
        normal_block(e, state) matches Ok((address, after)) ==> {
            &&& after.reach_inv()
            &&& state.nests_into(after)
            &&& state.current_block_index is Some ==> forall|j: int|
                #![trigger after.functions[state.function_index()].blocks[j]]
                0 <= j < after.functions[state.function_index()].blocks.len()
                    && after.functions[state.function_index()].blocks[j].parent_block_index
                    == state.current_block_index ==> targeted(
                    after.functions[state.function_index()].blocks,
                    j,
                ) || definition_targets(pending, j) || j == address.block_index
        },
    decreases e, 3nat,
{
    let f = state.function_index();
    let new = state.functions[f].blocks.len() as int;
    let opened = state.with_functions(
        state.functions.update(f, state.functions[f].open_block(state.current_block_index)),
    ).with_cursor(state.current_function_index, Some(new as usize)).emit(InstructionView::EnterBlock);
    if state.functions[f].blocks.len() < usize::MAX {
        lemma_open_block(state);
        lemma_open_block_reach(state);
        lemma_normal_var(e, opened);
        lemma_var_reach(e, opened);
        lemma_normal_block(e, state);
        if let Ok((result, computed)) = normal_var(e, opened) {
            lemma_close_block_reach(computed, result);
            let exited = computed.emit(InstructionView::ExitBlock(result));
            let after = exited.with_cursor(state.current_function_index, state.current_block_index);
            let before = state.functions[f].blocks;
            let blocks = after.functions[f].blocks;
            assert(opened.functions[f].blocks.len() == new + 1);
            assert forall|j: int| #![trigger blocks[j]] before.len() <= j < blocks.len() implies (
            blocks[j].parent_block_index == state.current_block_index || (
            blocks[j].parent_block_index matches Some(parent) && parent >= before.len())) by {
                assert(blocks[j].parent_block_index == computed.functions[f].blocks[j].parent_block_index);
                if j == new {
                    assert(computed.functions[f].blocks[j].parent_block_index
                        == opened.functions[f].blocks[j].parent_block_index);
                }
            }
            if state.current_block_index is Some {
                let b = state.block_index();
                assert(crate::ir_let::well_formed::function_ok(state.functions, f));
                assert forall|j: int|
                    #![trigger blocks[j]]
                    0 <= j < blocks.len() && blocks[j].parent_block_index
                        == state.current_block_index implies targeted(blocks, j) || definition_targets(
                    pending,
                    j,
                ) || j == new by {
                    if j < new {
                        assert(blocks[j] == before[j]);
                        assert(crate::ir_let::well_formed::block_ok(state.functions, f, j));
                        assert(blocks[b] == before[b]);
                        if targeted(before, j) {
                            lemma_targeted_grows(before, blocks, j);
                        }
                    }
                }
            }
        }
    }
}

/// What normalizing an expression into a new function does to the blocks.
pub proof fn lemma_function_body_reach(e: Expr, state: NormalizerView, name: Name, arg_names: Seq<Name>)
    requires
        state.inv(),
        state.reach_inv(),
    ensures
        normal_function_body(e, state, name, arg_names) matches Ok((_, after)) ==> after.reach_inv(),
    decreases e, 4nat,
{
    let h = state.functions.len() as int;
    let started = state.with_functions(
        state.functions.push(FunctionView { name, arg_names, free_names: None, blocks: Seq::empty() }),
    ).with_cursor(Some(h as usize), None);
    if state.functions.len() < usize::MAX {
        lemma_start_function(state, name, arg_names);
        assert forall|g: int| 0 <= g < started.functions.len() implies blocks_reached(
            (#[trigger] started.functions[g]).blocks,
        ) by {
            if g < h {
                assert(started.functions[g] == state.functions[g]);
            }
        }
        lemma_normal_block(e, started);
        lemma_block_reach(e, started, nothing_pending());
        if let Ok((body, built)) = normal_block(e, started) {
            let free_names = crate::ir_let::free_vars::free_names_of(
                built.functions[h].blocks,
                name,
                arg_names,
                body.block_index as int,
            );
            let finished = built.with_functions(
                built.functions.update(h, built.functions[h].with_free_names(free_names)),
            );
            assert forall|g: int| 0 <= g < finished.functions.len() implies blocks_reached(
                (#[trigger] finished.functions[g]).blocks,
            ) by {
                assert(blocks_reached(built.functions[g].blocks));
            }
        }
    }
}

/// What normalizing a function into the active block does to the blocks.
proof fn lemma_fun_reach(e: Expr, state: NormalizerView)
    requires
        state.inv(),
        state.reach_inv(),
        state.current_block_index is Some,
        state.children_targeted(nothing_pending()),
        e is Fun,
    ensures
        normal_rhs(e, state) matches Ok((definition, after)) ==> state.reach_step(after, definition),
    decreases e, 0nat,
{
    let f = state.function_index();
    if let Expr::Fun { name, arg_names, body } = e {
        lemma_normal_rhs(e, state);
        lemma_fresh(state, name@);
        if let Ok((unique_name, named)) = state.fresh(name@) {
            lemma_fresh_each(named, views(arg_names@), arg_names@.len() as int, Seq::empty());
            if let Ok((unique_arg_names, generated)) = named.fresh_each(
                views(arg_names@),
                arg_names@.len() as int,
                Seq::empty(),
            ) {
                let bound = generated.bind_each(views(arg_names@), unique_arg_names).bind(
                    name@,
                    unique_name,
                );
                lemma_normal_function_body(*body, bound, unique_name, unique_arg_names);
                lemma_function_body_reach(*body, bound, unique_name, unique_arg_names);
                if let Ok((function, lifted)) = normal_function_body(
                    *body,
                    bound,
                    unique_name,
                    unique_arg_names,
                ) {
                    let after = lifted.restore(state.substitution.len() as int);
                    assert(after.functions[f] == state.functions[f]);
                }
            }
        }
    }
}

/// What normalizing a call into the active block does to the blocks.
proof fn lemma_call_reach(e: Expr, state: NormalizerView)
    requires
        state.inv(),
        state.reach_inv(),
        state.current_block_index is Some,
        state.children_targeted(nothing_pending()),
        e is Call,
    ensures
        normal_rhs(e, state) matches Ok((definition, after)) ==> state.reach_step(after, definition),
    decreases e, 0nat,
{
    if let Expr::Call { func, args } = e {
        lemma_normal_var(*func, state);
        lemma_var_reach(*func, state);
        if let Ok((_, after_func)) = normal_var(*func, state) {
            lemma_normal_vars(args@, 0, after_func, Seq::empty());
            lemma_vars_reach(args@, 0, after_func, Seq::empty());
            if let Ok((_, after_args)) = normal_vars(args@, 0, after_func, Seq::empty()) {
                lemma_nests_compose(state, after_func, after_args);
            }
        }
    }
}

/// What normalizing a binary operation into the active block does to the
/// blocks.
proof fn lemma_binop_reach(e: Expr, state: NormalizerView)
    requires
        state.inv(),
        state.reach_inv(),
        state.current_block_index is Some,
        state.children_targeted(nothing_pending()),
        e is BinOp,
    ensures
        normal_rhs(e, state) matches Ok((definition, after)) ==> state.reach_step(after, definition),
    decreases e, 0nat,
{
    if let Expr::BinOp { op, lhs, rhs } = e {
        lemma_normal_var(*lhs, state);
        lemma_var_reach(*lhs, state);
        if let Ok((_, after_lhs)) = normal_var(*lhs, state) {
            lemma_normal_var(*rhs, after_lhs);
            lemma_var_reach(*rhs, after_lhs);
            if let Ok((_, after_rhs)) = normal_var(*rhs, after_lhs) {
                lemma_nests_compose(state, after_lhs, after_rhs);
            }
        }
    }
}

/// What normalizing a field assignment into the active block does to the
/// blocks.
proof fn lemma_set_field_reach(e: Expr, state: NormalizerView)
    requires
        state.inv(),
        state.reach_inv(),
        state.current_block_index is Some,
        state.children_targeted(nothing_pending()),
        e is SetField,
    ensures
        normal_rhs(e, state) matches Ok((definition, after)) ==> state.reach_step(after, definition),
    decreases e, 0nat,
{
    if let Expr::SetField { tuple, index, new_expr } = e {
        lemma_normal_var(*tuple, state);
        lemma_var_reach(*tuple, state);
        if let Ok((_, after_tuple)) = normal_var(*tuple, state) {
            lemma_normal_var(*new_expr, after_tuple);
            lemma_var_reach(*new_expr, after_tuple);
            if let Ok((_, after_new)) = normal_var(*new_expr, after_tuple) {
                lemma_nests_compose(state, after_tuple, after_new);
            }
        }
    }
}

/// What normalizing a tuple into the active block does to the blocks.
proof fn lemma_tuple_reach(e: Expr, state: NormalizerView)
    requires
        state.inv(),
        state.reach_inv(),
        state.current_block_index is Some,
        state.children_targeted(nothing_pending()),
        e is Tuple,
    ensures
        normal_rhs(e, state) matches Ok((definition, after)) ==> state.reach_step(after, definition),
    decreases e, 0nat,
{
    if let Expr::Tuple { values } = e {
        lemma_vars_reach(values@, 0, state, Seq::empty());
    }
}

/// What normalizing a let-binding into the active block does to the blocks.
proof fn lemma_let_reach(e: Expr, state: NormalizerView)
    requires
        state.inv(),
        state.reach_inv(),
        state.current_block_index is Some,
        state.children_targeted(nothing_pending()),
        e is Let,
    ensures
        normal_rhs(e, state) matches Ok((definition, after)) ==> state.reach_step(after, definition),
    decreases e, 0nat,
{
    if let Expr::Let { name, definition, body } = e {
        lemma_normal_rhs(*definition, state);
        lemma_rhs_reach(*definition, state);
        if let Ok((defined, after_definition)) = normal_rhs(*definition, state) {
            lemma_fresh(after_definition, name@);
            if let Ok((unique_name, named)) = after_definition.fresh(name@) {
                let instruction = InstructionView::Assignment { name: unique_name, definition: defined };
                lemma_emit_reach(named, instruction, defined);
                lemma_emit_assignment(named, unique_name, defined);
                let emitted = named.emit(instruction);
                let bound = emitted.bind(name@, unique_name);
                lemma_normal_rhs(*body, bound);
                lemma_rhs_reach(*body, bound);
                if let Ok((result, after_body)) = normal_rhs(*body, bound) {
                    let after = after_body.restore(state.substitution.len() as int);
                    assert(state.grows_to(named));
                    assert(state.nests_into(named));
                    assert(named.nests_into(emitted));
                    lemma_nests_compose(state, named, emitted);
                    lemma_growth_composes(state, named, emitted);
                    assert(emitted.grows_to(after));
                    assert(emitted.nests_into(after));
                    lemma_nests_compose(state, emitted, after);
                }
            }
        }
    }
}

/// What normalizing a conditional into the active block does to the blocks.
proof fn lemma_if_reach(e: Expr, state: NormalizerView)
    requires
        state.inv(),
        state.reach_inv(),
        state.current_block_index is Some,
        state.children_targeted(nothing_pending()),
        e is If,
    ensures
        normal_rhs(e, state) matches Ok((definition, after)) ==> state.reach_step(after, definition),
    decreases e, 0nat,
{
    if let Expr::If { condition, branch_success, branch_failure } = e {
        lemma_normal_var(*condition, state);
        lemma_var_reach(*condition, state);
        if let Ok((condition_name, after_condition)) = normal_var(*condition, state) {
            lemma_normal_block(*branch_success, after_condition);
            lemma_block_reach(*branch_success, after_condition, nothing_pending());
            if let Ok((success, after_success)) = normal_block(*branch_success, after_condition) {
                let first = DefinitionView::If {
                    condition: condition_name,
                    branch_success: success,
                    branch_failure: success,
                };
                assert(after_success.children_targeted(first));
                lemma_normal_block(*branch_failure, after_success);
                lemma_block_reach(*branch_failure, after_success, first);
                if let Ok((failure, after_failure)) = normal_block(*branch_failure, after_success) {
                    lemma_block_growth_is_growth(after_condition, after_success, success);
                    lemma_block_growth_is_growth(after_success, after_failure, failure);
                    lemma_growth_composes(state, after_condition, after_success);
                    lemma_nests_compose(state, after_condition, after_success);
                    lemma_nests_compose(state, after_success, after_failure);
                }
            }
        }
    }
}

/// What normalizing an expression into the active block does to the blocks:
/// they are reached, and the children of the active block are targeted, by
/// one of its conditionals or by the definition.
pub proof fn lemma_rhs_reach(e: Expr, state: NormalizerView)
    requires
        state.inv(),
        state.reach_inv(),
        state.current_block_index is Some,
        state.children_targeted(nothing_pending()),
    ensures
        normal_rhs(e, state) matches Ok((definition, after)) ==> state.reach_step(after, definition),
    decreases e, 1nat,
{
    match e {
        Expr::Literal(_) => {},
        Expr::Var { .. } => {},
        Expr::Fun { .. } => lemma_fun_reach(e, state),
        Expr::Call { .. } => lemma_call_reach(e, state),
        Expr::BinOp { .. } => lemma_binop_reach(e, state),
        Expr::Let { .. } => lemma_let_reach(e, state),
        Expr::If { .. } => lemma_if_reach(e, state),
        Expr::Tuple { .. } => lemma_tuple_reach(e, state),
        Expr::SetField { .. } => lemma_set_field_reach(e, state),
    }
}

impl ProgramView {
    /// Whether every block but the entry of its function is a branch of a
    /// conditional in its parent.
    pub open spec fn branches_reach_blocks(self) -> bool {
        forall|g: int, j: int|
            #![trigger self.functions[g].blocks[j]]
            0 <= g < self.functions.len() && 0 < j < self.functions[g].blocks.len() ==> targeted(
                self.functions[g].blocks,
                j,
            )
    }
}

/// In a program that let-normalization yields, every block but the entry of
/// its function is a branch of a conditional in its parent.
pub proof fn lemma_normal_program_reached(e: Expr)
    ensures
        normal_program(e) matches Ok(program) ==> program.branches_reach_blocks(),
{
    let state = NormalizerView::initial();
    lemma_function_body_reach(e, state, toplevel_name(), Seq::empty());
    crate::ir_let::invariants::lemma_normal_program_well_formed(e);
    if let Ok(program) = normal_program(e) {
        assert forall|g: int, j: int|
            #![trigger program.functions[g].blocks[j]]
            0 <= g < program.functions.len() && 0 < j < program.functions[g].blocks.len() implies targeted(
            program.functions[g].blocks,
            j,
        ) by {
            let blocks = program.functions[g].blocks;
            assert(blocks_reached(program.functions[g].blocks));
            assert(crate::ir_let::well_formed::function_ok(program.functions, g));
            let parent = blocks[j].parent_block_index->Some_0 as int;
            assert(program.functions[g].blocks[parent].is_closed());
        }
    }
}

} // verus!
