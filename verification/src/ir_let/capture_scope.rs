//! A function captures only names that were in scope where it was defined.
//!
//! The walk that finds the captured names goes through a block from its
//! last instruction to its first, so a name that the block binds is no
//! longer live before the block: every read of it comes after its binding.
//! What is live before a block is then at most what was live after it and
//! what was in scope where the block was opened. The function that holds
//! the outermost expression is opened where nothing is in scope, so it
//! captures no name.

use vstd::prelude::*;
use crate::ir_flat::frame_layout::assigned_names;
use crate::ir_let::binders::lemma_assigned_names_push;
use crate::ir_let::free_vars::{
    branches_forward, descends, free_names_of, is_later_block, lemma_branches_descend,
    lemma_forward_walk_ends, lemma_with_name, lemma_without_name, live_before_block,
    live_before_definition, live_before_instructions, with_name, without_name,
};
use crate::ir_let::free_vars_laws::{
    definition_mentions, lemma_free_names, lemma_live_before_block, lemma_live_before_definition,
    lemma_with_names, lemma_without_names,
};
use crate::ir_let::invariants::{
    lemma_emit_assignment, lemma_fresh, lemma_fresh_each, lemma_normal_block,
    lemma_normal_function_body, lemma_normal_rhs, lemma_normal_var, lemma_normal_vars,
    lemma_open_block, lemma_start_function,
};
use crate::ir_let::let_expr::{BlockView, DefinitionView, FunctionView, InstructionView};
use crate::ir_let::normal_form::{
    NormalizerView, generated_base, normal_block, normal_function_body, normal_program, normal_rhs,
    normal_var, normal_vars, toplevel_name,
};
use crate::ir_let::scoping::{known, names_of};
use crate::ir_let::scoping_laws::{lemma_fresh_each_len, lemma_resolve_known};
use crate::ir_let::well_formed::{definition_ok, lemma_ok_branches_forward};
use crate::syntax::{Expr, Name, views};

verus! {

/// Whether the blocks of `before` that come after block `t` are unchanged
/// in `after`.
pub open spec fn same_above(before: Seq<BlockView>, after: Seq<BlockView>, t: int) -> bool {
    &&& before.len() <= after.len()
    &&& forall|k: int| t < k < before.len() ==> #[trigger] after[k] == before[k]
}

/// What is live before the first instructions of a block depends on these
/// instructions and on the blocks after the block only.
pub proof fn lemma_frame_instructions(
    before: Seq<BlockView>,
    after: Seq<BlockView>,
    t: int,
    count: int,
    live: Seq<Name>,
)
    requires
        branches_forward(before),
        branches_forward(after),
        same_above(before, after, t),
        0 <= t < before.len(),
        0 <= count <= before[t].instructions.len(),
        count <= after[t].instructions.len(),
        forall|i: int| 0 <= i < count ==> #[trigger] after[t].instructions[i] == before[t].instructions[i],
    ensures
        live_before_instructions(after, t, count, live) == live_before_instructions(before, t, count, live),
    decreases before.len() - t, count,
{
    if count > 0 {
        let instruction = before[t].instructions[count - 1];
        assert(after[t].instructions[count - 1] == instruction);
        let walked = match instruction {
            InstructionView::EnterBlock => live,
            InstructionView::ExitBlock(name) => with_name(live, name),
            InstructionView::Assignment { name, definition } => live_before_definition(
                before,
                t,
                definition,
                without_name(live, name),
            ),
        };
        if let InstructionView::Assignment { name, definition } = instruction {
            if let DefinitionView::If { condition, branch_success, branch_failure } = definition {
                lemma_forward_walk_ends(before, t);
                lemma_branches_descend(before, t, count - 1);
                lemma_forward_walk_ends(after, t);
                lemma_branches_descend(after, t, count - 1);
                let s = branch_success.block_index as int;
                let f = branch_failure.block_index as int;
                assert(is_later_block(before, t, s) && is_later_block(before, t, f));
                let after_condition = with_name(without_name(live, name), condition);
                lemma_frame_block(before, after, s, after_condition);
                lemma_frame_block(before, after, f, live_before_block(before, s, after_condition));
            }
            assert(live_before_definition(after, t, definition, without_name(live, name)) == walked);
        }
        lemma_frame_instructions(before, after, t, count - 1, walked);
    }
}

/// What is live before a block depends on the block and on the blocks after
/// it only.
pub proof fn lemma_frame_block(before: Seq<BlockView>, after: Seq<BlockView>, t: int, live: Seq<Name>)
    requires
        branches_forward(before),
        branches_forward(after),
        same_above(before, after, t - 1),
        0 <= t < before.len(),
    ensures
        live_before_block(after, t, live) == live_before_block(before, t, live),
    decreases before.len() - t, before[t].instructions.len() + 1,
{
    assert(after[t] == before[t]);
    lemma_frame_instructions(before, after, t, before[t].instructions.len() as int, live);
}

/// Whether `name` is bound by block `b` or is one of `scope`.
pub open spec fn visible(blocks: Seq<BlockView>, b: int, scope: Set<Name>, name: Name) -> bool {
    names_of(blocks[b]).contains(name) || scope.contains(name)
}

/// The names that block `b` binds, and those of `scope`.
pub open spec fn seen_from(blocks: Seq<BlockView>, b: int, scope: Set<Name>) -> Set<Name> {
    Set::new(|name: Name| visible(blocks, b, scope, name))
}

/// Whether what is live before the instructions of block `b` is at most
/// what was live after them and the block does not bind, and the names of
/// `scope`.
pub open spec fn covered(blocks: Seq<BlockView>, b: int, scope: Set<Name>) -> bool {
    forall|live: Seq<Name>, name: Name|
        live.no_duplicates() && #[trigger] live_before_instructions(
            blocks,
            b,
            blocks[b].instructions.len() as int,
            live,
        ).contains(name) ==> (live.contains(name) && !names_of(blocks[b]).contains(name)) || scope.contains(
            name,
        )
}

/// Whether what is live before block `t` is at most what was live after it,
/// and the names of `seen`.
pub open spec fn block_covered(blocks: Seq<BlockView>, t: int, seen: Set<Name>) -> bool {
    forall|live: Seq<Name>, name: Name|
        live.no_duplicates() && #[trigger] live_before_block(blocks, t, live).contains(name)
            ==> live.contains(name) || seen.contains(name)
}

/// Whether a definition that is to stand at the end of block `b` reads only
/// names that the block binds or that are in `scope`, in itself and, if it
/// is a conditional, in its branches.
pub open spec fn definition_covered(
    blocks: Seq<BlockView>,
    b: int,
    definition: DefinitionView,
    scope: Set<Name>,
) -> bool {
    &&& forall|name: Name| #[trigger] definition_mentions(definition, name) ==> visible(blocks, b, scope, name)
    &&& definition matches DefinitionView::If { branch_success, branch_failure, .. } ==> block_covered(
        blocks,
        branch_success.block_index as int,
        seen_from(blocks, b, scope),
    ) && block_covered(blocks, branch_failure.block_index as int, seen_from(blocks, b, scope))
}

/// What is live before a definition is at most what was live after it and
/// the names of `seen`, if the definition reads only names of `seen`, in
/// itself and in its branches.
pub proof fn lemma_definition_bound(
    blocks: Seq<BlockView>,
    b: int,
    definition: DefinitionView,
    live: Seq<Name>,
    seen: Set<Name>,
)
    requires
        live.no_duplicates(),
        forall|name: Name| #[trigger] definition_mentions(definition, name) ==> seen.contains(name),
        definition matches DefinitionView::If { branch_success, branch_failure, .. } ==> block_covered(
            blocks,
            branch_success.block_index as int,
            seen,
        ) && block_covered(blocks, branch_failure.block_index as int, seen),
    ensures
        forall|name: Name|
            live_before_definition(blocks, b, definition, live).contains(name) ==> live.contains(name)
                || seen.contains(name),
{
    match definition {
        DefinitionView::Var(name) => {
            lemma_with_name(live, name);
            assert(definition_mentions(definition, name));
        },
        DefinitionView::Literal(_) => {},
        DefinitionView::Tuple { args } => {
            lemma_with_names(live, args);
            assert forall|name: Name| args.contains(name) implies seen.contains(name) by {
                assert(definition_mentions(definition, name));
            }
        },
        DefinitionView::SetField { tuple, new_value, .. } => {
            lemma_with_name(live, tuple);
            lemma_with_name(with_name(live, tuple), new_value);
            assert(definition_mentions(definition, tuple));
            assert(definition_mentions(definition, new_value));
        },
        DefinitionView::BinOp { lhs, rhs, .. } => {
            lemma_with_name(live, lhs);
            lemma_with_name(with_name(live, lhs), rhs);
            assert(definition_mentions(definition, lhs));
            assert(definition_mentions(definition, rhs));
        },
        DefinitionView::Fun(function) => {
            lemma_with_names(live, function.free_names);
            assert forall|name: Name| function.free_names.contains(name) implies seen.contains(name) by {
                assert(definition_mentions(definition, name));
            }
        },
        DefinitionView::Call { func, args } => {
            lemma_with_name(live, func);
            lemma_with_names(with_name(live, func), args);
            assert(definition_mentions(definition, func));
            assert forall|name: Name| args.contains(name) implies seen.contains(name) by {
                assert(definition_mentions(definition, name));
            }
        },
        DefinitionView::If { condition, branch_success, branch_failure } => {
            lemma_with_name(live, condition);
            assert(definition_mentions(definition, condition));
            let after_condition = with_name(live, condition);
            let s = branch_success.block_index as int;
            let f = branch_failure.block_index as int;
            let after_success = if descends(blocks, b, s) {
                live_before_block(blocks, s, after_condition)
            } else {
                after_condition
            };
            lemma_live_before_block(blocks, s, after_condition);
            assert forall|name: Name| after_success.contains(name) implies live.contains(name) || seen.contains(
                name,
            ) by {
                if descends(blocks, b, s) {
                    assert(live_before_block(blocks, s, after_condition).contains(name));
                }
            }
            assert forall|name: Name|
                live_before_definition(blocks, b, definition, live).contains(name) implies live.contains(name)
                || seen.contains(name) by {
                if descends(blocks, b, f) {
                    assert(live_before_block(blocks, f, after_success).contains(name));
                }
            }
        },
    }
}

impl NormalizerView {
    /// Whether the active block is covered by `scope`, and every name that
    /// stands for a name in scope is bound by the active block or is one of
    /// `scope`.
    pub open spec fn cover_inv(self, scope: Set<Name>) -> bool {
        &&& self.has_active_block()
        &&& covered(self.active_blocks(), self.block_index(), scope)
        &&& forall|i: int|
            0 <= i < self.substitution.len() ==> visible(
                self.active_blocks(),
                self.block_index(),
                scope,
                (#[trigger] self.substitution[i]).1,
            )
    }
}

/// An assignment at the end of the active block, whose definition reads
/// only what can be seen there, keeps the block covered.
pub proof fn lemma_emit_cover(state: NormalizerView, name: Name, definition: DefinitionView, scope: Set<Name>)
    requires
        state.inv(),
        state.cover_inv(scope),
        definition_ok(state.functions, state.function_index(), state.block_index(), definition),
        definition_covered(state.active_blocks(), state.block_index(), definition, scope),
    ensures
        state.emit(InstructionView::Assignment { name, definition }).cover_inv(scope),
        visible(
            state.emit(InstructionView::Assignment { name, definition }).active_blocks(),
            state.block_index(),
            scope,
            name,
        ),
{
    let instruction = InstructionView::Assignment { name, definition };
    let grown = state.emit(instruction);
    let f = state.function_index();
    let b = state.block_index();
    let before = state.active_blocks();
    let after = grown.active_blocks();
    let count = before[b].instructions.len() as int;
    lemma_emit_assignment(state, name, definition);
    lemma_ok_branches_forward(state.functions, f);
    lemma_ok_branches_forward(grown.functions, f);
    lemma_assigned_names_push(before[b].instructions, instruction);
    assert(after[b].instructions == before[b].instructions.push(instruction));
    assert(names_of(after[b]) == names_of(before[b]).push(name));
    assert(names_of(after[b]).last() == name);
    assert forall|other: Name| names_of(before[b]).contains(other) implies names_of(after[b]).contains(other) by {
        let i = choose|i: int| 0 <= i < names_of(before[b]).len() && names_of(before[b])[i] == other;
        assert(names_of(after[b])[i] == other);
    }
    assert forall|other: Name| names_of(after[b]).contains(other) implies names_of(before[b]).contains(other)
        || other == name by {
        let i = choose|i: int| 0 <= i < names_of(after[b]).len() && names_of(after[b])[i] == other;
        if i < names_of(before[b]).len() {
            assert(names_of(before[b])[i] == other);
        }
    }
    let seen = seen_from(before, b, scope);
    assert(same_above(before, after, b));
    assert forall|live: Seq<Name>, other: Name|
        live.no_duplicates() && #[trigger] live_before_instructions(
            after,
            b,
            after[b].instructions.len() as int,
            live,
        ).contains(other) implies (live.contains(other) && !names_of(after[b]).contains(other))
        || scope.contains(other) by {
        let below = without_name(live, name);
        lemma_without_name(live, name);
        assert(below.contains(other) <==> live.contains(other) && other != name);
        let walked = live_before_definition(after, b, definition, below);
        assert(after[b].instructions[count] == instruction);
        lemma_live_before_definition(after, b, definition, below);
        if let DefinitionView::If { branch_success, branch_failure, .. } = definition {
            let s = branch_success.block_index as int;
            let t = branch_failure.block_index as int;
            assert forall|above: Seq<Name>, read: Name|
                above.no_duplicates() && #[trigger] live_before_block(after, s, above).contains(
                    read,
                ) implies above.contains(read) || seen.contains(read) by {
                lemma_frame_block(before, after, s, above);
                assert(live_before_block(before, s, above).contains(read));
            }
            assert forall|above: Seq<Name>, read: Name|
                above.no_duplicates() && #[trigger] live_before_block(after, t, above).contains(
                    read,
                ) implies above.contains(read) || seen.contains(read) by {
                lemma_frame_block(before, after, t, above);
                assert(live_before_block(before, t, above).contains(read));
            }
        }
        assert forall|read: Name| #[trigger] definition_mentions(definition, read) implies seen.contains(
            read,
        ) by {
            assert(visible(before, b, scope, read));
        }
        lemma_definition_bound(after, b, definition, below, seen);
        lemma_frame_instructions(before, after, b, count, walked);
        assert(live_before_instructions(after, b, count + 1, live) == live_before_instructions(
            after,
            b,
            count,
            walked,
        ));
        assert(live_before_instructions(before, b, count, walked).contains(other));
        if !scope.contains(other) {
            assert(walked.contains(other) && !names_of(before[b]).contains(other));
            assert(below.contains(other) || seen.contains(other));
            assert(!visible(before, b, scope, other));
            assert(!seen.contains(other));
        }
    }
    assert forall|i: int| 0 <= i < grown.substitution.len() implies visible(
        after,
        b,
        scope,
        (#[trigger] grown.substitution[i]).1,
    ) by {
        assert(visible(before, b, scope, state.substitution[i].1));
    }
}

/// The names that stand for a name in scope.
pub open spec fn known_names(substitution: Seq<(Name, Name)>) -> Set<Name> {
    Set::new(|name: Name| known(substitution, name))
}

/// A name that instructions bind is bound by the same instructions with
/// more after them.
pub proof fn lemma_names_kept(before: Seq<InstructionView>, after: Seq<InstructionView>, name: Name)
    requires
        before.len() <= after.len(),
        forall|i: int| 0 <= i < before.len() ==> #[trigger] after[i] == before[i],
        assigned_names(before).contains(name),
    ensures
        assigned_names(after).contains(name),
    decreases after.len(),
{
    if after.len() > before.len() {
        lemma_names_kept(before, after.drop_last(), name);
        let shorter = assigned_names(after.drop_last());
        let i = choose|i: int| 0 <= i < shorter.len() && shorter[i] == name;
        if let InstructionView::Assignment { name: bound, .. } = after.last() {
            assert(assigned_names(after) == shorter.push(bound));
            assert(assigned_names(after)[i] == name);
        }
    } else {
        assert(after =~= before);
    }
}

/// A name that can be seen in the active block can still be seen there
/// after the block has grown.
pub proof fn lemma_visible_kept(state: NormalizerView, after: NormalizerView, scope: Set<Name>, name: Name)
    requires
        state.has_active_block(),
        state.grows_to(after),
        visible(state.active_blocks(), state.block_index(), scope, name),
    ensures
        visible(after.active_blocks(), state.block_index(), scope, name),
{
    if !scope.contains(name) {
        let b = state.block_index();
        lemma_names_kept(state.active_blocks()[b].instructions, after.active_blocks()[b].instructions, name);
    }
}

/// A block that was covered is covered where it is unchanged, and the
/// blocks after it too.
pub proof fn lemma_cover_kept(before: Seq<BlockView>, after: Seq<BlockView>, b: int, scope: Set<Name>)
    requires
        branches_forward(before),
        branches_forward(after),
        same_above(before, after, b),
        0 <= b < before.len(),
        after[b] == before[b],
        covered(before, b, scope),
    ensures
        covered(after, b, scope),
{
    assert forall|live: Seq<Name>, name: Name|
        live.no_duplicates() && #[trigger] live_before_instructions(
            after,
            b,
            after[b].instructions.len() as int,
            live,
        ).contains(name) implies (live.contains(name) && !names_of(after[b]).contains(name)) || scope.contains(
        name,
    ) by {
        lemma_frame_instructions(before, after, b, before[b].instructions.len() as int, live);
        assert(live_before_instructions(before, b, before[b].instructions.len() as int, live).contains(name));
    }
}

/// What is live before a block is at most what was live after it and
/// `seen`, where the block and the blocks after it are unchanged.
pub proof fn lemma_block_cover_kept(before: Seq<BlockView>, after: Seq<BlockView>, t: int, seen: Set<Name>)
    requires
        branches_forward(before),
        branches_forward(after),
        same_above(before, after, t - 1),
        0 <= t < before.len(),
        block_covered(before, t, seen),
    ensures
        block_covered(after, t, seen),
{
    assert forall|live: Seq<Name>, name: Name|
        live.no_duplicates() && #[trigger] live_before_block(after, t, live).contains(name) implies live.contains(
        name,
    ) || seen.contains(name) by {
        lemma_frame_block(before, after, t, live);
        assert(live_before_block(before, t, live).contains(name));
    }
}

/// Whether the names that a closure allocation captures stand for names in
/// scope.
pub open spec fn captures_known(definition: DefinitionView, substitution: Seq<(Name, Name)>) -> bool {
    definition matches DefinitionView::Fun(closure) ==> forall|captured: Name| #[trigger]
        closure.free_names.contains(captured) ==> known(substitution, captured)
}

/// The names that a function captures stood for names in scope where the
/// function is defined, with or without an active block: neither its own
/// name nor a parameter is among them, nor a name that it binds.
pub proof fn lemma_fun_captures_known(e: Expr, state: NormalizerView)
    requires
        state.inv(),
        e is Fun,
    ensures
        normal_rhs(e, state) matches Ok((definition, _)) ==> definition is Fun && captures_known(
            definition,
            state.substitution,
        ),
    decreases e, 0nat,
{
    if let Expr::Fun { name, arg_names, body } = e {
        let bases = views(arg_names@);
        lemma_fresh(state, name@);
        if let Ok((unique_name, named)) = state.fresh(name@) {
            lemma_fresh_each(named, bases, bases.len() as int, Seq::empty());
            lemma_fresh_each_len(named, bases, bases.len() as int, Seq::empty());
            if let Ok((unique_arg_names, generated)) = named.fresh_each(bases, bases.len() as int, Seq::empty()) {
                let bound = generated.bind_each(bases, unique_arg_names).bind(name@, unique_name);
                let depth = state.substitution.len() as int;
                lemma_function_body_cover(*body, bound, unique_name, unique_arg_names);
                if let Ok((closure, lifted)) = normal_function_body(*body, bound, unique_name, unique_arg_names) {
                    assert forall|read: Name| #[trigger] closure.free_names.contains(read) implies known(
                        state.substitution,
                        read,
                    ) by {
                        assert(known(bound.substitution, read));
                        let i = choose|i: int|
                            0 <= i < bound.substitution.len() && (#[trigger] bound.substitution[i]).1 == read;
                        if i < depth {
                            assert(bound.substitution[i] == state.substitution[i]);
                        } else if i < depth + bases.len() {
                            assert(read == unique_arg_names[i - depth]);
                            assert(unique_arg_names.contains(read));
                        } else {
                            assert(read == unique_name);
                        }
                    }
                }
            }
        }
    }
}

/// What normalizing an expression into the active block does to a covered
/// block: it stays covered, and the definition reads only what can be seen
/// there.
pub proof fn lemma_rhs_cover(e: Expr, state: NormalizerView, scope: Set<Name>)
    requires
        state.inv(),
        state.cover_inv(scope),
    ensures
        normal_rhs(e, state) matches Ok((definition, after)) ==> after.cover_inv(scope) && definition_covered(
            after.active_blocks(),
            state.block_index(),
            definition,
            scope,
        ),
    decreases e, 2nat,
{
    match e {
        Expr::Literal(_) => {},
        Expr::Var { var_name } => {
            lemma_resolve_known(state.substitution, var_name@);
        },
        Expr::Fun { .. } => lemma_fun_cover(e, state, scope),
        Expr::Call { .. } => lemma_call_cover(e, state, scope),
        Expr::BinOp { .. } => lemma_pair_cover(e, state, scope),
        Expr::SetField { .. } => lemma_pair_cover(e, state, scope),
        Expr::Let { .. } => lemma_let_cover(e, state, scope),
        Expr::If { .. } => lemma_if_cover(e, state, scope),
        Expr::Tuple { values } => {
            lemma_normal_vars(values@, 0, state, Seq::empty());
            lemma_vars_cover(values@, 0, state, Seq::empty(), scope);
            if let Ok((names, after)) = normal_vars(values@, 0, state, Seq::empty()) {
                let definition = DefinitionView::Tuple { args: names };
                assert forall|name: Name| #[trigger] definition_mentions(definition, name) implies visible(
                    after.active_blocks(),
                    state.block_index(),
                    scope,
                    name,
                ) by {
                    let k = choose|k: int| 0 <= k < names.len() && names[k] == name;
                    assert(visible(after.active_blocks(), state.block_index(), scope, names[k]));
                }
            }
        },
    }
}

/// The same of a function: its captured names were in scope where it is
/// defined.
proof fn lemma_fun_cover(e: Expr, state: NormalizerView, scope: Set<Name>)
    requires
        state.inv(),
        state.cover_inv(scope),
        e is Fun,
    ensures
        normal_rhs(e, state) matches Ok((definition, after)) ==> after.cover_inv(scope) && definition_covered(
            after.active_blocks(),
            state.block_index(),
            definition,
            scope,
        ),
    decreases e, 1nat,
{
    let b = state.block_index();
    lemma_normal_rhs(e, state);
    lemma_fun_captures_known(e, state);
    if let Ok((definition, after)) = normal_rhs(e, state) {
        assert(after.active_blocks()[b] == state.active_blocks()[b]) by {
            lemma_growth_leaves_block(e, state);
        }
        lemma_ok_branches_forward(state.functions, state.function_index());
        lemma_ok_branches_forward(after.functions, state.function_index());
        lemma_cover_kept(state.active_blocks(), after.active_blocks(), b, scope);
        assert forall|read: Name| #[trigger] definition_mentions(definition, read) implies visible(
            after.active_blocks(),
            b,
            scope,
            read,
        ) by {
            let i = choose|i: int| 0 <= i < state.substitution.len() && (#[trigger] state.substitution[i]).1 == read;
            assert(visible(state.active_blocks(), b, scope, state.substitution[i].1));
        }
    }
}

/// Normalizing a function leaves the blocks of the active function as they
/// are.
proof fn lemma_growth_leaves_block(e: Expr, state: NormalizerView)
    requires
        state.inv(),
        state.has_active_block(),
        e is Fun,
    ensures
        normal_rhs(e, state) matches Ok((_, after)) ==> after.active_blocks() == state.active_blocks(),
{
    if let Expr::Fun { name, arg_names, body } = e {
        let f = state.function_index();
        let bases = views(arg_names@);
        lemma_fresh(state, name@);
        if let Ok((unique_name, named)) = state.fresh(name@) {
            lemma_fresh_each(named, bases, bases.len() as int, Seq::empty());
            if let Ok((unique_arg_names, generated)) = named.fresh_each(bases, bases.len() as int, Seq::empty()) {
                let bound = generated.bind_each(bases, unique_arg_names).bind(name@, unique_name);
                lemma_normal_function_body(*body, bound, unique_name, unique_arg_names);
                if let Ok((closure, lifted)) = normal_function_body(*body, bound, unique_name, unique_arg_names) {
                    assert(lifted.functions[f] == state.functions[f]);
                }
            }
        }
    }
}

/// The same of a call.
proof fn lemma_call_cover(e: Expr, state: NormalizerView, scope: Set<Name>)
    requires
        state.inv(),
        state.cover_inv(scope),
        e is Call,
    ensures
        normal_rhs(e, state) matches Ok((definition, after)) ==> after.cover_inv(scope) && definition_covered(
            after.active_blocks(),
            state.block_index(),
            definition,
            scope,
        ),
    decreases e, 1nat,
{
    if let Expr::Call { func, args } = e {
        let b = state.block_index();
        lemma_normal_var(*func, state);
        lemma_var_cover(*func, state, scope);
        if let Ok((func_name, after_func)) = normal_var(*func, state) {
            lemma_normal_vars(args@, 0, after_func, Seq::empty());
            lemma_vars_cover(args@, 0, after_func, Seq::empty(), scope);
            if let Ok((names, after)) = normal_vars(args@, 0, after_func, Seq::empty()) {
                lemma_visible_kept(after_func, after, scope, func_name);
                let definition = DefinitionView::Call { func: func_name, args: names };
                assert forall|name: Name| #[trigger] definition_mentions(definition, name) implies visible(
                    after.active_blocks(),
                    b,
                    scope,
                    name,
                ) by {
                    if name != func_name {
                        let k = choose|k: int| 0 <= k < names.len() && names[k] == name;
                        assert(visible(after.active_blocks(), b, scope, names[k]));
                    }
                }
            }
        }
    }
}

/// The same of an operation on two operands.
proof fn lemma_pair_cover(e: Expr, state: NormalizerView, scope: Set<Name>)
    requires
        state.inv(),
        state.cover_inv(scope),
        e is BinOp || e is SetField,
    ensures
        normal_rhs(e, state) matches Ok((definition, after)) ==> after.cover_inv(scope) && definition_covered(
            after.active_blocks(),
            state.block_index(),
            definition,
            scope,
        ),
    decreases e, 1nat,
{
    let (first, second) = match e {
        Expr::BinOp { lhs, rhs, .. } => (*lhs, *rhs),
        Expr::SetField { tuple, new_expr, .. } => (*tuple, *new_expr),
        _ => (e, e),
    };
    lemma_normal_var(first, state);
    lemma_var_cover(first, state, scope);
    if let Ok((first_name, after_first)) = normal_var(first, state) {
        lemma_normal_var(second, after_first);
        lemma_var_cover(second, after_first, scope);
        if let Ok((second_name, after)) = normal_var(second, after_first) {
            lemma_visible_kept(after_first, after, scope, first_name);
        }
    }
}

/// The same of a binding.
proof fn lemma_let_cover(e: Expr, state: NormalizerView, scope: Set<Name>)
    requires
        state.inv(),
        state.cover_inv(scope),
        e is Let,
    ensures
        normal_rhs(e, state) matches Ok((definition, after)) ==> after.cover_inv(scope) && definition_covered(
            after.active_blocks(),
            state.block_index(),
            definition,
            scope,
        ),
    decreases e, 1nat,
{
    if let Expr::Let { name, definition, body } = e {
        let b = state.block_index();
        lemma_normal_rhs(*definition, state);
        lemma_rhs_cover(*definition, state, scope);
        if let Ok((defined, after_definition)) = normal_rhs(*definition, state) {
            lemma_fresh(after_definition, name@);
            if let Ok((unique_name, named)) = after_definition.fresh(name@) {
                assert(named.cover_inv(scope));
                lemma_emit_assignment(named, unique_name, defined);
                lemma_emit_cover(named, unique_name, defined, scope);
                let emitted = named.emit(InstructionView::Assignment { name: unique_name, definition: defined });
                let bound = emitted.bind(name@, unique_name);
                assert(bound.cover_inv(scope)) by {
                    assert forall|i: int| 0 <= i < bound.substitution.len() implies visible(
                        bound.active_blocks(),
                        b,
                        scope,
                        (#[trigger] bound.substitution[i]).1,
                    ) by {
                        if i < emitted.substitution.len() {
                            assert(bound.substitution[i] == emitted.substitution[i]);
                        }
                    }
                }
                lemma_normal_rhs(*body, bound);
                lemma_rhs_cover(*body, bound, scope);
                if let Ok((result, after_body)) = normal_rhs(*body, bound) {
                    let after = after_body.restore(state.substitution.len() as int);
                    assert forall|i: int| 0 <= i < after.substitution.len() implies visible(
                        after.active_blocks(),
                        b,
                        scope,
                        (#[trigger] after.substitution[i]).1,
                    ) by {
                        assert(after.substitution[i] == after_body.substitution[i]);
                    }
                }
            }
        }
    }
}

/// The same of a conditional: what is live before each of its branches is
/// at most what was live after it and what can be seen where the
/// conditional stands.
proof fn lemma_if_cover(e: Expr, state: NormalizerView, scope: Set<Name>)
    requires
        state.inv(),
        state.cover_inv(scope),
        e is If,
    ensures
        normal_rhs(e, state) matches Ok((definition, after)) ==> after.cover_inv(scope) && definition_covered(
            after.active_blocks(),
            state.block_index(),
            definition,
            scope,
        ),
    decreases e, 1nat,
{
    if let Expr::If { condition, branch_success, branch_failure } = e {
        let f = state.function_index();
        let b = state.block_index();
        lemma_normal_var(*condition, state);
        lemma_var_cover(*condition, state, scope);
        if let Ok((condition_name, after_condition)) = normal_var(*condition, state) {
            let first = after_condition.active_blocks();
            let seen = seen_from(first, b, scope);
            lemma_normal_block(*branch_success, after_condition);
            lemma_block_cover(*branch_success, after_condition);
            if let Ok((success, after_success)) = normal_block(*branch_success, after_condition) {
                let second = after_success.active_blocks();
                lemma_ok_branches_forward(after_condition.functions, f);
                lemma_ok_branches_forward(after_success.functions, f);
                assert(second[b] == first[b]);
                lemma_cover_kept(first, second, b, scope);
                assert(after_success.cover_inv(scope));
                lemma_normal_block(*branch_failure, after_success);
                lemma_block_cover(*branch_failure, after_success);
                if let Ok((failure, after_failure)) = normal_block(*branch_failure, after_success) {
                    let third = after_failure.active_blocks();
                    lemma_ok_branches_forward(after_failure.functions, f);
                    assert(third[b] == second[b]);
                    lemma_cover_kept(second, third, b, scope);
                    let s = success.block_index as int;
                    let t = failure.block_index as int;
                    assert forall|name: Name| known_names(after_condition.substitution).contains(
                        name,
                    ) implies seen.contains(name) by {
                        let i = choose|i: int|
                            0 <= i < after_condition.substitution.len() && (
                            #[trigger] after_condition.substitution[i]).1 == name;
                        assert(visible(first, b, scope, after_condition.substitution[i].1));
                    }
                    lemma_block_cover_kept(second, third, s, known_names(after_condition.substitution));
                    assert(seen_from(third, b, scope) =~= seen);
                    assert(block_covered(third, s, seen));
                    assert(block_covered(third, t, seen));
                }
            }
        }
    }
}

/// What normalizing an expression to a name does to a covered block: it
/// stays covered, and the name can be seen there.
pub proof fn lemma_var_cover(e: Expr, state: NormalizerView, scope: Set<Name>)
    requires
        state.inv(),
        state.cover_inv(scope),
    ensures
        normal_var(e, state) matches Ok((name, after)) ==> after.cover_inv(scope) && visible(
            after.active_blocks(),
            state.block_index(),
            scope,
            name,
        ),
    decreases e, 3nat,
{
    lemma_normal_rhs(e, state);
    lemma_rhs_cover(e, state, scope);
    if let Ok((step, following)) = normal_rhs(e, state) {
        if let DefinitionView::Var(name) = step {
            assert(definition_mentions(step, name));
        } else {
            lemma_fresh(following, generated_base());
            if let Ok((name, named)) = following.fresh(generated_base()) {
                assert(named.cover_inv(scope));
                lemma_emit_cover(named, name, step, scope);
            }
        }
    }
}

/// What normalizing expressions to names, one after the other, does to a
/// covered block: it stays covered, and the names can be seen there.
pub proof fn lemma_vars_cover(es: Seq<Expr>, from: int, state: NormalizerView, done: Seq<Name>, scope: Set<Name>)
    requires
        state.inv(),
        state.cover_inv(scope),
        forall|k: int|
            0 <= k < done.len() ==> visible(state.active_blocks(), state.block_index(), scope, #[trigger] done[k]),
    ensures
        normal_vars(es, from, state, done) matches Ok((names, after)) ==> after.cover_inv(scope) && forall|k: int|
            0 <= k < names.len() ==> visible(
                after.active_blocks(),
                state.block_index(),
                scope,
                #[trigger] names[k],
            ),
    decreases es, es.len() - from,
{
    if 0 <= from < es.len() {
        lemma_normal_var(es[from], state);
        lemma_var_cover(es[from], state, scope);
        if let Ok((name, following)) = normal_var(es[from], state) {
            let longer = done.push(name);
            assert forall|k: int| 0 <= k < longer.len() implies visible(
                following.active_blocks(),
                following.block_index(),
                scope,
                #[trigger] longer[k],
            ) by {
                if k < done.len() {
                    lemma_visible_kept(state, following, scope, done[k]);
                }
            }
            lemma_vars_cover(es, from + 1, following, longer, scope);
        }
    }
}

/// What is live before a block that an expression was normalized into is
/// at most what was live after it, and the names that stood for a name in
/// scope where the block was opened.
pub proof fn lemma_block_cover(e: Expr, state: NormalizerView)
    requires
        state.inv(),
        state.current_function_index is Some,
    ensures
        normal_block(e, state) matches Ok((target, after)) ==> block_covered(
            after.functions[state.function_index()].blocks,
            target.block_index as int,
            known_names(state.substitution),
        ),
    decreases e, 4nat,
{
    let f = state.function_index();
    let t = state.functions[f].blocks.len() as int;
    let scope = known_names(state.substitution);
    let opened = state.with_functions(
        state.functions.update(f, state.functions[f].open_block(state.current_block_index)),
    ).with_cursor(state.current_function_index, Some(t as usize)).emit(InstructionView::EnterBlock);
    if state.functions[f].blocks.len() < usize::MAX {
        lemma_open_block(state);
        lemma_normal_block(e, state);
        assert(opened.active_blocks()[t].instructions =~= seq![InstructionView::EnterBlock]);
        assert(opened.cover_inv(scope)) by {
            assert(names_of(opened.active_blocks()[t]) =~= Seq::<Name>::empty()) by {
                reveal_with_fuel(assigned_names, 2);
            }
            assert forall|live: Seq<Name>, name: Name|
                live.no_duplicates() && #[trigger] live_before_instructions(
                    opened.active_blocks(),
                    t,
                    opened.active_blocks()[t].instructions.len() as int,
                    live,
                ).contains(name) implies (live.contains(name) && !names_of(opened.active_blocks()[t]).contains(
                name,
            )) || scope.contains(name) by {
                reveal_with_fuel(live_before_instructions, 2);
            }
            assert forall|i: int| 0 <= i < opened.substitution.len() implies visible(
                opened.active_blocks(),
                t,
                scope,
                (#[trigger] opened.substitution[i]).1,
            ) by {
                assert(known(state.substitution, state.substitution[i].1));
            }
        }
        lemma_normal_var(e, opened);
        lemma_var_cover(e, opened, scope);
        if let Ok((result, computed)) = normal_var(e, opened) {
            let closed = computed.emit(InstructionView::ExitBlock(result)).with_cursor(
                state.current_function_index,
                state.current_block_index,
            );
            let before = computed.active_blocks();
            let after = closed.functions[f].blocks;
            let count = before[t].instructions.len() as int;
            lemma_ok_branches_forward(computed.functions, f);
            lemma_ok_branches_forward(closed.functions, f);
            assert(after[t].instructions == before[t].instructions.push(InstructionView::ExitBlock(result)));
            assert(same_above(before, after, t));
            assert forall|live: Seq<Name>, name: Name|
                live.no_duplicates() && #[trigger] live_before_block(after, t, live).contains(
                    name,
                ) implies live.contains(name) || scope.contains(name) by {
                let walked = with_name(live, result);
                lemma_with_name(live, result);
                assert(walked.contains(name) <==> live.contains(name) || name == result);
                lemma_frame_instructions(before, after, t, count, walked);
                assert(live_before_block(after, t, live) == live_before_instructions(after, t, count, walked));
                assert(live_before_instructions(before, t, count, walked).contains(name));
            }
        }
    }
}

/// A function captures only names that stood for a name in scope where it
/// was defined.
pub proof fn lemma_function_body_cover(e: Expr, state: NormalizerView, name: Name, arg_names: Seq<Name>)
    requires
        state.inv(),
    ensures
        normal_function_body(e, state, name, arg_names) matches Ok((closure, _)) ==> forall|captured: Name| #[trigger]
            closure.free_names.contains(captured) ==> known(state.substitution, captured) && captured != name
                && !arg_names.contains(captured),
    decreases e, 5nat,
{
    let h = state.functions.len() as int;
    let started = state.with_functions(
        state.functions.push(FunctionView { name, arg_names, free_names: None, blocks: Seq::empty() }),
    ).with_cursor(Some(h as usize), None);
    if state.functions.len() < usize::MAX {
        lemma_start_function(state, name, arg_names);
        lemma_normal_block(e, started);
        lemma_block_cover(e, started);
        if let Ok((body, built)) = normal_block(e, started) {
            let blocks = built.functions[h].blocks;
            let t = body.block_index as int;
            let live = live_before_block(blocks, t, Seq::empty());
            lemma_live_before_block(blocks, t, Seq::empty());
            lemma_without_name(live, name);
            lemma_without_names(without_name(live, name), arg_names);
            lemma_free_names(blocks, name, arg_names, t);
            let free = free_names_of(blocks, name, arg_names, t);
            assert forall|captured: Name| #[trigger] free.contains(captured) implies known(
                state.substitution,
                captured,
            ) && captured != name && !arg_names.contains(captured) by {
                assert(without_name(live, name).contains(captured));
                assert(live.contains(captured));
                assert(!Seq::<Name>::empty().contains(captured));
                assert(known_names(started.substitution).contains(captured));
            }
        }
    }
}

/// A program that let-normalization yields begins with the function that
/// holds the outermost expression: it is named `toplevel`, takes no
/// parameter and captures no name.
pub proof fn lemma_normal_program_starts_at_toplevel(e: Expr)
    ensures
        normal_program(e) matches Ok(program) ==> program.starts_at_toplevel(),
{
    let state = NormalizerView::initial();
    lemma_normal_function_body(e, state, toplevel_name(), Seq::empty());
    lemma_function_body_cover(e, state, toplevel_name(), Seq::empty());
    if let Ok((closure, built)) = normal_function_body(e, state, toplevel_name(), Seq::empty()) {
        if closure.free_names.len() > 0 {
            assert(closure.free_names.contains(closure.free_names[0]));
            assert(known(state.substitution, closure.free_names[0]));
        }
        assert(closure.free_names =~= Seq::<Name>::empty());
    }
}

} // verus!
