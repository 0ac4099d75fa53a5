//! Let-normalization keeps the scopes in order: in the program that it
//! yields, every name is read where it can be found.

use vstd::prelude::*;
use crate::ir_let::binders::{
    ascending, descending, function_names_ok, lemma_block_names, lemma_fresh_each_names,
    lemma_fresh_names, lemma_rhs_names, lemma_var_names, lemma_young_names_unbound, named_before,
    unbound_in,
};
use crate::ir_let::free_vars::free_names_of;
use crate::ir_let::free_vars_laws::{definition_mentions, lemma_free_names, mentioned_in, mentions};
use crate::ir_let::invariants::{
    lemma_block_growth_is_growth, lemma_emit_assignment, lemma_fresh, lemma_fresh_each,
    lemma_growth_composes, lemma_normal_block, lemma_normal_function_body, lemma_normal_rhs,
    lemma_normal_var, lemma_normal_vars, lemma_open_block, lemma_start_function,
};
use crate::ir_let::let_expr::{DefinitionView, FunctionView, InstructionView, ProgramView};
use crate::ir_let::names::generation;
use crate::ir_let::normal_form::{
    NormalizerView, generated_base, normal_block, normal_function_body, normal_program, normal_rhs,
    normal_var, normal_vars, toplevel_name,
};
use crate::ir_let::scoping::{
    block_scoped, bound_anywhere, function_scoped, in_scope, known, lemma_cursor_back_scope,
    lemma_emit_assignment_scope, lemma_emit_exit_scope, lemma_emit_instructions,
    lemma_emit_names_grow, lemma_fresh_scope, lemma_name_persists, lemma_names_grow_composes,
    lemma_open_block_scope, lemma_scope_grows, lemma_scope_step_composes, lemma_steps_compose,
    names_grow, names_of, reads_scoped,
};
use crate::syntax::{Expr, Name, views};

verus! {

/// A name generated at `limit` or later is bound by no block of a function
/// whose binders were all generated before `limit`.
pub proof fn lemma_young_unbound(function: FunctionView, limit: int, name: Name)
    requires
        function_names_ok(function, limit),
        generation(name) >= limit,
    ensures
        !bound_anywhere(function.blocks, name),
{
    if bound_anywhere(function.blocks, name) {
        let j = choose|j: int| 0 <= j < function.blocks.len() && (#[trigger] names_of(function.blocks[j])).contains(
            name,
        );
        let names = names_of(function.blocks[j]);
        assert(ascending(names, limit));
        let p = choose|p: int| 0 <= p < names.len() && names[p] == name;
        assert(generation(names[p]) < limit);
    }
}

/// An assignment emitted after a step adds to the step: the scopes are in
/// order, and the step now reaches to the assignment.
pub proof fn lemma_emit_after_step(
    origin: NormalizerView,
    state: NormalizerView,
    name: Name,
    definition: DefinitionView,
)
    requires
        origin.has_active_block(),
        state.has_active_block(),
        state.current_function_index == origin.current_function_index,
        state.current_block_index == origin.current_block_index,
        origin.active_blocks().len() <= state.active_blocks().len(),
        origin.active_blocks()[origin.block_index()].instructions.len()
            <= state.active_blocks()[origin.block_index()].instructions.len(),
        names_grow(origin.active_blocks(), state.active_blocks(), origin.var_counter as int),
        origin.reads_known(state.active_blocks()),
        state.var_counter >= 1,
        origin.var_counter <= state.var_counter - 1,
        reads_scoped(state.functions, state.var_counter - 1),
        state.scopes_seen(state.var_counter - 1),
        generation(name) == state.var_counter - 1,
        forall|read: Name|
            definition_mentions(definition, read) ==> generation(read) < state.var_counter - 1 && state.sees(
                read,
            ) && (generation(read) < origin.var_counter ==> known(origin.substitution, read)),
    ensures
        origin.scope_step(state.emit(InstructionView::Assignment { name, definition })),
        state.emit(InstructionView::Assignment { name, definition }).sees(name),
{
    let instruction = InstructionView::Assignment { name, definition };
    let after = state.emit(instruction);
    lemma_emit_assignment_scope(state, name, definition);
    lemma_emit_names_grow(state, instruction, state.var_counter - 1);
    lemma_names_grow_composes(
        origin.active_blocks(),
        state.active_blocks(),
        after.active_blocks(),
        origin.var_counter as int,
        state.var_counter - 1,
    );
    let blocks = after.active_blocks();
    assert forall|j: int, i: int, read: Name|
        0 <= j < blocks.len() && 0 <= i < blocks[j].instructions.len() && origin.is_later(j, i)
            && #[trigger] mentions(blocks[j].instructions[i], read) && generation(read)
            < origin.var_counter implies known(origin.substitution, read) by {
        lemma_emit_instructions(state, instruction, j, i);
        if j == state.block_index() && i == state.active_blocks()[j].instructions.len() {
            assert(definition_mentions(definition, read));
        } else {
            assert(mentions(state.active_blocks()[j].instructions[i], read));
        }
    }
}

/// Fresh names for parameters leave the scopes in order.
pub proof fn lemma_fresh_each_scope(
    state: NormalizerView,
    bases: Seq<Name>,
    remaining: int,
    generated: Seq<Name>,
)
    requires
        state.scope_inv(),
        forall|i: int| 0 <= i < generated.len() ==> generation(#[trigger] generated[i]) < state.var_counter,
    ensures
        state.fresh_each(bases, remaining, generated) matches Ok((names, after)) ==> after.scope_inv()
            && forall|i: int| 0 <= i < names.len() ==> generation(#[trigger] names[i]) < after.var_counter,
        state.fresh_each(bases, remaining, generated) matches Ok((names, after)) ==> names.len()
            >= generated.len() && forall|i: int|
            0 <= i < names.len() - generated.len() ==> generation(#[trigger] names[i]) >= state.var_counter,
    decreases remaining,
{
    if 0 < remaining <= bases.len() {
        lemma_fresh_scope(state, bases[remaining - 1]);
        lemma_fresh_names_generation(state, bases[remaining - 1]);
        if let Ok((name, following)) = state.fresh(bases[remaining - 1]) {
            let longer = seq![name] + generated;
            assert forall|i: int| 0 <= i < longer.len() implies generation(#[trigger] longer[i])
                < following.var_counter by {
                if i > 0 {
                    assert(longer[i] == generated[i - 1]);
                }
            }
            lemma_fresh_each_scope(following, bases, remaining - 1, longer);
            if let Ok((names, after)) = following.fresh_each(bases, remaining - 1, longer) {
                assert forall|i: int| 0 <= i < names.len() - generated.len() implies generation(
                    #[trigger] names[i],
                ) >= state.var_counter by {
                    if i == names.len() - longer.len() {
                        crate::ir_let::binders::lemma_fresh_each_keeps(following, bases, remaining - 1, longer);
                        assert(names[names.len() - longer.len() + 0] == longer[0]);
                        assert(names[i] == name);
                    }
                }
            }
        }
    }
}

/// As many names come out as were there, and one more for each base.
pub proof fn lemma_fresh_each_len(state: NormalizerView, bases: Seq<Name>, remaining: int, generated: Seq<Name>)
    requires
        0 <= remaining <= bases.len(),
    ensures
        state.fresh_each(bases, remaining, generated) matches Ok((names, _)) ==> names.len()
            == generated.len() + remaining,
    decreases remaining,
{
    if 0 < remaining {
        if let Ok((name, following)) = state.fresh(bases[remaining - 1]) {
            lemma_fresh_each_len(following, bases, remaining - 1, seq![name] + generated);
        }
    }
}

/// A fresh name was generated at the counter's value.
pub proof fn lemma_fresh_names_generation(state: NormalizerView, base: Name)
    ensures
        state.fresh(base) matches Ok((name, after)) ==> generation(name) == state.var_counter
            && after.var_counter == state.var_counter + 1,
{
    crate::ir_let::names::lemma_generation_of_fresh_name(base, state.var_counter as nat);
}

/// What normalizing an expression to a name does to the scopes.
pub proof fn lemma_var_scope(e: Expr, state: NormalizerView)
    requires
        state.inv(),
        state.names_inv(),
        state.scope_inv(),
        state.current_block_index is Some,
    ensures
        normal_var(e, state) matches Ok((name, after)) ==> state.scope_step(after) && state.yields_name(
            after,
            name,
        ),
    decreases e, 2nat,
{
    lemma_normal_rhs(e, state);
    lemma_rhs_names(e, state);
    lemma_rhs_scope(e, state);
    if let Ok((step, following)) = normal_rhs(e, state) {
        if let DefinitionView::Var(name) = step {
            assert(definition_mentions(step, name));
        } else {
            lemma_fresh(following, generated_base());
            lemma_fresh_names(following, generated_base());
            lemma_fresh_scope(following, generated_base());
            if let Ok((name, named)) = following.fresh(generated_base()) {
                assert forall|read: Name| definition_mentions(step, read) implies generation(read)
                    < named.var_counter - 1 && named.sees(read) && (generation(read) < state.var_counter
                    ==> known(state.substitution, read)) by {
                    assert(state.yields_name(following, read));
                }
                lemma_emit_after_step(state, named, name, step);
            }
        }
    }
}

/// What normalizing expressions to names, one after the other, does to the
/// scopes.
pub proof fn lemma_vars_scope(es: Seq<Expr>, from: int, state: NormalizerView, done: Seq<Name>)
    requires
        state.inv(),
        state.names_inv(),
        state.scope_inv(),
        state.current_block_index is Some,
        forall|k: int| 0 <= k < done.len() ==> generation(#[trigger] done[k]) < state.var_counter && state.sees(
            done[k],
        ),
    ensures
        normal_vars(es, from, state, done) matches Ok((names, after)) ==> {
            &&& state.scope_step(after)
            &&& names.len() >= done.len()
            &&& forall|k: int|
                0 <= k < names.len() ==> generation(#[trigger] names[k]) < after.var_counter && after.sees(
                    names[k],
                )
            &&& forall|k: int| 0 <= k < done.len() ==> #[trigger] names[k] == done[k]
            &&& forall|k: int|
                done.len() <= k < names.len() && generation(#[trigger] names[k]) < state.var_counter ==> known(
                    state.substitution,
                    names[k],
                )
        },
    decreases es, es.len() - from,
{
    if 0 <= from < es.len() {
        lemma_normal_var(es[from], state);
        lemma_var_names(es[from], state);
        lemma_var_scope(es[from], state);
        if let Ok((name, following)) = normal_var(es[from], state) {
            let longer = done.push(name);
            assert forall|k: int| 0 <= k < longer.len() implies generation(#[trigger] longer[k])
                < following.var_counter && following.sees(longer[k]) by {
                if k < done.len() {
                    lemma_scope_grows(
                        state.active_blocks(),
                        following.active_blocks(),
                        state.var_counter as int,
                        state.block_index(),
                        done[k],
                    );
                }
            }
            lemma_normal_vars(es, from + 1, following, longer);
            lemma_vars_scope(es, from + 1, following, longer);
            if let Ok((names, after)) = normal_vars(es, from + 1, following, longer) {
                lemma_scope_step_composes(state, following, after);
                assert forall|k: int| 0 <= k < done.len() implies #[trigger] names[k] == done[k] by {
                    assert(names[k] == longer[k]);
                }
                assert forall|k: int|
                    done.len() <= k < names.len() && generation(#[trigger] names[k])
                        < state.var_counter implies known(state.substitution, names[k]) by {
                    if k == done.len() {
                        assert(names[k] == longer[k]);
                    }
                }
            }
        }
    } else {
        crate::ir_let::scoping::lemma_names_grow_reflexive(state.active_blocks(), state.var_counter as int);
    }
}

/// What normalizing an expression into a new block does to the scopes.
pub proof fn lemma_block_scope(e: Expr, state: NormalizerView)
    requires
        state.inv(),
        state.names_inv(),
        state.scope_inv(),
        state.current_function_index is Some,
    ensures
        normal_block(e, state) matches Ok((_, after)) ==> state.scope_step(after),
    decreases e, 3nat,
{
    let f = state.function_index();
    let new = state.functions[f].blocks.len() as int;
    let opened = state.with_functions(
        state.functions.update(f, state.functions[f].open_block(state.current_block_index)),
    ).with_cursor(state.current_function_index, Some(new as usize)).emit(InstructionView::EnterBlock);
    if state.functions[f].blocks.len() < usize::MAX {
        lemma_open_block(state);
        crate::ir_let::binders::lemma_open_block_names(state);
        lemma_open_block_scope(state);
        lemma_normal_var(e, opened);
        lemma_var_names(e, opened);
        lemma_var_scope(e, opened);
        if let Ok((result, computed)) = normal_var(e, opened) {
            let instruction = InstructionView::ExitBlock(result);
            let exited = computed.emit(instruction);
            let after = exited.with_cursor(state.current_function_index, state.current_block_index);
            let limit = state.var_counter as int;
            lemma_emit_exit_scope(computed, result);
            lemma_emit_names_grow(computed, instruction, computed.var_counter as int);
            lemma_names_grow_composes(
                state.active_blocks(),
                opened.active_blocks(),
                computed.active_blocks(),
                limit,
                limit,
            );
            lemma_names_grow_composes(
                state.active_blocks(),
                computed.active_blocks(),
                exited.active_blocks(),
                limit,
                computed.var_counter as int,
            );
            lemma_cursor_back_scope(state, exited);
            let blocks = after.active_blocks();
            assert forall|j: int, i: int, read: Name|
                0 <= j < blocks.len() && 0 <= i < blocks[j].instructions.len() && state.is_later(j, i)
                    && #[trigger] mentions(blocks[j].instructions[i], read) && generation(read)
                    < state.var_counter implies known(state.substitution, read) by {
                if j < new {
                    assert(exited.active_blocks()[j] == computed.active_blocks()[j]);
                    assert(computed.functions[f].blocks[j] == opened.functions[f].blocks[j]);
                    assert(opened.active_blocks()[j] == state.active_blocks()[j]);
                } else {
                    lemma_emit_instructions(computed, instruction, j, i);
                    if j == new && i == computed.active_blocks()[j].instructions.len() {
                        assert(read == result);
                    } else {
                        assert(mentions(computed.active_blocks()[j].instructions[i], read));
                        if j == new && i == 0 {
                            assert(computed.active_blocks()[j].instructions[0]
                                == opened.active_blocks()[j].instructions[0]);
                        } else {
                            assert(opened.is_later(j, i));
                        }
                    }
                }
            }
        }
    }
}

/// What normalizing an expression into a new function does to the scopes:
/// they are in order, and every captured name generated before stands for a
/// name in scope.
pub proof fn lemma_function_body_scope(e: Expr, state: NormalizerView, name: Name, arg_names: Seq<Name>)
    requires
        state.inv(),
        state.names_inv(),
        state.scope_inv(),
        descending(arg_names, state.var_counter as int),
        named_before(name, arg_names, state.var_counter as int),
        unbound_in(state.functions, name, arg_names),
    ensures
        normal_function_body(e, state, name, arg_names) matches Ok((closure, after)) ==> {
            &&& after.scope_inv()
            &&& forall|k: int|
                0 <= k < closure.free_names.len() ==> {
                    &&& generation(#[trigger] closure.free_names[k]) < after.var_counter
                    &&& closure.free_names[k] != name
                    &&& !arg_names.contains(closure.free_names[k])
                    &&& generation(closure.free_names[k]) < state.var_counter ==> known(
                        state.substitution,
                        closure.free_names[k],
                    )
                }
        },
    decreases e, 4nat,
{
    let h = state.functions.len() as int;
    let started = state.with_functions(
        state.functions.push(FunctionView { name, arg_names, free_names: None, blocks: Seq::empty() }),
    ).with_cursor(Some(h as usize), None);
    if state.functions.len() < usize::MAX {
        lemma_start_function(state, name, arg_names);
        crate::ir_let::binders::lemma_start_function_names(state, name, arg_names);
        let limit = state.var_counter as int;
        assert(started.scope_inv()) by {
            assert forall|g: int| 0 <= g < started.functions.len() implies function_scoped(
                #[trigger] started.functions[g],
                limit,
            ) by {
                if g < h {
                    assert(started.functions[g] == state.functions[g]);
                    assert(function_scoped(state.functions[g], limit));
                }
            }
            assert forall|i: int| 0 <= i < started.substitution.len() implies generation(
                (#[trigger] started.substitution[i]).1,
            ) < limit && started.sees(started.substitution[i].1) by {
                assert(state.sees(state.substitution[i].1));
            }
        }
        lemma_normal_block(e, started);
        lemma_block_names(e, started);
        lemma_block_scope(e, started);
        if let Ok((body, built)) = normal_block(e, started) {
            let blocks = built.functions[h].blocks;
            let free_names = free_names_of(blocks, name, arg_names, body.block_index as int);
            let finished = built.with_functions(
                built.functions.update(h, built.functions[h].with_free_names(free_names)),
            ).with_cursor(state.current_function_index, state.current_block_index);
            let after_limit = built.var_counter as int;
            lemma_free_names(blocks, name, arg_names, body.block_index as int);
            assert(built.active_blocks() == blocks);
            assert forall|k: int| 0 <= k < free_names.len() implies {
                &&& generation(#[trigger] free_names[k]) < after_limit
                &&& free_names[k] != name
                &&& !arg_names.contains(free_names[k])
                &&& generation(free_names[k]) < state.var_counter ==> known(state.substitution, free_names[k])
            } by {
                let read = free_names[k];
                assert(free_names.contains(read));
                assert(mentioned_in(blocks, read));
                let (j, i) = choose|j: int, i: int|
                    0 <= j < blocks.len() && 0 <= i < blocks[j].instructions.len() && mentions(
                        #[trigger] blocks[j].instructions[i],
                        read,
                    );
                assert(function_scoped(built.functions[h], after_limit));
                assert(block_scoped(blocks, j, after_limit));
                assert(mentions(blocks[j].instructions[i], read));
                assert(started.is_later(j, i));
            }
            assert forall|g: int| 0 <= g < finished.functions.len() implies function_scoped(
                #[trigger] finished.functions[g],
                after_limit,
            ) by {
                assert(function_scoped(built.functions[g], after_limit));
                if g == h {
                    assert forall|j: int| 0 <= j < finished.functions[g].blocks.len() implies #[trigger] block_scoped(
                        finished.functions[g].blocks,
                        j,
                        after_limit,
                    ) by {
                        assert(block_scoped(blocks, j, after_limit));
                    }
                }
            }
            assert forall|i: int| 0 <= i < finished.substitution.len() implies generation(
                (#[trigger] finished.substitution[i]).1,
            ) < after_limit && finished.sees(finished.substitution[i].1) by {
                assert(state.sees(state.substitution[i].1));
                if let Some(f) = state.current_function_index {
                    assert(built.functions[f as int] == started.functions[f as int]);
                    assert(finished.functions[f as int] == state.functions[f as int]);
                }
            }
        }
    }
}

/// What normalizing a function into the active block does to the scopes.
proof fn lemma_fun_scope(e: Expr, state: NormalizerView)
    requires
        state.inv(),
        state.names_inv(),
        state.scope_inv(),
        state.current_block_index is Some,
        e is Fun,
    ensures
        normal_rhs(e, state) matches Ok((definition, after)) ==> state.scope_step(after) && forall|
            read: Name,
        |
            definition_mentions(definition, read) ==> state.yields_name(after, read),
    decreases e, 0nat,
{
    let f = state.function_index();
    if let Expr::Fun { name, arg_names, body } = e {
        lemma_fresh(state, name@);
        lemma_fresh_names(state, name@);
        lemma_fresh_scope(state, name@);
        if let Ok((unique_name, named)) = state.fresh(name@) {
            let bases = views(arg_names@);
            lemma_fresh_each(named, bases, arg_names@.len() as int, Seq::empty());
            lemma_fresh_each_names(named, bases, arg_names@.len() as int, Seq::empty());
            lemma_fresh_each_scope(named, bases, arg_names@.len() as int, Seq::empty());
            lemma_fresh_each_len(named, bases, arg_names@.len() as int, Seq::empty());
            if let Ok((unique_arg_names, generated)) = named.fresh_each(
                bases,
                arg_names@.len() as int,
                Seq::empty(),
            ) {
                let bound = generated.bind_each(bases, unique_arg_names).bind(name@, unique_name);
                let depth = state.substitution.len() as int;
                let limit = state.var_counter as int;
                assert(function_names_ok(state.functions[f], limit));
                assert(bound.scope_inv()) by {
                    assert forall|i: int| 0 <= i < bound.substitution.len() implies generation(
                        (#[trigger] bound.substitution[i]).1,
                    ) < bound.var_counter && bound.sees(bound.substitution[i].1) by {
                        let read = bound.substitution[i].1;
                        if i < depth {
                            assert(read == generated.substitution[i].1);
                            assert(generated.sees(read));
                        } else if i < depth + bases.len() {
                            assert(read == unique_arg_names[i - depth]);
                            assert(generation(unique_arg_names[i - depth]) >= named.var_counter);
                            lemma_young_unbound(state.functions[f], limit, read);
                        } else {
                            assert(read == unique_name);
                            lemma_young_unbound(state.functions[f], limit, read);
                        }
                    }
                }
                assert(named_before(unique_name, unique_arg_names, bound.var_counter as int));
                lemma_young_names_unbound(bound.functions, limit, unique_name, unique_arg_names);
                lemma_normal_function_body(*body, bound, unique_name, unique_arg_names);
                lemma_function_body_scope(*body, bound, unique_name, unique_arg_names);
                if let Ok((function, lifted)) = normal_function_body(
                    *body,
                    bound,
                    unique_name,
                    unique_arg_names,
                ) {
                    let after = lifted.restore(depth);
                    assert(after.substitution =~= state.substitution);
                    assert(after.functions[f] == state.functions[f]);
                    assert forall|i: int| 0 <= i < after.substitution.len() implies generation(
                        (#[trigger] after.substitution[i]).1,
                    ) < after.var_counter && after.sees(after.substitution[i].1) by {
                        assert(state.sees(state.substitution[i].1));
                    }
                    crate::ir_let::scoping::lemma_names_grow_reflexive(state.active_blocks(), limit);
                    assert forall|read: Name| definition_mentions(
                        DefinitionView::Fun(function),
                        read,
                    ) implies state.yields_name(after, read) by {
                        let k = choose|k: int| 0 <= k < function.free_names.len() && function.free_names[k]
                            == read;
                        assert(function.free_names[k] == read);
                        if generation(read) < bound.var_counter {
                            let i = choose|i: int|
                                0 <= i < bound.substitution.len() && (#[trigger] bound.substitution[i]).1
                                    == read;
                            if i < depth {
                                assert(state.substitution[i].1 == read);
                                assert(state.sees(read));
                            } else if i < depth + bases.len() {
                                assert(unique_arg_names[i - depth] == read);
                                assert(unique_arg_names.contains(read));
                            }
                        } else {
                            lemma_young_unbound(state.functions[f], limit, read);
                        }
                    }
                }
            }
        }
    }
}

/// What normalizing a call into the active block does to the scopes.
proof fn lemma_call_scope(e: Expr, state: NormalizerView)
    requires
        state.inv(),
        state.names_inv(),
        state.scope_inv(),
        state.current_block_index is Some,
        e is Call,
    ensures
        normal_rhs(e, state) matches Ok((definition, after)) ==> state.scope_step(after) && forall|
            read: Name,
        |
            definition_mentions(definition, read) ==> state.yields_name(after, read),
    decreases e, 0nat,
{
    if let Expr::Call { func, args } = e {
        lemma_normal_var(*func, state);
        lemma_var_names(*func, state);
        lemma_var_scope(*func, state);
        if let Ok((func_name, after_func)) = normal_var(*func, state) {
            lemma_normal_vars(args@, 0, after_func, Seq::empty());
            lemma_vars_scope(args@, 0, after_func, Seq::empty());
            if let Ok((arg_names, after_args)) = normal_vars(args@, 0, after_func, Seq::empty()) {
                lemma_scope_step_composes(state, after_func, after_args);
                lemma_name_persists(state, after_func, after_args, func_name);
                assert forall|read: Name| arg_names.contains(read) implies state.yields_name(
                    after_args,
                    read,
                ) by {
                    let k = choose|k: int| 0 <= k < arg_names.len() && arg_names[k] == read;
                    assert(arg_names[k] == read);
                }
            }
        }
    }
}

/// What normalizing a binary operation into the active block does to the
/// scopes.
proof fn lemma_binop_scope(e: Expr, state: NormalizerView)
    requires
        state.inv(),
        state.names_inv(),
        state.scope_inv(),
        state.current_block_index is Some,
        e is BinOp,
    ensures
        normal_rhs(e, state) matches Ok((definition, after)) ==> state.scope_step(after) && forall|
            read: Name,
        |
            definition_mentions(definition, read) ==> state.yields_name(after, read),
    decreases e, 0nat,
{
    if let Expr::BinOp { op, lhs, rhs } = e {
        lemma_normal_var(*lhs, state);
        lemma_var_names(*lhs, state);
        lemma_var_scope(*lhs, state);
        if let Ok((lhs_name, after_lhs)) = normal_var(*lhs, state) {
            lemma_normal_var(*rhs, after_lhs);
            lemma_var_scope(*rhs, after_lhs);
            if let Ok((rhs_name, after_rhs)) = normal_var(*rhs, after_lhs) {
                lemma_scope_step_composes(state, after_lhs, after_rhs);
                lemma_name_persists(state, after_lhs, after_rhs, lhs_name);
            }
        }
    }
}

/// What normalizing a field assignment into the active block does to the
/// scopes.
proof fn lemma_set_field_scope(e: Expr, state: NormalizerView)
    requires
        state.inv(),
        state.names_inv(),
        state.scope_inv(),
        state.current_block_index is Some,
        e is SetField,
    ensures
        normal_rhs(e, state) matches Ok((definition, after)) ==> state.scope_step(after) && forall|
            read: Name,
        |
            definition_mentions(definition, read) ==> state.yields_name(after, read),
    decreases e, 0nat,
{
    if let Expr::SetField { tuple, index, new_expr } = e {
        lemma_normal_var(*tuple, state);
        lemma_var_names(*tuple, state);
        lemma_var_scope(*tuple, state);
        if let Ok((tuple_name, after_tuple)) = normal_var(*tuple, state) {
            lemma_normal_var(*new_expr, after_tuple);
            lemma_var_scope(*new_expr, after_tuple);
            if let Ok((new_name, after_new)) = normal_var(*new_expr, after_tuple) {
                lemma_scope_step_composes(state, after_tuple, after_new);
                lemma_name_persists(state, after_tuple, after_new, tuple_name);
            }
        }
    }
}

/// What normalizing a tuple into the active block does to the scopes.
proof fn lemma_tuple_scope(e: Expr, state: NormalizerView)
    requires
        state.inv(),
        state.names_inv(),
        state.scope_inv(),
        state.current_block_index is Some,
        e is Tuple,
    ensures
        normal_rhs(e, state) matches Ok((definition, after)) ==> state.scope_step(after) && forall|
            read: Name,
        |
            definition_mentions(definition, read) ==> state.yields_name(after, read),
    decreases e, 0nat,
{
    if let Expr::Tuple { values } = e {
        lemma_vars_scope(values@, 0, state, Seq::empty());
        if let Ok((arg_names, after_args)) = normal_vars(values@, 0, state, Seq::empty()) {
            assert forall|read: Name| arg_names.contains(read) implies state.yields_name(after_args, read) by {
                let k = choose|k: int| 0 <= k < arg_names.len() && arg_names[k] == read;
                assert(arg_names[k] == read);
            }
        }
    }
}

/// What normalizing a conditional into the active block does to the scopes.
proof fn lemma_if_scope(e: Expr, state: NormalizerView)
    requires
        state.inv(),
        state.names_inv(),
        state.scope_inv(),
        state.current_block_index is Some,
        e is If,
    ensures
        normal_rhs(e, state) matches Ok((definition, after)) ==> state.scope_step(after) && forall|
            read: Name,
        |
            definition_mentions(definition, read) ==> state.yields_name(after, read),
    decreases e, 0nat,
{
    if let Expr::If { condition, branch_success, branch_failure } = e {
        lemma_normal_var(*condition, state);
        lemma_var_names(*condition, state);
        lemma_var_scope(*condition, state);
        if let Ok((condition_name, after_condition)) = normal_var(*condition, state) {
            lemma_normal_block(*branch_success, after_condition);
            lemma_block_names(*branch_success, after_condition);
            lemma_block_scope(*branch_success, after_condition);
            if let Ok((success, after_success)) = normal_block(*branch_success, after_condition) {
                lemma_normal_block(*branch_failure, after_success);
                lemma_block_scope(*branch_failure, after_success);
                if let Ok((failure, after_failure)) = normal_block(*branch_failure, after_success) {
                    lemma_block_growth_is_growth(after_condition, after_success, success);
                    lemma_block_growth_is_growth(after_success, after_failure, failure);
                    lemma_growth_composes(state, after_condition, after_success);
                    lemma_scope_step_composes(state, after_condition, after_success);
                    lemma_scope_step_composes(state, after_success, after_failure);
                    lemma_name_persists(state, after_condition, after_success, condition_name);
                    lemma_name_persists(state, after_success, after_failure, condition_name);
                }
            }
        }
    }
}

/// What normalizing a let-binding into the active block does to the scopes.
proof fn lemma_let_scope(e: Expr, state: NormalizerView)
    requires
        state.inv(),
        state.names_inv(),
        state.scope_inv(),
        state.current_block_index is Some,
        e is Let,
    ensures
        normal_rhs(e, state) matches Ok((definition, after)) ==> state.scope_step(after) && forall|
            read: Name,
        |
            definition_mentions(definition, read) ==> state.yields_name(after, read),
    decreases e, 0nat,
{
    let f = state.function_index();
    if let Expr::Let { name, definition, body } = e {
        lemma_normal_rhs(*definition, state);
        lemma_rhs_names(*definition, state);
        lemma_rhs_scope(*definition, state);
        if let Ok((defined, after_definition)) = normal_rhs(*definition, state) {
            lemma_fresh(after_definition, name@);
            lemma_fresh_names(after_definition, name@);
            lemma_fresh_scope(after_definition, name@);
            if let Ok((unique_name, named)) = after_definition.fresh(name@) {
                let instruction = InstructionView::Assignment { name: unique_name, definition: defined };
                assert forall|read: Name| definition_mentions(defined, read) implies generation(read)
                    < named.var_counter - 1 && named.sees(read) && (generation(read) < state.var_counter
                    ==> known(state.substitution, read)) by {
                    assert(state.yields_name(after_definition, read));
                }
                lemma_emit_assignment(named, unique_name, defined);
                crate::ir_let::binders::lemma_emit_assignment_names(named, unique_name, defined);
                lemma_emit_after_step(state, named, unique_name, defined);
                let emitted = named.emit(instruction);
                let bound = emitted.bind(name@, unique_name);
                assert(bound.scope_inv()) by {
                    assert forall|i: int| 0 <= i < bound.substitution.len() implies generation(
                        (#[trigger] bound.substitution[i]).1,
                    ) < bound.var_counter && bound.sees(bound.substitution[i].1) by {
                        if i < emitted.substitution.len() {
                            assert(bound.substitution[i] == emitted.substitution[i]);
                            assert(emitted.sees(emitted.substitution[i].1));
                        }
                    }
                }
                lemma_normal_rhs(*body, bound);
                lemma_rhs_scope(*body, bound);
                if let Ok((result, after_body)) = normal_rhs(*body, bound) {
                    let after = after_body.restore(state.substitution.len() as int);
                    assert(after.substitution =~= state.substitution);
                    assert(state.grows_to(named));
                    lemma_growth_composes(state, named, emitted);
                    assert forall|i: int| 0 <= i < after.substitution.len() implies generation(
                        (#[trigger] after.substitution[i]).1,
                    ) < after.var_counter && after.sees(after.substitution[i].1) by {
                        assert(after_body.substitution[i] == state.substitution[i]);
                        assert(after_body.sees(after_body.substitution[i].1));
                    }
                    assert forall|read: Name|
                        known(bound.substitution, read) && generation(read) < state.var_counter implies known(
                        state.substitution,
                        read,
                    ) by {
                        let i = choose|i: int|
                            0 <= i < bound.substitution.len() && (#[trigger] bound.substitution[i]).1 == read;
                        if i < state.substitution.len() {
                            assert(state.substitution[i].1 == read);
                        }
                    }
                    assert forall|j: int|
                        0 <= j < bound.active_blocks().len() && !(bound.current_block_index is Some && j
                            == bound.block_index()) implies #[trigger] after_body.active_blocks()[j]
                        == bound.active_blocks()[j] by {
                        assert(after_body.functions[f].blocks[j] == bound.functions[f].blocks[j]);
                    }
                    lemma_steps_compose(state, bound, after_body);
                    assert forall|read: Name| definition_mentions(result, read) implies state.yields_name(
                        after,
                        read,
                    ) by {
                        assert(bound.yields_name(after_body, read));
                    }
                }
            }
        }
    }
}

/// What normalizing an expression into the active block does to the scopes:
/// they are in order, and every name that the definition reads can be read
/// at the cursor.
pub proof fn lemma_rhs_scope(e: Expr, state: NormalizerView)
    requires
        state.inv(),
        state.names_inv(),
        state.scope_inv(),
        state.current_block_index is Some,
    ensures
        normal_rhs(e, state) matches Ok((definition, after)) ==> state.scope_step(after) && forall|
            read: Name,
        |
            definition_mentions(definition, read) ==> state.yields_name(after, read),
    decreases e, 1nat,
{
    match e {
        Expr::Literal(_) => {
            crate::ir_let::scoping::lemma_names_grow_reflexive(
                state.active_blocks(),
                state.var_counter as int,
            );
        },
        Expr::Var { var_name } => {
            crate::ir_let::scoping::lemma_names_grow_reflexive(
                state.active_blocks(),
                state.var_counter as int,
            );
            lemma_resolve_known(state.substitution, var_name@);
            if let Some(found) = crate::ir_let::normal_form::resolve(state.substitution, var_name@) {
                let i = choose|i: int|
                    0 <= i < state.substitution.len() && (#[trigger] state.substitution[i]).1 == found;
                assert(state.sees(state.substitution[i].1));
            }
        },
        Expr::Fun { .. } => lemma_fun_scope(e, state),
        Expr::Call { .. } => lemma_call_scope(e, state),
        Expr::BinOp { .. } => lemma_binop_scope(e, state),
        Expr::Let { .. } => lemma_let_scope(e, state),
        Expr::If { .. } => lemma_if_scope(e, state),
        Expr::Tuple { .. } => lemma_tuple_scope(e, state),
        Expr::SetField { .. } => lemma_set_field_scope(e, state),
    }
}

/// What a name resolves to stands for a name in scope.
pub proof fn lemma_resolve_known(substitution: Seq<(Name, Name)>, name: Name)
    ensures
        crate::ir_let::normal_form::resolve(substitution, name) matches Some(found) ==> known(
            substitution,
            found,
        ),
    decreases substitution.len(),
{
    if substitution.len() > 0 {
        if substitution.last().0 == name {
            assert(substitution[substitution.len() - 1].1 == substitution.last().1);
        } else {
            lemma_resolve_known(substitution.drop_last(), name);
            if let Some(found) = crate::ir_let::normal_form::resolve(substitution.drop_last(), name) {
                let i = choose|i: int|
                    0 <= i < substitution.drop_last().len() && (#[trigger] substitution.drop_last()[i]).1
                        == found;
                assert(substitution[i].1 == found);
            }
        }
    }
}

impl ProgramView {
    /// Whether every name that an instruction reads is bound by the
    /// instruction's block or a block around it, or by no block of the
    /// function.
    pub open spec fn reads_in_scope(self) -> bool {
        forall|g: int, j: int, i: int, name: Name|
            0 <= g < self.functions.len() && 0 <= j < self.functions[g].blocks.len() && 0 <= i
                < self.functions[g].blocks[j].instructions.len() && #[trigger] mentions(
                self.functions[g].blocks[j].instructions[i],
                name,
            ) ==> in_scope(self.functions[g].blocks, j, name)
    }
}

/// In a program that let-normalization yields, every name is read where it
/// is in scope.
pub proof fn lemma_normal_program_reads_in_scope(e: Expr)
    ensures
        normal_program(e) matches Ok(program) ==> program.reads_in_scope(),
{
    let state = NormalizerView::initial();
    lemma_function_body_scope(e, state, toplevel_name(), Seq::empty());
    if let Ok((_, built)) = normal_function_body(e, state, toplevel_name(), Seq::empty()) {
        let limit = built.var_counter as int;
        assert forall|g: int, j: int, i: int, name: Name|
            0 <= g < built.functions.len() && 0 <= j < built.functions[g].blocks.len() && 0 <= i
                < built.functions[g].blocks[j].instructions.len() && #[trigger] mentions(
                built.functions[g].blocks[j].instructions[i],
                name,
            ) implies in_scope(built.functions[g].blocks, j, name) by {
            assert(function_scoped(built.functions[g], limit));
            assert(block_scoped(built.functions[g].blocks, j, limit));
        }
    }
}

} // verus!
