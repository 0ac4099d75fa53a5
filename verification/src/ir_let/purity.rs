//! An expression without field assignments normalizes to a program without
//! them.

use vstd::prelude::*;
use crate::ir_let::invariants::{
    lemma_emit_assignment, lemma_fresh, lemma_fresh_each, lemma_normal_block, lemma_normal_rhs,
    lemma_normal_var, lemma_open_block, lemma_start_function,
};
use crate::ir_let::let_expr::{DefinitionView, FunctionView, InstructionView};
use crate::ir_let::normal_form::{
    NormalizerView, generated_base, normal_block, normal_function_body, normal_program, normal_rhs,
    normal_var, normal_vars, toplevel_name,
};
use crate::syntax::{Expr, Name, views};

verus! {

/// Whether `e` assigns no field.
pub open spec fn sets_no_field(e: Expr) -> bool
    decreases e, 0nat,
{
    match e {
        Expr::Literal(_) => true,
        Expr::Var { .. } => true,
        Expr::Fun { body, .. } => sets_no_field(*body),
        Expr::Call { func, args } => sets_no_field(*func) && none_sets_field(args@, 0),
        Expr::Let { definition, body, .. } => sets_no_field(*definition) && sets_no_field(*body),
        Expr::If { condition, branch_success, branch_failure } => sets_no_field(*condition)
            && sets_no_field(*branch_success) && sets_no_field(*branch_failure),
        Expr::BinOp { lhs, rhs, .. } => sets_no_field(*lhs) && sets_no_field(*rhs),
        Expr::Tuple { values } => none_sets_field(values@, 0),
        Expr::SetField { .. } => false,
    }
}

/// Whether none of the expressions from position `from` on assigns a field.
pub open spec fn none_sets_field(es: Seq<Expr>, from: int) -> bool
    decreases es, es.len() - from,
{
    if from < 0 || from >= es.len() {
        true
    } else {
        sets_no_field(es[from]) && none_sets_field(es, from + 1)
    }
}

/// Whether no instruction of the functions assigns a field.
pub open spec fn field_free(functions: Seq<FunctionView>) -> bool {
    forall|g: int, j: int, i: int|
        0 <= g < functions.len() && 0 <= j < functions[g].blocks.len() && 0 <= i
            < functions[g].blocks[j].instructions.len() ==> !(
        #[trigger] functions[g].blocks[j].instructions[i] matches InstructionView::Assignment {
            definition: DefinitionView::SetField { .. },
            ..
        })
}

/// An instruction that assigns no field, at the end of the active block,
/// leaves the functions free of field assignments.
pub proof fn lemma_emit_field_free(state: NormalizerView, instruction: InstructionView)
    requires
        state.has_active_block(),
        field_free(state.functions),
        !(instruction matches InstructionView::Assignment { definition: DefinitionView::SetField { .. }, .. }),
    ensures
        field_free(state.emit(instruction).functions),
{
    let after = state.emit(instruction);
    let f = state.function_index();
    let b = state.block_index();
    assert forall|g: int, j: int, i: int|
        0 <= g < after.functions.len() && 0 <= j < after.functions[g].blocks.len() && 0 <= i
            < after.functions[g].blocks[j].instructions.len() implies !(
    #[trigger] after.functions[g].blocks[j].instructions[i] matches InstructionView::Assignment {
        definition: DefinitionView::SetField { .. },
        ..
    }) by {
        if g == f && j == b {
            if i < state.functions[g].blocks[j].instructions.len() {
                assert(after.functions[g].blocks[j].instructions[i]
                    == state.functions[g].blocks[j].instructions[i]);
            }
        } else {
            assert(after.functions[g].blocks[j].instructions[i]
                == state.functions[g].blocks[j].instructions[i]);
        }
    }
}

/// Fresh names leave the functions as they are.
proof fn lemma_fresh_each_functions(state: NormalizerView, bases: Seq<Name>, remaining: int, generated: Seq<Name>)
    ensures
        state.fresh_each(bases, remaining, generated) matches Ok((_, after)) ==> after.functions
            == state.functions,
    decreases remaining,
{
    if 0 < remaining <= bases.len() {
        if let Ok((name, following)) = state.fresh(bases[remaining - 1]) {
            lemma_fresh_each_functions(following, bases, remaining - 1, seq![name] + generated);
        }
    }
}

/// Normalizing an expression without field assignments into the active
/// block leaves the functions free of them, and yields a definition that
/// is none.
pub proof fn lemma_rhs_field_free(e: Expr, state: NormalizerView)
    requires
        state.inv(),
        state.current_block_index is Some,
        sets_no_field(e),
        field_free(state.functions),
    ensures
        normal_rhs(e, state) matches Ok((definition, after)) ==> field_free(after.functions) && !(
        definition is SetField),
    decreases e, 1nat,
{
    match e {
        Expr::Literal(_) => {},
        Expr::Var { .. } => {},
        Expr::Fun { name, arg_names, body } => {
            lemma_fresh(state, name@);
            if let Ok((unique_name, named)) = state.fresh(name@) {
                lemma_fresh_each(named, views(arg_names@), arg_names@.len() as int, Seq::empty());
                lemma_fresh_each_functions(named, views(arg_names@), arg_names@.len() as int, Seq::empty());
                if let Ok((unique_arg_names, generated)) = named.fresh_each(
                    views(arg_names@),
                    arg_names@.len() as int,
                    Seq::empty(),
                ) {
                    let bound = generated.bind_each(views(arg_names@), unique_arg_names).bind(
                        name@,
                        unique_name,
                    );
                    lemma_function_body_field_free(*body, bound, unique_name, unique_arg_names);
                }
            }
        },
        Expr::Call { func, args } => {
            lemma_normal_var(*func, state);
            lemma_var_field_free(*func, state);
            if let Ok((_, after_func)) = normal_var(*func, state) {
                lemma_vars_field_free(args@, 0, after_func, Seq::empty());
            }
        },
        Expr::BinOp { op, lhs, rhs } => {
            lemma_normal_var(*lhs, state);
            lemma_var_field_free(*lhs, state);
            if let Ok((_, after_lhs)) = normal_var(*lhs, state) {
                lemma_var_field_free(*rhs, after_lhs);
            }
        },
        Expr::Let { name, definition, body } => {
            lemma_normal_rhs(*definition, state);
            lemma_rhs_field_free(*definition, state);
            if let Ok((defined, after_definition)) = normal_rhs(*definition, state) {
                lemma_fresh(after_definition, name@);
                if let Ok((unique_name, named)) = after_definition.fresh(name@) {
                    let instruction = InstructionView::Assignment { name: unique_name, definition: defined };
                    lemma_emit_assignment(named, unique_name, defined);
                    lemma_emit_field_free(named, instruction);
                    lemma_rhs_field_free(*body, named.emit(instruction).bind(name@, unique_name));
                }
            }
        },
        Expr::If { condition, branch_success, branch_failure } => {
            lemma_normal_var(*condition, state);
            lemma_var_field_free(*condition, state);
            if let Ok((_, after_condition)) = normal_var(*condition, state) {
                lemma_normal_block(*branch_success, after_condition);
                lemma_block_field_free(*branch_success, after_condition);
                if let Ok((_, after_success)) = normal_block(*branch_success, after_condition) {
                    lemma_block_field_free(*branch_failure, after_success);
                }
            }
        },
        Expr::Tuple { values } => {
            lemma_vars_field_free(values@, 0, state, Seq::empty());
        },
        Expr::SetField { .. } => {},
    }
}

/// Normalizing an expression without field assignments to a name leaves the
/// functions free of them.
pub proof fn lemma_var_field_free(e: Expr, state: NormalizerView)
    requires
        state.inv(),
        state.current_block_index is Some,
        sets_no_field(e),
        field_free(state.functions),
    ensures
        normal_var(e, state) matches Ok((_, after)) ==> field_free(after.functions),
    decreases e, 2nat,
{
    lemma_normal_rhs(e, state);
    lemma_rhs_field_free(e, state);
    if let Ok((step, following)) = normal_rhs(e, state) {
        if !(step is Var) {
            lemma_fresh(following, generated_base());
            if let Ok((name, named)) = following.fresh(generated_base()) {
                lemma_emit_field_free(named, InstructionView::Assignment { name, definition: step });
            }
        }
    }
}

/// Normalizing expressions without field assignments to names leaves the
/// functions free of them.
pub proof fn lemma_vars_field_free(es: Seq<Expr>, from: int, state: NormalizerView, done: Seq<Name>)
    requires
        state.inv(),
        state.current_block_index is Some,
        none_sets_field(es, from),
        field_free(state.functions),
    ensures
        normal_vars(es, from, state, done) matches Ok((_, after)) ==> field_free(after.functions),
    decreases es, es.len() - from,
{
    if 0 <= from < es.len() {
        lemma_normal_var(es[from], state);
        lemma_var_field_free(es[from], state);
        if let Ok((name, following)) = normal_var(es[from], state) {
            lemma_vars_field_free(es, from + 1, following, done.push(name));
        }
    }
}

/// Normalizing an expression without field assignments into a new block
/// leaves the functions free of them.
pub proof fn lemma_block_field_free(e: Expr, state: NormalizerView)
    requires
        state.inv(),
        state.current_function_index is Some,
        sets_no_field(e),
        field_free(state.functions),
    ensures
        normal_block(e, state) matches Ok((_, after)) ==> field_free(after.functions),
    decreases e, 3nat,
{
    let f = state.function_index();
    let new = state.functions[f].blocks.len() as int;
    if new < usize::MAX {
        let added = state.with_functions(
            state.functions.update(f, state.functions[f].open_block(state.current_block_index)),
        ).with_cursor(state.current_function_index, Some(new as usize));
        assert(field_free(added.functions)) by {
            assert forall|g: int, j: int, i: int|
                0 <= g < added.functions.len() && 0 <= j < added.functions[g].blocks.len() && 0 <= i
                    < added.functions[g].blocks[j].instructions.len() implies !(
            #[trigger] added.functions[g].blocks[j].instructions[i] matches InstructionView::Assignment {
                definition: DefinitionView::SetField { .. },
                ..
            }) by {
                if g == f {
                    if j < new {
                        assert(added.functions[g].blocks[j] == state.functions[g].blocks[j]);
                        assert(added.functions[g].blocks[j].instructions[i]
                            == state.functions[g].blocks[j].instructions[i]);
                    }
                } else {
                    assert(added.functions[g].blocks[j].instructions[i]
                        == state.functions[g].blocks[j].instructions[i]);
                }
            }
        }
        lemma_emit_field_free(added, InstructionView::EnterBlock);
        let opened = added.emit(InstructionView::EnterBlock);
        lemma_open_block(state);
        lemma_normal_var(e, opened);
        lemma_var_field_free(e, opened);
        if let Ok((result, computed)) = normal_var(e, opened) {
            lemma_emit_field_free(computed, InstructionView::ExitBlock(result));
        }
    }
}

/// Normalizing an expression without field assignments into a new function
/// leaves the functions free of them.
pub proof fn lemma_function_body_field_free(e: Expr, state: NormalizerView, name: Name, arg_names: Seq<Name>)
    requires
        state.inv(),
        sets_no_field(e),
        field_free(state.functions),
    ensures
        normal_function_body(e, state, name, arg_names) matches Ok((_, after)) ==> field_free(
            after.functions,
        ),
    decreases e, 4nat,
{
    let h = state.functions.len() as int;
    if h < usize::MAX {
        let started = state.with_functions(
            state.functions.push(FunctionView { name, arg_names, free_names: None, blocks: Seq::empty() }),
        ).with_cursor(Some(h as usize), None);
        assert(field_free(started.functions)) by {
            assert forall|g: int, j: int, i: int|
                0 <= g < started.functions.len() && 0 <= j < started.functions[g].blocks.len() && 0 <= i
                    < started.functions[g].blocks[j].instructions.len() implies !(
            #[trigger] started.functions[g].blocks[j].instructions[i] matches InstructionView::Assignment {
                definition: DefinitionView::SetField { .. },
                ..
            }) by {
                assert(started.functions[g] == state.functions[g]);
            }
        }
        lemma_start_function(state, name, arg_names);
        lemma_normal_block(e, started);
        lemma_block_field_free(e, started);
        if let Ok((body, built)) = normal_block(e, started) {
            let free_names = crate::ir_let::free_vars::free_names_of(
                built.functions[h].blocks,
                name,
                arg_names,
                body.block_index as int,
            );
            let finished = built.functions.update(h, built.functions[h].with_free_names(free_names));
            assert forall|g: int, j: int, i: int|
                0 <= g < finished.len() && 0 <= j < finished[g].blocks.len() && 0 <= i
                    < finished[g].blocks[j].instructions.len() implies !(
            #[trigger] finished[g].blocks[j].instructions[i] matches InstructionView::Assignment {
                definition: DefinitionView::SetField { .. },
                ..
            }) by {
                assert(finished[g].blocks[j].instructions[i] == built.functions[g].blocks[j].instructions[i]);
            }
        }
    }
}

/// The program of an expression without field assignments assigns no
/// field.
pub proof fn lemma_normal_program_field_free(e: Expr)
    requires
        sets_no_field(e),
    ensures
        normal_program(e) matches Ok(program) ==> program.assigns_no_field(),
{
    lemma_function_body_field_free(e, NormalizerView::initial(), toplevel_name(), Seq::empty());
}

} // verus!
