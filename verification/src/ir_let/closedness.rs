//! Which expressions let-normalization rejects for a variable: those that
//! read a name that nothing around the read binds.

use vstd::prelude::*;
use crate::fault::BuildErrorView;
use crate::ir_let::normal_form::{
    NormalizerView, normal_block, normal_function_body, normal_program, normal_rhs, normal_var,
    normal_vars, resolve, toplevel_name,
};
use crate::syntax::{Expr, Name, views};

verus! {

/// Whether `name` is among `names`.
pub open spec fn listed(names: Seq<Name>, name: Name) -> bool {
    names.contains(name)
}

/// Whether every variable that `e` reads is bound around the read, by a
/// let-binding, as a parameter or as the name of a function, or is in
/// `scope`.
pub open spec fn closed_in(e: Expr, scope: Set<Name>) -> bool
    decreases e, 0nat,
{
    match e {
        Expr::Literal(_) => true,
        Expr::Var { var_name } => scope.contains(var_name@),
        Expr::Fun { name, arg_names, body } => closed_in(
            *body,
            scope.union(Set::new(|n: Name| listed(views(arg_names@), n))).insert(name@),
        ),
        Expr::Call { func, args } => closed_in(*func, scope) && all_closed_in(args@, 0, scope),
        Expr::Let { name, definition, body } => closed_in(*definition, scope) && closed_in(
            *body,
            scope.insert(name@),
        ),
        Expr::If { condition, branch_success, branch_failure } => closed_in(*condition, scope) && closed_in(
            *branch_success,
            scope,
        ) && closed_in(*branch_failure, scope),
        Expr::BinOp { lhs, rhs, .. } => closed_in(*lhs, scope) && closed_in(*rhs, scope),
        Expr::Tuple { values } => all_closed_in(values@, 0, scope),
        Expr::SetField { tuple, new_expr, .. } => closed_in(*tuple, scope) && closed_in(*new_expr, scope),
    }
}

/// Whether each of the expressions from position `from` on is closed in
/// `scope`.
pub open spec fn all_closed_in(es: Seq<Expr>, from: int, scope: Set<Name>) -> bool
    decreases es, es.len() - from,
{
    if from < 0 || from >= es.len() {
        true
    } else {
        closed_in(es[from], scope) && all_closed_in(es, from + 1, scope)
    }
}

/// Whether every variable that `e` reads is bound around the read.
pub open spec fn closed(e: Expr) -> bool {
    closed_in(e, Set::empty())
}

/// The names that have a replacement in some scope.
pub open spec fn names_in_scope(substitution: Seq<(Name, Name)>) -> Set<Name> {
    Set::new(|n: Name| exists|i: int| 0 <= i < substitution.len() && (#[trigger] substitution[i]).0 == n)
}

/// A name resolves exactly if it has a replacement in some scope.
pub proof fn lemma_resolve_in_scope(substitution: Seq<(Name, Name)>, name: Name)
    ensures
        resolve(substitution, name) is Some <==> names_in_scope(substitution).contains(name),
    decreases substitution.len(),
{
    if substitution.len() > 0 {
        let shorter = substitution.drop_last();
        lemma_resolve_in_scope(shorter, name);
        if substitution.last().0 == name {
            assert(substitution[substitution.len() - 1].0 == name);
        } else {
            if names_in_scope(substitution).contains(name) {
                let i = choose|i: int| 0 <= i < substitution.len() && (#[trigger] substitution[i]).0 == name;
                assert(shorter[i].0 == name);
            }
            if names_in_scope(shorter).contains(name) {
                let i = choose|i: int| 0 <= i < shorter.len() && (#[trigger] shorter[i]).0 == name;
                assert(substitution[i].0 == name);
            }
        }
    }
}

/// Whether a step of the build did with the expression what its variables
/// call for: no variable is missed where all are bound, the build fails
/// where one is not, and the scopes are back as they were.
pub open spec fn respects<T>(
    outcome: Result<(T, NormalizerView), BuildErrorView>,
    state: NormalizerView,
    all_bound: bool,
) -> bool {
    &&& outcome matches Ok((_, after)) ==> after.substitution == state.substitution
    &&& all_bound ==> !(outcome matches Err(BuildErrorView::UnboundVariable { .. }))
    &&& !all_bound ==> outcome is Err
}

/// Fresh names leave the scopes as they were.
proof fn lemma_fresh_each_scopes(state: NormalizerView, bases: Seq<Name>, remaining: int, generated: Seq<Name>)
    ensures
        state.fresh_each(bases, remaining, generated) matches Ok((_, after)) ==> after.substitution
            == state.substitution,
        !(state.fresh_each(bases, remaining, generated) matches Err(BuildErrorView::UnboundVariable { .. })),
    decreases remaining,
{
    if 0 < remaining <= bases.len() {
        if let Ok((name, following)) = state.fresh(bases[remaining - 1]) {
            lemma_fresh_each_scopes(following, bases, remaining - 1, seq![name] + generated);
        }
    }
}

/// What the variables of an expression mean for its normalization into the
/// active block.
pub proof fn lemma_rhs_closed(e: Expr, state: NormalizerView)
    ensures
        respects(normal_rhs(e, state), state, closed_in(e, names_in_scope(state.substitution))),
    decreases e, 1nat,
{
    let scope = names_in_scope(state.substitution);
    match e {
        Expr::Literal(_) => {},
        Expr::Var { var_name } => {
            lemma_resolve_in_scope(state.substitution, var_name@);
        },
        Expr::Fun { name, arg_names, body } => {
            if let Ok((unique_name, named)) = state.fresh(name@) {
                let bases = views(arg_names@);
                lemma_fresh_each_scopes(named, bases, arg_names@.len() as int, Seq::empty());
                if let Ok((unique_arg_names, generated)) = named.fresh_each(
                    bases,
                    arg_names@.len() as int,
                    Seq::empty(),
                ) {
                    let bound = generated.bind_each(bases, unique_arg_names).bind(name@, unique_name);
                    let inner = scope.union(Set::new(|n: Name| listed(bases, n))).insert(name@);
                    assert(names_in_scope(bound.substitution) =~= inner) by {
                        let depth = state.substitution.len() as int;
                        assert forall|n: Name| names_in_scope(bound.substitution).contains(n) implies inner.contains(
                            n,
                        ) by {
                            let i = choose|i: int|
                                0 <= i < bound.substitution.len() && (#[trigger] bound.substitution[i]).0 == n;
                            if i < depth {
                                assert(state.substitution[i].0 == n);
                            } else if i < depth + bases.len() {
                                assert(bases[i - depth] == n);
                            }
                        }
                        assert forall|n: Name| inner.contains(n) implies names_in_scope(
                            bound.substitution,
                        ).contains(n) by {
                            if n == name@ {
                                assert(bound.substitution[bound.substitution.len() - 1].0 == n);
                            } else if listed(bases, n) {
                                let k = choose|k: int| 0 <= k < bases.len() && bases[k] == n;
                                assert(bound.substitution[depth + k].0 == n);
                            } else {
                                let i = choose|i: int|
                                    0 <= i < state.substitution.len() && (#[trigger] state.substitution[i]).0
                                        == n;
                                assert(bound.substitution[i].0 == n);
                            }
                        }
                    }
                    lemma_function_body_closed(*body, bound, unique_name, unique_arg_names);
                    if let Ok((_, lifted)) = normal_function_body(*body, bound, unique_name, unique_arg_names) {
                        assert(lifted.restore(state.substitution.len() as int).substitution
                            =~= state.substitution);
                    }
                }
            }
        },
        Expr::Call { func, args } => {
            lemma_var_closed(*func, state);
            if let Ok((_, after_func)) = normal_var(*func, state) {
                lemma_vars_closed(args@, 0, after_func, Seq::empty());
            }
        },
        Expr::BinOp { op, lhs, rhs } => {
            lemma_var_closed(*lhs, state);
            if let Ok((_, after_lhs)) = normal_var(*lhs, state) {
                lemma_var_closed(*rhs, after_lhs);
            }
        },
        Expr::Let { name, definition, body } => {
            lemma_rhs_closed(*definition, state);
            if let Ok((defined, after_definition)) = normal_rhs(*definition, state) {
                if let Ok((unique_name, named)) = after_definition.fresh(name@) {
                    let bound = named.emit(
                        crate::ir_let::let_expr::InstructionView::Assignment {
                            name: unique_name,
                            definition: defined,
                        },
                    ).bind(name@, unique_name);
                    assert(names_in_scope(bound.substitution) =~= scope.insert(name@)) by {
                        assert forall|n: Name| names_in_scope(bound.substitution).contains(n) implies scope.insert(
                            name@,
                        ).contains(n) by {
                            let i = choose|i: int|
                                0 <= i < bound.substitution.len() && (#[trigger] bound.substitution[i]).0 == n;
                            if i < state.substitution.len() {
                                assert(state.substitution[i].0 == n);
                            }
                        }
                        assert forall|n: Name| scope.insert(name@).contains(n) implies names_in_scope(
                            bound.substitution,
                        ).contains(n) by {
                            if n == name@ {
                                assert(bound.substitution[bound.substitution.len() - 1].0 == n);
                            } else {
                                let i = choose|i: int|
                                    0 <= i < state.substitution.len() && (#[trigger] state.substitution[i]).0
                                        == n;
                                assert(bound.substitution[i].0 == n);
                            }
                        }
                    }
                    lemma_rhs_closed(*body, bound);
                    if let Ok((_, after_body)) = normal_rhs(*body, bound) {
                        assert(after_body.restore(state.substitution.len() as int).substitution
                            =~= state.substitution);
                    }
                }
            }
        },
        Expr::If { condition, branch_success, branch_failure } => {
            lemma_var_closed(*condition, state);
            if let Ok((_, after_condition)) = normal_var(*condition, state) {
                lemma_block_closed(*branch_success, after_condition);
                if let Ok((_, after_success)) = normal_block(*branch_success, after_condition) {
                    lemma_block_closed(*branch_failure, after_success);
                }
            }
        },
        Expr::Tuple { values } => {
            lemma_vars_closed(values@, 0, state, Seq::empty());
        },
        Expr::SetField { tuple, index, new_expr } => {
            lemma_var_closed(*tuple, state);
            if let Ok((_, after_tuple)) = normal_var(*tuple, state) {
                lemma_var_closed(*new_expr, after_tuple);
            }
        },
    }
}

/// What the variables of an expression mean for its normalization to a
/// name.
pub proof fn lemma_var_closed(e: Expr, state: NormalizerView)
    ensures
        respects(normal_var(e, state), state, closed_in(e, names_in_scope(state.substitution))),
    decreases e, 2nat,
{
    lemma_rhs_closed(e, state);
}

/// What the variables of expressions mean for their normalization to names.
pub proof fn lemma_vars_closed(es: Seq<Expr>, from: int, state: NormalizerView, done: Seq<Name>)
    ensures
        respects(
            normal_vars(es, from, state, done),
            state,
            all_closed_in(es, from, names_in_scope(state.substitution)),
        ),
    decreases es, es.len() - from,
{
    if 0 <= from < es.len() {
        lemma_var_closed(es[from], state);
        if let Ok((name, following)) = normal_var(es[from], state) {
            lemma_vars_closed(es, from + 1, following, done.push(name));
        }
    }
}

/// What the variables of an expression mean for its normalization into a
/// new block.
pub proof fn lemma_block_closed(e: Expr, state: NormalizerView)
    ensures
        respects(normal_block(e, state), state, closed_in(e, names_in_scope(state.substitution))),
    decreases e, 3nat,
{
    let f = state.function_index();
    let opened = state.with_functions(
        state.functions.update(f, state.functions[f].open_block(state.current_block_index)),
    ).with_cursor(state.current_function_index, Some(state.functions[f].blocks.len() as usize)).emit(
        crate::ir_let::let_expr::InstructionView::EnterBlock,
    );
    lemma_var_closed(e, opened);
}

/// What the variables of an expression mean for its normalization into a
/// new function.
pub proof fn lemma_function_body_closed(e: Expr, state: NormalizerView, name: Name, arg_names: Seq<Name>)
    ensures
        respects(
            normal_function_body(e, state, name, arg_names),
            state,
            closed_in(e, names_in_scope(state.substitution)),
        ),
    decreases e, 4nat,
{
    let started = state.with_functions(
        state.functions.push(
            crate::ir_let::let_expr::FunctionView { name, arg_names, free_names: None, blocks: Seq::empty() },
        ),
    ).with_cursor(Some(state.functions.len() as usize), None);
    lemma_block_closed(e, started);
}

/// Let-normalization fails for a variable only where the expression reads
/// one that nothing binds, and fails wherever it reads one.
pub proof fn lemma_normal_program_closed(e: Expr)
    ensures
        closed(e) ==> !(normal_program(e) matches Err(BuildErrorView::UnboundVariable { .. })),
        !closed(e) ==> normal_program(e) is Err,
{
    let state = NormalizerView::initial();
    assert(names_in_scope(state.substitution) =~= Set::empty());
    lemma_function_body_closed(e, state, toplevel_name(), Seq::empty());
}

} // verus!
