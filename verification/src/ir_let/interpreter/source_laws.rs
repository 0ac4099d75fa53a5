//! Renaming back: the program of an expression in which no function binds
//! a name twice computes the same with the names that the expression wrote.
//!
//! Let-normalization gives every binder a name of its own, derived from the
//! name that the expression wrote. A call binds names of one function only,
//! so it is enough that the written names of each function are different:
//! those that the function binds itself, in its parameters and its
//! let-bindings, and those that it may read from around it. Two functions
//! may bind the same name, and a let-binding may give a function the name
//! that the function has for itself. Where a function binds a name twice,
//! the two bindings would fall together in one call, and the program with
//! the written names may compute something else.

use vstd::prelude::*;
use crate::fault::RuntimeFault;
use crate::ir_let::binders::lemma_toplevel_ends_in_no_digit;
use crate::ir_let::capture_scope::lemma_fun_captures_known;
use crate::ir_let::closedness::listed;
use crate::ir_let::free_vars::free_names_of;
use crate::ir_let::free_vars_laws::{definition_mentions, lemma_free_names, mentioned_in, mentions};
use crate::ir_let::interpreter::calls::{
    apart_in_functions, apart_on, at_instruction, frame_names,
    lemma_renamed_in_functions_computes_the_same,
};
use crate::ir_let::interpreter::machine::{Machine, Progress, run};
use crate::ir_let::interpreter::renaming::rename_program;
use crate::ir_let::interpreter::renaming_laws::back_to_source;
use crate::ir_let::invariants::{
    lemma_emit_assignment, lemma_fresh, lemma_fresh_each, lemma_normal_block,
    lemma_normal_function_body, lemma_normal_program_well_formed, lemma_normal_rhs,
    lemma_normal_var, lemma_normal_vars, lemma_open_block, lemma_start_function,
};
use crate::ir_let::let_expr::{DefinitionView, FunctionView, InstructionView, TargetAddress};
use crate::ir_let::names::{
    ends_in_digit, fresh_name, generation, lemma_fresh_name_ends_in_digit,
    lemma_generation_of_fresh_name, lemma_source_of_fresh_name, source_name,
};
use crate::ir_let::normal_form::{
    NormalizerView, generated_base, normal_block, normal_function_body, normal_program, normal_rhs,
    normal_var, normal_vars, toplevel_name,
};
use crate::ir_let::scoping::known;
use crate::ir_let::scoping_laws::{lemma_fresh_each_len, lemma_resolve_known};
use crate::syntax::{Expr, Name, views};

verus! {

/// Whether `name` can be told from the name of the function that holds the
/// outermost expression and from every name generated for an intermediate
/// value: it is neither the base of these names nor derived from it.
pub open spec fn plain(name: Name) -> bool {
    name != toplevel_name() && name != generated_base() && source_name(name) != generated_base()
}

/// The name that `name` was derived from, or `name` itself where it stands
/// for no written name.
pub open spec fn written(name: Name) -> Name {
    back_to_source()(name)
}

/// Whether every name of `names` is the name of the outermost function or
/// was generated below `limit`, for an intermediate value or from a name of
/// `used`; the names of `used` are plain; and different names of `names`
/// were derived from different names.
pub open spec fn sourced(names: Set<Name>, used: Set<Name>, limit: int) -> bool {
    &&& forall|base: Name| used.contains(base) ==> plain(base)
    &&& forall|name: Name| #[trigger]
        names.contains(name) ==> name == toplevel_name() || (ends_in_digit(name) && generation(name) < limit
            && (source_name(name) == generated_base() || used.contains(source_name(name))))
    &&& forall|a: Name, b: Name|
        names.contains(a) && names.contains(b) && #[trigger] written(a) == #[trigger] written(b) ==> a == b
}

/// The name of the outermost function stands for itself.
pub proof fn lemma_written_toplevel()
    ensures
        written(toplevel_name()) == toplevel_name(),
{
    lemma_toplevel_ends_in_no_digit();
    let name = toplevel_name();
    assert(crate::ir_let::names::without_numeral(name) == name);
}

/// What one of the names was derived from: the name of the outermost
/// function is itself, a name generated for an intermediate value too, and
/// any other was derived from a name of `used`.
pub proof fn lemma_written_of(names: Set<Name>, used: Set<Name>, limit: int, name: Name)
    requires
        sourced(names, used, limit),
        names.contains(name),
    ensures
        name == toplevel_name() || (written(name) == name && ends_in_digit(name) && source_name(name)
            == generated_base()) || (used.contains(written(name)) && plain(written(name))),
        written(name) != generated_base(),
{
    lemma_written_toplevel();
}

/// A name generated at the limit or above, for an intermediate value or
/// from a plain name that was not used before, can join the names.
pub proof fn lemma_fresh_sourced(names: Set<Name>, used: Set<Name>, limit: int, base: Name, count: nat)
    requires
        sourced(names, used, limit),
        count >= limit,
        base == generated_base() || (plain(base) && !used.contains(base)),
    ensures
        sourced(
            names.insert(fresh_name(base, count)),
            if base == generated_base() {
                used
            } else {
                used.insert(base)
            },
            count as int + 1,
        ),
{
    let new = fresh_name(base, count);
    let more = names.insert(new);
    let bases = if base == generated_base() {
        used
    } else {
        used.insert(base)
    };
    lemma_fresh_name_ends_in_digit(base, count);
    lemma_generation_of_fresh_name(base, count);
    lemma_source_of_fresh_name(base, count);
    lemma_toplevel_ends_in_no_digit();
    lemma_written_toplevel();
    assert(written(new) == if base == generated_base() {
        new
    } else {
        base
    });
    assert forall|a: Name, b: Name|
        more.contains(a) && more.contains(b) && #[trigger] written(a) == #[trigger] written(b) implies a
        == b by {
        if a != b {
            if a == new {
                assert(names.contains(b));
                lemma_written_of(names, used, limit, b);
            } else if b == new {
                assert(names.contains(a));
                lemma_written_of(names, used, limit, a);
            }
        }
    }
}

/// Fresh names for parameters that are plain, different and not used before
/// can join the names.
pub proof fn lemma_fresh_each_sourced(
    state: NormalizerView,
    bases: Seq<Name>,
    remaining: int,
    generated: Seq<Name>,
    names: Set<Name>,
    used: Set<Name>,
) -> (out: (Set<Name>, Set<Name>))
    requires
        0 <= remaining <= bases.len(),
        sourced(names, used, state.var_counter as int),
        forall|q: int| 0 <= q < remaining ==> plain(#[trigger] bases[q]) && !used.contains(bases[q]),
        forall|p: int, q: int| 0 <= p < q < remaining ==> bases[p] != bases[q],
        forall|k: int| 0 <= k < generated.len() ==> names.contains(#[trigger] generated[k]),
    ensures
        state.fresh_each(bases, remaining, generated) matches Ok((result, after)) ==> {
            &&& sourced(out.0, out.1, after.var_counter as int)
            &&& names.subset_of(out.0)
            &&& forall|k: int| 0 <= k < result.len() ==> out.0.contains(#[trigger] result[k])
            &&& forall|base: Name| #[trigger]
                out.1.contains(base) <==> used.contains(base) || exists|q: int|
                    0 <= q < remaining && bases[q] == base
            &&& after.functions == state.functions
            &&& after.substitution == state.substitution
        },
    decreases remaining,
{
    if remaining > 0 {
        let base = bases[remaining - 1];
        if let Ok((name, following)) = state.fresh(base) {
            lemma_fresh_sourced(names, used, state.var_counter as int, base, state.var_counter as nat);
            let more = names.insert(name);
            let bases_used = used.insert(base);
            let longer = seq![name] + generated;
            assert forall|k: int| 0 <= k < longer.len() implies more.contains(#[trigger] longer[k]) by {
                if k > 0 {
                    assert(longer[k] == generated[k - 1]);
                }
            }
            let out = lemma_fresh_each_sourced(following, bases, remaining - 1, longer, more, bases_used);
            if let Ok((result, after)) = following.fresh_each(bases, remaining - 1, longer) {
                assert forall|written_base: Name| #[trigger]
                    out.1.contains(written_base) <==> used.contains(written_base) || exists|q: int|
                        0 <= q < remaining && bases[q] == written_base by {
                    if out.1.contains(written_base) && !used.contains(written_base) {
                        if written_base == base {
                            assert(bases[remaining - 1] == written_base);
                        } else {
                            let q = choose|q: int| 0 <= q < remaining - 1 && bases[q] == written_base;
                            assert(bases[q] == written_base);
                        }
                    }
                    if exists|q: int| 0 <= q < remaining && bases[q] == written_base {
                        let q = choose|q: int| 0 <= q < remaining && bases[q] == written_base;
                        if q < remaining - 1 {
                            assert(bases[q] == written_base);
                        }
                    }
                }
            }
            out
        } else {
            (names, used)
        }
    } else {
        (names, used)
    }
}

/// The names that the let-bindings of `e` bind in the function that `e`
/// stands in: not those that the functions of `e` bind.
pub open spec fn local_names(e: Expr) -> Set<Name>
    decreases e, 0nat,
{
    match e {
        Expr::Literal(_) => Set::empty(),
        Expr::Var { .. } => Set::empty(),
        Expr::Fun { .. } => Set::empty(),
        Expr::Call { func, args } => local_names(*func).union(local_names_from(args@, 0)),
        Expr::Let { name, definition, body } => local_names(*definition).union(local_names(*body)).insert(
            name@,
        ),
        Expr::If { condition, branch_success, branch_failure } => local_names(*condition).union(
            local_names(*branch_success),
        ).union(local_names(*branch_failure)),
        Expr::BinOp { lhs, rhs, .. } => local_names(*lhs).union(local_names(*rhs)),
        Expr::Tuple { values } => local_names_from(values@, 0),
        Expr::SetField { tuple, new_expr, .. } => local_names(*tuple).union(local_names(*new_expr)),
    }
}

/// The same of the expressions from position `from` on.
pub open spec fn local_names_from(es: Seq<Expr>, from: int) -> Set<Name>
    decreases es, es.len() - from,
{
    if from < 0 || from >= es.len() {
        Set::empty()
    } else {
        local_names(es[from]).union(local_names_from(es, from + 1))
    }
}

/// The names used in a function: those used around it, its own name and
/// its parameters.
pub open spec fn used_inside(used: Set<Name>, name: Name, arg_names: Seq<Name>) -> Set<Name> {
    used.insert(name).union(Set::new(|n: Name| listed(arg_names, n)))
}

/// Whether `e` binds plain names only, each of them once in its function
/// and none of them a name of `used`: the names that were bound before in
/// the function that `e` stands in, or around that function.
pub open spec fn binds_apart(e: Expr, used: Set<Name>) -> bool
    decreases e, 0nat,
{
    match e {
        Expr::Literal(_) => true,
        Expr::Var { .. } => true,
        Expr::Fun { name, arg_names, body } => {
            &&& plain(name@)
            &&& !used.contains(name@)
            &&& forall|q: int|
                0 <= q < arg_names@.len() ==> plain(#[trigger] views(arg_names@)[q]) && !used.contains(
                    views(arg_names@)[q],
                )
            &&& views(arg_names@).no_duplicates()
            &&& !views(arg_names@).contains(name@)
            &&& binds_apart(*body, used_inside(used, name@, views(arg_names@)))
        },
        Expr::Call { func, args } => binds_apart(*func, used) && all_bind_apart(
            args@,
            0,
            used.union(local_names(*func)),
        ),
        Expr::Let { name, definition, body } => {
            &&& binds_apart(*definition, used)
            &&& plain(name@)
            &&& !used.contains(name@)
            &&& !local_names(*definition).contains(name@)
            &&& binds_apart(*body, used.union(local_names(*definition)).insert(name@))
        },
        Expr::If { condition, branch_success, branch_failure } => {
            &&& binds_apart(*condition, used)
            &&& binds_apart(*branch_success, used.union(local_names(*condition)))
            &&& binds_apart(
                *branch_failure,
                used.union(local_names(*condition)).union(local_names(*branch_success)),
            )
        },
        Expr::BinOp { lhs, rhs, .. } => binds_apart(*lhs, used) && binds_apart(
            *rhs,
            used.union(local_names(*lhs)),
        ),
        Expr::Tuple { values } => all_bind_apart(values@, 0, used),
        Expr::SetField { tuple, new_expr, .. } => binds_apart(*tuple, used) && binds_apart(
            *new_expr,
            used.union(local_names(*tuple)),
        ),
    }
}

/// The same of the expressions from position `from` on, one after the
/// other.
pub open spec fn all_bind_apart(es: Seq<Expr>, from: int, used: Set<Name>) -> bool
    decreases es, es.len() - from,
{
    if from < 0 || from >= es.len() {
        true
    } else {
        binds_apart(es[from], used) && all_bind_apart(es, from + 1, used.union(local_names(es[from])))
    }
}

/// Whether every name of the active function, and every name that stands
/// for a name in scope, is one of `names`.
pub open spec fn held(state: NormalizerView, names: Set<Name>) -> bool {
    &&& forall|name: Name| #[trigger]
        frame_names(state.functions[state.function_index()], name) ==> names.contains(name)
    &&& forall|i: int| 0 <= i < state.substitution.len() ==> names.contains((#[trigger] state.substitution[i]).1)
}

/// Whether the functions added since `before` keep their names different
/// when the written names are put back.
pub open spec fn added_apart(before: NormalizerView, after: NormalizerView) -> bool {
    forall|g: int|
        before.functions.len() <= g < after.functions.len() ==> apart_on(
            back_to_source(),
            #[trigger] after.functions[g],
        )
}

/// What a step of the build in the active function leaves: its names among
/// `out`, which were derived from different names, those used before and
/// those of `bound`; and the functions added with their names different.
pub open spec fn kept_apart(
    state: NormalizerView,
    after: NormalizerView,
    names: Set<Name>,
    used: Set<Name>,
    bound: Set<Name>,
    out: Set<Name>,
) -> bool {
    &&& held(after, out)
    &&& sourced(out, used.union(bound), after.var_counter as int)
    &&& names.subset_of(out)
    &&& added_apart(state, after)
}

/// Names generated below a limit were generated below any higher one.
pub proof fn lemma_sourced_later(names: Set<Name>, used: Set<Name>, limit: int, later: int)
    requires
        sourced(names, used, limit),
        limit <= later,
    ensures
        sourced(names, used, later),
{
}

/// An instruction at the end of the active block whose names are among
/// `names` leaves the names of the active function among them.
pub proof fn lemma_held_after_emit(state: NormalizerView, instruction: InstructionView, names: Set<Name>)
    requires
        state.has_active_block(),
        held(state, names),
        forall|name: Name| at_instruction(instruction, name) ==> names.contains(name),
    ensures
        held(state.emit(instruction), names),
{
    let after = state.emit(instruction);
    let f = state.function_index();
    let b = state.block_index();
    let before = state.functions[f];
    let grown = after.functions[f];
    assert(grown.blocks[b].instructions == before.blocks[b].instructions.push(instruction));
    assert forall|name: Name| #[trigger] frame_names(grown, name) implies names.contains(name) by {
        if !(grown.name == name || grown.arg_names.contains(name) || (grown.free_names matches Some(free)
            && free.contains(name))) {
            let (j, i) = choose|j: int, i: int|
                0 <= j < grown.blocks.len() && 0 <= i < grown.blocks[j].instructions.len() && at_instruction(
                    #[trigger] grown.blocks[j].instructions[i],
                    name,
                );
            if j == b && i == before.blocks[b].instructions.len() {
                assert(grown.blocks[j].instructions[i] == instruction);
            } else {
                if j != b {
                    assert(grown.blocks[j] == before.blocks[j]);
                }
                assert(at_instruction(before.blocks[j].instructions[i], name));
                assert(frame_names(before, name));
            }
        } else {
            assert(frame_names(before, name));
        }
    }
}

/// A new block adds no name to the active function.
pub proof fn lemma_held_after_open(state: NormalizerView, names: Set<Name>)
    requires
        state.has_active_function(),
        held(state, names),
    ensures
        held(
            state.with_functions(
                state.functions.update(
                    state.function_index(),
                    state.functions[state.function_index()].open_block(state.current_block_index),
                ),
            ).with_cursor(
                state.current_function_index,
                Some(state.functions[state.function_index()].blocks.len() as usize),
            ),
            names,
        ),
{
    let f = state.function_index();
    let before = state.functions[f];
    let grown = before.open_block(state.current_block_index);
    assert forall|name: Name| #[trigger] frame_names(grown, name) implies names.contains(name) by {
        if !(grown.name == name || grown.arg_names.contains(name) || (grown.free_names matches Some(free)
            && free.contains(name))) {
            let (j, i) = choose|j: int, i: int|
                0 <= j < grown.blocks.len() && 0 <= i < grown.blocks[j].instructions.len() && at_instruction(
                    #[trigger] grown.blocks[j].instructions[i],
                    name,
                );
            assert(j < before.blocks.len());
            assert(grown.blocks[j] == before.blocks[j]);
            assert(at_instruction(before.blocks[j].instructions[i], name));
        }
        assert(frame_names(before, name));
    }
}

/// Functions added in two steps, the second of which left those of the
/// first as they were, were added over both.
pub proof fn lemma_added_composes(first: NormalizerView, second: NormalizerView, third: NormalizerView)
    requires
        added_apart(first, second),
        added_apart(second, third),
        first.functions.len() <= second.functions.len() <= third.functions.len(),
        forall|g: int|
            first.functions.len() <= g < second.functions.len() ==> #[trigger] third.functions[g]
                == second.functions[g],
    ensures
        added_apart(first, third),
{
    assert forall|g: int| first.functions.len() <= g < third.functions.len() implies apart_on(
        back_to_source(),
        #[trigger] third.functions[g],
    ) by {
        if g < second.functions.len() {
            assert(third.functions[g] == second.functions[g]);
        }
    }
}

/// Two steps in the active function, one after the other.
pub proof fn lemma_kept_composes(
    state: NormalizerView,
    middle: NormalizerView,
    after: NormalizerView,
    names: Set<Name>,
    used: Set<Name>,
    first_bound: Set<Name>,
    second_bound: Set<Name>,
    first_out: Set<Name>,
    out: Set<Name>,
)
    requires
        state.has_active_block(),
        state.grows_to(middle),
        middle.grows_to(after),
        kept_apart(state, middle, names, used, first_bound, first_out),
        kept_apart(middle, after, first_out, used.union(first_bound), second_bound, out),
    ensures
        kept_apart(state, after, names, used, first_bound.union(second_bound), out),
{
    assert(used.union(first_bound).union(second_bound) =~= used.union(first_bound.union(second_bound)));
    assert forall|g: int| state.functions.len() <= g < middle.functions.len() implies #[trigger] after.functions[g]
        == middle.functions[g] by {}
    lemma_added_composes(state, middle, after);
}

/// What normalizing an expression does to the names of the active
/// function, where the expression binds no name of the function twice:
/// they stay derived from different names, and so do the names of each
/// function that is added.
pub proof fn lemma_rhs_apart(e: Expr, state: NormalizerView, names: Set<Name>, used: Set<Name>) -> (out: Set<Name>)
    requires
        state.inv(),
        state.current_block_index is Some,
        held(state, names),
        sourced(names, used, state.var_counter as int),
        binds_apart(e, used),
    ensures
        normal_rhs(e, state) matches Ok((definition, after)) ==> kept_apart(
            state,
            after,
            names,
            used,
            local_names(e),
            out,
        ) && forall|name: Name| definition_mentions(definition, name) ==> out.contains(name),
    decreases e, 1nat,
{
    match e {
        Expr::Literal(_) => {
            assert(used.union(local_names(e)) =~= used);
            names
        },
        Expr::Var { var_name } => {
            lemma_resolve_known(state.substitution, var_name@);
            assert(used.union(local_names(e)) =~= used);
            names
        },
        Expr::Fun { .. } => lemma_fun_apart(e, state, names, used),
        Expr::Call { .. } => lemma_call_apart(e, state, names, used),
        Expr::BinOp { .. } => lemma_pair_apart(e, state, names, used),
        Expr::SetField { .. } => lemma_pair_apart(e, state, names, used),
        Expr::Let { .. } => lemma_let_apart(e, state, names, used),
        Expr::If { .. } => lemma_if_apart(e, state, names, used),
        Expr::Tuple { values } => {
            lemma_normal_vars(values@, 0, state, Seq::empty());
            let out = lemma_vars_apart(values@, 0, state, Seq::empty(), names, used);
            if let Ok((found, after)) = normal_vars(values@, 0, state, Seq::empty()) {
                let definition = DefinitionView::Tuple { args: found };
                assert forall|name: Name| definition_mentions(definition, name) implies out.contains(name) by {
                    let k = choose|k: int| 0 <= k < found.len() && found[k] == name;
                    assert(out.contains(found[k]));
                }
            }
            out
        },
    }
}

/// The same of a function: the function that is added keeps its names
/// different, and the active function reads the names that it captures.
proof fn lemma_fun_apart(e: Expr, state: NormalizerView, names: Set<Name>, used: Set<Name>) -> (out: Set<Name>)
    requires
        state.inv(),
        state.current_block_index is Some,
        held(state, names),
        sourced(names, used, state.var_counter as int),
        binds_apart(e, used),
        e is Fun,
    ensures
        normal_rhs(e, state) matches Ok((definition, after)) ==> kept_apart(
            state,
            after,
            names,
            used,
            local_names(e),
            out,
        ) && forall|name: Name| definition_mentions(definition, name) ==> out.contains(name),
    decreases e, 0nat,
{
    if let Expr::Fun { name, arg_names, body } = e {
        let f = state.function_index();
        let bases = views(arg_names@);
        let inner = used_inside(used, name@, bases);
        lemma_normal_rhs(e, state);
        lemma_fun_captures_known(e, state);
        lemma_fresh(state, name@);
        if let Ok((unique_name, named)) = state.fresh(name@) {
            lemma_fresh_sourced(names, used, state.var_counter as int, name@, state.var_counter as nat);
            let names_1 = names.insert(unique_name);
            let used_1 = used.insert(name@);
            lemma_fresh_each(named, bases, bases.len() as int, Seq::empty());
            assert forall|q: int| 0 <= q < bases.len() implies plain(#[trigger] bases[q]) && !used_1.contains(
                bases[q],
            ) by {
                assert(bases.contains(bases[q]));
            }
            let out_2 = lemma_fresh_each_sourced(named, bases, bases.len() as int, Seq::empty(), names_1, used_1);
            if let Ok((unique_arg_names, generated)) = named.fresh_each(bases, bases.len() as int, Seq::empty()) {
                let bound = generated.bind_each(bases, unique_arg_names).bind(name@, unique_name);
                let depth = state.substitution.len() as int;
                lemma_fresh_each_len(named, bases, bases.len() as int, Seq::empty());
                assert(out_2.1 =~= inner) by {
                    assert forall|base: Name| out_2.1.contains(base) <==> inner.contains(base) by {
                        if out_2.1.contains(base) && !used_1.contains(base) {
                            let q = choose|q: int| 0 <= q < bases.len() && bases[q] == base;
                            assert(listed(bases, bases[q]));
                        }
                        if listed(bases, base) {
                            let q = choose|q: int| 0 <= q < bases.len() && bases[q] == base;
                            assert(out_2.1.contains(base));
                        }
                    }
                }
                assert forall|i: int| 0 <= i < bound.substitution.len() implies out_2.0.contains(
                    (#[trigger] bound.substitution[i]).1,
                ) by {
                    if i < depth {
                        assert(bound.substitution[i] == state.substitution[i]);
                        assert(names.contains(state.substitution[i].1));
                        assert(names_1.contains(state.substitution[i].1));
                    } else if i < depth + bases.len() {
                        assert(bound.substitution[i].1 == unique_arg_names[i - depth]);
                    } else {
                        assert(bound.substitution[i].1 == unique_name);
                        assert(names_1.contains(unique_name));
                    }
                }
                assert(out_2.0.contains(unique_name)) by {
                    assert(names_1.contains(unique_name));
                }
                lemma_normal_function_body(*body, bound, unique_name, unique_arg_names);
                lemma_function_body_apart(*body, bound, unique_name, unique_arg_names, out_2.0, inner);
                if let Ok((closure, lifted)) = normal_function_body(*body, bound, unique_name, unique_arg_names) {
                    let after = lifted.restore(depth);
                    let definition = DefinitionView::Fun(closure);
                    assert(lifted.functions[f] == state.functions[f]);
                    assert(used.union(local_names(e)) =~= used);
                    lemma_sourced_later(names, used, state.var_counter as int, after.var_counter as int);
                    assert(held(after, names));
                    assert forall|read: Name| definition_mentions(definition, read) implies names.contains(
                        read,
                    ) by {
                        assert(closure.free_names.contains(read));
                        assert(known(state.substitution, read));
                        let i = choose|i: int|
                            0 <= i < state.substitution.len() && (#[trigger] state.substitution[i]).1 == read;
                        assert(names.contains(state.substitution[i].1));
                    }
                }
            }
        }
    }
    names
}

/// The same of a call.
proof fn lemma_call_apart(e: Expr, state: NormalizerView, names: Set<Name>, used: Set<Name>) -> (out: Set<Name>)
    requires
        state.inv(),
        state.current_block_index is Some,
        held(state, names),
        sourced(names, used, state.var_counter as int),
        binds_apart(e, used),
        e is Call,
    ensures
        normal_rhs(e, state) matches Ok((definition, after)) ==> kept_apart(
            state,
            after,
            names,
            used,
            local_names(e),
            out,
        ) && forall|name: Name| definition_mentions(definition, name) ==> out.contains(name),
    decreases e, 0nat,
{
    if let Expr::Call { func, args } = e {
        lemma_normal_var(*func, state);
        let out_1 = lemma_var_apart(*func, state, names, used);
        if let Ok((func_name, after_func)) = normal_var(*func, state) {
            lemma_normal_vars(args@, 0, after_func, Seq::empty());
            let out = lemma_vars_apart(
                args@,
                0,
                after_func,
                Seq::empty(),
                out_1,
                used.union(local_names(*func)),
            );
            if let Ok((found, after)) = normal_vars(args@, 0, after_func, Seq::empty()) {
                lemma_kept_composes(
                    state,
                    after_func,
                    after,
                    names,
                    used,
                    local_names(*func),
                    local_names_from(args@, 0),
                    out_1,
                    out,
                );
                let definition = DefinitionView::Call { func: func_name, args: found };
                assert forall|name: Name| definition_mentions(definition, name) implies out.contains(name) by {
                    if name != func_name {
                        let k = choose|k: int| 0 <= k < found.len() && found[k] == name;
                        assert(out.contains(found[k]));
                    } else {
                        assert(out_1.contains(name));
                    }
                }
            }
            out
        } else {
            names
        }
    } else {
        names
    }
}

/// The same of an operation on two operands.
proof fn lemma_pair_apart(e: Expr, state: NormalizerView, names: Set<Name>, used: Set<Name>) -> (out: Set<Name>)
    requires
        state.inv(),
        state.current_block_index is Some,
        held(state, names),
        sourced(names, used, state.var_counter as int),
        binds_apart(e, used),
        e is BinOp || e is SetField,
    ensures
        normal_rhs(e, state) matches Ok((definition, after)) ==> kept_apart(
            state,
            after,
            names,
            used,
            local_names(e),
            out,
        ) && forall|name: Name| definition_mentions(definition, name) ==> out.contains(name),
    decreases e, 0nat,
{
    let (first, second) = match e {
        Expr::BinOp { lhs, rhs, .. } => (*lhs, *rhs),
        Expr::SetField { tuple, new_expr, .. } => (*tuple, *new_expr),
        _ => (e, e),
    };
    lemma_normal_var(first, state);
    let out_1 = lemma_var_apart(first, state, names, used);
    if let Ok((first_name, after_first)) = normal_var(first, state) {
        lemma_normal_var(second, after_first);
        let out = lemma_var_apart(second, after_first, out_1, used.union(local_names(first)));
        if let Ok((second_name, after)) = normal_var(second, after_first) {
            lemma_kept_composes(
                state,
                after_first,
                after,
                names,
                used,
                local_names(first),
                local_names(second),
                out_1,
                out,
            );
            assert(out_1.contains(first_name));
        }
        out
    } else {
        names
    }
}

/// The same of a binding.
proof fn lemma_let_apart(e: Expr, state: NormalizerView, names: Set<Name>, used: Set<Name>) -> (out: Set<Name>)
    requires
        state.inv(),
        state.current_block_index is Some,
        held(state, names),
        sourced(names, used, state.var_counter as int),
        binds_apart(e, used),
        e is Let,
    ensures
        normal_rhs(e, state) matches Ok((definition, after)) ==> kept_apart(
            state,
            after,
            names,
            used,
            local_names(e),
            out,
        ) && forall|name: Name| definition_mentions(definition, name) ==> out.contains(name),
    decreases e, 0nat,
{
    if let Expr::Let { name, definition, body } = e {
        lemma_normal_rhs(*definition, state);
        let out_1 = lemma_rhs_apart(*definition, state, names, used);
        if let Ok((defined, after_definition)) = normal_rhs(*definition, state) {
            let used_1 = used.union(local_names(*definition));
            lemma_fresh(after_definition, name@);
            if let Ok((unique_name, named)) = after_definition.fresh(name@) {
                lemma_fresh_sourced(
                    out_1,
                    used_1,
                    after_definition.var_counter as int,
                    name@,
                    after_definition.var_counter as nat,
                );
                let names_2 = out_1.insert(unique_name);
                let used_2 = used_1.insert(name@);
                let instruction = InstructionView::Assignment { name: unique_name, definition: defined };
                assert(held(named, names_2)) by {
                    assert forall|held_name: Name| #[trigger]
                        frame_names(named.functions[named.function_index()], held_name) implies names_2.contains(
                        held_name,
                    ) by {
                        assert(out_1.contains(held_name));
                    }
                    assert forall|i: int| 0 <= i < named.substitution.len() implies names_2.contains(
                        (#[trigger] named.substitution[i]).1,
                    ) by {
                        assert(out_1.contains(after_definition.substitution[i].1));
                    }
                }
                assert forall|held_name: Name| at_instruction(instruction, held_name) implies names_2.contains(
                    held_name,
                ) by {
                    if held_name != unique_name {
                        assert(definition_mentions(defined, held_name));
                        assert(out_1.contains(held_name));
                    }
                }
                lemma_emit_assignment(named, unique_name, defined);
                lemma_held_after_emit(named, instruction, names_2);
                let emitted = named.emit(instruction);
                let bound = emitted.bind(name@, unique_name);
                assert(held(bound, names_2)) by {
                    assert forall|i: int| 0 <= i < bound.substitution.len() implies names_2.contains(
                        (#[trigger] bound.substitution[i]).1,
                    ) by {
                        if i < emitted.substitution.len() {
                            assert(bound.substitution[i] == emitted.substitution[i]);
                        }
                    }
                }
                lemma_normal_rhs(*body, bound);
                let out = lemma_rhs_apart(*body, bound, names_2, used_2);
                if let Ok((result, after_body)) = normal_rhs(*body, bound) {
                    let after = after_body.restore(state.substitution.len() as int);
                    assert(held(after, out)) by {
                        assert forall|i: int| 0 <= i < after.substitution.len() implies out.contains(
                            (#[trigger] after.substitution[i]).1,
                        ) by {
                            assert(after.substitution[i] == after_body.substitution[i]);
                        }
                    }
                    assert(used_2.union(local_names(*body)) =~= used.union(local_names(e)));
                    assert(names.subset_of(out)) by {
                        assert forall|held_name: Name| names.contains(held_name) implies out.contains(
                            held_name,
                        ) by {
                            assert(out_1.contains(held_name));
                            assert(names_2.contains(held_name));
                        }
                    }
                    assert(added_apart(state, after)) by {
                        assert forall|g: int|
                            state.functions.len() <= g < after_definition.functions.len() implies #[trigger] after.functions[g]
                            == after_definition.functions[g] by {
                            assert(emitted.functions[g] == named.functions[g]);
                            assert(after_body.functions[g] == bound.functions[g]);
                        }
                        assert forall|g: int| state.functions.len() <= g < after.functions.len() implies apart_on(
                            back_to_source(),
                            #[trigger] after.functions[g],
                        ) by {
                            if g < after_definition.functions.len() {
                                assert(after.functions[g] == after_definition.functions[g]);
                            }
                        }
                    }
                }
                out
            } else {
                names
            }
        } else {
            names
        }
    } else {
        names
    }
}

/// The same of a conditional.
proof fn lemma_if_apart(e: Expr, state: NormalizerView, names: Set<Name>, used: Set<Name>) -> (out: Set<Name>)
    requires
        state.inv(),
        state.current_block_index is Some,
        held(state, names),
        sourced(names, used, state.var_counter as int),
        binds_apart(e, used),
        e is If,
    ensures
        normal_rhs(e, state) matches Ok((definition, after)) ==> kept_apart(
            state,
            after,
            names,
            used,
            local_names(e),
            out,
        ) && forall|name: Name| definition_mentions(definition, name) ==> out.contains(name),
    decreases e, 0nat,
{
    if let Expr::If { condition, branch_success, branch_failure } = e {
        lemma_normal_var(*condition, state);
        let out_1 = lemma_var_apart(*condition, state, names, used);
        if let Ok((condition_name, after_condition)) = normal_var(*condition, state) {
            let used_1 = used.union(local_names(*condition));
            lemma_normal_block(*branch_success, after_condition);
            let out_2 = lemma_block_apart(*branch_success, after_condition, out_1, used_1);
            if let Ok((success, after_success)) = normal_block(*branch_success, after_condition) {
                let used_2 = used_1.union(local_names(*branch_success));
                lemma_normal_block(*branch_failure, after_success);
                let out = lemma_block_apart(*branch_failure, after_success, out_2, used_2);
                if let Ok((failure, after)) = normal_block(*branch_failure, after_success) {
                    crate::ir_let::invariants::lemma_block_growth_is_growth(
                        after_condition,
                        after_success,
                        success,
                    );
                    crate::ir_let::invariants::lemma_block_growth_is_growth(after_success, after, failure);
                    lemma_kept_composes(
                        state,
                        after_condition,
                        after_success,
                        names,
                        used,
                        local_names(*condition),
                        local_names(*branch_success),
                        out_1,
                        out_2,
                    );
                    crate::ir_let::invariants::lemma_growth_composes(state, after_condition, after_success);
                    lemma_kept_composes(
                        state,
                        after_success,
                        after,
                        names,
                        used,
                        local_names(*condition).union(local_names(*branch_success)),
                        local_names(*branch_failure),
                        out_2,
                        out,
                    );
                    assert(out_1.contains(condition_name));
                    assert(out_2.contains(condition_name));
                }
                out
            } else {
                names
            }
        } else {
            names
        }
    } else {
        names
    }
}

/// What normalizing an expression to a name does to the names of the
/// active function.
pub proof fn lemma_var_apart(e: Expr, state: NormalizerView, names: Set<Name>, used: Set<Name>) -> (out: Set<Name>)
    requires
        state.inv(),
        state.current_block_index is Some,
        held(state, names),
        sourced(names, used, state.var_counter as int),
        binds_apart(e, used),
    ensures
        normal_var(e, state) matches Ok((name, after)) ==> kept_apart(
            state,
            after,
            names,
            used,
            local_names(e),
            out,
        ) && out.contains(name),
    decreases e, 2nat,
{
    lemma_normal_rhs(e, state);
    let out_1 = lemma_rhs_apart(e, state, names, used);
    if let Ok((step, following)) = normal_rhs(e, state) {
        if let DefinitionView::Var(name) = step {
            assert(definition_mentions(step, name));
            out_1
        } else {
            lemma_fresh(following, generated_base());
            if let Ok((name, named)) = following.fresh(generated_base()) {
                lemma_fresh_sourced(
                    out_1,
                    used.union(local_names(e)),
                    following.var_counter as int,
                    generated_base(),
                    following.var_counter as nat,
                );
                let more = out_1.insert(name);
                let instruction = InstructionView::Assignment { name, definition: step };
                assert(held(named, more)) by {
                    assert forall|held_name: Name| #[trigger]
                        frame_names(named.functions[named.function_index()], held_name) implies more.contains(
                        held_name,
                    ) by {
                        assert(out_1.contains(held_name));
                    }
                    assert forall|i: int| 0 <= i < named.substitution.len() implies more.contains(
                        (#[trigger] named.substitution[i]).1,
                    ) by {
                        assert(out_1.contains(following.substitution[i].1));
                    }
                }
                assert forall|held_name: Name| at_instruction(instruction, held_name) implies more.contains(
                    held_name,
                ) by {
                    if held_name != name {
                        assert(definition_mentions(step, held_name));
                        assert(out_1.contains(held_name));
                    }
                }
                lemma_emit_assignment(named, name, step);
                lemma_held_after_emit(named, instruction, more);
                let after = named.emit(instruction);
                assert(added_apart(state, after)) by {
                    assert forall|g: int| state.functions.len() <= g < after.functions.len() implies apart_on(
                        back_to_source(),
                        #[trigger] after.functions[g],
                    ) by {
                        assert(after.functions[g] == following.functions[g]);
                    }
                }
                more
            } else {
                names
            }
        }
    } else {
        names
    }
}

/// What normalizing expressions to names, one after the other, does to the
/// names of the active function.
pub proof fn lemma_vars_apart(
    es: Seq<Expr>,
    from: int,
    state: NormalizerView,
    done: Seq<Name>,
    names: Set<Name>,
    used: Set<Name>,
) -> (out: Set<Name>)
    requires
        state.inv(),
        state.current_block_index is Some,
        held(state, names),
        sourced(names, used, state.var_counter as int),
        all_bind_apart(es, from, used),
        forall|k: int| 0 <= k < done.len() ==> names.contains(#[trigger] done[k]),
    ensures
        normal_vars(es, from, state, done) matches Ok((found, after)) ==> kept_apart(
            state,
            after,
            names,
            used,
            local_names_from(es, from),
            out,
        ) && forall|k: int| 0 <= k < found.len() ==> out.contains(#[trigger] found[k]),
    decreases es, es.len() - from,
{
    if 0 <= from < es.len() {
        lemma_normal_var(es[from], state);
        let out_1 = lemma_var_apart(es[from], state, names, used);
        if let Ok((name, following)) = normal_var(es[from], state) {
            let longer = done.push(name);
            assert forall|k: int| 0 <= k < longer.len() implies out_1.contains(#[trigger] longer[k]) by {
                if k < done.len() {
                    assert(names.contains(done[k]));
                }
            }
            lemma_normal_vars(es, from + 1, following, longer);
            let out = lemma_vars_apart(es, from + 1, following, longer, out_1, used.union(local_names(es[from])));
            if let Ok((found, after)) = normal_vars(es, from + 1, following, longer) {
                lemma_kept_composes(
                    state,
                    following,
                    after,
                    names,
                    used,
                    local_names(es[from]),
                    local_names_from(es, from + 1),
                    out_1,
                    out,
                );
            }
            out
        } else {
            names
        }
    } else {
        assert(used.union(local_names_from(es, from)) =~= used);
        names
    }
}

/// What normalizing an expression into a new block does to the names of
/// the active function.
pub proof fn lemma_block_apart(e: Expr, state: NormalizerView, names: Set<Name>, used: Set<Name>) -> (out: Set<Name>)
    requires
        state.inv(),
        state.current_function_index is Some,
        held(state, names),
        sourced(names, used, state.var_counter as int),
        binds_apart(e, used),
    ensures
        normal_block(e, state) matches Ok((_, after)) ==> kept_apart(
            state,
            after,
            names,
            used,
            local_names(e),
            out,
        ),
    decreases e, 3nat,
{
    let f = state.function_index();
    let new_block_index = state.functions[f].blocks.len() as usize;
    let added = state.with_functions(
        state.functions.update(f, state.functions[f].open_block(state.current_block_index)),
    ).with_cursor(state.current_function_index, Some(new_block_index));
    let opened = added.emit(InstructionView::EnterBlock);
    if state.functions[f].blocks.len() < usize::MAX {
        lemma_open_block(state);
        lemma_held_after_open(state, names);
        lemma_held_after_emit(added, InstructionView::EnterBlock, names);
        lemma_normal_var(e, opened);
        let out = lemma_var_apart(e, opened, names, used);
        if let Ok((result, computed)) = normal_var(e, opened) {
            lemma_held_after_emit(computed, InstructionView::ExitBlock(result), out);
            let after = computed.emit(InstructionView::ExitBlock(result)).with_cursor(
                state.current_function_index,
                state.current_block_index,
            );
            assert(added_apart(state, after)) by {
                assert forall|g: int| state.functions.len() <= g < after.functions.len() implies apart_on(
                    back_to_source(),
                    #[trigger] after.functions[g],
                ) by {
                    assert(after.functions[g] == computed.functions[g]);
                }
            }
            let exited = computed.emit(InstructionView::ExitBlock(result));
            assert(held(exited, out));
            assert(computed.current_function_index == state.current_function_index);
            assert(after.functions == exited.functions);
            assert(after.function_index() == exited.function_index());
            assert(after.substitution == exited.substitution);
            assert(held(after, out));
        }
        out
    } else {
        names
    }
}

/// A function whose body binds no name twice keeps its names different
/// when the written names are put back, and so does each function in it.
pub proof fn lemma_function_body_apart(
    e: Expr,
    state: NormalizerView,
    name: Name,
    arg_names: Seq<Name>,
    names: Set<Name>,
    used: Set<Name>,
)
    requires
        state.inv(),
        sourced(names, used, state.var_counter as int),
        names.contains(name),
        forall|q: int| 0 <= q < arg_names.len() ==> names.contains(#[trigger] arg_names[q]),
        forall|i: int| 0 <= i < state.substitution.len() ==> names.contains((#[trigger] state.substitution[i]).1),
        binds_apart(e, used),
    ensures
        normal_function_body(e, state, name, arg_names) matches Ok((_, after)) ==> added_apart(state, after),
    decreases e, 4nat,
{
    let h = state.functions.len() as int;
    let started = state.with_functions(
        state.functions.push(FunctionView { name, arg_names, free_names: None, blocks: Seq::empty() }),
    ).with_cursor(Some(h as usize), None);
    if state.functions.len() < usize::MAX {
        lemma_start_function(state, name, arg_names);
        assert(held(started, names)) by {
            assert forall|held_name: Name| #[trigger] frame_names(started.functions[h], held_name) implies names.contains(
                held_name,
            ) by {
                if arg_names.contains(held_name) {
                    let q = choose|q: int| 0 <= q < arg_names.len() && arg_names[q] == held_name;
                    assert(names.contains(arg_names[q]));
                }
            }
        }
        lemma_normal_block(e, started);
        let out = lemma_block_apart(e, started, names, used);
        if let Ok((body, built)) = normal_block(e, started) {
            let blocks = built.functions[h].blocks;
            let free_names = free_names_of(blocks, name, arg_names, body.block_index as int);
            lemma_free_names(blocks, name, arg_names, body.block_index as int);
            let finished = built.functions.update(h, built.functions[h].with_free_names(free_names));
            assert forall|g: int| h <= g < finished.len() implies apart_on(back_to_source(), #[trigger] finished[g]) by {
                if g == h {
                    let before = built.functions[h];
                    let after = finished[h];
                    assert forall|held_name: Name| frame_names(after, held_name) implies out.contains(
                        held_name,
                    ) by {
                        if free_names.contains(held_name) {
                            assert(free_names_of(blocks, name, arg_names, body.block_index as int).contains(
                                held_name,
                            ));
                            assert(mentioned_in(blocks, held_name));
                            let (j, i) = choose|j: int, i: int|
                                0 <= j < before.blocks.len() && 0 <= i < before.blocks[j].instructions.len()
                                    && mentions(#[trigger] before.blocks[j].instructions[i], held_name);
                            assert(at_instruction(before.blocks[j].instructions[i], held_name));
                            assert(frame_names(before, held_name));
                        } else if !(after.name == held_name || after.arg_names.contains(held_name)) {
                            let (j, i) = choose|j: int, i: int|
                                0 <= j < after.blocks.len() && 0 <= i < after.blocks[j].instructions.len()
                                    && at_instruction(#[trigger] after.blocks[j].instructions[i], held_name);
                            assert(at_instruction(before.blocks[j].instructions[i], held_name));
                            assert(frame_names(before, held_name));
                        } else {
                            assert(frame_names(before, held_name));
                        }
                    }
                    assert forall|a: Name, b: Name|
                        frame_names(after, a) && frame_names(after, b) && #[trigger] back_to_source()(a)
                            == #[trigger] back_to_source()(b) implies a == b by {
                        assert(out.contains(a) && out.contains(b));
                        assert(written(a) == written(b));
                    }
                } else {
                    assert(finished[g] == built.functions[g]);
                }
            }
        }
    }
}

/// In the program of an expression in which no function binds a name
/// twice, the written names of each function are different.
pub proof fn lemma_normal_program_apart_in_functions(e: Expr)
    requires
        binds_apart(e, Set::empty()),
    ensures
        normal_program(e) matches Ok(program) ==> apart_in_functions(back_to_source(), program),
{
    let state = NormalizerView::initial();
    let names = Set::<Name>::empty().insert(toplevel_name());
    lemma_written_toplevel();
    lemma_function_body_apart(e, state, toplevel_name(), Seq::empty(), names, Set::empty());
}

/// The program of an expression in which no function binds a name twice
/// computes the same with the names that the expression wrote in place of
/// the generated ones: the same fault, the same place after as many
/// instructions, or the same result, a closure for a closure.
pub proof fn lemma_normalized_renamed_back_computes_the_same(e: Expr, pc: TargetAddress, budget: nat)
    requires
        binds_apart(e, Set::empty()),
    ensures
        normal_program(e) matches Ok(program) ==> match run(program, Machine::initial(), pc, budget) {
            Ok(Progress::Finished(_, value)) => run(
                rename_program(back_to_source(), program),
                Machine::initial(),
                pc,
                budget,
            ) matches Ok(Progress::Finished(_, renamed)) && (value is Closure <==> renamed is Closure) && (
            !(value is Closure) ==> renamed == value),
            Ok(Progress::Running(_, target)) => run(
                rename_program(back_to_source(), program),
                Machine::initial(),
                pc,
                budget,
            ) matches Ok(Progress::Running(_, renamed_target)) && renamed_target == target,
            Err(fault) => run(rename_program(back_to_source(), program), Machine::initial(), pc, budget)
                == Err::<Progress, RuntimeFault>(fault),
        },
{
    lemma_normal_program_apart_in_functions(e);
    lemma_normal_program_well_formed(e);
    if let Ok(program) = normal_program(e) {
        lemma_renamed_in_functions_computes_the_same(back_to_source(), program, pc, budget);
    }
}

} // verus!
