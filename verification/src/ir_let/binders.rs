//! The names of a normalized program: every binder is new.
//!
//! The count at which a name was generated can be read back from the name,
//! and the counter only goes up. So the names that a block binds were
//! generated at rising counts, the parameters of a function at falling
//! counts, and no block binds a name twice. A name is bound as soon as it
//! has been generated, so every name bound before it is older: no name is
//! bound by two functions either.

use vstd::prelude::*;
use crate::ir_flat::frame_layout::assigned_names;
use crate::ir_let::free_vars::free_names_of;
use crate::ir_let::free_vars_laws::lemma_free_names;
use crate::ir_let::invariants::{
    lemma_fresh, lemma_fresh_each, lemma_normal_block, lemma_normal_rhs, lemma_normal_var,
    lemma_open_block, lemma_start_function,
};
use crate::ir_let::let_expr::{DefinitionView, FunctionView, InstructionView, ProgramView};
use crate::ir_let::names::{
    ends_in_digit, generation, lemma_fresh_name_ends_in_digit, lemma_generation_of_fresh_name,
};
use crate::ir_let::normal_form::{
    NormalizerView, generated_base, normal_block, normal_function_body, normal_program, normal_rhs,
    normal_var, normal_vars, toplevel_name,
};
use crate::ir_let::well_formed::{block_ok, function_ok, instruction_ok};
use crate::syntax::{Expr, Name, views};

verus! {

/// Whether the names were generated at rising counts, all below `limit`.
pub open spec fn ascending(names: Seq<Name>, limit: int) -> bool {
    &&& forall|p: int, q: int|
        0 <= p < q < names.len() ==> generation(#[trigger] names[p]) < generation(#[trigger] names[q])
    &&& forall|p: int| 0 <= p < names.len() ==> generation(#[trigger] names[p]) < limit
}

/// Whether the names were generated at falling counts, all below `limit`.
pub open spec fn descending(names: Seq<Name>, limit: int) -> bool {
    &&& forall|p: int, q: int|
        0 <= p < q < names.len() ==> generation(#[trigger] names[p]) > generation(#[trigger] names[q])
    &&& forall|p: int| 0 <= p < names.len() ==> generation(#[trigger] names[p]) < limit
}

/// Names generated at rising counts are different names.
pub proof fn lemma_ascending_distinct(names: Seq<Name>, limit: int)
    requires
        ascending(names, limit),
    ensures
        names.no_duplicates(),
{
    assert forall|p: int, q: int| 0 <= p < names.len() && 0 <= q < names.len() && p != q implies names[p]
        != names[q] by {
        if p < q {
            assert(generation(names[p]) < generation(names[q]));
        } else {
            assert(generation(names[q]) < generation(names[p]));
        }
    }
}

/// Names generated at falling counts are different names.
pub proof fn lemma_descending_distinct(names: Seq<Name>, limit: int)
    requires
        descending(names, limit),
    ensures
        names.no_duplicates(),
{
    assert forall|p: int, q: int| 0 <= p < names.len() && 0 <= q < names.len() && p != q implies names[p]
        != names[q] by {
        if p < q {
            assert(generation(names[p]) > generation(names[q]));
        } else {
            assert(generation(names[q]) > generation(names[p]));
        }
    }
}

/// An assignment at the end of a block adds its name to the names that the
/// block binds; an entry or an exit adds none.
pub proof fn lemma_assigned_names_push(instructions: Seq<InstructionView>, instruction: InstructionView)
    ensures
        assigned_names(instructions.push(instruction)) == (match instruction {
            InstructionView::Assignment { name, .. } => assigned_names(instructions).push(name),
            _ => assigned_names(instructions),
        }),
{
    assert(instructions.push(instruction).drop_last() =~= instructions);
}

/// Whether the binders of a function are in order: its parameters were
/// generated at falling counts, the names that each of its blocks binds at
/// rising counts, all below `limit`; and its captured names, if known, hold
/// no name twice.
pub open spec fn function_names_ok(function: FunctionView, limit: int) -> bool {
    &&& descending(function.arg_names, limit)
    &&& forall|j: int|
        0 <= j < function.blocks.len() ==> ascending(
            assigned_names((#[trigger] function.blocks[j]).instructions),
            limit,
        )
    &&& function.free_names matches Some(free) ==> free.no_duplicates()
}

/// Whether the binders of every function are in order.
pub open spec fn names_ok(functions: Seq<FunctionView>, limit: int) -> bool {
    forall|g: int| 0 <= g < functions.len() ==> function_names_ok(#[trigger] functions[g], limit)
}

/// The `p`th name that block `j` binds.
pub open spec fn binder(function: FunctionView, j: int, p: int) -> Name {
    assigned_names(function.blocks[j].instructions)[p]
}

/// Whether `p` is a place among the names that block `j` binds.
pub open spec fn binds_at(function: FunctionView, j: int, p: int) -> bool {
    0 <= j < function.blocks.len() && 0 <= p < assigned_names(function.blocks[j].instructions).len()
}

/// Whether `name` is that of a lifted function whose name was generated
/// before its parameters, or that of the function that holds the program's
/// outermost expression.
pub open spec fn named_before(name: Name, arg_names: Seq<Name>, limit: int) -> bool {
    (name == toplevel_name() && arg_names.len() == 0) || (generation(name) < limit && forall|q: int|
        0 <= q < arg_names.len() ==> generation(name) < generation(#[trigger] arg_names[q]))
}

/// Whether the binders of a function are apart: the names that different
/// blocks bind were generated at different counts, all after the
/// parameters, which were generated after the function's own name; and
/// every name that a block binds ends in a digit.
pub open spec fn function_names_apart(function: FunctionView, limit: int) -> bool {
    &&& forall|j: int, p: int, k: int, q: int|
        binds_at(function, j, p) && binds_at(function, k, q) && j != k ==> generation(
            #[trigger] binder(function, j, p),
        ) != generation(#[trigger] binder(function, k, q))
    &&& forall|j: int, p: int, q: int|
        binds_at(function, j, p) && 0 <= q < function.arg_names.len() ==> generation(
            #[trigger] function.arg_names[q],
        ) < generation(#[trigger] binder(function, j, p))
    &&& named_before(function.name, function.arg_names, limit)
    &&& forall|j: int, p: int|
        binds_at(function, j, p) ==> ends_in_digit(#[trigger] binder(function, j, p)) && (function.name
            != toplevel_name() ==> generation(function.name) < generation(binder(function, j, p)))
}

/// Whether the binders of every function are apart.
pub open spec fn names_apart(functions: Seq<FunctionView>, limit: int) -> bool {
    forall|g: int| 0 <= g < functions.len() ==> function_names_apart(#[trigger] functions[g], limit)
}

/// Whether `function` binds `name`: as its own name, as a parameter, or in
/// one of its blocks. Nothing binds the name of the function that holds the
/// program's outermost expression.
pub open spec fn binds(function: FunctionView, name: Name) -> bool {
    ||| function.name == name && name != toplevel_name()
    ||| function.arg_names.contains(name)
    ||| exists|j: int, p: int| binds_at(function, j, p) && #[trigger] binder(function, j, p) == name
}

/// Whether no name is bound by two functions.
pub open spec fn functions_apart(functions: Seq<FunctionView>) -> bool {
    forall|g: int, h: int, name: Name|
        0 <= g < functions.len() && 0 <= h < functions.len() && g != h && #[trigger] binds(
            functions[g],
            name,
        ) ==> !#[trigger] binds(functions[h], name)
}

/// Whether no function binds `name` or one of `arg_names`.
pub open spec fn unbound_in(functions: Seq<FunctionView>, name: Name, arg_names: Seq<Name>) -> bool {
    forall|h: int, bound: Name|
        0 <= h < functions.len() && #[trigger] binds(functions[h], bound) ==> bound != name
            && !arg_names.contains(bound)
}

impl NormalizerView {
    /// What holds of the binders in every state of a build.
    pub open spec fn names_inv(self) -> bool {
        &&& names_ok(self.functions, self.var_counter as int)
        &&& names_apart(self.functions, self.var_counter as int)
        &&& functions_apart(self.functions)
    }
}

/// A name that a function binds was generated below the limit under which
/// the function's binders are in order.
pub proof fn lemma_bound_below(function: FunctionView, limit: int, name: Name)
    requires
        function_names_ok(function, limit),
        function_names_apart(function, limit),
        binds(function, name),
    ensures
        generation(name) < limit,
{
    if function.name == name && name != toplevel_name() {
    } else if function.arg_names.contains(name) {
        let q = choose|q: int| 0 <= q < function.arg_names.len() && function.arg_names[q] == name;
        assert(generation(function.arg_names[q]) < limit);
    } else {
        let (j, p) = choose|j: int, p: int| binds_at(function, j, p) && #[trigger] binder(function, j, p) == name;
        assert(ascending(assigned_names(function.blocks[j].instructions), limit));
    }
}

/// Names generated at the limit under which the binders are in order, or
/// later, are bound by no function.
pub proof fn lemma_young_names_unbound(functions: Seq<FunctionView>, limit: int, name: Name, arg_names: Seq<Name>)
    requires
        names_ok(functions, limit),
        names_apart(functions, limit),
        generation(name) >= limit,
        forall|q: int| 0 <= q < arg_names.len() ==> generation(#[trigger] arg_names[q]) >= limit,
    ensures
        unbound_in(functions, name, arg_names),
{
    assert forall|h: int, older: Name| 0 <= h < functions.len() && #[trigger] binds(functions[h], older) implies older
        != name && !arg_names.contains(older) by {
        lemma_bound_below(functions[h], limit, older);
        if arg_names.contains(older) {
            let q = choose|q: int| 0 <= q < arg_names.len() && arg_names[q] == older;
            assert(generation(arg_names[q]) >= limit);
        }
    }
}

/// A function whose name and parameters are those of another, and whose
/// blocks bind what the other's bound, binds only what the other bound.
pub proof fn lemma_binds_kept(before: FunctionView, after: FunctionView)
    requires
        after.name == before.name,
        after.arg_names == before.arg_names,
        forall|j: int, p: int| #[trigger]
            binds_at(after, j, p) ==> binds_at(before, j, p) && binder(after, j, p) == binder(before, j, p),
    ensures
        forall|name: Name| #[trigger] binds(after, name) ==> binds(before, name),
{
    assert forall|name: Name| #[trigger] binds(after, name) implies binds(before, name) by {
        if !(after.name == name && name != toplevel_name()) && !after.arg_names.contains(name) {
            let (j, p) = choose|j: int, p: int| binds_at(after, j, p) && #[trigger] binder(after, j, p) == name;
            assert(binds_at(before, j, p) && binder(before, j, p) == name);
        }
    }
}

/// Functions that bind only what they bound are still apart.
pub proof fn lemma_apart_kept(before: Seq<FunctionView>, after: Seq<FunctionView>)
    requires
        functions_apart(before),
        after.len() == before.len(),
        forall|g: int, name: Name|
            0 <= g < after.len() && #[trigger] binds(after[g], name) ==> binds(before[g], name),
    ensures
        functions_apart(after),
{
    assert forall|g: int, h: int, name: Name|
        0 <= g < after.len() && 0 <= h < after.len() && g != h && #[trigger] binds(after[g], name) implies !#[trigger] binds(
        after[h],
        name,
    ) by {
        assert(binds(before[g], name));
        if binds(after[h], name) {
            assert(binds(before[h], name));
        }
    }
}

/// Whether every name that a function binds is bound once: no block binds a
/// name twice, no two blocks bind the same name, no parameter occurs twice
/// or is bound by a block, and the function's own name is neither a
/// parameter nor bound by a block.
pub open spec fn binders_unique(function: FunctionView) -> bool {
    &&& forall|j: int, p: int, k: int, q: int|
        binds_at(function, j, p) && binds_at(function, k, q) && (j != k || p != q) ==> #[trigger] binder(
            function,
            j,
            p,
        ) != #[trigger] binder(function, k, q)
    &&& function.arg_names.no_duplicates()
    &&& forall|j: int, p: int, q: int|
        binds_at(function, j, p) && 0 <= q < function.arg_names.len() ==> #[trigger] function.arg_names[q]
            != #[trigger] binder(function, j, p)
    &&& forall|q: int| 0 <= q < function.arg_names.len() ==> #[trigger] function.arg_names[q] != function.name
    &&& forall|j: int, p: int| binds_at(function, j, p) ==> #[trigger] binder(function, j, p) != function.name
}

impl ProgramView {
    /// Whether every name that a function binds is bound once in the whole
    /// program, and no function has a captured name twice.
    pub open spec fn binders_distinct(self) -> bool {
        &&& functions_apart(self.functions)
        &&& forall|g: int|
            #![trigger self.functions[g]]
            0 <= g < self.functions.len() ==> {
                &&& binders_unique(self.functions[g])
                &&& self.functions[g].free_names matches Some(free) ==> free.no_duplicates()
                &&& forall|j: int|
                    0 <= j < self.functions[g].blocks.len() ==> assigned_names(
                        (#[trigger] self.functions[g].blocks[j]).instructions,
                    ).no_duplicates()
            }
    }
}

/// The name of the function that holds the outermost expression ends in no
/// digit.
pub proof fn lemma_toplevel_ends_in_no_digit()
    ensures
        !ends_in_digit(toplevel_name()),
{
    assert(toplevel_name().last() == 'l');
}

/// The binders of a function that are in order and apart are each bound
/// once.
pub proof fn lemma_binders_unique(function: FunctionView, limit: int)
    requires
        function_names_ok(function, limit),
        function_names_apart(function, limit),
    ensures
        binders_unique(function),
{
    lemma_toplevel_ends_in_no_digit();
    lemma_descending_distinct(function.arg_names, limit);
    assert forall|j: int, p: int, k: int, q: int|
        binds_at(function, j, p) && binds_at(function, k, q) && (j != k || p != q) implies #[trigger] binder(
        function,
        j,
        p,
    ) != #[trigger] binder(function, k, q) by {
        if j == k {
            let names = assigned_names(function.blocks[j].instructions);
            assert(ascending(names, limit));
            lemma_ascending_distinct(names, limit);
        } else {
            assert(generation(binder(function, j, p)) != generation(binder(function, k, q)));
        }
    }
    assert forall|j: int, p: int, q: int|
        binds_at(function, j, p) && 0 <= q < function.arg_names.len() implies #[trigger] function.arg_names[q]
        != #[trigger] binder(function, j, p) by {
        assert(generation(function.arg_names[q]) < generation(binder(function, j, p)));
    }
    assert forall|j: int, p: int| binds_at(function, j, p) implies #[trigger] binder(function, j, p)
        != function.name by {
        assert(ends_in_digit(binder(function, j, p)));
    }
    assert forall|q: int| 0 <= q < function.arg_names.len() implies #[trigger] function.arg_names[q]
        != function.name by {
        assert(generation(function.name) < generation(function.arg_names[q]));
    }
}

/// A fresh name was generated at the counter's value, and leaves the binders
/// in order.
pub proof fn lemma_fresh_names(state: NormalizerView, base: Name)
    requires
        state.names_inv(),
    ensures
        state.fresh(base) matches Ok((name, after)) ==> after.names_inv() && generation(name)
            == state.var_counter && after.var_counter == state.var_counter + 1 && names_ok(
            after.functions,
            state.var_counter as int,
        ) && names_apart(after.functions, state.var_counter as int) && ends_in_digit(name),
{
    lemma_generation_of_fresh_name(base, state.var_counter as nat);
    lemma_fresh_name_ends_in_digit(base, state.var_counter as nat);
    if let Ok((name, after)) = state.fresh(base) {
        assert forall|g: int| 0 <= g < after.functions.len() implies function_names_apart(
            #[trigger] after.functions[g],
            after.var_counter as int,
        ) by {
            assert(function_names_apart(state.functions[g], state.var_counter as int));
        }
    }
}

/// Fresh names for parameters were generated at falling counts, none before
/// the first of them, and leave the binders in order.
pub proof fn lemma_fresh_each_names(
    state: NormalizerView,
    bases: Seq<Name>,
    remaining: int,
    generated: Seq<Name>,
)
    requires
        state.names_inv(),
        descending(generated, state.var_counter as int),
    ensures
        state.fresh_each(bases, remaining, generated) matches Ok((names, after)) ==> after.names_inv()
            && descending(names, after.var_counter as int) && after.var_counter >= state.var_counter
            && names.len() >= generated.len() && forall|i: int|
            0 <= i < names.len() - generated.len() ==> generation(#[trigger] names[i]) >= state.var_counter,
    decreases remaining,
{
    if 0 < remaining <= bases.len() {
        lemma_fresh_names(state, bases[remaining - 1]);
        if let Ok((name, following)) = state.fresh(bases[remaining - 1]) {
            let longer = seq![name] + generated;
            assert forall|p: int, q: int| 0 <= p < q < longer.len() implies generation(#[trigger] longer[p])
                > generation(#[trigger] longer[q]) by {
                assert(longer[q] == generated[q - 1]);
                if p > 0 {
                    assert(longer[p] == generated[p - 1]);
                }
            }
            assert forall|p: int| 0 <= p < longer.len() implies generation(#[trigger] longer[p])
                < following.var_counter by {
                if p > 0 {
                    assert(longer[p] == generated[p - 1]);
                }
            }
            lemma_fresh_each_names(following, bases, remaining - 1, longer);
            lemma_fresh_each_keeps(following, bases, remaining - 1, longer);
            if let Ok((names, after)) = following.fresh_each(bases, remaining - 1, longer) {
                assert forall|i: int| 0 <= i < names.len() - generated.len() implies generation(
                    #[trigger] names[i],
                ) >= state.var_counter by {
                    if i == names.len() - longer.len() {
                        assert(names[names.len() - longer.len() + 0] == longer[0]);
                    }
                }
            }
        }
    }
}

/// The names that were there when fresh names were generated in front of
/// them are the last of the result.
pub proof fn lemma_fresh_each_keeps(state: NormalizerView, bases: Seq<Name>, remaining: int, generated: Seq<Name>)
    ensures
        state.fresh_each(bases, remaining, generated) matches Ok((names, _)) ==> names.len()
            >= generated.len() && forall|i: int|
            0 <= i < generated.len() ==> #[trigger] names[names.len() - generated.len() + i] == generated[i],
    decreases remaining,
{
    if 0 < remaining <= bases.len() {
        if let Ok((name, following)) = state.fresh(bases[remaining - 1]) {
            let longer = seq![name] + generated;
            lemma_fresh_each_keeps(following, bases, remaining - 1, longer);
            if let Ok((names, _)) = following.fresh_each(bases, remaining - 1, longer) {
                assert forall|i: int| 0 <= i < generated.len() implies #[trigger] names[names.len()
                    - generated.len() + i] == generated[i] by {
                    assert(names[names.len() - longer.len() + (i + 1)] == longer[i + 1]);
                }
            }
        }
    }
}

/// The names that the blocks of the active function bind after one more
/// instruction: those that they bound, and the name of the instruction, if
/// it is an assignment, as the last of the active block.
pub proof fn lemma_binders_after_emit(state: NormalizerView, instruction: InstructionView)
    requires
        state.has_active_block(),
    ensures
        ({
            let before = state.functions[state.function_index()];
            let after = state.emit(instruction).functions[state.function_index()];
            &&& after.name == before.name
            &&& after.arg_names == before.arg_names
            &&& after.free_names == before.free_names
            &&& after.blocks.len() == before.blocks.len()
            &&& forall|j: int, p: int|
                #![trigger binder(after, j, p)]
                binds_at(after, j, p) ==> (binds_at(before, j, p) && binder(after, j, p) == binder(
                    before,
                    j,
                    p,
                )) || (j == state.block_index() && p == assigned_names(
                    before.blocks[j].instructions,
                ).len() && instruction is Assignment && binder(after, j, p)
                    == instruction->Assignment_name)
        }),
{
    let f = state.function_index();
    let b = state.block_index();
    let before = state.functions[f];
    let after = state.emit(instruction).functions[f];
    lemma_assigned_names_push(before.blocks[b].instructions, instruction);
    assert(after.blocks[b].instructions == before.blocks[b].instructions.push(instruction));
    assert forall|j: int, p: int| #![trigger binder(after, j, p)] binds_at(after, j, p) implies (binds_at(
        before,
        j,
        p,
    ) && binder(after, j, p) == binder(before, j, p)) || (j == b && p == assigned_names(
        before.blocks[j].instructions,
    ).len() && instruction is Assignment && binder(after, j, p) == instruction->Assignment_name) by {
        if j != b {
            assert(after.blocks[j] == before.blocks[j]);
        }
    }
}

/// An assignment of the name generated last keeps the binders in order.
pub proof fn lemma_emit_assignment_names(state: NormalizerView, name: Name, definition: DefinitionView)
    requires
        state.has_active_block(),
        state.var_counter >= 1,
        names_ok(state.functions, state.var_counter - 1),
        names_apart(state.functions, state.var_counter - 1),
        functions_apart(state.functions),
        generation(name) == state.var_counter - 1,
        ends_in_digit(name),
    ensures
        state.emit(InstructionView::Assignment { name, definition }).names_inv(),
{
    let instruction = InstructionView::Assignment { name, definition };
    let after = state.emit(instruction);
    let f = state.function_index();
    let b = state.block_index();
    let limit = state.var_counter as int;
    assert forall|g: int| 0 <= g < after.functions.len() implies function_names_ok(
        #[trigger] after.functions[g],
        limit,
    ) by {
        assert(function_names_ok(state.functions[g], limit - 1));
        if g == f {
            assert forall|j: int| 0 <= j < after.functions[g].blocks.len() implies ascending(
                assigned_names((#[trigger] after.functions[g].blocks[j]).instructions),
                limit,
            ) by {
                let before = assigned_names(state.functions[g].blocks[j].instructions);
                assert(ascending(before, limit - 1));
                if j == b {
                    lemma_assigned_names_push(state.functions[g].blocks[j].instructions, instruction);
                    let grown = before.push(name);
                    assert forall|p: int, q: int| 0 <= p < q < grown.len() implies generation(
                        #[trigger] grown[p],
                    ) < generation(#[trigger] grown[q]) by {
                        assert(grown[p] == before[p]);
                        if q < before.len() {
                            assert(grown[q] == before[q]);
                        }
                    }
                    assert forall|p: int| 0 <= p < grown.len() implies generation(#[trigger] grown[p])
                        < limit by {
                        if p < before.len() {
                            assert(grown[p] == before[p]);
                        }
                    }
                }
            }
        }
    }
    lemma_binders_after_emit(state, instruction);
    assert forall|g: int| 0 <= g < after.functions.len() implies function_names_apart(
        #[trigger] after.functions[g],
        limit,
    ) by {
        let before = state.functions[g];
        let grown = after.functions[g];
        assert(function_names_apart(before, limit - 1));
        assert(function_names_ok(before, limit - 1));
        if g == f {
            assert forall|j: int, p: int| binds_at(before, j, p) implies generation(
                #[trigger] binder(before, j, p),
            ) < limit - 1 by {
                assert(ascending(assigned_names(before.blocks[j].instructions), limit - 1));
            }
            assert forall|j: int, p: int, k: int, q: int|
                binds_at(grown, j, p) && binds_at(grown, k, q) && j != k implies generation(
                #[trigger] binder(grown, j, p),
            ) != generation(#[trigger] binder(grown, k, q)) by {
                if binds_at(before, j, p) && binder(grown, j, p) == binder(before, j, p) {
                    if binds_at(before, k, q) && binder(grown, k, q) == binder(before, k, q) {
                    } else {
                        assert(generation(binder(before, j, p)) < limit - 1);
                    }
                } else {
                    assert(binds_at(before, k, q) && binder(grown, k, q) == binder(before, k, q));
                    assert(generation(binder(before, k, q)) < limit - 1);
                }
            }
            assert forall|j: int, p: int, q: int|
                binds_at(grown, j, p) && 0 <= q < grown.arg_names.len() implies generation(
                #[trigger] grown.arg_names[q],
            ) < generation(#[trigger] binder(grown, j, p)) by {
                if !(binds_at(before, j, p) && binder(grown, j, p) == binder(before, j, p)) {
                    assert(descending(before.arg_names, limit - 1));
                }
            }
            assert forall|j: int, p: int| binds_at(grown, j, p) implies ends_in_digit(
                #[trigger] binder(grown, j, p),
            ) && (grown.name != toplevel_name() ==> generation(grown.name) < generation(
                binder(grown, j, p),
            )) by {
                if binds_at(before, j, p) && binder(grown, j, p) == binder(before, j, p) {
                    assert(ends_in_digit(binder(before, j, p)));
                }
            }
        }
    }
    // What the active function binds now is what it bound, and the new name,
    // which is younger than every name bound so far.
    assert forall|bound: Name| #[trigger] binds(after.functions[f], bound) implies binds(
        state.functions[f],
        bound,
    ) || bound == name by {
        let before = state.functions[f];
        let grown = after.functions[f];
        if !(grown.name == bound && bound != toplevel_name()) && !grown.arg_names.contains(bound) {
            let (j, p) = choose|j: int, p: int| binds_at(grown, j, p) && #[trigger] binder(grown, j, p) == bound;
            if binds_at(before, j, p) && binder(grown, j, p) == binder(before, j, p) {
                assert(binder(before, j, p) == bound);
            }
        }
    }
    assert forall|g: int, h: int, bound: Name|
        0 <= g < after.functions.len() && 0 <= h < after.functions.len() && g != h && #[trigger] binds(
            after.functions[g],
            bound,
        ) implies !#[trigger] binds(after.functions[h], bound) by {
        assert(function_names_ok(state.functions[g], limit - 1));
        assert(function_names_apart(state.functions[g], limit - 1));
        assert(function_names_ok(state.functions[h], limit - 1));
        assert(function_names_apart(state.functions[h], limit - 1));
        if binds(after.functions[h], bound) {
            if g == f {
                assert(after.functions[h] == state.functions[h]);
                lemma_bound_below(state.functions[h], limit - 1, bound);
                assert(binds(state.functions[g], bound));
            } else if h == f {
                assert(after.functions[g] == state.functions[g]);
                lemma_bound_below(state.functions[g], limit - 1, bound);
                assert(binds(state.functions[h], bound));
            } else {
                assert(after.functions[g] == state.functions[g]);
                assert(after.functions[h] == state.functions[h]);
            }
        }
    }
}

/// An entry or an exit at the end of the active block keeps the binders in
/// order.
pub proof fn lemma_emit_marker_names(state: NormalizerView, instruction: InstructionView)
    requires
        state.has_active_block(),
        state.names_inv(),
        !(instruction is Assignment),
    ensures
        state.emit(instruction).names_inv(),
{
    let after = state.emit(instruction);
    let f = state.function_index();
    let b = state.block_index();
    let limit = state.var_counter as int;
    assert forall|g: int| 0 <= g < after.functions.len() implies function_names_ok(
        #[trigger] after.functions[g],
        limit,
    ) by {
        assert(function_names_ok(state.functions[g], limit));
        if g == f {
            assert forall|j: int| 0 <= j < after.functions[g].blocks.len() implies ascending(
                assigned_names((#[trigger] after.functions[g].blocks[j]).instructions),
                limit,
            ) by {
                assert(ascending(assigned_names(state.functions[g].blocks[j].instructions), limit));
                if j == b {
                    lemma_assigned_names_push(state.functions[g].blocks[j].instructions, instruction);
                }
            }
        }
    }
    lemma_binders_after_emit(state, instruction);
    assert forall|g: int| 0 <= g < after.functions.len() implies function_names_apart(
        #[trigger] after.functions[g],
        limit,
    ) by {
        let before = state.functions[g];
        let grown = after.functions[g];
        assert(function_names_apart(before, limit));
        if g == f {
            assert forall|j: int, p: int, k: int, q: int|
                binds_at(grown, j, p) && binds_at(grown, k, q) && j != k implies generation(
                #[trigger] binder(grown, j, p),
            ) != generation(#[trigger] binder(grown, k, q)) by {
                assert(binder(grown, j, p) == binder(before, j, p));
                assert(binder(grown, k, q) == binder(before, k, q));
            }
            assert forall|j: int, p: int, q: int|
                binds_at(grown, j, p) && 0 <= q < grown.arg_names.len() implies generation(
                #[trigger] grown.arg_names[q],
            ) < generation(#[trigger] binder(grown, j, p)) by {
                assert(binder(grown, j, p) == binder(before, j, p));
            }
            assert forall|j: int, p: int| binds_at(grown, j, p) implies ends_in_digit(
                #[trigger] binder(grown, j, p),
            ) && (grown.name != toplevel_name() ==> generation(grown.name) < generation(
                binder(grown, j, p),
            )) by {
                assert(binder(grown, j, p) == binder(before, j, p));
            }
        }
    }
    assert forall|g: int, bound: Name|
        0 <= g < after.functions.len() && #[trigger] binds(after.functions[g], bound) implies binds(
        state.functions[g],
        bound,
    ) by {
        if g == f {
            let before = state.functions[g];
            let grown = after.functions[g];
            assert forall|j: int, p: int| #[trigger] binds_at(grown, j, p) implies binds_at(before, j, p)
                && binder(grown, j, p) == binder(before, j, p) by {
                assert(binder(grown, j, p) == binder(before, j, p));
            }
            lemma_binds_kept(before, grown);
        } else {
            assert(after.functions[g] == state.functions[g]);
        }
    }
    lemma_apart_kept(state.functions, after.functions);
}

/// A new block with its entry keeps the binders in order.
pub proof fn lemma_open_block_names(state: NormalizerView)
    requires
        state.has_active_function(),
        state.names_inv(),
        state.functions[state.function_index()].blocks.len() < usize::MAX,
    ensures
        state.with_functions(
            state.functions.update(
                state.function_index(),
                state.functions[state.function_index()].open_block(state.current_block_index),
            ),
        ).with_cursor(
            state.current_function_index,
            Some(state.functions[state.function_index()].blocks.len() as usize),
        ).emit(InstructionView::EnterBlock).names_inv(),
{
    let f = state.function_index();
    let new = state.functions[f].blocks.len() as int;
    let added = state.with_functions(
        state.functions.update(f, state.functions[f].open_block(state.current_block_index)),
    ).with_cursor(state.current_function_index, Some(new as usize));
    let limit = state.var_counter as int;
    assert forall|g: int| 0 <= g < added.functions.len() implies function_names_ok(
        #[trigger] added.functions[g],
        limit,
    ) by {
        assert(function_names_ok(state.functions[g], limit));
        if g == f {
            assert forall|j: int| 0 <= j < added.functions[g].blocks.len() implies ascending(
                assigned_names((#[trigger] added.functions[g].blocks[j]).instructions),
                limit,
            ) by {
                if j < new {
                    assert(added.functions[g].blocks[j] == state.functions[g].blocks[j]);
                }
            }
        }
    }
    assert forall|g: int| 0 <= g < added.functions.len() implies function_names_apart(
        #[trigger] added.functions[g],
        limit,
    ) by {
        let before = state.functions[g];
        let grown = added.functions[g];
        assert(function_names_apart(before, limit));
        if g == f {
            assert forall|j: int, p: int| binds_at(grown, j, p) implies binds_at(before, j, p) && #[trigger] binder(
                grown,
                j,
                p,
            ) == binder(before, j, p) by {
                if j < new {
                    assert(grown.blocks[j] == before.blocks[j]);
                }
            }
            assert forall|j: int, p: int, k: int, q: int|
                binds_at(grown, j, p) && binds_at(grown, k, q) && j != k implies generation(
                #[trigger] binder(grown, j, p),
            ) != generation(#[trigger] binder(grown, k, q)) by {
                assert(binder(grown, j, p) == binder(before, j, p));
                assert(binder(grown, k, q) == binder(before, k, q));
            }
            assert forall|j: int, p: int, q: int|
                binds_at(grown, j, p) && 0 <= q < grown.arg_names.len() implies generation(
                #[trigger] grown.arg_names[q],
            ) < generation(#[trigger] binder(grown, j, p)) by {
                assert(binder(grown, j, p) == binder(before, j, p));
            }
            assert forall|j: int, p: int| binds_at(grown, j, p) implies ends_in_digit(
                #[trigger] binder(grown, j, p),
            ) && (grown.name != toplevel_name() ==> generation(grown.name) < generation(
                binder(grown, j, p),
            )) by {
                assert(binder(grown, j, p) == binder(before, j, p));
            }
        }
    }
    assert forall|g: int, bound: Name|
        0 <= g < added.functions.len() && #[trigger] binds(added.functions[g], bound) implies binds(
        state.functions[g],
        bound,
    ) by {
        if g == f {
            let before = state.functions[g];
            let grown = added.functions[g];
            assert forall|j: int, p: int| #[trigger] binds_at(grown, j, p) implies binds_at(before, j, p)
                && binder(grown, j, p) == binder(before, j, p) by {
                if j < new {
                    assert(grown.blocks[j] == before.blocks[j]);
                }
            }
            lemma_binds_kept(before, grown);
        } else {
            assert(added.functions[g] == state.functions[g]);
        }
    }
    lemma_apart_kept(state.functions, added.functions);
    lemma_emit_marker_names(added, InstructionView::EnterBlock);
}

/// A new function whose parameters were generated at falling counts keeps
/// the binders in order.
pub proof fn lemma_start_function_names(state: NormalizerView, name: Name, arg_names: Seq<Name>)
    requires
        state.names_inv(),
        descending(arg_names, state.var_counter as int),
        named_before(name, arg_names, state.var_counter as int),
        unbound_in(state.functions, name, arg_names),
    ensures
        state.with_functions(
            state.functions.push(FunctionView { name, arg_names, free_names: None, blocks: Seq::empty() }),
        ).with_cursor(Some(state.functions.len() as usize), None).names_inv(),
{
    let started = state.with_functions(
        state.functions.push(FunctionView { name, arg_names, free_names: None, blocks: Seq::empty() }),
    );
    assert forall|g: int| 0 <= g < started.functions.len() implies function_names_ok(
        #[trigger] started.functions[g],
        state.var_counter as int,
    ) by {
        if g < state.functions.len() {
            assert(started.functions[g] == state.functions[g]);
        }
    }
    assert forall|g: int| 0 <= g < started.functions.len() implies function_names_apart(
        #[trigger] started.functions[g],
        state.var_counter as int,
    ) by {
        if g < state.functions.len() {
            assert(started.functions[g] == state.functions[g]);
        }
    }
    let new = state.functions.len() as int;
    assert forall|bound: Name| #[trigger] binds(started.functions[new], bound) implies bound == name
        || arg_names.contains(bound) by {
        assert(forall|j: int, p: int| !binds_at(started.functions[new], j, p));
    }
    assert forall|g: int, h: int, bound: Name|
        0 <= g < started.functions.len() && 0 <= h < started.functions.len() && g != h && #[trigger] binds(
            started.functions[g],
            bound,
        ) implies !#[trigger] binds(started.functions[h], bound) by {
        if g < new {
            assert(started.functions[g] == state.functions[g]);
        }
        if h < new {
            assert(started.functions[h] == state.functions[h]);
        }
    }
}

/// Recording the captured names of a function keeps the binders in order.
pub proof fn lemma_finish_function_names(built: NormalizerView, h: int, name: Name, arg_names: Seq<Name>)
    requires
        built.names_inv(),
        0 <= h < built.functions.len(),
    ensures
        names_ok(
            built.functions.update(
                h,
                built.functions[h].with_free_names(free_names_of(built.functions[h].blocks, name, arg_names, 0)),
            ),
            built.var_counter as int,
        ),
        names_apart(
            built.functions.update(
                h,
                built.functions[h].with_free_names(free_names_of(built.functions[h].blocks, name, arg_names, 0)),
            ),
            built.var_counter as int,
        ),
        functions_apart(
            built.functions.update(
                h,
                built.functions[h].with_free_names(free_names_of(built.functions[h].blocks, name, arg_names, 0)),
            ),
        ),
{
    lemma_free_names(built.functions[h].blocks, name, arg_names, 0);
    let finished = built.functions.update(
        h,
        built.functions[h].with_free_names(free_names_of(built.functions[h].blocks, name, arg_names, 0)),
    );
    assert forall|g: int| 0 <= g < finished.len() implies function_names_ok(
        #[trigger] finished[g],
        built.var_counter as int,
    ) by {
        assert(function_names_ok(built.functions[g], built.var_counter as int));
        if g == h {
            assert forall|j: int| 0 <= j < finished[g].blocks.len() implies ascending(
                assigned_names((#[trigger] finished[g].blocks[j]).instructions),
                built.var_counter as int,
            ) by {
                assert(finished[g].blocks[j] == built.functions[g].blocks[j]);
            }
        }
    }
    assert forall|g: int| 0 <= g < finished.len() implies function_names_apart(
        #[trigger] finished[g],
        built.var_counter as int,
    ) by {
        let before = built.functions[g];
        let after = finished[g];
        assert(function_names_apart(before, built.var_counter as int));
        if g == h {
            assert forall|j: int, p: int, k: int, q: int|
                binds_at(after, j, p) && binds_at(after, k, q) && j != k implies generation(
                #[trigger] binder(after, j, p),
            ) != generation(#[trigger] binder(after, k, q)) by {
                assert(binder(after, j, p) == binder(before, j, p));
                assert(binder(after, k, q) == binder(before, k, q));
            }
            assert forall|j: int, p: int, q: int|
                binds_at(after, j, p) && 0 <= q < after.arg_names.len() implies generation(
                #[trigger] after.arg_names[q],
            ) < generation(#[trigger] binder(after, j, p)) by {
                assert(binder(after, j, p) == binder(before, j, p));
            }
            assert forall|j: int, p: int| binds_at(after, j, p) implies ends_in_digit(
                #[trigger] binder(after, j, p),
            ) && (after.name != toplevel_name() ==> generation(after.name) < generation(
                binder(after, j, p),
            )) by {
                assert(binder(after, j, p) == binder(before, j, p));
            }
        }
    }
    assert forall|g: int, bound: Name| 0 <= g < finished.len() && #[trigger] binds(finished[g], bound) implies binds(
        built.functions[g],
        bound,
    ) by {
        if g == h {
            assert forall|j: int, p: int| #[trigger] binds_at(finished[g], j, p) implies binds_at(
                built.functions[g],
                j,
                p,
            ) && binder(finished[g], j, p) == binder(built.functions[g], j, p) by {
                assert(finished[g].blocks == built.functions[g].blocks);
            }
            lemma_binds_kept(built.functions[g], finished[g]);
        }
    }
    lemma_apart_kept(built.functions, finished);
}

/// Normalizing a function into the active block keeps the binders in order.
proof fn lemma_fun_names(e: Expr, state: NormalizerView)
    requires
        state.inv(),
        state.names_inv(),
        state.current_block_index is Some,
        e is Fun,
    ensures
        normal_rhs(e, state) matches Ok((_, after)) ==> after.names_inv(),
    decreases e, 0nat,
{
    if let Expr::Fun { name, arg_names, body } = e {
        lemma_fresh(state, name@);
        lemma_fresh_names(state, name@);
        if let Ok((unique_name, named)) = state.fresh(name@) {
            lemma_fresh_each(named, views(arg_names@), arg_names@.len() as int, Seq::empty());
            lemma_fresh_each_names(named, views(arg_names@), arg_names@.len() as int, Seq::empty());
            if let Ok((unique_arg_names, generated)) = named.fresh_each(
                views(arg_names@),
                arg_names@.len() as int,
                Seq::empty(),
            ) {
                let bound = generated.bind_each(views(arg_names@), unique_arg_names).bind(
                    name@,
                    unique_name,
                );
                assert(named_before(unique_name, unique_arg_names, bound.var_counter as int));
                lemma_young_names_unbound(
                    bound.functions,
                    state.var_counter as int,
                    unique_name,
                    unique_arg_names,
                );
                lemma_function_body_names(*body, bound, unique_name, unique_arg_names);
            }
        }
    }
}

/// Normalizing a call into the active block keeps the binders in order.
proof fn lemma_call_names(e: Expr, state: NormalizerView)
    requires
        state.inv(),
        state.names_inv(),
        state.current_block_index is Some,
        e is Call,
    ensures
        normal_rhs(e, state) matches Ok((_, after)) ==> after.names_inv(),
    decreases e, 0nat,
{
    if let Expr::Call { func, args } = e {
        lemma_normal_var(*func, state);
        lemma_var_names(*func, state);
        if let Ok((_, after_func)) = normal_var(*func, state) {
            lemma_vars_names(args@, 0, after_func, Seq::empty());
        }
    }
}

/// Normalizing a binary operation into the active block keeps the binders
/// in order.
proof fn lemma_binop_names(e: Expr, state: NormalizerView)
    requires
        state.inv(),
        state.names_inv(),
        state.current_block_index is Some,
        e is BinOp,
    ensures
        normal_rhs(e, state) matches Ok((_, after)) ==> after.names_inv(),
    decreases e, 0nat,
{
    if let Expr::BinOp { op, lhs, rhs } = e {
        lemma_normal_var(*lhs, state);
        lemma_var_names(*lhs, state);
        if let Ok((_, after_lhs)) = normal_var(*lhs, state) {
            lemma_var_names(*rhs, after_lhs);
        }
    }
}

/// Normalizing a let-binding into the active block keeps the binders in
/// order.
proof fn lemma_let_names(e: Expr, state: NormalizerView)
    requires
        state.inv(),
        state.names_inv(),
        state.current_block_index is Some,
        e is Let,
    ensures
        normal_rhs(e, state) matches Ok((_, after)) ==> after.names_inv(),
    decreases e, 0nat,
{
    if let Expr::Let { name, definition, body } = e {
        lemma_normal_rhs(*definition, state);
        lemma_rhs_names(*definition, state);
        if let Ok((defined, after_definition)) = normal_rhs(*definition, state) {
            lemma_fresh(after_definition, name@);
            lemma_fresh_names(after_definition, name@);
            if let Ok((unique_name, named)) = after_definition.fresh(name@) {
                crate::ir_let::invariants::lemma_emit_assignment(named, unique_name, defined);
                lemma_emit_assignment_names(named, unique_name, defined);
                let emitted = named.emit(
                    InstructionView::Assignment { name: unique_name, definition: defined },
                );
                lemma_rhs_names(*body, emitted.bind(name@, unique_name));
            }
        }
    }
}

/// Normalizing a conditional into the active block keeps the binders in
/// order.
proof fn lemma_if_names(e: Expr, state: NormalizerView)
    requires
        state.inv(),
        state.names_inv(),
        state.current_block_index is Some,
        e is If,
    ensures
        normal_rhs(e, state) matches Ok((_, after)) ==> after.names_inv(),
    decreases e, 0nat,
{
    if let Expr::If { condition, branch_success, branch_failure } = e {
        lemma_normal_var(*condition, state);
        lemma_var_names(*condition, state);
        if let Ok((_, after_condition)) = normal_var(*condition, state) {
            lemma_normal_block(*branch_success, after_condition);
            lemma_block_names(*branch_success, after_condition);
            if let Ok((_, after_success)) = normal_block(*branch_success, after_condition) {
                lemma_block_names(*branch_failure, after_success);
            }
        }
    }
}

/// Normalizing a tuple into the active block keeps the binders in order.
proof fn lemma_tuple_names(e: Expr, state: NormalizerView)
    requires
        state.inv(),
        state.names_inv(),
        state.current_block_index is Some,
        e is Tuple,
    ensures
        normal_rhs(e, state) matches Ok((_, after)) ==> after.names_inv(),
    decreases e, 0nat,
{
    if let Expr::Tuple { values } = e {
        lemma_vars_names(values@, 0, state, Seq::empty());
    }
}

/// Normalizing a field assignment into the active block keeps the binders
/// in order.
proof fn lemma_set_field_names(e: Expr, state: NormalizerView)
    requires
        state.inv(),
        state.names_inv(),
        state.current_block_index is Some,
        e is SetField,
    ensures
        normal_rhs(e, state) matches Ok((_, after)) ==> after.names_inv(),
    decreases e, 0nat,
{
    if let Expr::SetField { tuple, index, new_expr } = e {
        lemma_normal_var(*tuple, state);
        lemma_var_names(*tuple, state);
        if let Ok((_, after_tuple)) = normal_var(*tuple, state) {
            lemma_var_names(*new_expr, after_tuple);
        }
    }
}

/// Normalizing an expression into the active block keeps the binders in
/// order.
pub proof fn lemma_rhs_names(e: Expr, state: NormalizerView)
    requires
        state.inv(),
        state.names_inv(),
        state.current_block_index is Some,
    ensures
        normal_rhs(e, state) matches Ok((_, after)) ==> after.names_inv(),
    decreases e, 1nat,
{
    match e {
        Expr::Literal(_) => {},
        Expr::Var { .. } => {},
        Expr::Fun { .. } => lemma_fun_names(e, state),
        Expr::Call { .. } => lemma_call_names(e, state),
        Expr::BinOp { .. } => lemma_binop_names(e, state),
        Expr::Let { .. } => lemma_let_names(e, state),
        Expr::If { .. } => lemma_if_names(e, state),
        Expr::Tuple { .. } => lemma_tuple_names(e, state),
        Expr::SetField { .. } => lemma_set_field_names(e, state),
    }
}

/// Normalizing an expression to a name keeps the binders in order.
pub proof fn lemma_var_names(e: Expr, state: NormalizerView)
    requires
        state.inv(),
        state.names_inv(),
        state.current_block_index is Some,
    ensures
        normal_var(e, state) matches Ok((_, after)) ==> after.names_inv(),
    decreases e, 2nat,
{
    lemma_normal_rhs(e, state);
    lemma_rhs_names(e, state);
    if let Ok((step, following)) = normal_rhs(e, state) {
        if !(step is Var) {
            lemma_fresh(following, generated_base());
            lemma_fresh_names(following, generated_base());
            if let Ok((name, named)) = following.fresh(generated_base()) {
                lemma_emit_assignment_names(named, name, step);
            }
        }
    }
}

/// Normalizing expressions to names keeps the binders in order.
pub proof fn lemma_vars_names(es: Seq<Expr>, from: int, state: NormalizerView, done: Seq<Name>)
    requires
        state.inv(),
        state.names_inv(),
        state.current_block_index is Some,
    ensures
        normal_vars(es, from, state, done) matches Ok((_, after)) ==> after.names_inv(),
    decreases es, es.len() - from,
{
    if 0 <= from < es.len() {
        lemma_normal_var(es[from], state);
        lemma_var_names(es[from], state);
        if let Ok((name, following)) = normal_var(es[from], state) {
            lemma_vars_names(es, from + 1, following, done.push(name));
        }
    }
}

/// Normalizing an expression into a new block keeps the binders in order.
pub proof fn lemma_block_names(e: Expr, state: NormalizerView)
    requires
        state.inv(),
        state.names_inv(),
        state.current_function_index is Some,
    ensures
        normal_block(e, state) matches Ok((_, after)) ==> after.names_inv(),
    decreases e, 3nat,
{
    let f = state.function_index();
    let new_block_index = state.functions[f].blocks.len() as usize;
    let opened = state.with_functions(
        state.functions.update(f, state.functions[f].open_block(state.current_block_index)),
    ).with_cursor(state.current_function_index, Some(new_block_index)).emit(InstructionView::EnterBlock);
    if state.functions[f].blocks.len() < usize::MAX {
        lemma_open_block(state);
        lemma_open_block_names(state);
        lemma_normal_var(e, opened);
        lemma_var_names(e, opened);
        if let Ok((result, computed)) = normal_var(e, opened) {
            lemma_emit_marker_names(computed, InstructionView::ExitBlock(result));
        }
    }
}

/// Normalizing an expression into a new function, whose parameters were
/// generated at falling counts, keeps the binders in order.
pub proof fn lemma_function_body_names(e: Expr, state: NormalizerView, name: Name, arg_names: Seq<Name>)
    requires
        state.inv(),
        state.names_inv(),
        descending(arg_names, state.var_counter as int),
        named_before(name, arg_names, state.var_counter as int),
        unbound_in(state.functions, name, arg_names),
    ensures
        normal_function_body(e, state, name, arg_names) matches Ok((_, after)) ==> after.names_inv(),
    decreases e, 4nat,
{
    let new_function_index = state.functions.len() as usize;
    let started = state.with_functions(
        state.functions.push(FunctionView { name, arg_names, free_names: None, blocks: Seq::empty() }),
    ).with_cursor(Some(new_function_index), None);
    if state.functions.len() < usize::MAX {
        lemma_start_function(state, name, arg_names);
        lemma_start_function_names(state, name, arg_names);
        lemma_normal_block(e, started);
        lemma_block_names(e, started);
        if let Ok((body, built)) = normal_block(e, started) {
            lemma_finish_function_names(built, new_function_index as int, name, arg_names);
        }
    }
}

/// In a program that let-normalization yields, no function has a parameter
/// twice or a captured name twice, no block binds a name twice, and no name
/// is bound by two functions.
pub proof fn lemma_normal_program_binders_distinct(e: Expr)
    ensures
        normal_program(e) matches Ok(program) ==> program.binders_distinct(),
{
    let state = NormalizerView::initial();
    lemma_function_body_names(e, state, toplevel_name(), Seq::empty());
    if let Ok(program) = normal_program(e) {
        if let Ok((_, built)) = normal_function_body(e, state, toplevel_name(), Seq::empty()) {
            assert forall|g: int| #![trigger program.functions[g]] 0 <= g < program.functions.len() implies {
                &&& binders_unique(program.functions[g])
                &&& program.functions[g].free_names matches Some(free) ==> free.no_duplicates()
                &&& forall|j: int|
                    0 <= j < program.functions[g].blocks.len() ==> assigned_names(
                        (#[trigger] program.functions[g].blocks[j]).instructions,
                    ).no_duplicates()
            } by {
                let limit = built.var_counter as int;
                assert(function_names_ok(built.functions[g], limit));
                assert(function_names_apart(built.functions[g], limit));
                lemma_binders_unique(program.functions[g], limit);
                assert forall|j: int| 0 <= j < program.functions[g].blocks.len() implies assigned_names(
                    (#[trigger] program.functions[g].blocks[j]).instructions,
                ).no_duplicates() by {
                    lemma_ascending_distinct(
                        assigned_names(program.functions[g].blocks[j].instructions),
                        limit,
                    );
                }
            }
        }
    }
}

impl ProgramView {
    /// Whether no closure allocation of the program names a captured name
    /// twice.
    pub open spec fn captures_distinct(self) -> bool {
        forall|g: int, j: int, i: int|
            #![trigger self.functions[g].blocks[j].instructions[i]]
            0 <= g < self.functions.len() && 0 <= j < self.functions[g].blocks.len() && 0 <= i
                < self.functions[g].blocks[j].instructions.len() ==> (
            self.functions[g].blocks[j].instructions[i] matches InstructionView::Assignment {
                definition: DefinitionView::Fun(closure),
                ..
            } ==> closure.free_names.no_duplicates())
    }
}

/// In a well-formed program whose functions capture no name twice, no
/// closure allocation names a captured name twice.
pub proof fn lemma_well_formed_captures_distinct(program: ProgramView)
    requires
        program.well_formed(),
        program.binders_distinct(),
    ensures
        program.captures_distinct(),
{
    assert forall|g: int, j: int, i: int|
        #![trigger program.functions[g].blocks[j].instructions[i]]
        0 <= g < program.functions.len() && 0 <= j < program.functions[g].blocks.len() && 0 <= i
            < program.functions[g].blocks[j].instructions.len() implies (
    program.functions[g].blocks[j].instructions[i] matches InstructionView::Assignment {
        definition: DefinitionView::Fun(closure),
        ..
    } ==> closure.free_names.no_duplicates()) by {
        assert(function_ok(program.functions, g));
        assert(block_ok(program.functions, g, j));
        assert(instruction_ok(program.functions, g, j, program.functions[g].blocks[j].instructions[i]));
        if let InstructionView::Assignment { definition: DefinitionView::Fun(closure), .. } =
            program.functions[g].blocks[j].instructions[i] {
            let h = closure.body.function_index as int;
            assert(program.functions[h].free_names == Some(closure.free_names));
        }
    }
}

} // verus!
