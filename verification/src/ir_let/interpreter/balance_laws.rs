//! Every instruction keeps the reference counts exact.

use vstd::prelude::*;
use crate::fault::RuntimeFault;
use crate::heap_value::{CellView, ClosureView, HeapAddress, HeapValueView};
use crate::ir_let::interpreter::balance::{
    Credits, call_count, count_in, lemma_count_drop_first, lemma_count_of_member, lemma_count_push,
    lemma_count_update, lemma_incoming_changed, lemma_incoming_of_reference, lemma_incoming_same,
    lemma_release_all_balanced, lemma_release_balanced, no_credits, references_at, stack_count,
};
use crate::ir_let::interpreter::machine::{Machine, Progress, pair_up, run, step};
use crate::ir_let::let_expr::{DefinitionView, InstructionView, ProgramView, TargetAddress};
use crate::stack::{
    BlockFrameView, Frames, ReturnInfoView, frames_after_bind, frames_after_exit, latest_binding,
    lookup_in_frames,
};
use crate::syntax::{BinOp, Constant, Name};

verus! {

/// Whether a fault is none of those that exact counts rule out: the use of
/// an address that is not live, and the release of a reference that is not
/// held.
pub open spec fn benign(fault: RuntimeFault) -> bool {
    fault != RuntimeFault::InvalidAddress && fault != RuntimeFault::RefcountUnderflow
}

/// The value that a name is bound to is among the values.
pub proof fn lemma_binding_counted(names: Seq<Name>, values: Seq<HeapAddress>, name: Name)
    ensures
        latest_binding(names, values, name) matches Some(address) ==> count_in(values, address) >= 1,
    decreases names.len(),
{
    if names.len() > 0 && values.len() == names.len() {
        if names.last() == name {
            lemma_count_of_member(values, values.len() - 1);
        } else {
            lemma_binding_counted(names.drop_last(), values.drop_last(), name);
        }
    }
}

/// The value that the blocks of a call bind a name to is held by their
/// locals.
pub proof fn lemma_lookup_counted(frames: Seq<BlockFrameView>, name: Name)
    ensures
        lookup_in_frames(frames, name) matches Some(address) ==> call_count(frames, address) >= 1,
    decreases frames.len(),
{
    if frames.len() > 0 {
        lemma_binding_counted(frames.last().variable_names, frames.last().values, name);
        lemma_lookup_counted(frames.drop_last(), name);
    }
}

/// What is looked up in a balanced machine is live.
pub proof fn lemma_lookup_live(machine: Machine, credits: Credits, name: Name)
    requires
        machine.balanced(credits),
    ensures
        machine.lookup(name) matches Ok(address) ==> stack_count(machine.frames, address) >= 1
            && machine.cells.contains_key(address),
{
    if machine.frames.len() > 0 {
        lemma_lookup_counted(machine.frames.last(), name);
        if let Ok(address) = machine.lookup(name) {
            assert(machine.references_to(credits, address) >= 1);
        }
    }
}

/// What is looked up in a balanced machine, name after name, is live.
pub proof fn lemma_lookup_from_live(
    machine: Machine,
    credits: Credits,
    names: Seq<Name>,
    from: int,
    found: Seq<HeapAddress>,
)
    requires
        machine.balanced(credits),
        forall|i: int| 0 <= i < found.len() ==> machine.cells.contains_key(#[trigger] found[i]),
    ensures
        machine.lookup_from(names, from, found) matches Ok(all) ==> forall|i: int|
            0 <= i < all.len() ==> machine.cells.contains_key(#[trigger] all[i]),
    decreases names.len() - from,
{
    if 0 <= from < names.len() {
        lemma_lookup_live(machine, credits, names[from]);
        if let Ok(address) = machine.lookup(names[from]) {
            lemma_lookup_from_live(machine, credits, names, from + 1, found.push(address));
        }
    }
}

/// One more local of the innermost block is one more reference from the
/// stack.
pub proof fn lemma_stack_count_bind(frames: Frames, name: Name, value: HeapAddress, address: HeapAddress)
    requires
        frames.len() > 0,
        frames.last().len() > 0,
    ensures
        stack_count(frames_after_bind(frames, name, value), address) == stack_count(frames, address) + (
        if value == address {
            1nat
        } else {
            0nat
        }),
{
    let after = frames_after_bind(frames, name, value);
    let call = frames.last();
    let bound = call.drop_last().push(call.last().bind(name, value));
    assert(after.drop_last() =~= frames.drop_last());
    assert(after.last() == bound);
    assert(bound.drop_last() =~= call.drop_last());
    lemma_count_push(call.last().values, value, address);
}

/// A new call without locals holds nothing.
pub proof fn lemma_stack_count_enter_function(frames: Frames, frame: BlockFrameView, address: HeapAddress)
    requires
        frame.values.len() == 0,
    ensures
        stack_count(frames.push(seq![frame]), address) == stack_count(frames, address),
{
    let after = frames.push(seq![frame]);
    assert(after.drop_last() =~= frames);
    assert(seq![frame].drop_last() =~= Seq::<BlockFrameView>::empty());
    assert(call_count(seq![frame].drop_last(), address) == 0);
    assert(seq![frame].last() == frame);
}

/// A new block without locals holds nothing.
pub proof fn lemma_stack_count_enter_block(frames: Frames, frame: BlockFrameView, address: HeapAddress)
    requires
        frames.len() > 0,
        frame.values.len() == 0,
    ensures
        stack_count(frames.drop_last().push(frames.last().push(frame)), address) == stack_count(
            frames,
            address,
        ),
{
    let after = frames.drop_last().push(frames.last().push(frame));
    assert(after.drop_last() =~= frames.drop_last());
    assert(frames.last().push(frame).drop_last() =~= frames.last());
}

/// The block that ends takes its locals off the stack.
pub proof fn lemma_stack_count_exit(frames: Frames, address: HeapAddress)
    requires
        frames.len() > 0,
        frames.last().len() > 0,
    ensures
        stack_count(frames_after_exit(frames), address) + count_in(frames.last().last().values, address)
            == stack_count(frames, address),
{
    let after = frames_after_exit(frames);
    if frames.last().len() <= 1 {
        assert(frames.last().drop_last() =~= Seq::<BlockFrameView>::empty());
        assert(call_count(frames.last().drop_last(), address) == 0);
    } else {
        assert(after.drop_last() =~= frames.drop_last());
        assert(after.last() == frames.last().drop_last());
    }
}

/// One more reference to a live cell, held for the moment, leaves the
/// machine balanced.
pub proof fn lemma_retain_balanced(machine: Machine, credits: Credits, address: HeapAddress, more: Credits)
    requires
        machine.balanced(credits),
        machine.cells.contains_key(address),
        forall|other: HeapAddress|
            #[trigger] more[other] == credits[other] + (if other == address {
                1nat
            } else {
                0nat
            }),
    ensures
        match machine.retain(address) {
            Ok(after) => after.balanced(more) && after.frames == machine.frames && after.next_address
                == machine.next_address && after.cells.dom() == machine.cells.dom(),
            Err(fault) => benign(fault),
        },
{
    if let Ok(after) = machine.retain(address) {
        let limit = machine.next_address.0 as int;
        assert(after.cells.dom() =~= machine.cells.dom());
        assert forall|other: HeapAddress| #![trigger after.references_to(more, other)] {
            &&& after.cells.contains_key(other) ==> after.cells[other].refcount == after.references_to(
                more,
                other,
            )
            &&& after.references_to(more, other) > 0 ==> after.cells.contains_key(other)
        } by {
            assert forall|k: int| 0 <= k < limit implies #[trigger] references_at(after.cells, k)
                == references_at(machine.cells, k) by {}
            lemma_incoming_same(machine.cells, after.cells, other, limit);
            assert(more[other] == credits[other] + (if other == address {
                1nat
            } else {
                0nat
            }));
            assert(after.references_to(more, other) == machine.references_to(credits, other) + (if other
                == address {
                1nat
            } else {
                0nat
            }));
        }
    }
}

/// One more reference to each of some live cells, held for the moment,
/// leaves the machine balanced.
pub proof fn lemma_retain_all_balanced(
    machine: Machine,
    credits: Credits,
    addresses: Seq<HeapAddress>,
    more: Credits,
)
    requires
        machine.balanced(credits),
        forall|i: int| 0 <= i < addresses.len() ==> machine.cells.contains_key(#[trigger] addresses[i]),
        forall|other: HeapAddress| #[trigger] more[other] == credits[other] + count_in(addresses, other),
    ensures
        match machine.retain_all(addresses) {
            Ok(after) => after.balanced(more) && after.frames == machine.frames && after.next_address
                == machine.next_address && after.cells.dom() == machine.cells.dom(),
            Err(fault) => benign(fault),
        },
    decreases addresses.len(),
{
    if addresses.len() == 0 {
        assert forall|other: HeapAddress| #![trigger machine.references_to(more, other)] {
            &&& machine.cells.contains_key(other) ==> machine.cells[other].refcount
                == machine.references_to(more, other)
            &&& machine.references_to(more, other) > 0 ==> machine.cells.contains_key(other)
        } by {
            assert(more[other] == credits[other] + count_in(addresses, other));
            assert(machine.references_to(credits, other) == machine.references_to(more, other));
        }
    } else {
        let first = addresses[0];
        let rest = addresses.drop_first();
        let middle = Map::total(
            |other: HeapAddress|
                credits[other] + (if other == first {
                    1nat
                } else {
                    0nat
                }),
        );
        lemma_retain_balanced(machine, credits, first, middle);
        if let Ok(retained) = machine.retain(first) {
            assert forall|i: int| 0 <= i < rest.len() implies retained.cells.contains_key(
                #[trigger] rest[i],
            ) by {
                assert(rest[i] == addresses[i + 1]);
            }
            assert forall|other: HeapAddress| #[trigger] more[other] == middle[other] + count_in(
                rest,
                other,
            ) by {
                lemma_count_drop_first(addresses, other);
                assert(more[other] == credits[other] + count_in(addresses, other));
            }
            lemma_retain_all_balanced(retained, middle, rest, more);
        }
    }
}

/// A new cell whose value takes over references that were held for the
/// moment leaves the machine balanced; nothing refers to the cell yet.
pub proof fn lemma_allocate_balanced(machine: Machine, credits: Credits, value: HeapValueView, left: Credits)
    requires
        machine.balanced(credits),
        forall|other: HeapAddress|
            #[trigger] left[other] + count_in(value.references(), other) == credits[other],
    ensures
        match machine.allocate(value) {
            Ok((after, address)) => after.balanced(left) && after.frames == machine.frames
                && after.cells.contains_key(address) && after.cells[address].refcount == 0 && forall|
                other: HeapAddress,
            |
                machine.cells.contains_key(other) ==> after.cells.contains_key(other),
            Err(fault) => benign(fault),
        },
{
    if let Ok((after, address)) = machine.allocate(value) {
        let limit = machine.next_address.0 as int;
        assert(!machine.cells.contains_key(address));
        assert(references_at(after.cells, limit) == value.references());
        assert(after.next_address.0 as int == limit + 1);
        assert forall|other: HeapAddress| #![trigger after.references_to(left, other)] {
            &&& after.cells.contains_key(other) ==> after.cells[other].refcount == after.references_to(
                left,
                other,
            )
            &&& after.references_to(left, other) > 0 ==> after.cells.contains_key(other)
        } by {
            assert forall|k: int| 0 <= k < limit implies #[trigger] references_at(after.cells, k)
                == references_at(machine.cells, k) by {}
            lemma_incoming_same(machine.cells, after.cells, other, limit);
            assert(left[other] + count_in(value.references(), other) == credits[other]);
            assert(after.references_to(left, other) == machine.references_to(credits, other));
            if other == address {
                assert(!(machine.references_to(credits, address) > 0));
            }
        }
    }
}

/// A name bound to a live cell leaves the machine balanced.
pub proof fn lemma_bind_balanced(machine: Machine, credits: Credits, name: Name, address: HeapAddress)
    requires
        machine.balanced(credits),
        machine.cells.contains_key(address),
    ensures
        match machine.bind(name, address) {
            Ok(after) => after.balanced(credits) && after.next_address == machine.next_address
                && after.cells.dom() == machine.cells.dom() && after.frames.len() == machine.frames.len(),
            Err(fault) => benign(fault),
        },
{
    let more = Map::total(
        |other: HeapAddress|
            credits[other] + (if other == address {
                1nat
            } else {
                0nat
            }),
    );
    lemma_retain_balanced(machine, credits, address, more);
    if let Ok(retained) = machine.retain(address) {
        if let Ok(after) = machine.bind(name, address) {
            assert forall|other: HeapAddress| #![trigger after.references_to(credits, other)] {
                &&& after.cells.contains_key(other) ==> after.cells[other].refcount
                    == after.references_to(credits, other)
                &&& after.references_to(credits, other) > 0 ==> after.cells.contains_key(other)
            } by {
                lemma_stack_count_bind(retained.frames, name, address, other);
                assert(more[other] == credits[other] + (if other == address {
                    1nat
                } else {
                    0nat
                }));
                assert(after.references_to(credits, other) == retained.references_to(more, other));
            }
        }
    }
}

/// Names bound to live cells leave the machine balanced.
pub proof fn lemma_bind_each_balanced(machine: Machine, credits: Credits, bindings: Seq<(Name, HeapAddress)>)
    requires
        machine.balanced(credits),
        forall|i: int| 0 <= i < bindings.len() ==> machine.cells.contains_key((#[trigger] bindings[i]).1),
    ensures
        match machine.bind_each(bindings) {
            Ok(after) => after.balanced(credits) && after.next_address == machine.next_address
                && after.cells.dom() == machine.cells.dom() && after.frames.len() == machine.frames.len(),
            Err(fault) => benign(fault),
        },
    decreases bindings.len(),
{
    if bindings.len() > 0 {
        assert(machine.cells.contains_key(bindings[0].1));
        lemma_bind_balanced(machine, credits, bindings[0].0, bindings[0].1);
        if let Ok(bound) = machine.bind(bindings[0].0, bindings[0].1) {
            assert forall|i: int| 0 <= i < bindings.drop_first().len() implies bound.cells.contains_key(
                (#[trigger] bindings.drop_first()[i]).1,
            ) by {
                assert(bindings.drop_first()[i] == bindings[i + 1]);
                assert(machine.cells.contains_key(bindings[i + 1].1));
            }
            lemma_bind_each_balanced(bound, credits, bindings.drop_first());
        }
    }
}

/// Looking names up faults only for a name that is not bound or for want of
/// a stack.
pub proof fn lemma_lookup_from_faults(machine: Machine, names: Seq<Name>, from: int, found: Seq<HeapAddress>)
    ensures
        machine.lookup_from(names, from, found) matches Err(fault) ==> benign(fault),
    decreases names.len() - from,
{
    if 0 <= from < names.len() {
        if let Ok(address) = machine.lookup(names[from]) {
            lemma_lookup_from_faults(machine, names, from + 1, found.push(address));
        }
    }
}

/// As many values are looked up as there are names left, after those found.
pub proof fn lemma_lookup_from_len(machine: Machine, names: Seq<Name>, from: int, found: Seq<HeapAddress>)
    requires
        0 <= from <= names.len(),
    ensures
        machine.lookup_from(names, from, found) matches Ok(all) ==> all.len() == found.len() + names.len()
            - from,
    decreases names.len() - from,
{
    if from < names.len() {
        if let Ok(address) = machine.lookup(names[from]) {
            lemma_lookup_from_len(machine, names, from + 1, found.push(address));
        }
    }
}

/// Whether an evaluation left the machine balanced, with a live result and
/// no cell lost, or ended in a fault that exact counts do not rule out.
pub open spec fn evaluated(
    machine: Machine,
    credits: Credits,
    outcome: Result<(Machine, HeapAddress), RuntimeFault>,
) -> bool {
    match outcome {
        Ok((after, address)) => {
            &&& after.balanced(credits)
            &&& after.frames == machine.frames
            &&& after.cells.contains_key(address)
        },
        Err(fault) => benign(fault),
    }
}

/// A new cell without references leaves the machine balanced.
pub proof fn lemma_allocate_leaf_balanced(machine: Machine, credits: Credits, value: HeapValueView)
    requires
        machine.balanced(credits),
        value.references().len() == 0,
    ensures
        evaluated(machine, credits, machine.allocate(value)),
{
    lemma_allocate_balanced(machine, credits, value, credits);
}

/// A binary operation on live cells leaves the machine balanced, and its
/// result is live.
pub proof fn lemma_eval_binop_balanced(
    machine: Machine,
    credits: Credits,
    op: BinOp,
    lhs: HeapAddress,
    rhs: HeapAddress,
)
    requires
        machine.balanced(credits),
        machine.cells.contains_key(lhs),
        machine.cells.contains_key(rhs),
    ensures
        evaluated(machine, credits, machine.eval_binop(op, lhs, rhs)),
{
    match op {
        BinOp::Get => {
            if let Ok(fields) = machine.tuple_at(lhs) {
                if let Ok(index) = machine.int_at(rhs) {
                    if 0 <= index < fields.len() {
                        let field = fields[index as int];
                        lemma_count_of_member(fields, index as int);
                        assert(references_at(machine.cells, lhs.0 as int) == fields);
                        lemma_incoming_of_reference(
                            machine.cells,
                            lhs.0 as int,
                            field,
                            machine.next_address.0 as int,
                        );
                        assert(machine.references_to(credits, field) >= 1);
                    }
                }
            }
        },
        _ => {
            if let Ok(left) = machine.int_at(lhs) {
                if let Ok(right) = machine.int_at(rhs) {
                    match op {
                        BinOp::Add => {
                            if i32::MIN <= left + right <= i32::MAX {
                                lemma_allocate_leaf_balanced(
                                    machine,
                                    credits,
                                    HeapValueView::Int((left + right) as i32),
                                );
                            }
                        },
                        BinOp::Sub => {
                            if i32::MIN <= left - right <= i32::MAX {
                                lemma_allocate_leaf_balanced(
                                    machine,
                                    credits,
                                    HeapValueView::Int((left - right) as i32),
                                );
                            }
                        },
                        _ => {
                            lemma_allocate_leaf_balanced(machine, credits, HeapValueView::Bool(left == right));
                        },
                    }
                }
            }
        },
    }
}

/// A new cell whose value refers to the values of some names leaves the
/// machine balanced.
pub proof fn lemma_allocate_holder_balanced(
    machine: Machine,
    credits: Credits,
    names: Seq<Name>,
    value: spec_fn(Seq<HeapAddress>) -> HeapValueView,
)
    requires
        machine.balanced(credits),
        forall|found: Seq<HeapAddress>|
            found.len() == names.len() ==> (#[trigger] value(found)).references() == found,
    ensures
        evaluated(
            machine,
            credits,
            match machine.lookup_all(names) {
                Err(fault) => Err(fault),
                Ok(found) => match machine.retain_all(found) {
                    Err(fault) => Err(fault),
                    Ok(retained) => retained.allocate(value(found)),
                },
            },
        ),
{
    lemma_lookup_from_live(machine, credits, names, 0, Seq::empty());
    lemma_lookup_from_len(machine, names, 0, Seq::empty());
    lemma_lookup_from_faults(machine, names, 0, Seq::empty());
    if let Ok(found) = machine.lookup_all(names) {
        let more = Map::total(|other: HeapAddress| credits[other] + count_in(found, other));
        lemma_retain_all_balanced(machine, credits, found, more);
        if let Ok(retained) = machine.retain_all(found) {
            assert(value(found).references() == found);
            lemma_allocate_balanced(retained, more, value(found), credits);
        }
    }
}

/// A new tuple leaves the machine balanced.
pub proof fn lemma_eval_tuple_balanced(machine: Machine, credits: Credits, args: Seq<Name>)
    requires
        machine.balanced(credits),
    ensures
        evaluated(machine, credits, machine.eval_tuple(args)),
{
    lemma_allocate_holder_balanced(
        machine,
        credits,
        args,
        |found: Seq<HeapAddress>| HeapValueView::Tuple(found),
    );
}

/// A new closure leaves the machine balanced.
pub proof fn lemma_eval_closure_balanced(
    machine: Machine,
    credits: Credits,
    name: Name,
    arg_names: Seq<Name>,
    free_names: Seq<Name>,
    body: TargetAddress,
)
    requires
        machine.balanced(credits),
    ensures
        evaluated(machine, credits, machine.eval_closure(name, arg_names, free_names, body)),
{
    let value = |found: Seq<HeapAddress>|
        HeapValueView::Closure(
            ClosureView { name, arg_names, environment: pair_up(free_names, found), body },
        );
    assert forall|found: Seq<HeapAddress>| found.len() == free_names.len() implies (#[trigger] value(
        found,
    )).references() == found by {
        assert(value(found).references() =~= found);
    }
    lemma_allocate_holder_balanced(machine, credits, free_names, value);
}

/// A field assignment leaves the machine balanced.
pub proof fn lemma_eval_set_field_balanced(
    machine: Machine,
    credits: Credits,
    tuple: Name,
    index: u32,
    new_value: Name,
)
    requires
        machine.balanced(credits),
    ensures
        evaluated(machine, credits, machine.eval_set_field(tuple, index, new_value)),
{
    lemma_lookup_live(machine, credits, tuple);
    lemma_lookup_live(machine, credits, new_value);
    if let Ok(tuple_address) = machine.lookup(tuple) {
        if let Ok(new_address) = machine.lookup(new_value) {
            if let Ok(fields) = machine.tuple_at(tuple_address) {
                if index < fields.len() {
                    let limit = machine.next_address.0 as int;
                    let old_address = fields[index as int];
                    let written = machine.with_cells(
                        machine.cells.insert(
                            tuple_address,
                            CellView {
                                refcount: machine.cells[tuple_address].refcount,
                                value: HeapValueView::Tuple(fields.update(index as int, new_address)),
                            },
                        ),
                    );
                    assert(written.cells.contains_key(new_address));
                    if let Ok(retained) = written.retain(new_address) {
                        let held = Map::total(
                            |other: HeapAddress|
                                credits[other] + (if other == old_address {
                                    1nat
                                } else {
                                    0nat
                                }),
                        );
                        assert(retained.cells.dom() =~= machine.cells.dom());
                        assert(references_at(machine.cells, tuple_address.0 as int) == fields);
                        assert(references_at(retained.cells, tuple_address.0 as int) == fields.update(
                            index as int,
                            new_address,
                        ));
                        assert forall|other: HeapAddress| #![trigger retained.references_to(held, other)] {
                            &&& retained.cells.contains_key(other) ==> retained.cells[other].refcount
                                == retained.references_to(held, other)
                            &&& retained.references_to(held, other) > 0 ==> retained.cells.contains_key(
                                other,
                            )
                        } by {
                            assert forall|k: int| 0 <= k < limit && k != tuple_address.0 implies #[trigger] references_at(
                                retained.cells,
                                k,
                            ) == references_at(machine.cells, k) by {}
                            lemma_incoming_changed(
                                machine.cells,
                                retained.cells,
                                tuple_address.0 as int,
                                other,
                                limit,
                            );
                            lemma_count_update(fields, index as int, new_address, other);
                            assert(retained.references_to(held, other) == machine.references_to(
                                credits,
                                other,
                            ) + (if other == new_address {
                                1nat
                            } else {
                                0nat
                            }));
                        }
                        lemma_release_balanced(retained, held, old_address, credits);
                        if let Ok(released) = retained.release(old_address) {
                            lemma_allocate_leaf_balanced(
                                released,
                                credits,
                                HeapValueView::Tuple(Seq::empty()),
                            );
                        }
                    }
                }
            }
        }
    }
}

/// The value of a definition that does not transfer execution leaves the
/// machine balanced, and is live.
pub proof fn lemma_eval_simple_balanced(machine: Machine, credits: Credits, definition: DefinitionView)
    requires
        machine.balanced(credits),
    ensures
        evaluated(machine, credits, machine.eval_simple(definition)),
{
    match definition {
        DefinitionView::Literal(Constant::Int { value }) => {
            lemma_allocate_leaf_balanced(machine, credits, HeapValueView::Int(value));
        },
        DefinitionView::Literal(Constant::Bool { value }) => {
            lemma_allocate_leaf_balanced(machine, credits, HeapValueView::Bool(value));
        },
        DefinitionView::Tuple { args } => {
            lemma_eval_tuple_balanced(machine, credits, args);
        },
        DefinitionView::Fun(function) => {
            lemma_eval_closure_balanced(
                machine,
                credits,
                function.name,
                function.arg_names,
                function.free_names,
                function.body,
            );
        },
        DefinitionView::BinOp { op, lhs, rhs } => {
            lemma_lookup_live(machine, credits, lhs);
            lemma_lookup_live(machine, credits, rhs);
            if let Ok(lhs_address) = machine.lookup(lhs) {
                if let Ok(rhs_address) = machine.lookup(rhs) {
                    lemma_eval_binop_balanced(machine, credits, op, lhs_address, rhs_address);
                }
            }
        },
        DefinitionView::SetField { tuple, index, new_value } => {
            lemma_eval_set_field_balanced(machine, credits, tuple, index, new_value);
        },
        DefinitionView::Var(name) => {
            lemma_lookup_live(machine, credits, name);
        },
        _ => {},
    }
}

/// Whether a transfer of execution left the machine balanced, or ended in a
/// fault that exact counts do not rule out.
pub open spec fn transferred(credits: Credits, outcome: Result<(Machine, TargetAddress), RuntimeFault>) -> bool {
    match outcome {
        Ok((after, _)) => after.balanced(credits),
        Err(fault) => benign(fault),
    }
}

/// The same cells with other frames that hold as much are balanced.
pub proof fn lemma_frames_replaced(machine: Machine, credits: Credits, frames: Frames)
    requires
        machine.balanced(credits),
        forall|address: HeapAddress| #[trigger] stack_count(frames, address) == stack_count(
            machine.frames,
            address,
        ),
    ensures
        machine.with_frames(frames).balanced(credits),
{
    let after = machine.with_frames(frames);
    assert forall|other: HeapAddress| #![trigger after.references_to(credits, other)] {
        &&& after.cells.contains_key(other) ==> after.cells[other].refcount == after.references_to(
            credits,
            other,
        )
        &&& after.references_to(credits, other) > 0 ==> after.cells.contains_key(other)
    } by {
        assert(stack_count(frames, other) == stack_count(machine.frames, other));
        assert(after.references_to(credits, other) == machine.references_to(credits, other));
    }
}

/// A call leaves the machine balanced.
pub proof fn lemma_eval_call_balanced(
    machine: Machine,
    credits: Credits,
    func: Name,
    args: Seq<Name>,
    return_info: ReturnInfoView,
)
    requires
        machine.balanced(credits),
    ensures
        transferred(credits, machine.eval_call(func, args, return_info)),
{
    lemma_lookup_live(machine, credits, func);
    lemma_lookup_from_live(machine, credits, args, 0, Seq::empty());
    lemma_lookup_from_len(machine, args, 0, Seq::empty());
    lemma_lookup_from_faults(machine, args, 0, Seq::empty());
    if let Ok(closure_address) = machine.lookup(func) {
        if let Ok(arg_values) = machine.lookup_all(args) {
            if let Ok(closure) = machine.closure_at(closure_address) {
                if closure.arg_names.len() == args.len() {
                    let frame = BlockFrameView::fresh(Some(return_info));
                    let entered = machine.with_frames(machine.frames.push(seq![frame]));
                    assert forall|address: HeapAddress| #[trigger] stack_count(
                        entered.frames,
                        address,
                    ) == stack_count(machine.frames, address) by {
                        lemma_stack_count_enter_function(machine.frames, frame, address);
                    }
                    lemma_frames_replaced(machine, credits, entered.frames);
                    let held = machine.cells[closure_address].value.references();
                    assert(references_at(machine.cells, closure_address.0 as int) == held);
                    assert forall|i: int| 0 <= i < closure.environment.len() implies entered.cells.contains_key(
                        (#[trigger] closure.environment[i]).1,
                    ) by {
                        let captured = closure.environment[i].1;
                        assert(held[i] == captured);
                        lemma_count_of_member(held, i);
                        lemma_incoming_of_reference(
                            machine.cells,
                            closure_address.0 as int,
                            captured,
                            machine.next_address.0 as int,
                        );
                        assert(machine.references_to(credits, captured) >= 1);
                    }
                    lemma_bind_each_balanced(entered, credits, closure.environment);
                    if let Ok(captured) = entered.bind_each(closure.environment) {
                        let passing = pair_up(closure.arg_names, arg_values);
                        assert forall|i: int| 0 <= i < passing.len() implies captured.cells.contains_key(
                            (#[trigger] passing[i]).1,
                        ) by {
                            assert(passing[i].1 == arg_values[i]);
                            assert(machine.cells.contains_key(arg_values[i]));
                        }
                        lemma_bind_each_balanced(captured, credits, passing);
                        if let Ok(passed) = captured.bind_each(passing) {
                            assert(passed.cells.contains_key(closure_address));
                            lemma_bind_balanced(passed, credits, closure.name, closure_address);
                        }
                    }
                }
            }
        }
    }
}

/// A conditional leaves the machine balanced.
pub proof fn lemma_eval_if_balanced(
    machine: Machine,
    credits: Credits,
    condition: Name,
    branch_success: TargetAddress,
    branch_failure: TargetAddress,
    return_info: ReturnInfoView,
)
    requires
        machine.balanced(credits),
    ensures
        transferred(
            credits,
            machine.eval_if(condition, branch_success, branch_failure, return_info),
        ),
{
    lemma_lookup_live(machine, credits, condition);
    if let Ok(address) = machine.lookup(condition) {
        if let Ok(chosen) = machine.bool_at(address) {
            let frame = BlockFrameView::fresh(Some(return_info));
            let frames = machine.frames.drop_last().push(machine.frames.last().push(frame));
            assert forall|other: HeapAddress| #[trigger] stack_count(frames, other) == stack_count(
                machine.frames,
                other,
            ) by {
                lemma_stack_count_enter_block(machine.frames, frame, other);
            }
            lemma_frames_replaced(machine, credits, frames);
        }
    }
}

/// An assignment leaves the machine balanced.
pub proof fn lemma_eval_assignment_balanced(
    machine: Machine,
    credits: Credits,
    address: TargetAddress,
    name: Name,
    definition: DefinitionView,
)
    requires
        machine.balanced(credits),
    ensures
        transferred(credits, machine.eval_assignment(address, name, definition)),
{
    let return_info = ReturnInfoView { result_variable: name, return_address: address.successor() };
    match definition {
        DefinitionView::Call { func, args } => {
            lemma_eval_call_balanced(machine, credits, func, args, return_info);
        },
        DefinitionView::If { condition, branch_success, branch_failure } => {
            lemma_eval_if_balanced(machine, credits, condition, branch_success, branch_failure, return_info);
        },
        _ => {
            lemma_eval_simple_balanced(machine, credits, definition);
            if let Ok((evaluated_machine, value)) = machine.eval_simple(definition) {
                lemma_bind_balanced(evaluated_machine, credits, name, value);
            }
        },
    }
}

/// The end of a block leaves the machine balanced.
pub proof fn lemma_exit_block_balanced(machine: Machine, credits: Credits, result_variable: Name)
    requires
        machine.balanced(credits),
    ensures
        match machine.exit_block(result_variable) {
            Ok(Progress::Running(after, _)) => after.balanced(credits),
            Ok(Progress::Finished(after, _)) => after.balanced(credits),
            Err(fault) => benign(fault),
        },
{
    if machine.frames.len() > 0 && machine.frames.last().len() > 0 {
        let frame = machine.frames.last().last();
        let exited = machine.with_frames(frames_after_exit(machine.frames));
        lemma_lookup_counted(machine.frames.last(), result_variable);
        if let Some(result) = lookup_in_frames(machine.frames.last(), result_variable) {
            assert(machine.references_to(credits, result) >= 1);
            let held = Map::total(|other: HeapAddress| credits[other] + count_in(frame.values, other));
            assert forall|other: HeapAddress| #![trigger exited.references_to(held, other)] {
                &&& exited.cells.contains_key(other) ==> exited.cells[other].refcount
                    == exited.references_to(held, other)
                &&& exited.references_to(held, other) > 0 ==> exited.cells.contains_key(other)
            } by {
                lemma_stack_count_exit(machine.frames, other);
                assert(exited.references_to(held, other) == machine.references_to(credits, other));
            }
            match frame.return_info {
                None => {
                    lemma_release_all_balanced(exited, held, frame.values, credits);
                },
                Some(info) => {
                    lemma_bind_balanced(exited, held, info.result_variable, result);
                    if let Ok(stored) = exited.bind(info.result_variable, result) {
                        lemma_release_all_balanced(stored, held, frame.values, credits);
                    }
                },
            }
        }
    }
}

/// An instruction leaves a balanced machine balanced, and faults neither on
/// an address that is not live nor on a release that is not backed by a
/// reference.
pub proof fn lemma_step_balanced(program: ProgramView, machine: Machine, pc: TargetAddress)
    requires
        machine.balanced(no_credits()),
    ensures
        match step(program, machine, pc) {
            Ok(Progress::Running(after, _)) => after.balanced(no_credits()),
            Ok(Progress::Finished(after, _)) => after.balanced(no_credits()),
            Err(fault) => benign(fault),
        },
{
    if program.has_instruction(pc) {
        match program.instruction_at(pc) {
            InstructionView::EnterBlock => {},
            InstructionView::ExitBlock(result_variable) => {
                lemma_exit_block_balanced(machine, no_credits(), result_variable);
            },
            InstructionView::Assignment { name, definition } => {
                lemma_eval_assignment_balanced(machine, no_credits(), pc, name, definition);
            },
        }
    }
}

/// A run from a balanced machine ends balanced, and faults neither on an
/// address that is not live nor on a release that is not backed by a
/// reference.
pub proof fn lemma_run_balanced(program: ProgramView, machine: Machine, pc: TargetAddress, budget: nat)
    requires
        machine.balanced(no_credits()),
    ensures
        match run(program, machine, pc, budget) {
            Ok(Progress::Running(after, _)) => after.balanced(no_credits()),
            Ok(Progress::Finished(after, _)) => after.balanced(no_credits()),
            Err(fault) => benign(fault),
        },
    decreases budget,
{
    if budget > 0 {
        lemma_step_balanced(program, machine, pc);
        if let Ok(Progress::Running(following, target)) = step(program, machine, pc) {
            lemma_run_balanced(program, following, target, (budget - 1) as nat);
        }
    }
}

/// The machine that a run starts with is balanced.
pub proof fn lemma_initial_balanced()
    ensures
        Machine::initial().balanced(no_credits()),
{
    let machine = Machine::initial();
    assert forall|other: HeapAddress| #![trigger machine.references_to(no_credits(), other)] {
        &&& machine.cells.contains_key(other) ==> machine.cells[other].refcount == machine.references_to(
            no_credits(),
            other,
        )
        &&& machine.references_to(no_credits(), other) > 0 ==> machine.cells.contains_key(other)
    } by {
        let frame = BlockFrameView::fresh(None);
        lemma_stack_count_enter_function(Seq::empty(), frame, other);
        assert(Seq::<Seq<BlockFrameView>>::empty().push(seq![frame]) =~= machine.frames);
    }
}

} // verus!
