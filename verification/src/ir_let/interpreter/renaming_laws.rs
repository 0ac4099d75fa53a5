//! Alpha equivalence: a program with other names computes the same, if
//! different names stay different.

use vstd::prelude::*;
use crate::fault::RuntimeFault;
use crate::heap::{Cells, release, release_all};
use crate::heap_value::{CellView, ClosureView, HeapAddress, HeapValueView};
use crate::ir_let::interpreter::machine::{Machine, Progress, pair_up, run, step};
use crate::ir_let::interpreter::renaming::{
    Renaming, injective, rename_bindings, rename_call, rename_cells, rename_definition,
    rename_frame, rename_frames, rename_instruction, rename_machine, rename_names, rename_outcome,
    rename_program, rename_value,
};
use crate::ir_let::free_vars_laws::{definition_mentions, mentions};
use crate::ir_let::let_expr::{DefinitionView, InstructionView, ProgramView, TargetAddress};
use crate::stack::{
    BlockFrameView, Frames, ReturnInfoView, frames_after_bind, frames_after_exit, latest_binding,
    lookup_in_frames,
};
use crate::syntax::{BinOp, Constant, Name};

verus! {

/// The machine that follows, renamed, with what was computed; or the fault.
pub open spec fn rename_step<T>(renaming: Renaming, outcome: Result<(Machine, T), RuntimeFault>) -> Result<
    (Machine, T),
    RuntimeFault,
> {
    match outcome {
        Ok((machine, value)) => Ok((rename_machine(renaming, machine), value)),
        Err(fault) => Err(fault),
    }
}

/// The machine that follows, renamed; or the fault.
pub open spec fn rename_state(renaming: Renaming, outcome: Result<Machine, RuntimeFault>) -> Result<
    Machine,
    RuntimeFault,
> {
    match outcome {
        Ok(machine) => Ok(rename_machine(renaming, machine)),
        Err(fault) => Err(fault),
    }
}

/// The cells that are left, renamed; or the fault.
pub open spec fn rename_heap(renaming: Renaming, outcome: Result<Cells, RuntimeFault>) -> Result<
    Cells,
    RuntimeFault,
> {
    match outcome {
        Ok(cells) => Ok(rename_cells(renaming, cells)),
        Err(fault) => Err(fault),
    }
}

/// Whether a name bound in the frames of a call is renamed like `name` only
/// if it is `name`.
pub open spec fn apart_in(renaming: Renaming, frames: Seq<BlockFrameView>, name: Name) -> bool {
    forall|j: int, i: int|
        0 <= j < frames.len() && 0 <= i < frames[j].variable_names.len() && renaming(
            #[trigger] frames[j].variable_names[i],
        ) == renaming(name) ==> frames[j].variable_names[i] == name
}

/// Whether a name bound in the current call is renamed like `name` only if
/// it is `name`: the renamed name is then looked up as the name is.
pub open spec fn told_apart(renaming: Renaming, machine: Machine, name: Name) -> bool {
    machine.frames.len() > 0 ==> apart_in(renaming, machine.frames.last(), name)
}

/// Whether every name that a definition reads is told apart from the names
/// bound in the current call.
pub open spec fn reads_told_apart(renaming: Renaming, machine: Machine, definition: DefinitionView) -> bool {
    forall|name: Name| #[trigger] definition_mentions(definition, name) ==> told_apart(renaming, machine, name)
}

/// A renaming that keeps different names different tells every name apart.
pub proof fn lemma_injective_tells_apart(renaming: Renaming, machine: Machine, name: Name)
    requires
        injective(renaming),
    ensures
        told_apart(renaming, machine, name),
{
}

/// A renamed name is bound among renamed names to what the name was bound
/// to.
pub proof fn lemma_binding_renamed(renaming: Renaming, names: Seq<Name>, values: Seq<HeapAddress>, name: Name)
    requires
        forall|i: int| 0 <= i < names.len() && renaming(#[trigger] names[i]) == renaming(name) ==> names[i] == name,
    ensures
        latest_binding(rename_names(renaming, names), values, renaming(name)) == latest_binding(
            names,
            values,
            name,
        ),
    decreases names.len(),
{
    if names.len() > 0 && values.len() == names.len() {
        assert(rename_names(renaming, names).drop_last() =~= rename_names(renaming, names.drop_last()));
        assert(rename_names(renaming, names).last() == renaming(names.last()));
        assert(names.last() == names[names.len() - 1]);
        assert forall|i: int|
            0 <= i < names.drop_last().len() && renaming(#[trigger] names.drop_last()[i]) == renaming(
                name,
            ) implies names.drop_last()[i] == name by {
            assert(names.drop_last()[i] == names[i]);
        }
        lemma_binding_renamed(renaming, names.drop_last(), values.drop_last(), name);
    }
}

/// A renamed name is bound in renamed frames to what the name was bound to.
pub proof fn lemma_lookup_in_frames_renamed(renaming: Renaming, frames: Seq<BlockFrameView>, name: Name)
    requires
        apart_in(renaming, frames, name),
    ensures
        lookup_in_frames(rename_call(renaming, frames), renaming(name)) == lookup_in_frames(frames, name),
    decreases frames.len(),
{
    if frames.len() > 0 {
        assert(rename_call(renaming, frames).drop_last() =~= rename_call(renaming, frames.drop_last()));
        assert(rename_call(renaming, frames).last() == rename_frame(renaming, frames.last()));
        assert forall|i: int|
            0 <= i < frames.last().variable_names.len() && renaming(
                #[trigger] frames.last().variable_names[i],
            ) == renaming(name) implies frames.last().variable_names[i] == name by {
            assert(frames[frames.len() - 1].variable_names[i] == frames.last().variable_names[i]);
        }
        lemma_binding_renamed(renaming, frames.last().variable_names, frames.last().values, name);
        assert forall|j: int, i: int|
            0 <= j < frames.drop_last().len() && 0 <= i < frames.drop_last()[j].variable_names.len() && renaming(
                #[trigger] frames.drop_last()[j].variable_names[i],
            ) == renaming(name) implies frames.drop_last()[j].variable_names[i] == name by {
            assert(frames.drop_last()[j] == frames[j]);
        }
        lemma_lookup_in_frames_renamed(renaming, frames.drop_last(), name);
    }
}

/// A renamed name has in the renamed machine the value that the name had.
pub proof fn lemma_lookup_renamed(renaming: Renaming, machine: Machine, name: Name)
    requires
        told_apart(renaming, machine, name),
    ensures
        rename_machine(renaming, machine).lookup(renaming(name)) == machine.lookup(name),
{
    if machine.frames.len() > 0 {
        assert(rename_frames(renaming, machine.frames).last() == rename_call(
            renaming,
            machine.frames.last(),
        ));
        lemma_lookup_in_frames_renamed(renaming, machine.frames.last(), name);
    }
}

/// Renamed names have in the renamed machine the values that the names had.
pub proof fn lemma_lookup_from_renamed(
    renaming: Renaming,
    machine: Machine,
    names: Seq<Name>,
    from: int,
    found: Seq<HeapAddress>,
)
    requires
        forall|k: int| 0 <= k < names.len() ==> told_apart(renaming, machine, #[trigger] names[k]),
    ensures
        rename_machine(renaming, machine).lookup_from(rename_names(renaming, names), from, found)
            == machine.lookup_from(names, from, found),
    decreases names.len() - from,
{
    if 0 <= from < names.len() {
        lemma_lookup_renamed(renaming, machine, names[from]);
        if let Ok(address) = machine.lookup(names[from]) {
            lemma_lookup_from_renamed(renaming, machine, names, from + 1, found.push(address));
        }
    }
}

/// Renamed cells are the same cells, with the same counts and references.
pub proof fn lemma_cells_renamed(renaming: Renaming, cells: Cells)
    ensures
        rename_cells(renaming, cells).dom() == cells.dom(),
        forall|address: HeapAddress|
            cells.contains_key(address) ==> (#[trigger] rename_cells(renaming, cells)[address]).refcount
                == cells[address].refcount && rename_cells(renaming, cells)[address].value == rename_value(
                renaming,
                cells[address].value,
            ) && rename_cells(renaming, cells)[address].value.references()
                == cells[address].value.references(),
{
    assert(rename_cells(renaming, cells).dom() =~= cells.dom());
    assert forall|address: HeapAddress| cells.contains_key(address) implies (#[trigger] rename_cells(
        renaming,
        cells,
    )[address]).value.references() == cells[address].value.references() by {
        assert(rename_value(renaming, cells[address].value).references()
            =~= cells[address].value.references());
    }
}

/// Giving up a reference in renamed cells leaves the cells renamed.
pub proof fn lemma_release_renamed(renaming: Renaming, cells: Cells, address: HeapAddress)
    ensures
        release(rename_cells(renaming, cells), address) == rename_heap(renaming, release(cells, address)),
    decreases cells.dom().len(), 0nat, 0nat,
{
    let renamed = rename_cells(renaming, cells);
    lemma_cells_renamed(renaming, cells);
    if cells.dom().finite() && cells.contains_key(address) {
        let cell = cells[address];
        if cell.refcount > 1 {
            let lowered = cells.insert(
                address,
                CellView { refcount: (cell.refcount - 1) as u32, value: cell.value },
            );
            assert(rename_cells(renaming, lowered) =~= renamed.insert(
                address,
                CellView { refcount: (cell.refcount - 1) as u32, value: renamed[address].value },
            ));
        } else if cell.refcount == 1 {
            assert(rename_cells(renaming, cells.remove(address)) =~= renamed.remove(address));
            lemma_release_all_renamed(renaming, cells.remove(address), cell.value.references());
        }
    }
}

/// Giving up references in renamed cells leaves the cells renamed.
pub proof fn lemma_release_all_renamed(renaming: Renaming, cells: Cells, addresses: Seq<HeapAddress>)
    ensures
        release_all(rename_cells(renaming, cells), addresses) == rename_heap(
            renaming,
            release_all(cells, addresses),
        ),
    decreases cells.dom().len(), 1nat, addresses.len(),
{
    lemma_cells_renamed(renaming, cells);
    if addresses.len() > 0 {
        lemma_release_renamed(renaming, cells, addresses[0]);
        if let Ok(rest) = release(cells, addresses[0]) {
            lemma_cells_renamed(renaming, rest);
            if rest.dom().finite() && rest.dom().len() <= cells.dom().len() {
                lemma_release_all_renamed(renaming, rest, addresses.drop_first());
            }
        }
    }
}

/// A new cell in the renamed machine is the new cell, renamed.
pub proof fn lemma_allocate_renamed(renaming: Renaming, machine: Machine, value: HeapValueView)
    ensures
        rename_machine(renaming, machine).allocate(rename_value(renaming, value)) == rename_step(
            renaming,
            machine.allocate(value),
        ),
{
    if let Ok((after, address)) = machine.allocate(value) {
        assert(rename_cells(renaming, after.cells) =~= rename_cells(renaming, machine.cells).insert(
            address,
            CellView { refcount: 0, value: rename_value(renaming, value) },
        ));
    }
}

/// One more reference in the renamed machine.
pub proof fn lemma_retain_renamed(renaming: Renaming, machine: Machine, address: HeapAddress)
    ensures
        rename_machine(renaming, machine).retain(address) == rename_state(renaming, machine.retain(address)),
{
    lemma_cells_renamed(renaming, machine.cells);
    if let Ok(after) = machine.retain(address) {
        let renamed = rename_cells(renaming, machine.cells);
        assert(rename_cells(renaming, after.cells) =~= renamed.insert(
            address,
            CellView { refcount: (renamed[address].refcount + 1) as u32, value: renamed[address].value },
        ));
    }
}

/// One more reference to each of some cells in the renamed machine.
pub proof fn lemma_retain_all_renamed(renaming: Renaming, machine: Machine, addresses: Seq<HeapAddress>)
    ensures
        rename_machine(renaming, machine).retain_all(addresses) == rename_state(
            renaming,
            machine.retain_all(addresses),
        ),
    decreases addresses.len(),
{
    if addresses.len() > 0 {
        lemma_retain_renamed(renaming, machine, addresses[0]);
        if let Ok(retained) = machine.retain(addresses[0]) {
            lemma_retain_all_renamed(renaming, retained, addresses.drop_first());
        }
    }
}

/// One reference less in the renamed machine.
pub proof fn lemma_machine_release_renamed(renaming: Renaming, machine: Machine, address: HeapAddress)
    ensures
        rename_machine(renaming, machine).release(address) == rename_state(
            renaming,
            machine.release(address),
        ),
{
    lemma_release_renamed(renaming, machine.cells, address);
}

/// One reference less to each of some cells in the renamed machine.
pub proof fn lemma_machine_release_all_renamed(
    renaming: Renaming,
    machine: Machine,
    addresses: Seq<HeapAddress>,
)
    ensures
        rename_machine(renaming, machine).release_all(addresses) == rename_state(
            renaming,
            machine.release_all(addresses),
        ),
{
    lemma_release_all_renamed(renaming, machine.cells, addresses);
}

/// One more local under the renamed name in the renamed stack.
pub proof fn lemma_frames_bind_renamed(renaming: Renaming, frames: Frames, name: Name, value: HeapAddress)
    requires
        frames.len() > 0,
        frames.last().len() > 0,
    ensures
        rename_frames(renaming, frames_after_bind(frames, name, value)) == frames_after_bind(
            rename_frames(renaming, frames),
            renaming(name),
            value,
        ),
{
    let after = frames_after_bind(frames, name, value);
    let renamed = rename_frames(renaming, frames);
    let expected = frames_after_bind(renamed, renaming(name), value);
    assert(rename_frames(renaming, after).len() == expected.len());
    assert forall|i: int| 0 <= i < expected.len() implies rename_frames(renaming, after)[i]
        =~= expected[i] by {
        if i == frames.len() - 1 {
            let call = frames.last();
            let bound = call.last().bind(name, value);
            assert(rename_frame(renaming, bound).variable_names =~= rename_frame(
                renaming,
                call.last(),
            ).variable_names.push(renaming(name)));
            assert forall|j: int| 0 <= j < expected[i].len() implies rename_frames(renaming, after)[i][j]
                == expected[i][j] by {}
        }
    }
    assert(rename_frames(renaming, after) =~= expected);
}

/// A renamed name bound in the renamed machine.
pub proof fn lemma_bind_renamed(renaming: Renaming, machine: Machine, name: Name, address: HeapAddress)
    ensures
        rename_machine(renaming, machine).bind(renaming(name), address) == rename_state(
            renaming,
            machine.bind(name, address),
        ),
{
    lemma_retain_renamed(renaming, machine, address);
    if let Ok(retained) = machine.retain(address) {
        if retained.frames.len() > 0 && retained.frames.last().len() > 0 {
            lemma_frames_bind_renamed(renaming, retained.frames, name, address);
        } else if retained.frames.len() > 0 {
            assert(rename_frames(renaming, retained.frames).last().len() == 0);
        }
    }
}

/// Renamed names bound in the renamed machine.
pub proof fn lemma_bind_each_renamed(renaming: Renaming, machine: Machine, bindings: Seq<(Name, HeapAddress)>)
    ensures
        rename_machine(renaming, machine).bind_each(rename_bindings(renaming, bindings)) == rename_state(
            renaming,
            machine.bind_each(bindings),
        ),
    decreases bindings.len(),
{
    if bindings.len() > 0 {
        lemma_bind_renamed(renaming, machine, bindings[0].0, bindings[0].1);
        assert(rename_bindings(renaming, bindings).drop_first() =~= rename_bindings(
            renaming,
            bindings.drop_first(),
        ));
        if let Ok(bound) = machine.bind(bindings[0].0, bindings[0].1) {
            lemma_bind_each_renamed(renaming, bound, bindings.drop_first());
        }
    }
}

/// A binary operation in the renamed machine.
pub proof fn lemma_eval_binop_renamed(
    renaming: Renaming,
    machine: Machine,
    op: BinOp,
    lhs: HeapAddress,
    rhs: HeapAddress,
)
    ensures
        rename_machine(renaming, machine).eval_binop(op, lhs, rhs) == rename_step(
            renaming,
            machine.eval_binop(op, lhs, rhs),
        ),
{
    lemma_cells_renamed(renaming, machine.cells);
    let renamed = rename_machine(renaming, machine);
    assert(renamed.int_at(lhs) == machine.int_at(lhs));
    assert(renamed.int_at(rhs) == machine.int_at(rhs));
    assert(renamed.tuple_at(lhs) == machine.tuple_at(lhs));
    if let Ok(left) = machine.int_at(lhs) {
        if let Ok(right) = machine.int_at(rhs) {
            lemma_allocate_renamed(renaming, machine, HeapValueView::Int((left + right) as i32));
            lemma_allocate_renamed(renaming, machine, HeapValueView::Int((left - right) as i32));
            lemma_allocate_renamed(renaming, machine, HeapValueView::Bool(left == right));
        }
    }
}

/// The value of a renamed definition that does not transfer execution, in
/// the renamed machine.
pub proof fn lemma_eval_simple_renamed(renaming: Renaming, machine: Machine, definition: DefinitionView)
    requires
        reads_told_apart(renaming, machine, definition),
    ensures
        rename_machine(renaming, machine).eval_simple(rename_definition(renaming, definition))
            == rename_step(renaming, machine.eval_simple(definition)),
{
    let renamed = rename_machine(renaming, machine);
    lemma_cells_renamed(renaming, machine.cells);
    match definition {
        DefinitionView::Literal(Constant::Int { value }) => {
            lemma_allocate_renamed(renaming, machine, HeapValueView::Int(value));
        },
        DefinitionView::Literal(Constant::Bool { value }) => {
            lemma_allocate_renamed(renaming, machine, HeapValueView::Bool(value));
        },
        DefinitionView::Tuple { args } => {
            assert forall|k: int| 0 <= k < args.len() implies told_apart(renaming, machine, #[trigger] args[k]) by {
                assert(definition_mentions(definition, args[k]));
            }
            lemma_lookup_from_renamed(renaming, machine, args, 0, Seq::empty());
            if let Ok(found) = machine.lookup_all(args) {
                lemma_retain_all_renamed(renaming, machine, found);
                if let Ok(retained) = machine.retain_all(found) {
                    lemma_allocate_renamed(renaming, retained, HeapValueView::Tuple(found));
                }
            }
        },
        DefinitionView::Fun(function) => {
            assert forall|k: int| 0 <= k < function.free_names.len() implies told_apart(
                renaming,
                machine,
                #[trigger] function.free_names[k],
            ) by {
                assert(definition_mentions(definition, function.free_names[k]));
            }
            lemma_lookup_from_renamed(renaming, machine, function.free_names, 0, Seq::empty());
            if let Ok(captured) = machine.lookup_all(function.free_names) {
                lemma_retain_all_renamed(renaming, machine, captured);
                if let Ok(retained) = machine.retain_all(captured) {
                    let value = HeapValueView::Closure(
                        ClosureView {
                            name: function.name,
                            arg_names: function.arg_names,
                            environment: pair_up(function.free_names, captured),
                            body: function.body,
                        },
                    );
                    assert(rename_bindings(renaming, pair_up(function.free_names, captured)) =~= pair_up(
                        rename_names(renaming, function.free_names),
                        captured,
                    ));
                    lemma_allocate_renamed(renaming, retained, value);
                }
            }
        },
        DefinitionView::BinOp { op, lhs, rhs } => {
            assert(definition_mentions(definition, lhs) && definition_mentions(definition, rhs));
            lemma_lookup_renamed(renaming, machine, lhs);
            lemma_lookup_renamed(renaming, machine, rhs);
            if let Ok(lhs_address) = machine.lookup(lhs) {
                if let Ok(rhs_address) = machine.lookup(rhs) {
                    lemma_eval_binop_renamed(renaming, machine, op, lhs_address, rhs_address);
                }
            }
        },
        DefinitionView::SetField { tuple, index, new_value } => {
            assert(definition_mentions(definition, tuple) && definition_mentions(definition, new_value));
            lemma_lookup_renamed(renaming, machine, tuple);
            lemma_lookup_renamed(renaming, machine, new_value);
            if let Ok(tuple_address) = machine.lookup(tuple) {
                if let Ok(new_address) = machine.lookup(new_value) {
                    assert(renamed.tuple_at(tuple_address) == machine.tuple_at(tuple_address));
                    if let Ok(fields) = machine.tuple_at(tuple_address) {
                        if index < fields.len() {
                            let cell = CellView {
                                refcount: machine.cells[tuple_address].refcount,
                                value: HeapValueView::Tuple(fields.update(index as int, new_address)),
                            };
                            let written = machine.with_cells(machine.cells.insert(tuple_address, cell));
                            assert(rename_cells(renaming, written.cells) =~= renamed.cells.insert(
                                tuple_address,
                                cell,
                            ));
                            lemma_retain_renamed(renaming, written, new_address);
                            if let Ok(retained) = written.retain(new_address) {
                                lemma_machine_release_renamed(renaming, retained, fields[index as int]);
                                if let Ok(released) = retained.release(fields[index as int]) {
                                    lemma_allocate_renamed(
                                        renaming,
                                        released,
                                        HeapValueView::Tuple(Seq::empty()),
                                    );
                                }
                            }
                        }
                    }
                }
            }
        },
        DefinitionView::Var(name) => {
            assert(definition_mentions(definition, name));
            lemma_lookup_renamed(renaming, machine, name);
        },
        _ => {},
    }
}

/// A new call in the renamed stack.
pub proof fn lemma_enter_function_renamed(renaming: Renaming, frames: Frames, return_info: ReturnInfoView)
    ensures
        rename_frames(renaming, frames.push(seq![BlockFrameView::fresh(Some(return_info))]))
            == rename_frames(renaming, frames).push(
            seq![
                BlockFrameView::fresh(
                    Some(
                        ReturnInfoView {
                            result_variable: renaming(return_info.result_variable),
                            return_address: return_info.return_address,
                        },
                    ),
                ),
            ],
        ),
{
    let frame = BlockFrameView::fresh(Some(return_info));
    let renamed_frame = BlockFrameView::fresh(
        Some(
            ReturnInfoView {
                result_variable: renaming(return_info.result_variable),
                return_address: return_info.return_address,
            },
        ),
    );
    assert(rename_frame(renaming, frame).variable_names =~= renamed_frame.variable_names);
    assert(rename_call(renaming, seq![frame]) =~= seq![renamed_frame]);
    assert(rename_frames(renaming, frames.push(seq![frame])) =~= rename_frames(renaming, frames).push(
        seq![renamed_frame],
    ));
}

/// A new block in the renamed stack.
pub proof fn lemma_enter_block_renamed(renaming: Renaming, frames: Frames, return_info: ReturnInfoView)
    requires
        frames.len() > 0,
    ensures
        rename_frames(
            renaming,
            frames.drop_last().push(frames.last().push(BlockFrameView::fresh(Some(return_info)))),
        ) == rename_frames(renaming, frames).drop_last().push(
            rename_frames(renaming, frames).last().push(
                BlockFrameView::fresh(
                    Some(
                        ReturnInfoView {
                            result_variable: renaming(return_info.result_variable),
                            return_address: return_info.return_address,
                        },
                    ),
                ),
            ),
        ),
{
    let frame = BlockFrameView::fresh(Some(return_info));
    let renamed_frame = BlockFrameView::fresh(
        Some(
            ReturnInfoView {
                result_variable: renaming(return_info.result_variable),
                return_address: return_info.return_address,
            },
        ),
    );
    assert(rename_frame(renaming, frame).variable_names =~= renamed_frame.variable_names);
    let after = frames.drop_last().push(frames.last().push(frame));
    let renamed = rename_frames(renaming, frames);
    let expected = renamed.drop_last().push(renamed.last().push(renamed_frame));
    assert(rename_frames(renaming, after).len() == expected.len());
    assert forall|i: int| 0 <= i < expected.len() implies rename_frames(renaming, after)[i]
        =~= expected[i] by {}
    assert(rename_frames(renaming, after) =~= expected);
}

/// The end of a block in the renamed stack.
pub proof fn lemma_frames_exit_renamed(renaming: Renaming, frames: Frames)
    requires
        frames.len() > 0,
    ensures
        rename_frames(renaming, frames_after_exit(frames)) == frames_after_exit(
            rename_frames(renaming, frames),
        ),
{
    let after = frames_after_exit(frames);
    let expected = frames_after_exit(rename_frames(renaming, frames));
    assert(rename_frames(renaming, frames).last().len() == frames.last().len());
    assert(rename_frames(renaming, after).len() == expected.len());
    assert forall|i: int| 0 <= i < expected.len() implies rename_frames(renaming, after)[i]
        =~= expected[i] by {}
    assert(rename_frames(renaming, after) =~= expected);
}

/// A renamed transfer of execution in the renamed machine.
pub proof fn lemma_eval_control_renamed(
    renaming: Renaming,
    machine: Machine,
    definition: DefinitionView,
    return_info: ReturnInfoView,
)
    requires
        reads_told_apart(renaming, machine, definition),
    ensures
        rename_machine(renaming, machine).eval_control(
            rename_definition(renaming, definition),
            ReturnInfoView {
                result_variable: renaming(return_info.result_variable),
                return_address: return_info.return_address,
            },
        ) == rename_step(renaming, machine.eval_control(definition, return_info)),
{
    let renamed = rename_machine(renaming, machine);
    lemma_cells_renamed(renaming, machine.cells);
    match definition {
        DefinitionView::Call { func, args } => {
            assert(definition_mentions(definition, func));
            assert forall|k: int| 0 <= k < args.len() implies told_apart(renaming, machine, #[trigger] args[k]) by {
                assert(definition_mentions(definition, args[k]));
            }
            lemma_lookup_renamed(renaming, machine, func);
            lemma_lookup_from_renamed(renaming, machine, args, 0, Seq::empty());
            if let Ok(closure_address) = machine.lookup(func) {
                if let Ok(arg_values) = machine.lookup_all(args) {
                    if let Ok(closure) = machine.closure_at(closure_address) {
                        let renamed_closure = renamed.closure_at(closure_address)->Ok_0;
                        assert(renamed_closure.arg_names == rename_names(renaming, closure.arg_names));
                        if closure.arg_names.len() == args.len() {
                            let entered = machine.with_frames(
                                machine.frames.push(seq![BlockFrameView::fresh(Some(return_info))]),
                            );
                            lemma_enter_function_renamed(renaming, machine.frames, return_info);
                            lemma_bind_each_renamed(renaming, entered, closure.environment);
                            if let Ok(captured) = entered.bind_each(closure.environment) {
                                let passing = pair_up(closure.arg_names, arg_values);
                                assert(rename_bindings(renaming, passing) =~= pair_up(
                                    rename_names(renaming, closure.arg_names),
                                    arg_values,
                                ));
                                lemma_bind_each_renamed(renaming, captured, passing);
                                if let Ok(passed) = captured.bind_each(passing) {
                                    lemma_bind_renamed(renaming, passed, closure.name, closure_address);
                                }
                            }
                        }
                    } else {
                        assert(renamed.closure_at(closure_address) is Err);
                    }
                }
            }
        },
        DefinitionView::If { condition, branch_success, branch_failure } => {
            assert(definition_mentions(definition, condition));
            lemma_lookup_renamed(renaming, machine, condition);
            if let Ok(address) = machine.lookup(condition) {
                assert(renamed.bool_at(address) == machine.bool_at(address));
                lemma_enter_block_renamed(renaming, machine.frames, return_info);
            }
        },
        _ => {},
    }
}

/// A renamed assignment in the renamed machine.
pub proof fn lemma_eval_assignment_renamed(
    renaming: Renaming,
    machine: Machine,
    address: TargetAddress,
    name: Name,
    definition: DefinitionView,
)
    requires
        reads_told_apart(renaming, machine, definition),
    ensures
        rename_machine(renaming, machine).eval_assignment(
            address,
            renaming(name),
            rename_definition(renaming, definition),
        ) == rename_step(renaming, machine.eval_assignment(address, name, definition)),
{
    if definition.is_control() {
        lemma_eval_control_renamed(
            renaming,
            machine,
            definition,
            ReturnInfoView { result_variable: name, return_address: address.successor() },
        );
    } else {
        lemma_eval_simple_renamed(renaming, machine, definition);
        if let Ok((evaluated, value)) = machine.eval_simple(definition) {
            lemma_bind_renamed(renaming, evaluated, name, value);
        }
    }
}

/// The end of a block in the renamed machine.
pub proof fn lemma_exit_block_renamed(renaming: Renaming, machine: Machine, result_variable: Name)
    requires
        told_apart(renaming, machine, result_variable),
    ensures
        rename_machine(renaming, machine).exit_block(renaming(result_variable)) == rename_outcome(
            renaming,
            machine.exit_block(result_variable),
        ),
{
    let renamed = rename_machine(renaming, machine);
    lemma_cells_renamed(renaming, machine.cells);
    if machine.frames.len() > 0 {
        assert(renamed.frames.last() == rename_call(renaming, machine.frames.last()));
        if machine.frames.last().len() > 0 {
            let frame = machine.frames.last().last();
            assert(renamed.frames.last().last() == rename_frame(renaming, frame));
            let exited = machine.with_frames(frames_after_exit(machine.frames));
            lemma_frames_exit_renamed(renaming, machine.frames);
            lemma_lookup_in_frames_renamed(renaming, machine.frames.last(), result_variable);
            if let Some(result) = lookup_in_frames(machine.frames.last(), result_variable) {
                match frame.return_info {
                    None => {
                        lemma_machine_release_all_renamed(renaming, exited, frame.values);
                    },
                    Some(info) => {
                        lemma_bind_renamed(renaming, exited, info.result_variable, result);
                        if let Ok(stored) = exited.bind(info.result_variable, result) {
                            lemma_machine_release_all_renamed(renaming, stored, frame.values);
                        }
                    },
                }
            }
        }
    }
}

/// An instruction of the renamed program in the renamed machine does what
/// the instruction does, renamed.
pub proof fn lemma_step_renamed(renaming: Renaming, program: ProgramView, machine: Machine, pc: TargetAddress)
    requires
        program.has_instruction(pc) ==> forall|name: Name| #[trigger]
            mentions(program.instruction_at(pc), name) ==> told_apart(renaming, machine, name),
    ensures
        step(rename_program(renaming, program), rename_machine(renaming, machine), pc) == rename_outcome(
            renaming,
            step(program, machine, pc),
        ),
{
    let renamed = rename_program(renaming, program);
    assert(renamed.has_instruction(pc) == program.has_instruction(pc));
    if program.has_instruction(pc) {
        assert(renamed.instruction_at(pc) == rename_instruction(renaming, program.instruction_at(pc)));
        match program.instruction_at(pc) {
            InstructionView::EnterBlock => {},
            InstructionView::ExitBlock(result_variable) => {
                assert(mentions(program.instruction_at(pc), result_variable));
                lemma_exit_block_renamed(renaming, machine, result_variable);
            },
            InstructionView::Assignment { name, definition } => {
                assert forall|read: Name| #[trigger] definition_mentions(definition, read) implies told_apart(
                    renaming,
                    machine,
                    read,
                ) by {
                    assert(mentions(program.instruction_at(pc), read));
                }
                lemma_eval_assignment_renamed(renaming, machine, pc, name, definition);
            },
        }
    }
}

/// Alpha equivalence: under a renaming that keeps different names
/// different, the renamed program runs in the renamed machine as the
/// program runs in the machine: it ends with the same fault, or stands at
/// the same address, or has the same result, with the names of a closure
/// renamed.
pub proof fn lemma_run_renamed(
    renaming: Renaming,
    program: ProgramView,
    machine: Machine,
    pc: TargetAddress,
    budget: nat,
)
    requires
        injective(renaming),
    ensures
        run(rename_program(renaming, program), rename_machine(renaming, machine), pc, budget)
            == rename_outcome(renaming, run(program, machine, pc, budget)),
    decreases budget,
{
    if budget > 0 {
        assert forall|name: Name| told_apart(renaming, machine, name) by {
            lemma_injective_tells_apart(renaming, machine, name);
        }
        lemma_step_renamed(renaming, program, machine, pc);
        if let Ok(Progress::Running(following, target)) = step(program, machine, pc) {
            lemma_run_renamed(renaming, program, following, target, (budget - 1) as nat);
        }
    }
}

/// The machine that a run starts with has no names to rename.
pub proof fn lemma_initial_renamed(renaming: Renaming)
    ensures
        rename_machine(renaming, Machine::initial()) == Machine::initial(),
{
    let machine = Machine::initial();
    let renamed = rename_machine(renaming, machine);
    assert(renamed.cells =~= machine.cells);
    assert(rename_frame(renaming, BlockFrameView::fresh(None)).variable_names
        =~= BlockFrameView::fresh(None).variable_names);
    assert(rename_call(renaming, machine.frames[0]) =~= machine.frames[0]);
    assert(renamed.frames =~= machine.frames);
}

/// A renamed program computes from the start what the program computes:
/// the same integer, boolean or tuple, or the same closure with its names
/// renamed.
pub proof fn lemma_renamed_program_computes_the_same(
    renaming: Renaming,
    program: ProgramView,
    pc: TargetAddress,
    budget: nat,
)
    requires
        injective(renaming),
    ensures
        match run(program, Machine::initial(), pc, budget) {
            Ok(Progress::Finished(_, value)) => run(
                rename_program(renaming, program),
                Machine::initial(),
                pc,
                budget,
            ) matches Ok(Progress::Finished(_, renamed)) && renamed == rename_value(renaming, value) && (
            !(value is Closure) ==> renamed == value),
            Ok(Progress::Running(_, target)) => run(
                rename_program(renaming, program),
                Machine::initial(),
                pc,
                budget,
            ) matches Ok(Progress::Running(_, renamed_target)) && renamed_target == target,
            Err(fault) => run(rename_program(renaming, program), Machine::initial(), pc, budget) == Err::<
                Progress,
                RuntimeFault,
            >(fault),
        },
{
    lemma_initial_renamed(renaming);
    lemma_run_renamed(renaming, program, Machine::initial(), pc, budget);
}

/// Whether a definition holds `name`.
pub open spec fn definition_names(definition: DefinitionView, name: Name) -> bool {
    match definition {
        DefinitionView::Var(var) => var == name,
        DefinitionView::Literal(_) => false,
        DefinitionView::Fun(function) => function.name == name || function.arg_names.contains(name)
            || function.free_names.contains(name),
        DefinitionView::BinOp { lhs, rhs, .. } => lhs == name || rhs == name,
        DefinitionView::Tuple { args } => args.contains(name),
        DefinitionView::SetField { tuple, new_value, .. } => tuple == name || new_value == name,
        DefinitionView::Call { func, args } => func == name || args.contains(name),
        DefinitionView::If { condition, .. } => condition == name,
    }
}

/// Whether an instruction holds `name`.
pub open spec fn instruction_names(instruction: InstructionView, name: Name) -> bool {
    match instruction {
        InstructionView::EnterBlock => false,
        InstructionView::ExitBlock(var) => var == name,
        InstructionView::Assignment { name: bound, definition } => bound == name || definition_names(
            definition,
            name,
        ),
    }
}

/// Whether a program holds `name`: as the name, a parameter or a captured
/// name of a function, or in an instruction.
pub open spec fn program_names(program: ProgramView, name: Name) -> bool {
    exists|g: int|
        0 <= g < program.functions.len() && {
            let function = #[trigger] program.functions[g];
            ||| function.name == name
            ||| function.arg_names.contains(name)
            ||| (function.free_names matches Some(free) && free.contains(name))
            ||| exists|j: int, i: int|
                0 <= j < function.blocks.len() && 0 <= i < function.blocks[j].instructions.len()
                    && instruction_names(#[trigger] function.blocks[j].instructions[i], name)
        }
}

/// Whether different names of the program get different names.
pub open spec fn injective_on(renaming: Renaming, program: ProgramView) -> bool {
    forall|a: Name, b: Name|
        program_names(program, a) && program_names(program, b) && #[trigger] renaming(a)
            == #[trigger] renaming(b) ==> a == b
}

/// Renamings that agree on names rename them alike.
pub proof fn lemma_rename_names_agree(first: Renaming, second: Renaming, names: Seq<Name>)
    requires
        forall|i: int| 0 <= i < names.len() ==> first(#[trigger] names[i]) == second(names[i]),
    ensures
        rename_names(first, names) == rename_names(second, names),
{
    assert(rename_names(first, names) =~= rename_names(second, names));
}

/// Renamings that agree on the names of an instruction rename it alike.
pub proof fn lemma_rename_instruction_agree(first: Renaming, second: Renaming, instruction: InstructionView)
    requires
        forall|name: Name| instruction_names(instruction, name) ==> first(name) == second(name),
    ensures
        rename_instruction(first, instruction) == rename_instruction(second, instruction),
{
    match instruction {
        InstructionView::EnterBlock => {},
        InstructionView::ExitBlock(var) => {
            assert(instruction_names(instruction, var));
        },
        InstructionView::Assignment { name, definition } => {
            assert(instruction_names(instruction, name));
            match definition {
                DefinitionView::Var(var) => {
                    assert(instruction_names(instruction, var));
                },
                DefinitionView::Literal(_) => {},
                DefinitionView::Fun(function) => {
                    assert(instruction_names(instruction, function.name));
                    assert forall|i: int| 0 <= i < function.arg_names.len() implies first(
                        #[trigger] function.arg_names[i],
                    ) == second(function.arg_names[i]) by {
                        assert(instruction_names(instruction, function.arg_names[i]));
                    }
                    assert forall|i: int| 0 <= i < function.free_names.len() implies first(
                        #[trigger] function.free_names[i],
                    ) == second(function.free_names[i]) by {
                        assert(instruction_names(instruction, function.free_names[i]));
                    }
                    lemma_rename_names_agree(first, second, function.arg_names);
                    lemma_rename_names_agree(first, second, function.free_names);
                },
                DefinitionView::BinOp { lhs, rhs, .. } => {
                    assert(instruction_names(instruction, lhs));
                    assert(instruction_names(instruction, rhs));
                },
                DefinitionView::Tuple { args } => {
                    assert forall|i: int| 0 <= i < args.len() implies first(#[trigger] args[i]) == second(
                        args[i],
                    ) by {
                        assert(instruction_names(instruction, args[i]));
                    }
                    lemma_rename_names_agree(first, second, args);
                },
                DefinitionView::SetField { tuple, new_value, .. } => {
                    assert(instruction_names(instruction, tuple));
                    assert(instruction_names(instruction, new_value));
                },
                DefinitionView::Call { func, args } => {
                    assert(instruction_names(instruction, func));
                    assert forall|i: int| 0 <= i < args.len() implies first(#[trigger] args[i]) == second(
                        args[i],
                    ) by {
                        assert(instruction_names(instruction, args[i]));
                    }
                    lemma_rename_names_agree(first, second, args);
                },
                DefinitionView::If { condition, .. } => {
                    assert(instruction_names(instruction, condition));
                },
            }
        },
    }
}

/// Renamings that agree on the names of a program rename it alike.
pub proof fn lemma_rename_program_agree(first: Renaming, second: Renaming, program: ProgramView)
    requires
        forall|name: Name| program_names(program, name) ==> #[trigger] first(name) == second(name),
    ensures
        rename_program(first, program) == rename_program(second, program),
{
    let left = rename_program(first, program);
    let right = rename_program(second, program);
    assert forall|g: int| 0 <= g < program.functions.len() implies left.functions[g]
        == right.functions[g] by {
        let function = program.functions[g];
        assert(program_names(program, function.name));
        assert forall|i: int| 0 <= i < function.arg_names.len() implies first(
            #[trigger] function.arg_names[i],
        ) == second(function.arg_names[i]) by {
            assert(program_names(program, function.arg_names[i]));
        }
        lemma_rename_names_agree(first, second, function.arg_names);
        if let Some(free) = function.free_names {
            assert forall|i: int| 0 <= i < free.len() implies first(#[trigger] free[i]) == second(
                free[i],
            ) by {
                assert(free.contains(free[i]));
                assert(program_names(program, free[i]));
            }
            lemma_rename_names_agree(first, second, free);
        }
        assert forall|j: int| 0 <= j < function.blocks.len() implies left.functions[g].blocks[j]
            == right.functions[g].blocks[j] by {
            let block = function.blocks[j];
            assert forall|i: int| 0 <= i < block.instructions.len() implies rename_instruction(
                first,
                block.instructions[i],
            ) == rename_instruction(second, block.instructions[i]) by {
                assert forall|name: Name| instruction_names(block.instructions[i], name) implies first(
                    name,
                ) == second(name) by {
                    assert(instruction_names(function.blocks[j].instructions[i], name));
                    assert(program_names(program, name));
                }
                lemma_rename_instruction_agree(first, second, block.instructions[i]);
            }
            assert(left.functions[g].blocks[j].instructions =~= right.functions[g].blocks[j].instructions);
        }
        assert(left.functions[g].blocks =~= right.functions[g].blocks);
    }
    assert(left.functions =~= right.functions);
}

/// Renaming after renaming is renaming by both.
pub proof fn lemma_rename_program_twice(first: Renaming, second: Renaming, program: ProgramView)
    ensures
        rename_program(second, rename_program(first, program)) == rename_program(
            |name: Name| second(first(name)),
            program,
        ),
{
    let both = |name: Name| second(first(name));
    let left = rename_program(second, rename_program(first, program));
    let right = rename_program(both, program);
    assert forall|g: int| 0 <= g < program.functions.len() implies left.functions[g]
        == right.functions[g] by {
        let function = program.functions[g];
        assert(rename_names(second, rename_names(first, function.arg_names)) =~= rename_names(
            both,
            function.arg_names,
        ));
        if let Some(free) = function.free_names {
            assert(rename_names(second, rename_names(first, free)) =~= rename_names(both, free));
        }
        assert forall|j: int| 0 <= j < function.blocks.len() implies left.functions[g].blocks[j]
            == right.functions[g].blocks[j] by {
            let block = function.blocks[j];
            assert forall|i: int| 0 <= i < block.instructions.len() implies rename_instruction(
                second,
                rename_instruction(first, block.instructions[i]),
            ) == rename_instruction(both, block.instructions[i]) by {
                match block.instructions[i] {
                    InstructionView::Assignment { name, definition } => match definition {
                        DefinitionView::Fun(function) => {
                            assert(rename_names(second, rename_names(first, function.arg_names))
                                =~= rename_names(both, function.arg_names));
                            assert(rename_names(second, rename_names(first, function.free_names))
                                =~= rename_names(both, function.free_names));
                        },
                        DefinitionView::Tuple { args } => {
                            assert(rename_names(second, rename_names(first, args)) =~= rename_names(
                                both,
                                args,
                            ));
                        },
                        DefinitionView::Call { func, args } => {
                            assert(rename_names(second, rename_names(first, args)) =~= rename_names(
                                both,
                                args,
                            ));
                        },
                        _ => {},
                    },
                    _ => {},
                }
            }
            assert(left.functions[g].blocks[j].instructions =~= right.functions[g].blocks[j].instructions);
        }
        assert(left.functions[g].blocks =~= right.functions[g].blocks);
    }
    assert(left.functions =~= right.functions);
}

/// The name with a mark in front.
pub open spec fn marked(mark: char, name: Name) -> Name {
    seq![mark] + name
}

/// Alpha equivalence: a program renamed so that its own names stay
/// different runs from the start as the program does. It ends with the same
/// fault, or stands at the same address, or has a result of the same kind:
/// the same integer, boolean or tuple.
pub proof fn lemma_renamed_apart_computes_the_same(
    renaming: Renaming,
    program: ProgramView,
    pc: TargetAddress,
    budget: nat,
)
    requires
        injective_on(renaming, program),
    ensures
        match run(program, Machine::initial(), pc, budget) {
            Ok(Progress::Finished(_, value)) => run(
                rename_program(renaming, program),
                Machine::initial(),
                pc,
                budget,
            ) matches Ok(Progress::Finished(_, renamed)) && (value is Closure <==> renamed is Closure) && (
            !(value is Closure) ==> renamed == value),
            Ok(Progress::Running(_, target)) => run(
                rename_program(renaming, program),
                Machine::initial(),
                pc,
                budget,
            ) matches Ok(Progress::Running(_, renamed_target)) && renamed_target == target,
            Err(fault) => run(rename_program(renaming, program), Machine::initial(), pc, budget) == Err::<
                Progress,
                RuntimeFault,
            >(fault),
        },
{
    // A renaming of all names that keeps them different: the given one,
    // marked, on the names of the program, and the name itself, marked
    // otherwise, elsewhere.
    let everywhere = |name: Name|
        if program_names(program, name) {
            marked('0', renaming(name))
        } else {
            marked('1', name)
        };
    let mark = |name: Name| marked('0', name);
    assert(injective(everywhere)) by {
        assert forall|a: Name, b: Name| #[trigger] everywhere(a) == #[trigger] everywhere(b) implies a
            == b by {
            assert(everywhere(a)[0] == everywhere(b)[0]);
            if program_names(program, a) {
                assert(everywhere(a)[0] == '0');
                assert(program_names(program, b));
                assert(marked('0', renaming(a)).subrange(1, marked('0', renaming(a)).len() as int)
                    =~= renaming(a));
                assert(marked('0', renaming(b)).subrange(1, marked('0', renaming(b)).len() as int)
                    =~= renaming(b));
                assert(renaming(a) == renaming(b));
            } else {
                assert(everywhere(a)[0] == '1');
                assert(!program_names(program, b));
                assert(marked('1', a).subrange(1, marked('1', a).len() as int) =~= a);
                assert(marked('1', b).subrange(1, marked('1', b).len() as int) =~= b);
            }
        }
    }
    assert(injective(mark)) by {
        assert forall|a: Name, b: Name| #[trigger] mark(a) == #[trigger] mark(b) implies a == b by {
            assert(marked('0', a).subrange(1, marked('0', a).len() as int) =~= a);
            assert(marked('0', b).subrange(1, marked('0', b).len() as int) =~= b);
        }
    }
    let renamed = rename_program(renaming, program);
    lemma_rename_program_twice(renaming, mark, program);
    lemma_rename_program_agree(everywhere, |name: Name| mark(renaming(name)), program);
    assert(rename_program(mark, renamed) == rename_program(everywhere, program));
    lemma_renamed_program_computes_the_same(everywhere, program, pc, budget);
    lemma_renamed_program_computes_the_same(mark, renamed, pc, budget);
}

/// The renaming of generated names back to the names that they were
/// generated from; the names of intermediate results stay as they are.
pub open spec fn back_to_source() -> Renaming {
    |name: Name|
        if crate::ir_let::names::source_name(name) == crate::ir_let::normal_form::generated_base() {
            name
        } else {
            crate::ir_let::names::source_name(name)
        }
}

/// A program whose names are renamed back to the names that they were
/// generated from computes the same, if that keeps the names of the program
/// different.
pub proof fn lemma_renamed_back_computes_the_same(program: ProgramView, pc: TargetAddress, budget: nat)
    requires
        injective_on(back_to_source(), program),
    ensures
        match run(program, Machine::initial(), pc, budget) {
            Ok(Progress::Finished(_, value)) => run(
                rename_program(back_to_source(), program),
                Machine::initial(),
                pc,
                budget,
            ) matches Ok(Progress::Finished(_, renamed)) && (value is Closure <==> renamed is Closure) && (
            !(value is Closure) ==> renamed == value),
            Ok(Progress::Running(_, target)) => run(
                rename_program(back_to_source(), program),
                Machine::initial(),
                pc,
                budget,
            ) matches Ok(Progress::Running(_, renamed_target)) && renamed_target == target,
            Err(fault) => run(rename_program(back_to_source(), program), Machine::initial(), pc, budget)
                == Err::<Progress, RuntimeFault>(fault),
        },
{
    lemma_renamed_apart_computes_the_same(back_to_source(), program, pc, budget);
}

} // verus!
