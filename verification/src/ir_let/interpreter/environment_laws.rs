//! The environments of closures are maps: no closure holds a captured name
//! twice.
//!
//! A closure gets its environment when it is allocated, from the captured
//! names of its function, and nothing changes it afterwards. So where no
//! function of the program captures a name twice, no closure of a run holds
//! one twice.

use vstd::prelude::*;
use crate::heap::{
    Cells, lemma_release_all_lowers_counts, lemma_release_all_shrinks, lemma_release_lowers_counts,
    lemma_release_shrinks,
};
use crate::fault::RuntimeFault;
use crate::heap_value::{HeapAddress, HeapValueView};
use crate::ir_let::interpreter::machine::{Machine, Progress, pair_up, run, step};
use crate::ir_let::let_expr::{DefinitionView, InstructionView, ProgramView, TargetAddress};
use crate::syntax::Name;

verus! {

/// Whether the cells are finitely many and the environment of every closure
/// among them holds no name twice.
pub open spec fn environments_distinct(cells: Cells) -> bool {
    &&& cells.dom().finite()
    &&& forall|address: HeapAddress| #[trigger]
        cells.contains_key(address) ==> (cells[address].value matches HeapValueView::Closure(closure)
            ==> closure.environment_distinct())
}

/// Whether every closure of `after` was there in `before`, unchanged.
pub open spec fn closures_kept(before: Cells, after: Cells) -> bool {
    &&& after.dom().finite()
    &&& forall|address: HeapAddress| #[trigger]
        after.contains_key(address) && after[address].value is Closure ==> before.contains_key(address)
            && before[address].value == after[address].value
}

/// Closures that were kept have the environments that they had.
pub proof fn lemma_kept_distinct(before: Cells, after: Cells)
    requires
        environments_distinct(before),
        closures_kept(before, after),
    ensures
        environments_distinct(after),
{
    assert forall|address: HeapAddress| #[trigger] after.contains_key(address) implies (
    after[address].value matches HeapValueView::Closure(closure) ==> closure.environment_distinct()) by {
        if after[address].value is Closure {
            assert(before.contains_key(address));
        }
    }
}

/// One more reference changes no closure.
pub proof fn lemma_retain_keeps_closures(machine: Machine, address: HeapAddress)
    requires
        machine.cells.dom().finite(),
    ensures
        machine.retain(address) matches Ok(after) ==> closures_kept(machine.cells, after.cells),
{
}

/// More references change no closure.
pub proof fn lemma_retain_all_keeps_closures(machine: Machine, addresses: Seq<HeapAddress>)
    requires
        machine.cells.dom().finite(),
    ensures
        machine.retain_all(addresses) matches Ok(after) ==> closures_kept(machine.cells, after.cells),
    decreases addresses.len(),
{
    if addresses.len() > 0 {
        lemma_retain_keeps_closures(machine, addresses[0]);
        if let Ok(retained) = machine.retain(addresses[0]) {
            lemma_retain_all_keeps_closures(retained, addresses.drop_first());
        }
    }
}

/// One reference less changes no closure that is left.
pub proof fn lemma_release_keeps_closures(machine: Machine, released: HeapAddress)
    requires
        machine.cells.dom().finite(),
    ensures
        machine.release(released) matches Ok(after) ==> closures_kept(machine.cells, after.cells),
{
    lemma_release_shrinks(machine.cells, released);
    if let Ok(after) = machine.release(released) {
        assert forall|address: HeapAddress| #[trigger]
            after.cells.contains_key(address) && after.cells[address].value is Closure implies machine.cells.contains_key(
            address,
        ) && machine.cells[address].value == after.cells[address].value by {
            lemma_release_lowers_counts(machine.cells, released, address);
        }
    }
}

/// Fewer references change no closure that is left.
pub proof fn lemma_release_all_keeps_closures(machine: Machine, addresses: Seq<HeapAddress>)
    requires
        machine.cells.dom().finite(),
    ensures
        machine.release_all(addresses) matches Ok(after) ==> closures_kept(machine.cells, after.cells),
{
    lemma_release_all_shrinks(machine.cells, addresses);
    if let Ok(after) = machine.release_all(addresses) {
        assert forall|address: HeapAddress| #[trigger]
            after.cells.contains_key(address) && after.cells[address].value is Closure implies machine.cells.contains_key(
            address,
        ) && machine.cells[address].value == after.cells[address].value by {
            lemma_release_all_lowers_counts(machine.cells, addresses, address);
        }
    }
}

/// A binding changes no closure.
pub proof fn lemma_bind_keeps_closures(machine: Machine, name: Name, address: HeapAddress)
    requires
        machine.cells.dom().finite(),
    ensures
        machine.bind(name, address) matches Ok(after) ==> closures_kept(machine.cells, after.cells),
{
    lemma_retain_keeps_closures(machine, address);
}

/// Bindings change no closure.
pub proof fn lemma_bind_each_keeps_closures(machine: Machine, bindings: Seq<(Name, HeapAddress)>)
    requires
        machine.cells.dom().finite(),
    ensures
        machine.bind_each(bindings) matches Ok(after) ==> closures_kept(machine.cells, after.cells),
    decreases bindings.len(),
{
    if bindings.len() > 0 {
        lemma_bind_keeps_closures(machine, bindings[0].0, bindings[0].1);
        if let Ok(bound) = machine.bind(bindings[0].0, bindings[0].1) {
            lemma_bind_each_keeps_closures(bound, bindings.drop_first());
        }
    }
}

/// A new cell whose value, if a closure, holds no name twice leaves the
/// environments in order.
pub proof fn lemma_allocate_distinct(machine: Machine, value: HeapValueView)
    requires
        environments_distinct(machine.cells),
        value matches HeapValueView::Closure(closure) ==> closure.environment_distinct(),
    ensures
        machine.allocate(value) matches Ok((after, _)) ==> environments_distinct(after.cells),
{
}

/// A definition that does not transfer execution leaves the environments in
/// order, if it is no allocation of a closure that names a captured name
/// twice.
pub proof fn lemma_eval_simple_distinct(machine: Machine, definition: DefinitionView)
    requires
        environments_distinct(machine.cells),
        definition matches DefinitionView::Fun(closure) ==> closure.free_names.no_duplicates(),
    ensures
        machine.eval_simple(definition) matches Ok((after, _)) ==> environments_distinct(after.cells),
{
    match definition {
        DefinitionView::Literal(_) => {
            lemma_allocate_distinct(machine, HeapValueView::Int(0));
        },
        DefinitionView::Tuple { args } => {
            if let Ok(fields) = machine.lookup_all(args) {
                lemma_retain_all_keeps_closures(machine, fields);
                if let Ok(retained) = machine.retain_all(fields) {
                    lemma_kept_distinct(machine.cells, retained.cells);
                    lemma_allocate_distinct(retained, HeapValueView::Tuple(fields));
                }
            }
        },
        DefinitionView::Fun(function) => {
            if let Ok(captured) = machine.lookup_all(function.free_names) {
                lemma_retain_all_keeps_closures(machine, captured);
                if let Ok(retained) = machine.retain_all(captured) {
                    lemma_kept_distinct(machine.cells, retained.cells);
                    let closure = crate::heap_value::ClosureView {
                        name: function.name,
                        arg_names: function.arg_names,
                        environment: pair_up(function.free_names, captured),
                        body: function.body,
                    };
                    assert(closure.environment_distinct());
                    lemma_allocate_distinct(retained, HeapValueView::Closure(closure));
                }
            }
        },
        DefinitionView::BinOp { .. } => {},
        DefinitionView::SetField { tuple, index, new_value } => {
            if let Ok(tuple_address) = machine.lookup(tuple) {
                if let Ok(new_address) = machine.lookup(new_value) {
                    if let Ok(fields) = machine.tuple_at(tuple_address) {
                        if index < fields.len() {
                            let written = machine.with_cells(
                                machine.cells.insert(
                                    tuple_address,
                                    crate::heap_value::CellView {
                                        refcount: machine.cells[tuple_address].refcount,
                                        value: HeapValueView::Tuple(fields.update(index as int, new_address)),
                                    },
                                ),
                            );
                            assert(closures_kept(machine.cells, written.cells));
                            lemma_kept_distinct(machine.cells, written.cells);
                            lemma_retain_keeps_closures(written, new_address);
                            if let Ok(retained) = written.retain(new_address) {
                                lemma_kept_distinct(written.cells, retained.cells);
                                lemma_release_keeps_closures(retained, fields[index as int]);
                                if let Ok(released) = retained.release(fields[index as int]) {
                                    lemma_kept_distinct(retained.cells, released.cells);
                                    lemma_allocate_distinct(released, HeapValueView::Tuple(Seq::empty()));
                                }
                            }
                        }
                    }
                }
            }
        },
        _ => {},
    }
}

/// Whether the environments are in order where a run stands, and in its
/// result, if that is a closure.
pub open spec fn progress_keeps_environments(progress: Result<Progress, RuntimeFault>) -> bool {
    match progress {
        Ok(Progress::Running(after, _)) => environments_distinct(after.cells),
        Ok(Progress::Finished(after, value)) => environments_distinct(after.cells) && (
        value matches HeapValueView::Closure(closure) ==> closure.environment_distinct()),
        Err(_) => true,
    }
}

/// An instruction leaves the environments in order, in a program that
/// allocates no closure with a captured name twice.
pub proof fn lemma_step_keeps_environments(program: ProgramView, machine: Machine, pc: TargetAddress)
    requires
        program.captures_distinct(),
        environments_distinct(machine.cells),
    ensures
        progress_keeps_environments(step(program, machine, pc)),
{
    if program.has_instruction(pc) {
        let g = pc.function_index as int;
        let j = pc.block_index as int;
        let i = pc.instruction_index as int;
        match program.functions[g].blocks[j].instructions[i] {
            InstructionView::EnterBlock => {},
            InstructionView::ExitBlock(result_variable) => {
                if machine.frames.len() > 0 && machine.frames.last().len() > 0 {
                    let frame = machine.frames.last().last();
                    let exited = machine.with_frames(crate::stack::frames_after_exit(machine.frames));
                    if let Some(result) = crate::stack::lookup_in_frames(machine.frames.last(), result_variable) {
                        match frame.return_info {
                            None => {
                                lemma_release_all_keeps_closures(exited, frame.values);
                                if let Ok(after) = exited.release_all(frame.values) {
                                    lemma_kept_distinct(machine.cells, after.cells);
                                }
                            },
                            Some(info) => {
                                lemma_bind_keeps_closures(exited, info.result_variable, result);
                                if let Ok(stored) = exited.bind(info.result_variable, result) {
                                    lemma_kept_distinct(machine.cells, stored.cells);
                                    lemma_release_all_keeps_closures(stored, frame.values);
                                    if let Ok(after) = stored.release_all(frame.values) {
                                        lemma_kept_distinct(stored.cells, after.cells);
                                    }
                                }
                            },
                        }
                    }
                }
            },
            InstructionView::Assignment { name, definition } => match definition {
                DefinitionView::Call { func, args } => {
                    if let Ok(closure_address) = machine.lookup(func) {
                        if let Ok(arg_values) = machine.lookup_all(args) {
                            if let Ok(closure) = machine.closure_at(closure_address) {
                                let entered = machine.with_frames(
                                    machine.frames.push(
                                        seq![
                                            crate::stack::BlockFrameView::fresh(
                                                Some(
                                                    crate::stack::ReturnInfoView {
                                                        result_variable: name,
                                                        return_address: pc.successor(),
                                                    },
                                                ),
                                            ),
                                        ],
                                    ),
                                );
                                lemma_bind_each_keeps_closures(entered, closure.environment);
                                if let Ok(captured) = entered.bind_each(closure.environment) {
                                    lemma_kept_distinct(machine.cells, captured.cells);
                                    lemma_bind_each_keeps_closures(captured, pair_up(closure.arg_names, arg_values));
                                    if let Ok(passed) = captured.bind_each(pair_up(closure.arg_names, arg_values)) {
                                        lemma_kept_distinct(captured.cells, passed.cells);
                                        lemma_bind_keeps_closures(passed, closure.name, closure_address);
                                        if let Ok(after) = passed.bind(closure.name, closure_address) {
                                            lemma_kept_distinct(passed.cells, after.cells);
                                        }
                                    }
                                }
                            }
                        }
                    }
                },
                DefinitionView::If { .. } => {},
                _ => {
                    lemma_eval_simple_distinct(machine, definition);
                    if let Ok((evaluated, value)) = machine.eval_simple(definition) {
                        lemma_bind_keeps_closures(evaluated, name, value);
                        if let Ok(after) = evaluated.bind(name, value) {
                            lemma_kept_distinct(evaluated.cells, after.cells);
                        }
                    }
                },
            },
        }
    }
}

/// A run leaves the environments in order, in a program that allocates no
/// closure with a captured name twice: every closure on the heap, and a
/// closure that is the result, holds no captured name twice.
pub proof fn lemma_run_keeps_environments(program: ProgramView, machine: Machine, pc: TargetAddress, budget: nat)
    requires
        program.captures_distinct(),
        environments_distinct(machine.cells),
    ensures
        progress_keeps_environments(run(program, machine, pc, budget)),
    decreases budget,
{
    if budget > 0 {
        lemma_step_keeps_environments(program, machine, pc);
        if let Ok(Progress::Running(following, target)) = step(program, machine, pc) {
            lemma_run_keeps_environments(program, following, target, (budget - 1) as nat);
        }
    }
}

/// The machine that a run starts with holds no closure.
pub proof fn lemma_initial_environments_distinct()
    ensures
        environments_distinct(Machine::initial().cells),
{
}

} // verus!
