//! Names in calls: every call of a run binds names of one function only.
//!
//! A name is looked up in the frames of the current call, and these bind
//! names of the function that is being executed: its parameters, its own
//! name, the names that it captures and the names that its blocks bind. So
//! a renaming need not keep all the names of a program different to keep
//! its result: it is enough that it keeps the names of each function
//! different.

use vstd::prelude::*;
use crate::fault::RuntimeFault;
use crate::heap::Cells;
use crate::heap_value::{ClosureView, HeapAddress, HeapValueView};
use crate::ir_let::free_vars_laws::mentions;
use crate::ir_let::interpreter::environment_laws::{
    closures_kept, lemma_bind_keeps_closures, lemma_release_all_keeps_closures,
    lemma_release_keeps_closures, lemma_retain_all_keeps_closures, lemma_retain_keeps_closures,
};
use crate::ir_let::interpreter::machine::{Machine, Progress, pair_up, run, step};
use crate::ir_let::interpreter::renaming::{Renaming, rename_machine, rename_outcome, rename_program};
use crate::ir_let::interpreter::renaming_laws::{
    lemma_initial_renamed, lemma_step_renamed, told_apart,
};
use crate::ir_let::let_expr::{
    DefinitionView, FunctionView, InstructionView, ProgramView, TargetAddress,
};
use crate::ir_let::well_formed::{block_ok, function_ok, instruction_ok};
use crate::stack::{BlockFrameView, Frames, ReturnInfoView, frames_after_bind, frames_after_exit, lookup_in_frames};
use crate::syntax::Name;

verus! {

/// Whether a call of `function` may bind or read `name`: it is the
/// function's own name, a parameter, a captured name, a name that a block
/// binds, or a name that an instruction reads.
pub open spec fn frame_names(function: FunctionView, name: Name) -> bool {
    ||| function.name == name
    ||| function.arg_names.contains(name)
    ||| (function.free_names matches Some(free) && free.contains(name))
    ||| exists|j: int, i: int|
        0 <= j < function.blocks.len() && 0 <= i < function.blocks[j].instructions.len() && at_instruction(
            #[trigger] function.blocks[j].instructions[i],
            name,
        )
}

/// Whether an instruction binds or reads `name`.
pub open spec fn at_instruction(instruction: InstructionView, name: Name) -> bool {
    mentions(instruction, name) || (instruction matches InstructionView::Assignment { name: bound, .. } && bound
        == name)
}

/// Whether the renaming keeps the names of `function` different.
pub open spec fn apart_on(renaming: Renaming, function: FunctionView) -> bool {
    forall|a: Name, b: Name|
        frame_names(function, a) && frame_names(function, b) && #[trigger] renaming(a) == #[trigger] renaming(
            b,
        ) ==> a == b
}

/// Whether the renaming keeps the names of each function different.
pub open spec fn apart_in_functions(renaming: Renaming, program: ProgramView) -> bool {
    forall|g: int| 0 <= g < program.functions.len() ==> apart_on(renaming, #[trigger] program.functions[g])
}

/// The function that call `k` executes: where the call above it returns
/// to, or where execution stands if it is the current call.
pub open spec fn owner(frames: Frames, pc: TargetAddress, k: int) -> int {
    if k >= frames.len() - 1 {
        pc.function_index as int
    } else {
        match frames[k + 1][0].return_info {
            Some(info) => info.return_address.function_index as int,
            None => -1,
        }
    }
}

/// Whether the names that call `k` binds are names of its function.
pub open spec fn names_owned(program: ProgramView, frames: Frames, pc: TargetAddress, k: int) -> bool {
    forall|j: int, i: int|
        0 <= j < frames[k].len() && 0 <= i < frames[k][j].variable_names.len() ==> frame_names(
            program.functions[owner(frames, pc, k)],
            #[trigger] frames[k][j].variable_names[i],
        )
}

/// Whether block `j` of call `k` returns where it should: an inner block
/// into the function of its call, the outermost block of a call into the
/// function of the call below, each to a name of that function.
pub open spec fn return_owned(
    program: ProgramView,
    frames: Frames,
    pc: TargetAddress,
    k: int,
    j: int,
    return_info: Option<ReturnInfoView>,
) -> bool {
    if j > 0 {
        return_info matches Some(info) && info.return_address.function_index == owner(frames, pc, k)
            && frame_names(program.functions[owner(frames, pc, k)], info.result_variable)
    } else if k > 0 {
        return_info matches Some(info) && frame_names(
            program.functions[owner(frames, pc, k - 1)],
            info.result_variable,
        )
    } else {
        true
    }
}

/// Whether call `k` executes a function of the program, binds names of
/// that function only, and returns where it should.
pub open spec fn call_owned(program: ProgramView, frames: Frames, pc: TargetAddress, k: int) -> bool {
    &&& 0 <= owner(frames, pc, k) < program.functions.len()
    &&& frames[k].len() > 0
    &&& names_owned(program, frames, pc, k)
    &&& forall|j: int|
        0 <= j < frames[k].len() ==> return_owned(program, frames, pc, k, j, (#[trigger] frames[k][j]).return_info)
}

/// Whether a closure is one of a function of the program: it has the
/// function's name and parameters, and its environment binds names of the
/// function.
pub open spec fn closure_fits(program: ProgramView, closure: ClosureView) -> bool {
    let h = closure.body.function_index as int;
    &&& h < program.functions.len()
    &&& closure.name == program.functions[h].name
    &&& closure.arg_names == program.functions[h].arg_names
    &&& forall|i: int|
        0 <= i < closure.environment.len() ==> frame_names(
            program.functions[h],
            (#[trigger] closure.environment[i]).0,
        )
}

/// Whether every closure among the cells is one of a function of the
/// program.
pub open spec fn closures_fit(program: ProgramView, cells: Cells) -> bool {
    &&& cells.dom().finite()
    &&& forall|address: HeapAddress| #[trigger]
        cells.contains_key(address) ==> (cells[address].value matches HeapValueView::Closure(closure)
            ==> closure_fits(program, closure))
}

/// Whether every call executes a function of the program and binds names
/// of that function only, and every closure is one of a function of the
/// program: what holds between any two instructions of a run of a
/// well-formed program from the start.
pub open spec fn owned(program: ProgramView, machine: Machine, pc: TargetAddress) -> bool {
    &&& closures_fit(program, machine.cells)
    &&& machine.frames.len() > 0
    &&& forall|k: int| 0 <= k < machine.frames.len() ==> #[trigger] call_owned(program, machine.frames, pc, k)
}

/// In such a machine, a renaming that keeps the names of each function
/// different tells the names of the current function apart from those that
/// the current call binds.
pub proof fn lemma_owned_tells_apart(
    renaming: Renaming,
    program: ProgramView,
    machine: Machine,
    pc: TargetAddress,
    name: Name,
)
    requires
        owned(program, machine, pc),
        apart_in_functions(renaming, program),
        frame_names(program.functions[pc.function_index as int], name),
    ensures
        told_apart(renaming, machine, name),
{
    let frames = machine.frames;
    let k = frames.len() - 1;
    assert(call_owned(program, frames, pc, k));
    let g = owner(frames, pc, k);
    assert(apart_on(renaming, program.functions[g]));
    assert forall|j: int, i: int|
        0 <= j < frames.last().len() && 0 <= i < frames.last()[j].variable_names.len() && renaming(
            #[trigger] frames.last()[j].variable_names[i],
        ) == renaming(name) implies frames.last()[j].variable_names[i] == name by {
        assert(frame_names(program.functions[g], frames[k][j].variable_names[i]));
    }
}

/// Cells whose closures were all there before hold closures of the
/// program, if they did.
pub proof fn lemma_kept_fit(program: ProgramView, before: Cells, after: Cells)
    requires
        closures_fit(program, before),
        closures_kept(before, after),
    ensures
        closures_fit(program, after),
{
    assert forall|address: HeapAddress| #[trigger] after.contains_key(address) implies (
    after[address].value matches HeapValueView::Closure(closure) ==> closure_fits(program, closure)) by {
        if after[address].value is Closure {
            assert(before.contains_key(address));
        }
    }
}

/// The same frames, with execution at another place of the same function.
pub proof fn lemma_owned_moves(program: ProgramView, machine: Machine, pc: TargetAddress, target: TargetAddress)
    requires
        owned(program, machine, pc),
        target.function_index == pc.function_index,
    ensures
        owned(program, machine, target),
{
    let frames = machine.frames;
    assert forall|k: int| 0 <= k < frames.len() implies #[trigger] call_owned(program, frames, target, k) by {
        assert(call_owned(program, frames, pc, k));
        assert(owner(frames, target, k) == owner(frames, pc, k));
        if k > 0 {
            assert(owner(frames, target, k - 1) == owner(frames, pc, k - 1));
        }
        assert forall|j: int| 0 <= j < frames[k].len() implies return_owned(
            program,
            frames,
            target,
            k,
            j,
            (#[trigger] frames[k][j]).return_info,
        ) by {
            assert(return_owned(program, frames, pc, k, j, frames[k][j].return_info));
        }
    }
}

/// The same frames over other cells.
pub proof fn lemma_owned_over(program: ProgramView, machine: Machine, pc: TargetAddress, other: Machine)
    requires
        owned(program, machine, pc),
        other.frames == machine.frames,
        closures_fit(program, other.cells),
    ensures
        owned(program, other, pc),
{
    assert forall|k: int| 0 <= k < other.frames.len() implies #[trigger] call_owned(program, other.frames, pc, k) by {
        assert(call_owned(program, machine.frames, pc, k));
    }
}

/// A name of the current function, bound in the current call.
pub proof fn lemma_bind_owned(
    program: ProgramView,
    machine: Machine,
    pc: TargetAddress,
    name: Name,
    address: HeapAddress,
)
    requires
        owned(program, machine, pc),
        frame_names(program.functions[pc.function_index as int], name),
    ensures
        machine.bind(name, address) matches Ok(after) ==> owned(program, after, pc),
{
    lemma_bind_keeps_closures(machine, name, address);
    if let Ok(after) = machine.bind(name, address) {
        lemma_kept_fit(program, machine.cells, after.cells);
        let frames = machine.frames;
        let bound = after.frames;
        let top = frames.len() - 1;
        assert(call_owned(program, frames, pc, top));
        assert(bound == frames_after_bind(frames, name, address));
        assert(bound.len() == frames.len());
        assert(bound[top].len() == frames[top].len());
        assert forall|k: int| 0 <= k < bound.len() implies #[trigger] call_owned(program, bound, pc, k) by {
            assert(call_owned(program, frames, pc, k));
            if k < top {
                assert(bound[k] == frames[k]);
            }
            assert(bound[k].len() == frames[k].len());
            assert forall|j: int| 0 <= j < bound[k].len() implies (#[trigger] bound[k][j]).return_info
                == frames[k][j].return_info by {
                if k == top && j == frames[top].len() - 1 {
                    assert(bound[k][j] == frames[top].last().bind(name, address));
                } else if k == top {
                    assert(bound[k][j] == frames[k][j]);
                }
            }
            assert(owner(bound, pc, k) == owner(frames, pc, k)) by {
                if k < top {
                    assert(bound[k + 1][0].return_info == frames[k + 1][0].return_info);
                }
            }
            if k > 0 {
                assert(owner(bound, pc, k - 1) == owner(frames, pc, k - 1)) by {
                    assert(bound[k][0].return_info == frames[k][0].return_info);
                }
            }
            assert forall|j: int, i: int|
                0 <= j < bound[k].len() && 0 <= i < bound[k][j].variable_names.len() implies frame_names(
                program.functions[owner(bound, pc, k)],
                #[trigger] bound[k][j].variable_names[i],
            ) by {
                if k == top && j == frames[top].len() - 1 {
                    assert(bound[k][j] == frames[top].last().bind(name, address));
                    if i < frames[k][j].variable_names.len() {
                        assert(bound[k][j].variable_names[i] == frames[k][j].variable_names[i]);
                    }
                } else {
                    assert(bound[k][j] == frames[k][j]);
                    assert(frame_names(program.functions[owner(frames, pc, k)], frames[k][j].variable_names[i]));
                }
            }
            assert forall|j: int| 0 <= j < bound[k].len() implies return_owned(
                program,
                bound,
                pc,
                k,
                j,
                (#[trigger] bound[k][j]).return_info,
            ) by {
                assert(return_owned(program, frames, pc, k, j, frames[k][j].return_info));
            }
        }
    }
}

/// Names of the current function, bound in the current call.
pub proof fn lemma_bind_each_owned(
    program: ProgramView,
    machine: Machine,
    pc: TargetAddress,
    bindings: Seq<(Name, HeapAddress)>,
)
    requires
        owned(program, machine, pc),
        forall|i: int|
            0 <= i < bindings.len() ==> frame_names(
                program.functions[pc.function_index as int],
                (#[trigger] bindings[i]).0,
            ),
    ensures
        machine.bind_each(bindings) matches Ok(after) ==> owned(program, after, pc),
    decreases bindings.len(),
{
    if bindings.len() > 0 {
        lemma_bind_owned(program, machine, pc, bindings[0].0, bindings[0].1);
        if let Ok(bound) = machine.bind(bindings[0].0, bindings[0].1) {
            assert forall|i: int| 0 <= i < bindings.drop_first().len() implies frame_names(
                program.functions[pc.function_index as int],
                (#[trigger] bindings.drop_first()[i]).0,
            ) by {
                assert(bindings.drop_first()[i] == bindings[i + 1]);
            }
            lemma_bind_each_owned(program, bound, pc, bindings.drop_first());
        }
    }
}

/// A new cell whose value, if a closure, is one of a function of the
/// program.
pub proof fn lemma_allocate_fits(program: ProgramView, machine: Machine, value: HeapValueView)
    requires
        closures_fit(program, machine.cells),
        value matches HeapValueView::Closure(closure) ==> closure_fits(program, closure),
    ensures
        machine.allocate(value) matches Ok((after, _)) ==> closures_fit(program, after.cells),
{
}

/// A definition that does not transfer execution leaves the closures those
/// of the program, if it stands in a well-formed program.
pub proof fn lemma_eval_simple_fits(program: ProgramView, machine: Machine, g: int, b: int, definition: DefinitionView)
    requires
        closures_fit(program, machine.cells),
        0 <= g < program.functions.len(),
        crate::ir_let::well_formed::definition_ok(program.functions, g, b, definition),
    ensures
        machine.eval_simple(definition) matches Ok((after, _)) ==> closures_fit(program, after.cells)
            && after.frames == machine.frames,
{
    match definition {
        DefinitionView::Literal(_) => {
            lemma_allocate_fits(program, machine, HeapValueView::Int(0));
        },
        DefinitionView::Tuple { args } => {
            if let Ok(fields) = machine.lookup_all(args) {
                lemma_retain_all_keeps_closures(machine, fields);
                lemma_retain_all_keeps_frames(machine, fields);
                if let Ok(retained) = machine.retain_all(fields) {
                    lemma_kept_fit(program, machine.cells, retained.cells);
                    lemma_allocate_fits(program, retained, HeapValueView::Tuple(fields));
                }
            }
        },
        DefinitionView::Fun(function) => {
            if let Ok(captured) = machine.lookup_all(function.free_names) {
                lemma_retain_all_keeps_closures(machine, captured);
                lemma_retain_all_keeps_frames(machine, captured);
                if let Ok(retained) = machine.retain_all(captured) {
                    lemma_kept_fit(program, machine.cells, retained.cells);
                    let closure = ClosureView {
                        name: function.name,
                        arg_names: function.arg_names,
                        environment: pair_up(function.free_names, captured),
                        body: function.body,
                    };
                    let h = function.body.function_index as int;
                    assert forall|i: int| 0 <= i < closure.environment.len() implies frame_names(
                        program.functions[h],
                        (#[trigger] closure.environment[i]).0,
                    ) by {
                        assert(function.free_names.contains(function.free_names[i]));
                    }
                    lemma_allocate_fits(program, retained, HeapValueView::Closure(closure));
                }
            }
        },
        DefinitionView::BinOp { .. } => {},
        DefinitionView::SetField { tuple, index, new_value } => {
            if let Ok(tuple_address) = machine.lookup(tuple) {
                if let Ok(new_address) = machine.lookup(new_value) {
                    if let Ok(fields) = machine.tuple_at(tuple_address) {
                        if index < fields.len() {
                            let written = machine.with_cells(
                                machine.cells.insert(
                                    tuple_address,
                                    crate::heap_value::CellView {
                                        refcount: machine.cells[tuple_address].refcount,
                                        value: HeapValueView::Tuple(fields.update(index as int, new_address)),
                                    },
                                ),
                            );
                            assert(closures_kept(machine.cells, written.cells));
                            lemma_kept_fit(program, machine.cells, written.cells);
                            lemma_retain_keeps_closures(written, new_address);
                            if let Ok(retained) = written.retain(new_address) {
                                lemma_kept_fit(program, written.cells, retained.cells);
                                lemma_release_keeps_closures(retained, fields[index as int]);
                                if let Ok(released) = retained.release(fields[index as int]) {
                                    lemma_kept_fit(program, retained.cells, released.cells);
                                    lemma_allocate_fits(program, released, HeapValueView::Tuple(Seq::empty()));
                                }
                            }
                        }
                    }
                }
            }
        },
        _ => {},
    }
}

/// More references change no frame.
pub proof fn lemma_retain_all_keeps_frames(machine: Machine, addresses: Seq<HeapAddress>)
    ensures
        machine.retain_all(addresses) matches Ok(after) ==> after.frames == machine.frames,
    decreases addresses.len(),
{
    if addresses.len() > 0 {
        if let Ok(retained) = machine.retain(addresses[0]) {
            lemma_retain_all_keeps_frames(retained, addresses.drop_first());
        }
    }
}

/// A new call that returns into the current function, to one of its names.
pub proof fn lemma_enter_call_owned(
    program: ProgramView,
    machine: Machine,
    pc: TargetAddress,
    return_info: ReturnInfoView,
    target: TargetAddress,
)
    requires
        owned(program, machine, pc),
        target.function_index < program.functions.len(),
        return_info.return_address.function_index == pc.function_index,
        frame_names(program.functions[pc.function_index as int], return_info.result_variable),
    ensures
        owned(
            program,
            machine.with_frames(machine.frames.push(seq![BlockFrameView::fresh(Some(return_info))])),
            target,
        ),
{
    let frames = machine.frames;
    let entered = frames.push(seq![BlockFrameView::fresh(Some(return_info))]);
    let top = frames.len() - 1;
    assert(call_owned(program, frames, pc, top));
    assert forall|k: int| 0 <= k < entered.len() implies #[trigger] call_owned(program, entered, target, k) by {
        if k <= top {
            assert(call_owned(program, frames, pc, k));
            assert(entered[k] == frames[k]);
            assert(owner(entered, target, k) == owner(frames, pc, k)) by {
                if k < top {
                    assert(entered[k + 1] == frames[k + 1]);
                }
            }
            if k > 0 {
                assert(owner(entered, target, k - 1) == owner(frames, pc, k - 1));
            }
            assert forall|j: int| 0 <= j < entered[k].len() implies return_owned(
                program,
                entered,
                target,
                k,
                j,
                (#[trigger] entered[k][j]).return_info,
            ) by {
                assert(return_owned(program, frames, pc, k, j, frames[k][j].return_info));
            }
            assert forall|j: int, i: int|
                0 <= j < entered[k].len() && 0 <= i < entered[k][j].variable_names.len() implies frame_names(
                program.functions[owner(entered, target, k)],
                #[trigger] entered[k][j].variable_names[i],
            ) by {
                assert(frame_names(program.functions[owner(frames, pc, k)], frames[k][j].variable_names[i]));
            }
        } else {
            assert(entered[k] == seq![BlockFrameView::fresh(Some(return_info))]);
            assert(owner(entered, target, k - 1) == pc.function_index);
        }
    }
}

/// A new block in the current call that returns into the current
/// function, to one of its names.
pub proof fn lemma_enter_block_owned(
    program: ProgramView,
    machine: Machine,
    pc: TargetAddress,
    return_info: ReturnInfoView,
    target: TargetAddress,
)
    requires
        owned(program, machine, pc),
        target.function_index == pc.function_index,
        return_info.return_address.function_index == pc.function_index,
        frame_names(program.functions[pc.function_index as int], return_info.result_variable),
    ensures
        owned(
            program,
            machine.with_frames(
                machine.frames.drop_last().push(
                    machine.frames.last().push(BlockFrameView::fresh(Some(return_info))),
                ),
            ),
            target,
        ),
{
    let frames = machine.frames;
    let entered = frames.drop_last().push(frames.last().push(BlockFrameView::fresh(Some(return_info))));
    let top = frames.len() - 1;
    assert(call_owned(program, frames, pc, top));
    assert forall|k: int| 0 <= k < entered.len() implies #[trigger] call_owned(program, entered, target, k) by {
        assert(call_owned(program, frames, pc, k));
        if k < top {
            assert(entered[k] == frames[k]);
        }
        assert forall|j: int| 0 <= j < frames[k].len() implies #[trigger] entered[k][j] == frames[k][j] by {}
        assert(owner(entered, target, k) == owner(frames, pc, k)) by {
            if k < top {
                assert(entered[k + 1][0] == frames[k + 1][0]);
            }
        }
        if k > 0 {
            assert(owner(entered, target, k - 1) == owner(frames, pc, k - 1)) by {
                assert(entered[k][0] == frames[k][0]);
            }
        }
        assert forall|j: int| 0 <= j < entered[k].len() implies return_owned(
            program,
            entered,
            target,
            k,
            j,
            (#[trigger] entered[k][j]).return_info,
        ) by {
            if j < frames[k].len() {
                assert(entered[k][j] == frames[k][j]);
                assert(return_owned(program, frames, pc, k, j, frames[k][j].return_info));
            }
        }
        assert forall|j: int, i: int|
            0 <= j < entered[k].len() && 0 <= i < entered[k][j].variable_names.len() implies frame_names(
            program.functions[owner(entered, target, k)],
            #[trigger] entered[k][j].variable_names[i],
        ) by {
            if j < frames[k].len() {
                assert(entered[k][j] == frames[k][j]);
                assert(frame_names(program.functions[owner(frames, pc, k)], frames[k][j].variable_names[i]));
            }
        }
    }
}

/// The end of a block that returns: execution goes on in the function of
/// the call that is then current, and the result is bound to one of its
/// names.
pub proof fn lemma_exit_owned(program: ProgramView, machine: Machine, pc: TargetAddress, result_variable: Name)
    requires
        owned(program, machine, pc),
    ensures
        machine.exit_block(result_variable) matches Ok(Progress::Running(after, target)) ==> owned(
            program,
            after,
            target,
        ),
{
    let frames = machine.frames;
    let top = frames.len() - 1;
    assert(call_owned(program, frames, pc, top));
    let last = frames[top].len() - 1;
    let frame = frames.last().last();
    assert(frame == frames[top][last]);
    let exited = machine.with_frames(frames_after_exit(frames));
    if let Some(result) = lookup_in_frames(frames.last(), result_variable) {
        if let Some(info) = frame.return_info {
            let target = info.return_address;
            assert(return_owned(program, frames, pc, top, last, frames[top][last].return_info));
            if let Ok(stored) = exited.bind(info.result_variable, result) {
                let left = exited.frames;
                assert(left.len() > 0);
                assert(owned(program, exited, target)) by {
                    assert forall|k: int| 0 <= k < left.len() implies #[trigger] call_owned(
                        program,
                        left,
                        target,
                        k,
                    ) by {
                        assert(call_owned(program, frames, pc, k));
                        if last > 0 {
                            if k < top {
                                assert(left[k] == frames[k]);
                            }
                            assert forall|j: int| 0 <= j < left[k].len() implies #[trigger] left[k][j]
                                == frames[k][j] by {}
                            assert(owner(left, target, k) == owner(frames, pc, k)) by {
                                if k < top {
                                    assert(left[k + 1][0] == frames[k + 1][0]);
                                }
                            }
                            if k > 0 {
                                assert(owner(left, target, k - 1) == owner(frames, pc, k - 1)) by {
                                    assert(left[k][0] == frames[k][0]);
                                }
                            }
                        } else {
                            assert(left[k] == frames[k]);
                            assert(owner(left, target, k) == owner(frames, pc, k)) by {
                                if k < top - 1 {
                                    assert(left[k + 1] == frames[k + 1]);
                                } else {
                                    assert(frames[k + 1][0] == frame);
                                }
                            }
                            if k > 0 {
                                assert(owner(left, target, k - 1) == owner(frames, pc, k - 1));
                            }
                        }
                        assert forall|j: int| 0 <= j < left[k].len() implies return_owned(
                            program,
                            left,
                            target,
                            k,
                            j,
                            (#[trigger] left[k][j]).return_info,
                        ) by {
                            assert(left[k][j] == frames[k][j]);
                            assert(return_owned(program, frames, pc, k, j, frames[k][j].return_info));
                        }
                        assert forall|j: int, i: int|
                            0 <= j < left[k].len() && 0 <= i < left[k][j].variable_names.len() implies frame_names(
                            program.functions[owner(left, target, k)],
                            #[trigger] left[k][j].variable_names[i],
                        ) by {
                            assert(left[k][j] == frames[k][j]);
                            assert(frame_names(
                                program.functions[owner(frames, pc, k)],
                                frames[k][j].variable_names[i],
                            ));
                        }
                    }
                }
                assert(frame_names(program.functions[target.function_index as int], info.result_variable)) by {
                    if last > 0 {
                    } else {
                        assert(owner(frames, pc, top - 1) == target.function_index);
                    }
                }
                lemma_bind_owned(program, exited, target, info.result_variable, result);
                lemma_release_all_keeps_closures(stored, frame.values);
                if let Ok(after) = stored.release_all(frame.values) {
                    lemma_kept_fit(program, stored.cells, after.cells);
                    lemma_owned_over(program, stored, target, after);
                }
            }
        }
    }
}

/// An instruction of a well-formed program keeps every call with its
/// function.
pub proof fn lemma_step_owned(program: ProgramView, machine: Machine, pc: TargetAddress)
    requires
        program.well_formed(),
        owned(program, machine, pc),
    ensures
        step(program, machine, pc) matches Ok(Progress::Running(after, target)) ==> owned(program, after, target),
{
    if program.has_instruction(pc) {
        let g = pc.function_index as int;
        let b = pc.block_index as int;
        let i = pc.instruction_index as int;
        let function = program.functions[g];
        let instruction = function.blocks[b].instructions[i];
        assert(function_ok(program.functions, g));
        assert(block_ok(program.functions, g, b));
        assert(instruction_ok(program.functions, g, b, instruction));
        match instruction {
            InstructionView::EnterBlock => {
                lemma_owned_moves(program, machine, pc, pc.successor());
            },
            InstructionView::ExitBlock(result_variable) => {
                lemma_exit_owned(program, machine, pc, result_variable);
            },
            InstructionView::Assignment { name, definition } => {
                assert(at_instruction(instruction, name));
                assert(frame_names(function, name));
                let return_info = ReturnInfoView { result_variable: name, return_address: pc.successor() };
                match definition {
                    DefinitionView::Call { func, args } => {
                        if let Ok(closure_address) = machine.lookup(func) {
                            if let Ok(arg_values) = machine.lookup_all(args) {
                                if let Ok(closure) = machine.closure_at(closure_address) {
                                    assert(machine.cells.contains_key(closure_address));
                                    assert(closure_fits(program, closure));
                                    let h = closure.body.function_index as int;
                                    let entered = machine.with_frames(
                                        machine.frames.push(seq![BlockFrameView::fresh(Some(return_info))]),
                                    );
                                    lemma_enter_call_owned(program, machine, pc, return_info, closure.body);
                                    lemma_bind_each_owned(program, entered, closure.body, closure.environment);
                                    if let Ok(captured) = entered.bind_each(closure.environment) {
                                        let passing = pair_up(closure.arg_names, arg_values);
                                        assert forall|q: int| 0 <= q < passing.len() implies frame_names(
                                            program.functions[h],
                                            (#[trigger] passing[q]).0,
                                        ) by {
                                            assert(closure.arg_names.contains(closure.arg_names[q]));
                                        }
                                        lemma_bind_each_owned(program, captured, closure.body, passing);
                                        if let Ok(passed) = captured.bind_each(passing) {
                                            lemma_bind_owned(
                                                program,
                                                passed,
                                                closure.body,
                                                closure.name,
                                                closure_address,
                                            );
                                        }
                                    }
                                }
                            }
                        }
                    },
                    DefinitionView::If { condition, branch_success, branch_failure } => {
                        if let Ok(address) = machine.lookup(condition) {
                            if let Ok(chosen) = machine.bool_at(address) {
                                lemma_enter_block_owned(program, machine, pc, return_info, branch_success);
                                lemma_enter_block_owned(program, machine, pc, return_info, branch_failure);
                            }
                        }
                    },
                    _ => {
                        lemma_eval_simple_fits(program, machine, g, b, definition);
                        if let Ok((evaluated, value)) = machine.eval_simple(definition) {
                            lemma_owned_over(program, machine, pc, evaluated);
                            lemma_bind_owned(program, evaluated, pc, name, value);
                            if let Ok(after) = evaluated.bind(name, value) {
                                lemma_owned_moves(program, after, pc, pc.successor());
                            }
                        }
                    },
                }
            },
        }
    }
}

/// The machine that a run starts with binds no name and holds no closure.
pub proof fn lemma_initial_owned(program: ProgramView, pc: TargetAddress)
    requires
        pc.function_index < program.functions.len(),
    ensures
        owned(program, Machine::initial(), pc),
{
    let frames = Machine::initial().frames;
    assert(frames[0] =~= seq![BlockFrameView::fresh(None)]);
    assert(call_owned(program, frames, pc, 0));
}

/// Alpha equivalence, call by call: under a renaming that keeps the names
/// of each function different, the renamed program runs in the renamed
/// machine as the well-formed program runs in the machine. Names of
/// different functions may fall together: no call binds names of two
/// functions.
pub proof fn lemma_run_renamed_in_functions(
    renaming: Renaming,
    program: ProgramView,
    machine: Machine,
    pc: TargetAddress,
    budget: nat,
)
    requires
        program.well_formed(),
        owned(program, machine, pc),
        apart_in_functions(renaming, program),
    ensures
        run(rename_program(renaming, program), rename_machine(renaming, machine), pc, budget)
            == rename_outcome(renaming, run(program, machine, pc, budget)),
    decreases budget,
{
    if budget > 0 {
        if program.has_instruction(pc) {
            let function = program.functions[pc.function_index as int];
            assert forall|name: Name| #[trigger] mentions(program.instruction_at(pc), name) implies told_apart(
                renaming,
                machine,
                name,
            ) by {
                assert(at_instruction(
                    function.blocks[pc.block_index as int].instructions[pc.instruction_index as int],
                    name,
                ));
                assert(frame_names(function, name));
                lemma_owned_tells_apart(renaming, program, machine, pc, name);
            }
        }
        lemma_step_renamed(renaming, program, machine, pc);
        lemma_step_owned(program, machine, pc);
        if let Ok(Progress::Running(following, target)) = step(program, machine, pc) {
            lemma_run_renamed_in_functions(renaming, program, following, target, (budget - 1) as nat);
        }
    }
}

/// A well-formed program whose names are renamed, the names of each
/// function staying different, computes from the start what the program
/// computes: the same fault, the same place after as many instructions, or
/// the same result, a closure for a closure.
pub proof fn lemma_renamed_in_functions_computes_the_same(
    renaming: Renaming,
    program: ProgramView,
    pc: TargetAddress,
    budget: nat,
)
    requires
        program.well_formed(),
        apart_in_functions(renaming, program),
    ensures
        match run(program, Machine::initial(), pc, budget) {
            Ok(Progress::Finished(_, value)) => run(
                rename_program(renaming, program),
                Machine::initial(),
                pc,
                budget,
            ) matches Ok(Progress::Finished(_, renamed)) && (value is Closure <==> renamed is Closure) && (
            !(value is Closure) ==> renamed == value),
            Ok(Progress::Running(_, target)) => run(
                rename_program(renaming, program),
                Machine::initial(),
                pc,
                budget,
            ) matches Ok(Progress::Running(_, renamed_target)) && renamed_target == target,
            Err(fault) => run(rename_program(renaming, program), Machine::initial(), pc, budget)
                == Err::<Progress, RuntimeFault>(fault),
        },
{
    lemma_initial_renamed(renaming);
    if pc.function_index < program.functions.len() {
        lemma_initial_owned(program, pc);
        lemma_run_renamed_in_functions(renaming, program, Machine::initial(), pc, budget);
    } else if budget > 0 {
        lemma_step_renamed(renaming, program, Machine::initial(), pc);
    }
}

} // verus!
