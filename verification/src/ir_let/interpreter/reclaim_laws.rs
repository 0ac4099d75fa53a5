//! What is left on the heap when a run has ended.
//!
//! Between instructions every live cell is referred to at least once. A
//! program without field assignments builds values only from values that
//! are there already, so that no value reaches itself. When such a program
//! has ended, and the outermost block has released its locals, no cell is
//! left.

use vstd::prelude::*;
use crate::fault::RuntimeFault;
use crate::heap::{Cells, lemma_release_lowers_counts, lemma_release_shrinks, release, release_all};
use crate::heap_value::{CellView, ClosureView, HeapAddress, HeapValueView};
use crate::ir_let::interpreter::balance::{
    count_in, incoming_below, lemma_member_of_count, no_credits, references_at, stack_count,
};
use crate::ir_let::interpreter::balance_laws::{
    lemma_initial_balanced, lemma_lookup_from_len, lemma_lookup_from_live, lemma_step_balanced,
};
use crate::ir_let::interpreter::machine::{Machine, Progress, pair_up, run, step};
use crate::ir_let::let_expr::{DefinitionView, InstructionView, ProgramView, TargetAddress};
use crate::stack::{BlockFrameView, Frames, ReturnInfoView, frames_after_bind, frames_after_exit};
use crate::syntax::{BinOp, Constant, Name};

verus! {

/// Whether every live cell but `exempt` is referred to at least once.
pub open spec fn positive_but(cells: Cells, exempt: Option<HeapAddress>) -> bool {
    forall|address: HeapAddress|
        cells.contains_key(address) && Some(address) != exempt ==> (#[trigger] cells[address]).refcount >= 1
}

/// Whether every value refers only to cells allocated before its own.
pub open spec fn backed(cells: Cells) -> bool {
    forall|address: HeapAddress, i: int|
        cells.contains_key(address) && 0 <= i < cells[address].value.references().len() ==> (
        #[trigger] cells[address].value.references()[i]).0 < address.0
}

/// Whether every call has a block, and only the first block of the first
/// call returns to nothing.
pub open spec fn rooted(frames: Frames) -> bool {
    forall|i: int|
        0 <= i < frames.len() ==> (#[trigger] frames[i]).len() > 0 && forall|j: int|
            0 <= j < frames[i].len() && (#[trigger] frames[i][j]).return_info is None ==> i == 0 && j == 0
}

/// Giving up a reference leaves every cell that is left with a count of at
/// least one, if all had one.
pub proof fn lemma_release_positive(cells: Cells, address: HeapAddress)
    requires
        cells.dom().finite(),
        positive_but(cells, None),
    ensures
        release(cells, address) matches Ok(rest) ==> positive_but(rest, None),
    decreases cells.dom().len(), 0nat, 0nat,
{
    if cells.contains_key(address) && cells[address].refcount == 1 {
        lemma_release_all_positive(cells.remove(address), cells[address].value.references());
    }
}

/// Giving up references leaves every cell that is left with a count of at
/// least one, if all had one.
pub proof fn lemma_release_all_positive(cells: Cells, addresses: Seq<HeapAddress>)
    requires
        cells.dom().finite(),
        positive_but(cells, None),
    ensures
        release_all(cells, addresses) matches Ok(rest) ==> positive_but(rest, None),
    decreases cells.dom().len(), 1nat, addresses.len(),
{
    if addresses.len() > 0 {
        lemma_release_shrinks(cells, addresses[0]);
        lemma_release_positive(cells, addresses[0]);
        if let Ok(rest) = release(cells, addresses[0]) {
            lemma_release_all_positive(rest, addresses.drop_first());
        }
    }
}

/// Giving up a reference changes no value: what was backed stays backed.
pub proof fn lemma_release_backed(cells: Cells, address: HeapAddress)
    requires
        cells.dom().finite(),
        backed(cells),
    ensures
        release(cells, address) matches Ok(rest) ==> backed(rest),
{
    if let Ok(rest) = release(cells, address) {
        assert forall|other: HeapAddress, i: int|
            rest.contains_key(other) && 0 <= i < rest[other].value.references().len() implies (
        #[trigger] rest[other].value.references()[i]).0 < other.0 by {
            lemma_release_lowers_counts(cells, address, other);
            assert(cells[other].value.references()[i].0 < other.0);
        }
    }
}

/// Giving up references changes no value: what was backed stays backed.
pub proof fn lemma_release_all_backed(cells: Cells, addresses: Seq<HeapAddress>)
    requires
        cells.dom().finite(),
        backed(cells),
    ensures
        release_all(cells, addresses) matches Ok(rest) ==> backed(rest),
{
    if let Ok(rest) = release_all(cells, addresses) {
        assert forall|other: HeapAddress, i: int|
            rest.contains_key(other) && 0 <= i < rest[other].value.references().len() implies (
        #[trigger] rest[other].value.references()[i]).0 < other.0 by {
            crate::heap::lemma_release_all_lowers_counts(cells, addresses, other);
            assert(cells[other].value.references()[i].0 < other.0);
        }
    }
}

/// No cell below the limit holds an address that is not below any live
/// cell, where every value refers only to earlier cells.
pub proof fn lemma_latest_has_no_holder(cells: Cells, address: HeapAddress, limit: int)
    requires
        backed(cells),
        forall|other: HeapAddress| cells.contains_key(other) ==> other.0 <= address.0,
    ensures
        incoming_below(cells, address, limit) == 0,
    decreases limit,
{
    if limit > 0 {
        lemma_latest_has_no_holder(cells, address, limit - 1);
        let held = references_at(cells, limit - 1);
        if count_in(held, address) >= 1 {
            lemma_member_of_count(held, address);
            let i = choose|i: int| 0 <= i < held.len() && held[i] == address;
            let holder = HeapAddress((limit - 1) as u32);
            assert(cells.contains_key(holder));
            assert(cells[holder].value.references()[i].0 < holder.0);
        }
    }
}

/// A heap is empty if every count is the number of references from the
/// heap alone, every live cell is referred to, and every value refers only
/// to earlier cells.
pub proof fn lemma_unheld_heap_is_empty(machine: Machine, limit: int)
    requires
        machine.balanced(no_credits()),
        machine.frames.len() == 0,
        positive_but(machine.cells, None),
        backed(machine.cells),
        0 <= limit,
        forall|other: HeapAddress| machine.cells.contains_key(other) ==> other.0 < limit,
    ensures
        machine.cells =~= Map::empty(),
    decreases limit,
{
    if limit > 0 {
        let last = HeapAddress((limit - 1) as u32);
        if limit - 1 <= u32::MAX && machine.cells.contains_key(last) {
            lemma_latest_has_no_holder(machine.cells, last, machine.next_address.0 as int);
            assert(machine.references_to(no_credits(), last) == 0);
            assert(machine.cells[last].refcount >= 1);
        }
        assert forall|other: HeapAddress| machine.cells.contains_key(other) implies other.0 < limit - 1 by {
            if other.0 == limit - 1 {
                assert(other == last);
            }
        }
        lemma_unheld_heap_is_empty(machine, limit - 1);
    }
}

impl Machine {
    /// Whether the machine stands between two instructions: every live cell
    /// is referred to, and the stack is rooted.
    pub open spec fn settled(self) -> bool {
        positive_but(self.cells, None) && rooted(self.frames)
    }
}

/// Whether an evaluation kept every cell referred to, but for its result,
/// kept the values backed, and left the stack alone.
pub open spec fn evaluated_calmly(
    machine: Machine,
    outcome: Result<(Machine, HeapAddress), RuntimeFault>,
    keeps_backed: bool,
) -> bool {
    outcome matches Ok((after, address)) ==> {
        &&& positive_but(after.cells, Some(address))
        &&& after.frames == machine.frames
        &&& keeps_backed && backed(machine.cells) ==> backed(after.cells)
    }
}

/// One more reference leaves every cell referred to, and the values as they
/// are.
pub proof fn lemma_retain_calm(machine: Machine, address: HeapAddress, exempt: Option<HeapAddress>)
    requires
        positive_but(machine.cells, exempt),
    ensures
        machine.retain(address) matches Ok(after) ==> {
            &&& positive_but(after.cells, exempt)
            &&& exempt == Some(address) ==> positive_but(after.cells, None)
            &&& after.frames == machine.frames
            &&& backed(machine.cells) ==> backed(after.cells)
            &&& after.next_address == machine.next_address
            &&& after.cells.dom() == machine.cells.dom()
        },
{
    if let Ok(after) = machine.retain(address) {
        assert(after.cells.dom() =~= machine.cells.dom());
        assert forall|other: HeapAddress|
            after.cells.contains_key(other) && Some(other) != exempt implies (#[trigger] after.cells[other]).refcount
            >= 1 by {
            assert(machine.cells[other].refcount >= 1);
        }
        if exempt == Some(address) {
            assert forall|other: HeapAddress| after.cells.contains_key(other) implies (
            #[trigger] after.cells[other]).refcount >= 1 by {
                if other != address {
                    assert(machine.cells[other].refcount >= 1);
                }
            }
        }
        if backed(machine.cells) {
            assert forall|other: HeapAddress, i: int|
                after.cells.contains_key(other) && 0 <= i < after.cells[other].value.references().len() implies (
            #[trigger] after.cells[other].value.references()[i]).0 < other.0 by {
                assert(machine.cells[other].value.references()[i].0 < other.0);
            }
        }
    }
}

/// One more reference to each of some cells leaves every cell referred to,
/// and the values as they are.
pub proof fn lemma_retain_all_calm(machine: Machine, addresses: Seq<HeapAddress>)
    requires
        positive_but(machine.cells, None),
    ensures
        machine.retain_all(addresses) matches Ok(after) ==> {
            &&& positive_but(after.cells, None)
            &&& after.frames == machine.frames
            &&& backed(machine.cells) ==> backed(after.cells)
            &&& after.next_address == machine.next_address
        },
    decreases addresses.len(),
{
    if addresses.len() > 0 {
        lemma_retain_calm(machine, addresses[0], None);
        if let Ok(retained) = machine.retain(addresses[0]) {
            lemma_retain_all_calm(retained, addresses.drop_first());
        }
    }
}

/// A new cell is the only one that may be referred to by nothing; its value
/// is backed if it refers only to cells that were there.
pub proof fn lemma_allocate_calm(machine: Machine, value: HeapValueView)
    requires
        positive_but(machine.cells, None),
    ensures
        machine.allocate(value) matches Ok((after, address)) ==> {
            &&& positive_but(after.cells, Some(address))
            &&& after.frames == machine.frames
            &&& backed(machine.cells) && (forall|i: int|
                0 <= i < value.references().len() ==> (#[trigger] value.references()[i]).0
                    < machine.next_address.0) ==> backed(after.cells)
        },
{
    if let Ok((after, address)) = machine.allocate(value) {
        assert forall|other: HeapAddress|
            after.cells.contains_key(other) && Some(other) != Some(address) implies (
        #[trigger] after.cells[other]).refcount >= 1 by {
            assert(machine.cells[other].refcount >= 1);
        }
        if backed(machine.cells) && (forall|i: int|
            0 <= i < value.references().len() ==> (#[trigger] value.references()[i]).0
                < machine.next_address.0) {
            assert forall|other: HeapAddress, i: int|
                after.cells.contains_key(other) && 0 <= i < after.cells[other].value.references().len() implies (
            #[trigger] after.cells[other].value.references()[i]).0 < other.0 by {
                if other != address {
                    assert(machine.cells[other].value.references()[i].0 < other.0);
                }
            }
        }
    }
}

/// One more local keeps the stack rooted.
pub proof fn lemma_bind_rooted(frames: Frames, name: Name, value: HeapAddress)
    requires
        rooted(frames),
        frames.len() > 0,
    ensures
        rooted(frames_after_bind(frames, name, value)),
{
    let after = frames_after_bind(frames, name, value);
    let last = frames.len() - 1;
    assert(frames[last].len() > 0);
    assert forall|i: int| 0 <= i < after.len() implies (#[trigger] after[i]).len() > 0 && forall|j: int|
        0 <= j < after[i].len() && (#[trigger] after[i][j]).return_info is None ==> i == 0 && j == 0 by {
        assert(frames[i].len() > 0);
        assert forall|j: int| 0 <= j < after[i].len() && (#[trigger] after[i][j]).return_info is None implies i
            == 0 && j == 0 by {
            assert(frames[i][j].return_info == after[i][j].return_info);
        }
    }
}

/// A name bound to the cell that may be referred to by nothing leaves every
/// cell referred to, and the stack rooted.
pub proof fn lemma_bind_calm(machine: Machine, name: Name, address: HeapAddress)
    requires
        positive_but(machine.cells, Some(address)),
        rooted(machine.frames),
    ensures
        machine.bind(name, address) matches Ok(after) ==> {
            &&& after.settled()
            &&& backed(machine.cells) ==> backed(after.cells)
            &&& after.next_address == machine.next_address
            &&& after.cells.dom() == machine.cells.dom()
        },
{
    lemma_retain_calm(machine, address, Some(address));
    if let Ok(retained) = machine.retain(address) {
        if retained.frames.len() > 0 {
            lemma_bind_rooted(retained.frames, name, address);
        }
    }
}

/// Names bound to cells leave every cell referred to, and the stack rooted.
pub proof fn lemma_bind_each_calm(machine: Machine, bindings: Seq<(Name, HeapAddress)>)
    requires
        machine.settled(),
    ensures
        machine.bind_each(bindings) matches Ok(after) ==> {
            &&& after.settled()
            &&& backed(machine.cells) ==> backed(after.cells)
            &&& after.next_address == machine.next_address
        },
    decreases bindings.len(),
{
    if bindings.len() > 0 {
        lemma_bind_calm(machine, bindings[0].0, bindings[0].1);
        if let Ok(bound) = machine.bind(bindings[0].0, bindings[0].1) {
            lemma_bind_each_calm(bound, bindings.drop_first());
        }
    }
}

/// The value of a definition that does not transfer execution is the only
/// cell that may be referred to by nothing; the values stay backed unless
/// the definition assigns a field.
pub proof fn lemma_eval_simple_calm(machine: Machine, definition: DefinitionView)
    requires
        machine.balanced(no_credits()),
        positive_but(machine.cells, None),
    ensures
        evaluated_calmly(machine, machine.eval_simple(definition), !(definition is SetField)),
{
    match definition {
        DefinitionView::Literal(Constant::Int { value }) => {
            lemma_allocate_calm(machine, HeapValueView::Int(value));
        },
        DefinitionView::Literal(Constant::Bool { value }) => {
            lemma_allocate_calm(machine, HeapValueView::Bool(value));
        },
        DefinitionView::Tuple { args } => {
            lemma_lookup_from_live(machine, no_credits(), args, 0, Seq::empty());
            if let Ok(found) = machine.lookup_all(args) {
                lemma_retain_all_calm(machine, found);
                if let Ok(retained) = machine.retain_all(found) {
                    lemma_allocate_calm(retained, HeapValueView::Tuple(found));
                }
            }
        },
        DefinitionView::Fun(function) => {
            lemma_lookup_from_live(machine, no_credits(), function.free_names, 0, Seq::empty());
            lemma_lookup_from_len(machine, function.free_names, 0, Seq::empty());
            if let Ok(captured) = machine.lookup_all(function.free_names) {
                lemma_retain_all_calm(machine, captured);
                if let Ok(retained) = machine.retain_all(captured) {
                    let value = HeapValueView::Closure(
                        ClosureView {
                            name: function.name,
                            arg_names: function.arg_names,
                            environment: pair_up(function.free_names, captured),
                            body: function.body,
                        },
                    );
                    assert(value.references() =~= captured);
                    lemma_allocate_calm(retained, value);
                }
            }
        },
        DefinitionView::BinOp { op, lhs, rhs } => {
            if let Ok(lhs_address) = machine.lookup(lhs) {
                if let Ok(rhs_address) = machine.lookup(rhs) {
                    match op {
                        BinOp::Get => {},
                        _ => {
                            if let Ok(left) = machine.int_at(lhs_address) {
                                if let Ok(right) = machine.int_at(rhs_address) {
                                    lemma_allocate_calm(machine, HeapValueView::Int((left + right) as i32));
                                    lemma_allocate_calm(machine, HeapValueView::Int((left - right) as i32));
                                    lemma_allocate_calm(machine, HeapValueView::Bool(left == right));
                                }
                            }
                        },
                    }
                }
            }
        },
        DefinitionView::SetField { tuple, index, new_value } => {
            if let Ok(tuple_address) = machine.lookup(tuple) {
                if let Ok(new_address) = machine.lookup(new_value) {
                    if let Ok(fields) = machine.tuple_at(tuple_address) {
                        if index < fields.len() {
                            let written = machine.with_cells(
                                machine.cells.insert(
                                    tuple_address,
                                    CellView {
                                        refcount: machine.cells[tuple_address].refcount,
                                        value: HeapValueView::Tuple(fields.update(index as int, new_address)),
                                    },
                                ),
                            );
                            assert forall|other: HeapAddress| written.cells.contains_key(other) implies (
                            #[trigger] written.cells[other]).refcount >= 1 by {
                                assert(machine.cells[other].refcount >= 1);
                            }
                            lemma_retain_calm(written, new_address, None);
                            if let Ok(retained) = written.retain(new_address) {
                                assert(retained.cells.dom().finite());
                                lemma_release_positive(retained.cells, fields[index as int]);
                                if let Ok(released) = retained.release(fields[index as int]) {
                                    lemma_allocate_calm(released, HeapValueView::Tuple(Seq::empty()));
                                }
                            }
                        }
                    }
                }
            }
        },
        _ => {},
    }
}

/// A new call keeps the stack rooted.
pub proof fn lemma_enter_function_rooted(frames: Frames, return_info: ReturnInfoView)
    requires
        rooted(frames),
        frames.len() > 0,
    ensures
        rooted(frames.push(seq![BlockFrameView::fresh(Some(return_info))])),
{
    let after = frames.push(seq![BlockFrameView::fresh(Some(return_info))]);
    assert forall|i: int| 0 <= i < after.len() implies (#[trigger] after[i]).len() > 0 && forall|j: int|
        0 <= j < after[i].len() && (#[trigger] after[i][j]).return_info is None ==> i == 0 && j == 0 by {
        if i < frames.len() {
            assert(after[i] == frames[i]);
        }
    }
}

/// A new block keeps the stack rooted.
pub proof fn lemma_enter_block_rooted(frames: Frames, return_info: ReturnInfoView)
    requires
        rooted(frames),
        frames.len() > 0,
    ensures
        rooted(frames.drop_last().push(frames.last().push(BlockFrameView::fresh(Some(return_info))))),
{
    let after = frames.drop_last().push(frames.last().push(BlockFrameView::fresh(Some(return_info))));
    assert forall|i: int| 0 <= i < after.len() implies (#[trigger] after[i]).len() > 0 && forall|j: int|
        0 <= j < after[i].len() && (#[trigger] after[i][j]).return_info is None ==> i == 0 && j == 0 by {
        assert(frames[i].len() > 0);
        assert forall|j: int| 0 <= j < after[i].len() && (#[trigger] after[i][j]).return_info is None implies i
            == 0 && j == 0 by {
            if j < frames[i].len() {
                assert(after[i][j] == frames[i][j]);
            }
        }
    }
}

/// The end of a block keeps the stack rooted; the stack is empty after the
/// end of the block that returns to nothing.
pub proof fn lemma_exit_rooted(frames: Frames)
    requires
        rooted(frames),
        frames.len() > 0,
    ensures
        rooted(frames_after_exit(frames)),
        frames.last().last().return_info is None ==> frames_after_exit(frames).len() == 0,
{
    let after = frames_after_exit(frames);
    let last = frames.len() - 1;
    assert(frames[last].len() > 0);
    assert forall|i: int| 0 <= i < after.len() implies (#[trigger] after[i]).len() > 0 && forall|j: int|
        0 <= j < after[i].len() && (#[trigger] after[i][j]).return_info is None ==> i == 0 && j == 0 by {
        assert(frames[i].len() > 0);
        assert forall|j: int| 0 <= j < after[i].len() && (#[trigger] after[i][j]).return_info is None implies i
            == 0 && j == 0 by {
            assert(after[i][j] == frames[i][j]);
        }
    }
    if frames.last().last().return_info is None {
        assert(frames[last][frames[last].len() - 1].return_info is None);
    }
}

/// An assignment leaves the machine settled, and its values backed unless
/// it assigns a field.
pub proof fn lemma_eval_assignment_calm(
    machine: Machine,
    address: TargetAddress,
    name: Name,
    definition: DefinitionView,
)
    requires
        machine.balanced(no_credits()),
        machine.settled(),
    ensures
        machine.eval_assignment(address, name, definition) matches Ok((after, _)) ==> after.settled() && (
        backed(machine.cells) && !(definition is SetField) ==> backed(after.cells)),
{
    let return_info = ReturnInfoView { result_variable: name, return_address: address.successor() };
    match definition {
        DefinitionView::Call { func, args } => {
            if let Ok(closure_address) = machine.lookup(func) {
                if let Ok(arg_values) = machine.lookup_all(args) {
                    if let Ok(closure) = machine.closure_at(closure_address) {
                        if closure.arg_names.len() == args.len() {
                            let entered = machine.with_frames(
                                machine.frames.push(seq![BlockFrameView::fresh(Some(return_info))]),
                            );
                            lemma_enter_function_rooted(machine.frames, return_info);
                            lemma_bind_each_calm(entered, closure.environment);
                            if let Ok(captured) = entered.bind_each(closure.environment) {
                                lemma_bind_each_calm(captured, pair_up(closure.arg_names, arg_values));
                                if let Ok(passed) = captured.bind_each(
                                    pair_up(closure.arg_names, arg_values),
                                ) {
                                    lemma_bind_calm(passed, closure.name, closure_address);
                                }
                            }
                        }
                    }
                }
            }
        },
        DefinitionView::If { condition, branch_success, branch_failure } => {
            if let Ok(found) = machine.lookup(condition) {
                lemma_enter_block_rooted(machine.frames, return_info);
            }
        },
        _ => {
            lemma_eval_simple_calm(machine, definition);
            if let Ok((evaluated_machine, value)) = machine.eval_simple(definition) {
                lemma_bind_calm(evaluated_machine, name, value);
            }
        },
    }
}

/// The end of a block leaves the machine settled and its values backed;
/// after the end of the outermost block the stack is empty.
pub proof fn lemma_exit_block_calm(machine: Machine, result_variable: Name)
    requires
        machine.balanced(no_credits()),
        machine.settled(),
    ensures
        match machine.exit_block(result_variable) {
            Ok(Progress::Running(after, _)) => after.settled() && (backed(machine.cells) ==> backed(
                after.cells,
            )),
            Ok(Progress::Finished(after, _)) => positive_but(after.cells, None) && after.frames.len() == 0
                && (backed(machine.cells) ==> backed(after.cells)),
            Err(_) => true,
        },
{
    if machine.frames.len() > 0 && machine.frames.last().len() > 0 {
        let frame = machine.frames.last().last();
        let exited = machine.with_frames(frames_after_exit(machine.frames));
        lemma_exit_rooted(machine.frames);
        match crate::stack::lookup_in_frames(machine.frames.last(), result_variable) {
            None => {},
            Some(result) => match frame.return_info {
                None => {
                    lemma_release_all_positive(exited.cells, frame.values);
                    if backed(machine.cells) {
                        lemma_release_all_backed(exited.cells, frame.values);
                    }
                },
                Some(info) => {
                    lemma_bind_calm(exited, info.result_variable, result);
                    if let Ok(stored) = exited.bind(info.result_variable, result) {
                        lemma_release_all_positive(stored.cells, frame.values);
                        if backed(machine.cells) {
                            lemma_release_all_backed(stored.cells, frame.values);
                        }
                    }
                },
            },
        }
    }
}

impl ProgramView {
    /// Whether no instruction of the program assigns a field.
    pub open spec fn assigns_no_field(self) -> bool {
        forall|g: int, j: int, i: int|
            0 <= g < self.functions.len() && 0 <= j < self.functions[g].blocks.len() && 0 <= i
                < self.functions[g].blocks[j].instructions.len() ==> !(
            #[trigger] self.functions[g].blocks[j].instructions[i] matches InstructionView::Assignment {
                definition: DefinitionView::SetField { .. },
                ..
            })
    }
}

/// An instruction leaves a settled machine settled, and the values backed
/// if it assigns no field; after the end of the outermost block the stack
/// is empty.
pub proof fn lemma_step_calm(program: ProgramView, machine: Machine, pc: TargetAddress)
    requires
        machine.balanced(no_credits()),
        machine.settled(),
    ensures
        match step(program, machine, pc) {
            Ok(Progress::Running(after, _)) => after.settled() && (program.assigns_no_field() && backed(
                machine.cells,
            ) ==> backed(after.cells)),
            Ok(Progress::Finished(after, _)) => positive_but(after.cells, None) && after.frames.len() == 0
                && (program.assigns_no_field() && backed(machine.cells) ==> backed(after.cells)),
            Err(_) => true,
        },
{
    if program.has_instruction(pc) {
        match program.instruction_at(pc) {
            InstructionView::EnterBlock => {},
            InstructionView::ExitBlock(result_variable) => {
                lemma_exit_block_calm(machine, result_variable);
            },
            InstructionView::Assignment { name, definition } => {
                lemma_eval_assignment_calm(machine, pc, name, definition);
                if program.assigns_no_field() {
                    let found = program.functions[pc.function_index as int].blocks[pc.block_index as int].instructions[pc.instruction_index as int];
                    assert(!(found matches InstructionView::Assignment {
                        definition: DefinitionView::SetField { .. },
                        ..
                    }));
                }
            },
        }
    }
}

/// Whether a run stands as exact counts have it: between two instructions
/// with a balanced and settled machine, or at the end with a balanced
/// machine without a stack in which every cell is referred to, or at a
/// fault that exact counts do not rule out. The values are backed if they
/// were and the program assigns no field.
pub open spec fn sound_progress(
    program: ProgramView,
    machine: Machine,
    outcome: Result<Progress, RuntimeFault>,
) -> bool {
    match outcome {
        Ok(Progress::Running(after, _)) => after.balanced(no_credits()) && after.settled() && (
        program.assigns_no_field() && backed(machine.cells) ==> backed(after.cells)),
        Ok(Progress::Finished(after, _)) => after.balanced(no_credits()) && positive_but(after.cells, None)
            && after.frames.len() == 0 && (program.assigns_no_field() && backed(machine.cells) ==> backed(
            after.cells,
        )),
        Err(fault) => crate::ir_let::interpreter::balance_laws::benign(fault),
    }
}

/// A run from a balanced and settled machine stands as exact counts have
/// it, whatever the program and the budget.
pub proof fn lemma_run_sound(program: ProgramView, machine: Machine, pc: TargetAddress, budget: nat)
    requires
        machine.balanced(no_credits()),
        machine.settled(),
    ensures
        sound_progress(program, machine, run(program, machine, pc, budget)),
    decreases budget,
{
    if budget > 0 {
        lemma_step_balanced(program, machine, pc);
        lemma_step_calm(program, machine, pc);
        if let Ok(Progress::Running(following, target)) = step(program, machine, pc) {
            lemma_run_sound(program, following, target, (budget - 1) as nat);
        }
    }
}

/// An instruction from a balanced and settled machine stands as exact
/// counts have it.
pub proof fn lemma_step_sound(program: ProgramView, machine: Machine, pc: TargetAddress)
    requires
        machine.balanced(no_credits()),
        machine.settled(),
    ensures
        sound_progress(program, machine, step(program, machine, pc)),
{
    lemma_step_balanced(program, machine, pc);
    lemma_step_calm(program, machine, pc);
}

/// When a program that assigns no field has ended, no cell is left: the
/// values that it built reached only earlier values, each was referred to
/// as often as its count said, and the last references went with the
/// locals of the outermost block.
pub proof fn lemma_run_reclaims(program: ProgramView, machine: Machine, pc: TargetAddress, budget: nat)
    requires
        program.assigns_no_field(),
        machine.balanced(no_credits()),
        machine.settled(),
        backed(machine.cells),
    ensures
        run(program, machine, pc, budget) matches Ok(Progress::Finished(after, _)) ==> after.cells
            == Cells::empty(),
{
    lemma_run_sound(program, machine, pc, budget);
    if let Ok(Progress::Finished(after, _)) = run(program, machine, pc, budget) {
        lemma_unheld_heap_is_empty(after, after.next_address.0 as int);
    }
}

/// The machine that a run starts with is settled, and holds no value.
pub proof fn lemma_initial_settled()
    ensures
        Machine::initial().settled(),
        backed(Machine::initial().cells),
{
    let frames = Machine::initial().frames;
    assert forall|i: int| 0 <= i < frames.len() implies (#[trigger] frames[i]).len() > 0 && forall|j: int|
        0 <= j < frames[i].len() && (#[trigger] frames[i][j]).return_info is None ==> i == 0 && j == 0 by {}
}

/// A run of a program that assigns no field, from the start to the end,
/// leaves the heap empty.
pub proof fn lemma_run_from_start_reclaims(program: ProgramView, pc: TargetAddress, budget: nat)
    requires
        program.assigns_no_field(),
    ensures
        run(program, Machine::initial(), pc, budget) matches Ok(Progress::Finished(after, _)) ==> after.cells
            == Cells::empty(),
{
    lemma_initial_balanced();
    lemma_initial_settled();
    lemma_run_reclaims(program, Machine::initial(), pc, budget);
}

/// An address that the heap holds is held by the value of some live cell.
pub proof fn lemma_incoming_has_holder(cells: Cells, address: HeapAddress, limit: int)
    requires
        incoming_below(cells, address, limit) >= 1,
    ensures
        exists|holder: HeapAddress|
            cells.contains_key(holder) && (#[trigger] cells[holder]).value.references().contains(address),
    decreases limit,
{
    if limit > 0 {
        let held = references_at(cells, limit - 1);
        if count_in(held, address) >= 1 {
            lemma_member_of_count(held, address);
            let holder = HeapAddress((limit - 1) as u32);
            assert(cells.contains_key(holder) && cells[holder].value.references().contains(address));
        } else {
            lemma_incoming_has_holder(cells, address, limit - 1);
        }
    }
}

/// When a program has ended, whatever it was, every cell that is left is
/// held by the value of a cell that is left: only values that reach
/// themselves, through field assignments, are not reclaimed.
pub proof fn lemma_run_leaves_only_held_cells(
    program: ProgramView,
    machine: Machine,
    pc: TargetAddress,
    budget: nat,
)
    requires
        machine.balanced(no_credits()),
        machine.settled(),
    ensures
        run(program, machine, pc, budget) matches Ok(Progress::Finished(after, _)) ==> only_held_cells(
            after.cells,
        ),
{
    lemma_run_sound(program, machine, pc, budget);
    if let Ok(Progress::Finished(after, _)) = run(program, machine, pc, budget) {
        lemma_unreferenced_stack_leaves_held_cells(after);
    }
}

/// Whether every cell is held by the value of a cell.
pub open spec fn only_held_cells(cells: Cells) -> bool {
    forall|address: HeapAddress|
        cells.contains_key(address) ==> exists|holder: HeapAddress|
            cells.contains_key(holder) && (#[trigger] cells[holder]).value.references().contains(address)
}

/// In a balanced machine without a stack in which every cell is referred
/// to, every cell is held by the value of a cell.
pub proof fn lemma_unreferenced_stack_leaves_held_cells(machine: Machine)
    requires
        machine.balanced(no_credits()),
        positive_but(machine.cells, None),
        machine.frames.len() == 0,
    ensures
        only_held_cells(machine.cells),
{
    assert forall|address: HeapAddress| machine.cells.contains_key(address) implies exists|
        holder: HeapAddress,
    |
        machine.cells.contains_key(holder) && (#[trigger] machine.cells[holder]).value.references().contains(
            address,
        ) by {
        assert(machine.cells[address].refcount >= 1);
        assert(machine.references_to(no_credits(), address) >= 1);
        assert(stack_count(machine.frames, address) == 0);
        lemma_incoming_has_holder(machine.cells, address, machine.next_address.0 as int);
    }
}

} // verus!
