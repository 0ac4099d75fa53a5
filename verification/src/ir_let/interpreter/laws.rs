//! What holds of every run of the abstract machine.

use vstd::prelude::*;
use crate::fault::RuntimeFault;
use crate::heap_value::{HeapAddress, HeapValueView};
use crate::ir_let::interpreter::machine::{Machine, Progress, run, step};
use crate::ir_let::let_expr::{DefinitionView, InstructionView, ProgramView, TargetAddress};
use crate::stack::ReturnInfoView;
use crate::syntax::{BinOp, Name};

verus! {

/// A run that has ended, with a result or with a fault, ends the same way on
/// any larger budget.
pub proof fn lemma_run_ends_once(
    program: ProgramView,
    machine: Machine,
    pc: TargetAddress,
    budget: nat,
    larger: nat,
)
    requires
        budget <= larger,
        !(run(program, machine, pc, budget) matches Ok(Progress::Running(_, _))),
    ensures
        run(program, machine, pc, larger) == run(program, machine, pc, budget),
    decreases budget,
{
    if budget > 0 {
        if let Ok(Progress::Running(following, target)) = step(program, machine, pc) {
            lemma_run_ends_once(program, following, target, (budget - 1) as nat, (larger - 1) as nat);
        }
    }
}

/// Interpreting a program again gives the same result: two runs from the
/// same state that both end, on whatever budgets, end with the same value in
/// the same machine, or with the same fault. This holds of every program,
/// with or without field assignments.
pub proof fn lemma_run_deterministic(
    program: ProgramView,
    machine: Machine,
    pc: TargetAddress,
    first_budget: nat,
    second_budget: nat,
)
    requires
        !(run(program, machine, pc, first_budget) matches Ok(Progress::Running(_, _))),
        !(run(program, machine, pc, second_budget) matches Ok(Progress::Running(_, _))),
    ensures
        run(program, machine, pc, first_budget) == run(program, machine, pc, second_budget),
{
    if first_budget <= second_budget {
        lemma_run_ends_once(program, machine, pc, first_budget, second_budget);
    } else {
        lemma_run_ends_once(program, machine, pc, second_budget, first_budget);
    }
}

/// A run on a budget split in two is the run on the first part, followed by
/// the run on the second part from where the first stopped.
pub proof fn lemma_run_resumes(
    program: ProgramView,
    machine: Machine,
    pc: TargetAddress,
    first_budget: nat,
    second_budget: nat,
)
    ensures
        run(program, machine, pc, first_budget + second_budget) == (match run(
            program,
            machine,
            pc,
            first_budget,
        ) {
            Ok(Progress::Running(following, target)) => run(program, following, target, second_budget),
            ended => ended,
        }),
    decreases first_budget,
{
    if first_budget > 0 {
        if let Ok(Progress::Running(following, target)) = step(program, machine, pc) {
            lemma_run_resumes(program, following, target, (first_budget - 1) as nat, second_budget);
            assert((first_budget + second_budget - 1) as nat == (first_budget - 1) as nat + second_budget);
        }
    }
}

/// Reading a tuple at its length is a fault; reading its last field is not.
pub proof fn lemma_get_bounds(machine: Machine, tuple: HeapAddress, index: HeapAddress)
    requires
        machine.tuple_at(tuple) is Ok,
        machine.int_at(index) is Ok,
    ensures
        machine.int_at(index)->Ok_0 == machine.tuple_at(tuple)->Ok_0.len() ==> machine.eval_binop(
            BinOp::Get,
            tuple,
            index,
        ) == Err::<(Machine, HeapAddress), RuntimeFault>(RuntimeFault::IndexOutOfRange),
        machine.int_at(index)->Ok_0 == machine.tuple_at(tuple)->Ok_0.len() - 1 && machine.tuple_at(
            tuple,
        )->Ok_0.len() > 0 ==> machine.eval_binop(BinOp::Get, tuple, index) == Ok::<
            (Machine, HeapAddress),
            RuntimeFault,
        >((machine, machine.tuple_at(tuple)->Ok_0.last())),
{
}

/// Equality compares integers only: on any other live value it is a type
/// fault, and where it yields a result both operands are integers.
pub proof fn lemma_eq_reads_integers(machine: Machine, lhs: HeapAddress, rhs: HeapAddress)
    ensures
        machine.eval_binop(BinOp::Eq, lhs, rhs) is Ok ==> machine.cells[lhs].value is Int
            && machine.cells[rhs].value is Int,
        machine.cells.contains_key(lhs) && !(machine.cells[lhs].value is Int) ==> machine.eval_binop(
            BinOp::Eq,
            lhs,
            rhs,
        ) == Err::<(Machine, HeapAddress), RuntimeFault>(RuntimeFault::TypeMismatch),
        machine.int_at(lhs) is Ok && machine.cells.contains_key(rhs) && !(machine.cells[rhs].value is Int)
            ==> machine.eval_binop(BinOp::Eq, lhs, rhs) == Err::<(Machine, HeapAddress), RuntimeFault>(
            RuntimeFault::TypeMismatch,
        ),
{
}

/// Writing to a field the value that it holds leaves that value's cell as
/// it was: alive, with the same count.
pub proof fn lemma_set_field_to_itself(machine: Machine, tuple: Name, index: u32, new_value: Name)
    requires
        machine.wf(),
        machine.next_address.0 < u32::MAX,
        machine.lookup(tuple) is Ok,
        machine.lookup(new_value) is Ok,
        machine.tuple_at(machine.lookup(tuple)->Ok_0) is Ok,
        index < machine.tuple_at(machine.lookup(tuple)->Ok_0)->Ok_0.len(),
        machine.tuple_at(machine.lookup(tuple)->Ok_0)->Ok_0[index as int] == machine.lookup(
            new_value,
        )->Ok_0,
        machine.cells.contains_key(machine.lookup(new_value)->Ok_0),
        1 <= machine.cells[machine.lookup(new_value)->Ok_0].refcount < u32::MAX,
    ensures
        machine.eval_set_field(tuple, index, new_value) matches Ok((after, _)) && after.cells.contains_key(
            machine.lookup(new_value)->Ok_0,
        ) && after.cells[machine.lookup(new_value)->Ok_0] == machine.cells[machine.lookup(
            new_value,
        )->Ok_0],
{
    let tuple_address = machine.lookup(tuple)->Ok_0;
    let new_address = machine.lookup(new_value)->Ok_0;
    let fields = machine.tuple_at(tuple_address)->Ok_0;
    assert(fields.update(index as int, new_address) =~= fields);
    let written = machine.with_cells(
        machine.cells.insert(
            tuple_address,
            crate::heap_value::CellView {
                refcount: machine.cells[tuple_address].refcount,
                value: HeapValueView::Tuple(fields.update(index as int, new_address)),
            },
        ),
    );
    assert(written.cells =~= machine.cells);
    let retained = written.retain(new_address)->Ok_0;
    assert(retained.cells[new_address].refcount == machine.cells[new_address].refcount + 1);
    let released = retained.release(new_address)->Ok_0;
    assert(released.cells =~= machine.cells);
}

/// A closure without parameters and without captured values can be called
/// with no arguments: execution goes on at its body, in a new call frame
/// that binds the closure's own name.
pub proof fn lemma_call_without_arguments(machine: Machine, func: Name, return_info: ReturnInfoView)
    requires
        machine.lookup(func) is Ok,
        machine.closure_at(machine.lookup(func)->Ok_0) is Ok,
        machine.closure_at(machine.lookup(func)->Ok_0)->Ok_0.arg_names.len() == 0,
        machine.closure_at(machine.lookup(func)->Ok_0)->Ok_0.environment.len() == 0,
        machine.cells[machine.lookup(func)->Ok_0].refcount < u32::MAX,
    ensures
        machine.eval_call(func, Seq::empty(), return_info) matches Ok((after, target)) && target
            == machine.closure_at(machine.lookup(func)->Ok_0)->Ok_0.body && after.frames.len()
            == machine.frames.len() + 1 && after.lookup(
            machine.closure_at(machine.lookup(func)->Ok_0)->Ok_0.name,
        ) == Ok::<HeapAddress, RuntimeFault>(machine.lookup(func)->Ok_0),
{
    let closure_address = machine.lookup(func)->Ok_0;
    let closure = machine.closure_at(closure_address)->Ok_0;
    assert(machine.lookup_all(Seq::<Name>::empty()) == Ok::<Seq<HeapAddress>, RuntimeFault>(Seq::empty()));
    let entered = machine.with_frames(
        machine.frames.push(seq![crate::stack::BlockFrameView::fresh(Some(return_info))]),
    );
    assert(crate::ir_let::interpreter::machine::pair_up(closure.arg_names, Seq::<HeapAddress>::empty())
        =~= Seq::empty());
    assert(entered.bind_each(closure.environment) == Ok::<Machine, RuntimeFault>(entered));
    assert(entered.bind_each(Seq::empty()) == Ok::<Machine, RuntimeFault>(entered));
    let after = entered.bind(closure.name, closure_address)->Ok_0;
    let frame = after.frames.last().last();
    assert(frame.variable_names.last() == closure.name);
    assert(frame.lookup(closure.name) == Some(closure_address));
}

/// Binding names hands out no address.
pub proof fn lemma_bind_each_keeps_next_address(machine: Machine, bindings: Seq<(Name, HeapAddress)>)
    ensures
        machine.bind_each(bindings) matches Ok(after) ==> after.next_address == machine.next_address,
    decreases bindings.len(),
{
    if bindings.len() > 0 {
        if let Ok(bound) = machine.bind(bindings[0].0, bindings[0].1) {
            lemma_bind_each_keeps_next_address(bound, bindings.drop_first());
        }
    }
}

/// Retaining cells hands out no address.
pub proof fn lemma_retain_all_keeps_next_address(machine: Machine, addresses: Seq<HeapAddress>)
    ensures
        machine.retain_all(addresses) matches Ok(after) ==> after.next_address == machine.next_address,
    decreases addresses.len(),
{
    if addresses.len() > 0 {
        if let Ok(retained) = machine.retain(addresses[0]) {
            lemma_retain_all_keeps_next_address(retained, addresses.drop_first());
        }
    }
}

/// No address is handed out twice: an instruction never lowers the address
/// that the next allocation returns, and every live cell lies below it, so
/// that an address that was freed does not come back.
pub proof fn lemma_step_never_reuses_addresses(program: ProgramView, machine: Machine, pc: TargetAddress)
    ensures
        match step(program, machine, pc) {
            Ok(Progress::Running(after, _)) => after.next_address.0 >= machine.next_address.0,
            Ok(Progress::Finished(after, _)) => after.next_address.0 >= machine.next_address.0,
            Err(_) => true,
        },
{
    if program.has_instruction(pc) {
        match program.instruction_at(pc) {
            InstructionView::EnterBlock => {},
            InstructionView::ExitBlock(_) => {},
            InstructionView::Assignment { name, definition } => match definition {
                DefinitionView::Call { func, args } => {
                    if let Ok(closure_address) = machine.lookup(func) {
                        if let Ok(arg_values) = machine.lookup_all(args) {
                            if let Ok(closure) = machine.closure_at(closure_address) {
                                let entered = machine.with_frames(
                                    machine.frames.push(
                                        seq![
                                            crate::stack::BlockFrameView::fresh(
                                                Some(
                                                    ReturnInfoView {
                                                        result_variable: name,
                                                        return_address: pc.successor(),
                                                    },
                                                ),
                                            ),
                                        ],
                                    ),
                                );
                                lemma_bind_each_keeps_next_address(entered, closure.environment);
                                if let Ok(captured) = entered.bind_each(closure.environment) {
                                    lemma_bind_each_keeps_next_address(
                                        captured,
                                        crate::ir_let::interpreter::machine::pair_up(
                                            closure.arg_names,
                                            arg_values,
                                        ),
                                    );
                                }
                            }
                        }
                    }
                },
                DefinitionView::Tuple { args } => {
                    if let Ok(found) = machine.lookup_all(args) {
                        lemma_retain_all_keeps_next_address(machine, found);
                    }
                },
                DefinitionView::Fun(function) => {
                    if let Ok(captured) = machine.lookup_all(function.free_names) {
                        lemma_retain_all_keeps_next_address(machine, captured);
                    }
                },
                _ => {},
            },
        }
    }
}

} // verus!
