//! The interpreter: a loop over instructions, with no recursion on the host
//! stack. Every function here does what the abstract machine says.

use vstd::prelude::*;
use crate::fault::RuntimeFault;
use crate::heap::Heap;
use crate::heap_value::{Closure, HeapAddress, HeapValue, Tuple, clone_names, environment_view};
use crate::heap::Cells;
use crate::ir_let::interpreter::balance::no_credits;
use crate::ir_let::interpreter::balance_laws::{benign, lemma_initial_balanced};
use crate::ir_let::interpreter::environment_laws::{
    environments_distinct, lemma_initial_environments_distinct, lemma_run_keeps_environments,
    lemma_step_keeps_environments, progress_keeps_environments,
};
use crate::ir_let::interpreter::machine::{Machine, Progress, pair_up};
use crate::ir_let::interpreter::reclaim_laws::{
    backed, lemma_initial_settled, lemma_run_leaves_only_held_cells, lemma_run_reclaims,
    lemma_run_sound, lemma_step_sound, lemma_unheld_heap_is_empty,
    lemma_unreferenced_stack_leaves_held_cells, only_held_cells,
};
use crate::ir_let::let_expr::{
    AllocClosure, Assignment, Control, Definition, Instruction, Program, ProgramView, Simple, Step,
    TargetAddress, VariableReference,
};
use crate::stack::{ReturnInfo, Stack};
use crate::syntax::{BinOp, Constant, views};

verus! {

/// Whether a run ended as the machine says: with the same fault, or in the
/// same machine, well formed, with the same result.
pub open spec fn yields<T>(
    outcome: Result<T, RuntimeFault>,
    after: Machine,
    expected: Result<(Machine, T), RuntimeFault>,
) -> bool {
    match expected {
        Ok((machine, value)) => outcome == Ok::<T, RuntimeFault>(value) && after == machine && machine.wf(),
        Err(fault) => outcome == Err::<T, RuntimeFault>(fault),
    }
}

/// Like `yields`, for an operation that computes nothing.
pub open spec fn leads_to(
    outcome: Result<(), RuntimeFault>,
    after: Machine,
    expected: Result<Machine, RuntimeFault>,
) -> bool {
    match expected {
        Ok(machine) => outcome is Ok && after == machine && machine.wf(),
        Err(fault) => outcome == Err::<(), RuntimeFault>(fault),
    }
}

/// How a block ended.
#[derive(Debug)]
pub enum BlockExit {
    /// It was the outermost block: the program's result.
    Return(HeapValue),
    /// Its result was stored below; execution resumes at the address.
    Resume(TargetAddress),
}

#[derive(Debug)]
pub struct InstructionEvaluator {
    heap: Heap,
    stack: Stack,
}

impl View for InstructionEvaluator {
    type V = Machine;

    closed spec fn view(&self) -> Machine {
        Machine { cells: self.heap@, next_address: self.heap.next_address(), frames: self.stack@ }
    }
}

impl InstructionEvaluator {
    pub fn new() -> (evaluator: Self)
        ensures
            evaluator@ == Machine::initial(),
            evaluator@.wf(),
    {
        InstructionEvaluator { heap: Heap::new(), stack: Stack::new() }
    }

    pub fn heap(&self) -> (heap: &Heap)
        ensures
            heap@ == self@.cells,
            heap.next_address() == self@.next_address,
    {
        &self.heap
    }

    pub fn stack(&self) -> (stack: &Stack)
        ensures
            stack@ == self@.frames,
    {
        &self.stack
    }

    fn allocate(&mut self, value: HeapValue) -> (outcome: Result<HeapAddress, RuntimeFault>)
        requires
            old(self)@.wf(),
        ensures
            yields(outcome, final(self)@, old(self)@.allocate(value@)),
    {
        if !self.heap.has_room() {
            return Err(RuntimeFault::AddressSpaceExhausted);
        }
        Ok(self.heap.allocate(value))
    }

    fn retain(&mut self, address: HeapAddress) -> (outcome: Result<(), RuntimeFault>)
        requires
            old(self)@.wf(),
        ensures
            leads_to(outcome, final(self)@, old(self)@.retain(address)),
    {
        if !self.heap.contains(address) {
            return Err(RuntimeFault::InvalidAddress);
        }
        if self.heap.refcount(address) == u32::MAX {
            return Err(RuntimeFault::RefcountOverflow);
        }
        self.heap.inc_refcount(address);
        Ok(())
    }

    fn retain_all(&mut self, addresses: &Vec<HeapAddress>) -> (outcome: Result<(), RuntimeFault>)
        requires
            old(self)@.wf(),
        ensures
            leads_to(outcome, final(self)@, old(self)@.retain_all(addresses@)),
    {
        assert(addresses@.subrange(0, addresses.len() as int) =~= addresses@);
        let mut i: usize = 0;
        while i < addresses.len()
            invariant
                i <= addresses.len(),
                self@.wf(),
                self@.retain_all(addresses@.subrange(i as int, addresses.len() as int)) == old(
                    self,
                )@.retain_all(addresses@),
            decreases addresses.len() - i,
        {
            let ghost rest = addresses@.subrange(i as int, addresses.len() as int);
            assert(rest[0] == addresses@[i as int]);
            assert(rest.drop_first() =~= addresses@.subrange(i + 1, addresses.len() as int));
            self.retain(addresses[i])?;
            i += 1;
        }
        Ok(())
    }

    fn release(&mut self, address: HeapAddress) -> (outcome: Result<(), RuntimeFault>)
        requires
            old(self)@.wf(),
        ensures
            leads_to(outcome, final(self)@, old(self)@.release(address)),
    {
        self.heap.dec_refcount(address)
    }

    fn release_all(&mut self, addresses: &Vec<HeapAddress>) -> (outcome: Result<(), RuntimeFault>)
        requires
            old(self)@.wf(),
        ensures
            leads_to(outcome, final(self)@, old(self)@.release_all(addresses@)),
    {
        assert(addresses@.subrange(0, addresses.len() as int) =~= addresses@);
        let mut i: usize = 0;
        while i < addresses.len()
            invariant
                i <= addresses.len(),
                self@.wf(),
                self@.frames == old(self)@.frames,
                self@.next_address == old(self)@.next_address,
                crate::heap::release_all(
                    self@.cells,
                    addresses@.subrange(i as int, addresses.len() as int),
                ) == crate::heap::release_all(old(self)@.cells, addresses@),
            decreases addresses.len() - i,
        {
            let ghost rest = addresses@.subrange(i as int, addresses.len() as int);
            let ghost before = self@.cells;
            assert(rest[0] == addresses@[i as int]);
            assert(rest.drop_first() =~= addresses@.subrange(i + 1, addresses.len() as int));
            self.heap.dec_refcount(addresses[i])?;
            proof {
                vstd::set_lib::lemma_len_subset(self@.cells.dom(), before.dom());
            }
            i += 1;
        }
        Ok(())
    }

    pub fn set_var(&mut self, name: String, address: HeapAddress) -> (outcome: Result<(), RuntimeFault>)
        requires
            old(self)@.wf(),
        ensures
            leads_to(outcome, final(self)@, old(self)@.bind(name@, address)),
    {
        self.retain(address)?;
        if self.stack.depth() == 0 {
            return Err(RuntimeFault::EmptyStack);
        }
        self.stack.set_var_no_refcount(name, address);
        Ok(())
    }

    fn bind_each(&mut self, bindings: &Vec<(String, HeapAddress)>) -> (outcome: Result<(), RuntimeFault>)
        requires
            old(self)@.wf(),
        ensures
            leads_to(outcome, final(self)@, old(self)@.bind_each(environment_view(bindings@))),
    {
        let ghost all = environment_view(bindings@);
        assert(all.subrange(0, all.len() as int) =~= all);
        let mut i: usize = 0;
        while i < bindings.len()
            invariant
                i <= bindings.len(),
                all == environment_view(bindings@),
                self@.wf(),
                self@.bind_each(all.subrange(i as int, all.len() as int)) == old(self)@.bind_each(all),
            decreases bindings.len() - i,
        {
            let ghost rest = all.subrange(i as int, all.len() as int);
            assert(rest[0] == all[i as int]);
            assert(rest.drop_first() =~= all.subrange(i + 1, all.len() as int));
            self.set_var(bindings[i].0.clone(), bindings[i].1)?;
            i += 1;
        }
        Ok(())
    }

    fn lookup_name(&self, name: &String) -> (outcome: Result<HeapAddress, RuntimeFault>)
        requires
            self@.wf(),
        ensures
            outcome == self@.lookup(name@),
    {
        if self.stack.depth() == 0 {
            return Err(RuntimeFault::EmptyStack);
        }
        match self.stack.find_var(name) {
            Some(address) => Ok(address),
            None => Err(RuntimeFault::UnboundVariable),
        }
    }

    pub fn eval_var(&self, e: &VariableReference) -> (outcome: Result<HeapAddress, RuntimeFault>)
        requires
            self@.wf(),
        ensures
            outcome == self@.lookup(e@),
    {
        self.lookup_name(&e.var_name)
    }

    fn resolve_all(&self, args: &Vec<VariableReference>) -> (outcome: Result<Vec<HeapAddress>, RuntimeFault>)
        requires
            self@.wf(),
        ensures
            match self@.lookup_all(views(args@)) {
                Ok(found) => outcome matches Ok(values) && values@ == found && found.len() == args.len(),
                Err(fault) => outcome == Err::<Vec<HeapAddress>, RuntimeFault>(fault),
            },
    {
        let ghost names = views(args@);
        let mut values: Vec<HeapAddress> = Vec::new();
        let mut i: usize = 0;
        while i < args.len()
            invariant
                i <= args.len(),
                values.len() == i,
                names == views(args@),
                self@.wf(),
                self@.lookup_from(names, i as int, values@) == self@.lookup_all(names),
            decreases args.len() - i,
        {
            let address = self.eval_var(&args[i])?;
            values.push(address);
            i += 1;
        }
        Ok(values)
    }

    fn resolve_names(&self, names: &Vec<String>) -> (outcome: Result<Vec<HeapAddress>, RuntimeFault>)
        requires
            self@.wf(),
        ensures
            match self@.lookup_all(views(names@)) {
                Ok(found) => outcome matches Ok(values) && values@ == found && found.len() == names.len(),
                Err(fault) => outcome == Err::<Vec<HeapAddress>, RuntimeFault>(fault),
            },
    {
        let ghost all = views(names@);
        let mut values: Vec<HeapAddress> = Vec::new();
        let mut i: usize = 0;
        while i < names.len()
            invariant
                i <= names.len(),
                values.len() == i,
                all == views(names@),
                self@.wf(),
                self@.lookup_from(all, i as int, values@) == self@.lookup_all(all),
            decreases names.len() - i,
        {
            let address = self.lookup_name(&names[i])?;
            values.push(address);
            i += 1;
        }
        Ok(values)
    }

    fn read_int(&self, address: HeapAddress) -> (outcome: Result<i32, RuntimeFault>)
        ensures
            outcome == self@.int_at(address),
    {
        if !self.heap.contains(address) {
            return Err(RuntimeFault::InvalidAddress);
        }
        match self.heap.deref(address) {
            HeapValue::Int(value) => Ok(*value),
            _ => Err(RuntimeFault::TypeMismatch),
        }
    }

    fn read_bool(&self, address: HeapAddress) -> (outcome: Result<bool, RuntimeFault>)
        ensures
            outcome == self@.bool_at(address),
    {
        if !self.heap.contains(address) {
            return Err(RuntimeFault::InvalidAddress);
        }
        match self.heap.deref(address) {
            HeapValue::Bool(value) => Ok(*value),
            _ => Err(RuntimeFault::TypeMismatch),
        }
    }

    fn read_tuple(&self, address: HeapAddress) -> (outcome: Result<&Tuple, RuntimeFault>)
        ensures
            match self@.tuple_at(address) {
                Ok(fields) => outcome matches Ok(tuple) && tuple.field_values@ == fields,
                Err(fault) => outcome == Err::<&Tuple, RuntimeFault>(fault),
            },
    {
        if !self.heap.contains(address) {
            return Err(RuntimeFault::InvalidAddress);
        }
        match self.heap.deref(address) {
            HeapValue::Tuple(tuple) => Ok(tuple),
            _ => Err(RuntimeFault::TypeMismatch),
        }
    }

    fn read_closure(&self, address: HeapAddress) -> (outcome: Result<&Closure, RuntimeFault>)
        ensures
            match self@.closure_at(address) {
                Ok(closure) => outcome matches Ok(found) && found@ == closure,
                Err(fault) => outcome == Err::<&Closure, RuntimeFault>(fault),
            },
    {
        if !self.heap.contains(address) {
            return Err(RuntimeFault::InvalidAddress);
        }
        match self.heap.deref(address) {
            HeapValue::Closure(closure) => Ok(closure),
            _ => Err(RuntimeFault::TypeMismatch),
        }
    }

    pub fn eval_binop(&mut self, op: BinOp, lhs_addr: HeapAddress, rhs_addr: HeapAddress) -> (outcome: Result<
        HeapAddress,
        RuntimeFault,
    >)
        requires
            old(self)@.wf(),
        ensures
            yields(outcome, final(self)@, old(self)@.eval_binop(op, lhs_addr, rhs_addr)),
    {
        match op {
            BinOp::Add => {
                let lhs_value = self.read_int(lhs_addr)?;
                let rhs_value = self.read_int(rhs_addr)?;
                match lhs_value.checked_add(rhs_value) {
                    Some(sum) => self.allocate(HeapValue::Int(sum)),
                    None => Err(RuntimeFault::ArithmeticOverflow),
                }
            },
            BinOp::Sub => {
                let lhs_value = self.read_int(lhs_addr)?;
                let rhs_value = self.read_int(rhs_addr)?;
                match lhs_value.checked_sub(rhs_value) {
                    Some(difference) => self.allocate(HeapValue::Int(difference)),
                    None => Err(RuntimeFault::ArithmeticOverflow),
                }
            },
            BinOp::Eq => {
                let lhs_value = self.read_int(lhs_addr)?;
                let rhs_value = self.read_int(rhs_addr)?;
                self.allocate(HeapValue::Bool(lhs_value == rhs_value))
            },
            BinOp::Get => {
                let tuple = self.read_tuple(lhs_addr)?;
                let index = self.read_int(rhs_addr)?;
                if index < 0 || index as usize >= tuple.field_values.len() {
                    return Err(RuntimeFault::IndexOutOfRange);
                }
                Ok(tuple.field_values[index as usize])
            },
        }
    }

    pub fn eval_simple(&mut self, e: &Simple) -> (outcome: Result<HeapAddress, RuntimeFault>)
        requires
            old(self)@.wf(),
        ensures
            yields(outcome, final(self)@, old(self)@.eval_simple(e@)),
    {
        match e {
            Simple::Literal(Constant::Int { value }) => self.allocate(HeapValue::Int(*value)),
            Simple::Literal(Constant::Bool { value }) => self.allocate(HeapValue::Bool(*value)),
            Simple::Tuple { args } => {
                let field_values = self.resolve_all(args)?;
                self.retain_all(&field_values)?;
                self.allocate(HeapValue::Tuple(Tuple { field_values }))
            },
            Simple::Fun(AllocClosure { name, arg_names, free_names, body }) => {
                let captured = self.resolve_names(free_names)?;
                self.retain_all(&captured)?;
                let environment = pair_names(free_names, &captured);
                self.allocate(
                    HeapValue::Closure(
                        Closure {
                            name: name.clone(),
                            arg_names: clone_names(arg_names),
                            environment,
                            body: *body,
                        },
                    ),
                )
            },
            Simple::BinOp { op, lhs, rhs } => {
                let lhs_address = self.eval_var(lhs)?;
                let rhs_address = self.eval_var(rhs)?;
                self.eval_binop(*op, lhs_address, rhs_address)
            },
            Simple::SetField { tuple, index, new_value } => {
                let tuple_address = self.eval_var(tuple)?;
                let new_address = self.eval_var(new_value)?;
                let field_count = self.read_tuple(tuple_address)?.field_values.len();
                if *index as usize >= field_count {
                    return Err(RuntimeFault::IndexOutOfRange);
                }
                let fields = self.heap.deref_mut(tuple_address).check_tuple_mut();
                let old_address = fields.field_values[*index as usize];
                fields.field_values[*index as usize] = new_address;
                // The new value is retained before the old one is released:
                // they may be the same cell, which must survive.
                self.retain(new_address)?;
                self.release(old_address)?;
                self.allocate(HeapValue::Tuple(Tuple { field_values: Vec::new() }))
            },
        }
    }

    pub fn eval_control(&mut self, control: &Control, return_info: ReturnInfo) -> (outcome: Result<
        TargetAddress,
        RuntimeFault,
    >)
        requires
            old(self)@.wf(),
        ensures
            yields(outcome, final(self)@, old(self)@.eval_control(control@, return_info@)),
    {
        match control {
            Control::Call { func, args } => {
                let closure_address = self.eval_var(func)?;
                let arg_values = self.resolve_all(args)?;
                let closure = self.read_closure(closure_address)?.clone();
                if closure.arg_names.len() != args.len() {
                    return Err(RuntimeFault::ArityMismatch);
                }
                self.stack.enter_function(return_info);
                self.bind_each(&closure.environment)?;
                let passed = pair_names(&closure.arg_names, &arg_values);
                self.bind_each(&passed)?;
                // The closure is bound under its own name, so that the
                // function can call itself.
                self.set_var(closure.name.clone(), closure_address)?;
                Ok(closure.body)
            },
            Control::If { condition, branch_success, branch_failure } => {
                let condition_address = self.eval_var(condition)?;
                let condition_value = self.read_bool(condition_address)?;
                self.stack.enter_block(return_info);
                if condition_value {
                    Ok(*branch_success)
                } else {
                    Ok(*branch_failure)
                }
            },
        }
    }

    pub fn eval_instruction(&mut self, address: TargetAddress, instruction: &Assignment) -> (outcome: Result<
        TargetAddress,
        RuntimeFault,
    >)
        requires
            old(self)@.wf(),
            address.instruction_index < usize::MAX,
        ensures
            yields(
                outcome,
                final(self)@,
                old(self)@.eval_assignment(address, instruction.name@, instruction.definition@),
            ),
    {
        match &instruction.definition {
            Definition::Var(var) => {
                let value = self.eval_var(var)?;
                self.set_var(instruction.name.clone(), value)?;
                Ok(address.next())
            },
            Definition::Step(Step::Simple(simple)) => {
                let value = self.eval_simple(simple)?;
                self.set_var(instruction.name.clone(), value)?;
                Ok(address.next())
            },
            Definition::Step(Step::Control(control)) => {
                let return_info = ReturnInfo {
                    result_variable: instruction.name.clone(),
                    return_address: address.next(),
                };
                self.eval_control(control, return_info)
            },
        }
    }

    /// Ends the innermost block, whose result is the value of `return_var`.
    pub fn exit_block(&mut self, return_var: &VariableReference) -> (outcome: Result<BlockExit, RuntimeFault>)
        requires
            old(self)@.wf(),
        ensures
            match old(self)@.exit_block(return_var@) {
                Err(fault) => outcome == Err::<BlockExit, RuntimeFault>(fault),
                Ok(Progress::Running(machine, target)) => outcome matches Ok(BlockExit::Resume(resumed))
                    && resumed == target && final(self)@ == machine && machine.wf(),
                Ok(Progress::Finished(machine, value)) => outcome matches Ok(BlockExit::Return(result))
                    && result@ == value && final(self)@ == machine && machine.wf(),
            },
    {
        if self.stack.depth() == 0 {
            return Err(RuntimeFault::EmptyStack);
        }
        // The result is looked up before the block's frame goes: it may be a
        // local of the block or of a block around it.
        let return_value = match self.stack.find_var(&return_var.var_name) {
            Some(address) => address,
            None => {
                return Err(RuntimeFault::UnboundVariable);
            },
        };
        let block = self.stack.exit_block();
        match block.return_info {
            None => {
                if !self.heap.contains(return_value) {
                    return Err(RuntimeFault::InvalidAddress);
                }
                let result = self.heap.deref(return_value).clone();
                self.release_all(&block.values)?;
                Ok(BlockExit::Return(result))
            },
            Some(return_info) => {
                // The result is stored below before the locals are released:
                // it may be one of them, and storing it keeps it alive.
                self.set_var(return_info.result_variable, return_value)?;
                self.release_all(&block.values)?;
                Ok(BlockExit::Resume(return_info.return_address))
            },
        }
    }
}

/// The names of `names` paired with the addresses of `values`.
fn pair_names(names: &Vec<String>, values: &Vec<HeapAddress>) -> (bindings: Vec<(String, HeapAddress)>)
    requires
        names.len() == values.len(),
    ensures
        environment_view(bindings@) == pair_up(views(names@), values@),
{
    let mut bindings: Vec<(String, HeapAddress)> = Vec::new();
    let mut i: usize = 0;
    while i < names.len()
        invariant
            i <= names.len(),
            names.len() == values.len(),
            bindings.len() == i,
            forall|k: int|
                #![trigger bindings[k]]
                0 <= k < i ==> bindings[k].0@ == names[k]@ && bindings[k].1 == values[k],
        decreases names.len() - i,
    {
        let name = names[i].clone();
        bindings.push((name, values[i]));
        i += 1;
    }
    assert(environment_view(bindings@) =~= pair_up(views(names@), values@));
    bindings
}

#[derive(Debug)]
pub struct ProgramEvaluator {
    program: Program,
    instruction_evaluator: InstructionEvaluator,
    program_counter: TargetAddress,
}

impl ProgramEvaluator {
    /// The program that is run.
    pub closed spec fn program(&self) -> ProgramView {
        self.program@
    }

    /// Heap and stack as they stand.
    pub closed spec fn machine(&self) -> Machine {
        self.instruction_evaluator@
    }

    /// The address of the next instruction.
    pub closed spec fn pc(&self) -> TargetAddress {
        self.program_counter
    }

    /// Whether the counts of the heap are exact, every live cell is
    /// referred to, and the stack is rooted: what holds between any two
    /// instructions of a run from the start.
    pub open spec fn sound(&self) -> bool {
        self.machine().balanced(no_credits()) && self.machine().settled()
    }

    /// Whether the evaluator stands where the machine says, having computed
    /// what it says.
    pub open spec fn reached(
        &self,
        outcome: Result<Option<HeapValue>, RuntimeFault>,
        expected: Result<Progress, RuntimeFault>,
    ) -> bool {
        match expected {
            Err(fault) => outcome == Err::<Option<HeapValue>, RuntimeFault>(fault),
            Ok(Progress::Running(machine, target)) => {
                &&& outcome == Ok::<Option<HeapValue>, RuntimeFault>(None)
                &&& self.machine() == machine
                &&& self.pc() == target
                &&& machine.wf()
            },
            Ok(Progress::Finished(machine, value)) => {
                &&& outcome matches Ok(Some(result))
                &&& result@ == value
                &&& self.machine() == machine
                &&& machine.wf()
            },
        }
    }

    /// What a sound evaluator is left with: after an instruction that was
    /// not the last, a sound evaluator, whose values are backed if they
    /// were and the program assigns no field; after the last, a heap in
    /// which every cell is held by another, and which is empty if the
    /// values were backed and the program assigns no field; and no fault
    /// for an address that is not live or a count that would go below zero.
    pub open spec fn kept_sound(
        &self,
        before: Machine,
        outcome: Result<Option<HeapValue>, RuntimeFault>,
    ) -> bool {
        let pure = self.program().assigns_no_field() && backed(before.cells);
        match outcome {
            Ok(None) => self.sound() && (pure ==> backed(self.machine().cells)),
            Ok(Some(_)) => only_held_cells(self.machine().cells) && (pure ==> self.machine().cells
                == Cells::empty()),
            Err(fault) => benign(fault),
        }
    }

    /// The same of the machine's own progress.
    pub open spec fn progress_kept_sound(
        program: ProgramView,
        before: Machine,
        expected: Result<Progress, RuntimeFault>,
    ) -> bool {
        let pure = program.assigns_no_field() && backed(before.cells);
        match expected {
            Ok(Progress::Running(after, _)) => after.balanced(no_credits()) && after.settled() && (pure
                ==> backed(after.cells)),
            Ok(Progress::Finished(after, _)) => only_held_cells(after.cells) && (pure ==> after.cells
                == Cells::empty()),
            Err(fault) => benign(fault),
        }
    }

    /// Whether the environment of every closure on the heap holds no name
    /// twice, and that of the result too, if the run has ended with a
    /// closure.
    pub open spec fn environments_kept(&self, outcome: Result<Option<HeapValue>, RuntimeFault>) -> bool {
        match outcome {
            Ok(None) => environments_distinct(self.machine().cells),
            Ok(Some(result)) => environments_distinct(self.machine().cells) && (
            result@ matches crate::heap_value::HeapValueView::Closure(closure)
                ==> closure.environment_distinct()),
            Err(_) => true,
        }
    }

    pub fn new(program: Program) -> (evaluator: Self)
        ensures
            evaluator.program() == program@,
            evaluator.machine() == Machine::initial(),
            evaluator.machine().wf(),
            evaluator.sound(),
            backed(evaluator.machine().cells),
            environments_distinct(evaluator.machine().cells),
            evaluator.pc() == (TargetAddress { function_index: 0, block_index: 0, instruction_index: 0 }),
    {
        proof {
            lemma_initial_balanced();
            lemma_initial_settled();
            lemma_initial_environments_distinct();
        }
        ProgramEvaluator {
            program,
            instruction_evaluator: InstructionEvaluator::new(),
            program_counter: TargetAddress { function_index: 0, block_index: 0, instruction_index: 0 },
        }
    }

    /// The heap as it stands.
    pub fn heap(&self) -> (heap: &Heap)
        ensures
            heap@ == self.machine().cells,
            heap.next_address() == self.machine().next_address,
    {
        self.instruction_evaluator.heap()
    }

    /// Executes at most `budget` instructions. `Ok(Some(..))` is the
    /// program's result. `Ok(None)` says that the budget ran out first: the
    /// evaluator stands at the next instruction, and a further call goes on
    /// from there.
    ///
    /// From a sound evaluator the run stays sound: no address is used that
    /// is not live and no count goes below zero; when the program has
    /// ended, every cell that is left is held by another, and none is left
    /// if the program assigns no field. Where the program allocates no
    /// closure with a captured name twice, no closure of the run holds one
    /// twice.
    pub fn run(&mut self, budget: u64) -> (outcome: Result<Option<HeapValue>, RuntimeFault>)
        requires
            old(self).machine().wf(),
        ensures
            old(self).program().captures_distinct() && environments_distinct(old(self).machine().cells)
                ==> final(self).environments_kept(outcome),
            final(self).program() == old(self).program(),
            final(self).reached(
                outcome,
                crate::ir_let::interpreter::machine::run(
                    old(self).program(),
                    old(self).machine(),
                    old(self).pc(),
                    budget as nat,
                ),
            ),
            old(self).sound() ==> final(self).kept_sound(old(self).machine(), outcome),
    {
        proof {
            if self.program().captures_distinct() && environments_distinct(self.machine().cells) {
                lemma_run_keeps_environments(self.program(), self.machine(), self.pc(), budget as nat);
            }
            if self.sound() {
                lemma_run_sound(self.program(), self.machine(), self.pc(), budget as nat);
                lemma_run_leaves_only_held_cells(self.program(), self.machine(), self.pc(), budget as nat);
                if self.program().assigns_no_field() && backed(self.machine().cells) {
                    lemma_run_reclaims(self.program(), self.machine(), self.pc(), budget as nat);
                }
            }
        }
        let mut remaining: u64 = budget;
        while remaining > 0
            invariant
                self.machine().wf(),
                self.program() == old(self).program(),
                old(self).program().captures_distinct() && environments_distinct(old(self).machine().cells)
                    ==> progress_keeps_environments(
                    crate::ir_let::interpreter::machine::run(
                        old(self).program(),
                        old(self).machine(),
                        old(self).pc(),
                        budget as nat,
                    ),
                ),
                old(self).sound() ==> Self::progress_kept_sound(
                    old(self).program(),
                    old(self).machine(),
                    crate::ir_let::interpreter::machine::run(
                        old(self).program(),
                        old(self).machine(),
                        old(self).pc(),
                        budget as nat,
                    ),
                ),
                crate::ir_let::interpreter::machine::run(
                    self.program(),
                    self.machine(),
                    self.pc(),
                    remaining as nat,
                ) == crate::ir_let::interpreter::machine::run(
                    old(self).program(),
                    old(self).machine(),
                    old(self).pc(),
                    budget as nat,
                ),
            decreases remaining,
        {
            if let Some(result) = self.step()? {
                return Ok(Some(result));
            }
            remaining -= 1;
        }
        Ok(None)
    }

    /// Executes the instruction at the program counter. From a sound
    /// evaluator the step stays sound, and the environments stay in order,
    /// as in a run.
    pub fn step(&mut self) -> (outcome: Result<Option<HeapValue>, RuntimeFault>)
        requires
            old(self).machine().wf(),
        ensures
            old(self).program().captures_distinct() && environments_distinct(old(self).machine().cells)
                ==> final(self).environments_kept(outcome),
            final(self).program() == old(self).program(),
            final(self).reached(
                outcome,
                crate::ir_let::interpreter::machine::step(
                    old(self).program(),
                    old(self).machine(),
                    old(self).pc(),
                ),
            ),
            old(self).sound() ==> final(self).kept_sound(old(self).machine(), outcome),
    {
        proof {
            if self.program().captures_distinct() && environments_distinct(self.machine().cells) {
                lemma_step_keeps_environments(self.program(), self.machine(), self.pc());
            }
            if self.sound() {
                lemma_step_sound(self.program(), self.machine(), self.pc());
                if let Ok(Progress::Finished(after, _)) = crate::ir_let::interpreter::machine::step(
                    self.program(),
                    self.machine(),
                    self.pc(),
                ) {
                    lemma_unreferenced_stack_leaves_held_cells(after);
                    if self.program().assigns_no_field() && backed(self.machine().cells) {
                        lemma_unheld_heap_is_empty(after, after.next_address.0 as int);
                    }
                }
            }
        }
        if !self.program.has_instruction(self.program_counter) {
            return Err(RuntimeFault::InvalidTarget);
        }
        let current_instruction = self.program.get_instruction(self.program_counter);
        match current_instruction {
            Instruction::EnterBlock => {
                self.program_counter = self.program_counter.next();
                Ok(None)
            },
            Instruction::ExitBlock(return_var) => {
                match self.instruction_evaluator.exit_block(return_var)? {
                    BlockExit::Return(result) => Ok(Some(result)),
                    BlockExit::Resume(return_address) => {
                        self.program_counter = return_address;
                        Ok(None)
                    },
                }
            },
            Instruction::Assignment(assignment) => {
                let next_address = self.instruction_evaluator.eval_instruction(
                    self.program_counter,
                    assignment,
                )?;
                self.program_counter = next_address;
                Ok(None)
            },
        }
    }
}

} // verus!
