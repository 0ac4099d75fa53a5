//! The abstract machine: what each instruction does to heap and stack.
//!
//! Everything here is ghost: a model to hold the interpreter to. A machine
//! is a heap of reference-counted cells and a stack of frames; an operation
//! either yields the machine that follows, with what it computed, or the
//! fault that ends the run.

use vstd::prelude::*;
use crate::fault::RuntimeFault;
use crate::heap::Cells;
use crate::heap_value::{CellView, ClosureView, HeapAddress, HeapValueView};
use crate::ir_let::let_expr::{DefinitionView, InstructionView, ProgramView, TargetAddress};
use crate::stack::{
    BlockFrameView, Frames, ReturnInfoView, frames_after_bind, frames_after_exit, frames_wf,
    lookup_in_frames,
};
use crate::syntax::{BinOp, Constant, Name};

verus! {

pub struct Machine {
    pub cells: Cells,
    pub next_address: HeapAddress,
    pub frames: Frames,
}

/// The names of `names` paired with the values of `values`, position by
/// position.
pub open spec fn pair_up(names: Seq<Name>, values: Seq<HeapAddress>) -> Seq<(Name, HeapAddress)> {
    Seq::new(names.len(), |i: int| (names[i], values[i]))
}

impl Machine {
    pub open spec fn wf(self) -> bool {
        &&& self.cells.dom().finite()
        &&& forall|address: HeapAddress| self.cells.contains_key(address) ==> address.0 < self.next_address.0
        &&& frames_wf(self.frames)
    }

    /// The machine that a run starts with: an empty heap, and one call with
    /// one block that returns to nothing.
    pub open spec fn initial() -> Machine {
        Machine {
            cells: Map::empty(),
            next_address: HeapAddress(0),
            frames: seq![seq![BlockFrameView::fresh(None)]],
        }
    }

    pub open spec fn with_cells(self, cells: Cells) -> Machine {
        Machine { cells, next_address: self.next_address, frames: self.frames }
    }

    pub open spec fn with_frames(self, frames: Frames) -> Machine {
        Machine { cells: self.cells, next_address: self.next_address, frames }
    }

    /// The value of `name` in the current call.
    pub open spec fn lookup(self, name: Name) -> Result<HeapAddress, RuntimeFault> {
        if self.frames.len() == 0 {
            Err(RuntimeFault::EmptyStack)
        } else {
            match lookup_in_frames(self.frames.last(), name) {
                Some(address) => Ok(address),
                None => Err(RuntimeFault::UnboundVariable),
            }
        }
    }

    /// `found`, followed by the values of `names` from position `from` on.
    pub open spec fn lookup_from(self, names: Seq<Name>, from: int, found: Seq<HeapAddress>) -> Result<
        Seq<HeapAddress>,
        RuntimeFault,
    >
        decreases names.len() - from,
    {
        if from < 0 || from >= names.len() {
            Ok(found)
        } else {
            match self.lookup(names[from]) {
                Err(fault) => Err(fault),
                Ok(address) => self.lookup_from(names, from + 1, found.push(address)),
            }
        }
    }

    /// The values of `names`, looked up from the first to the last.
    pub open spec fn lookup_all(self, names: Seq<Name>) -> Result<Seq<HeapAddress>, RuntimeFault> {
        self.lookup_from(names, 0, Seq::empty())
    }

    /// A new cell for `value`, with no reference to it yet.
    pub open spec fn allocate(self, value: HeapValueView) -> Result<(Machine, HeapAddress), RuntimeFault> {
        if self.next_address.0 >= u32::MAX {
            Err(RuntimeFault::AddressSpaceExhausted)
        } else {
            Ok(
                (
                    Machine {
                        cells: self.cells.insert(self.next_address, CellView { refcount: 0, value }),
                        next_address: HeapAddress((self.next_address.0 + 1) as u32),
                        frames: self.frames,
                    },
                    self.next_address,
                ),
            )
        }
    }

    /// One more reference to `address`.
    pub open spec fn retain(self, address: HeapAddress) -> Result<Machine, RuntimeFault> {
        if !self.cells.contains_key(address) {
            Err(RuntimeFault::InvalidAddress)
        } else if self.cells[address].refcount >= u32::MAX {
            Err(RuntimeFault::RefcountOverflow)
        } else {
            Ok(
                self.with_cells(
                    self.cells.insert(
                        address,
                        CellView {
                            refcount: (self.cells[address].refcount + 1) as u32,
                            value: self.cells[address].value,
                        },
                    ),
                ),
            )
        }
    }

    /// One more reference to each of `addresses`, from the first to the last.
    pub open spec fn retain_all(self, addresses: Seq<HeapAddress>) -> Result<Machine, RuntimeFault>
        decreases addresses.len(),
    {
        if addresses.len() == 0 {
            Ok(self)
        } else {
            match self.retain(addresses[0]) {
                Err(fault) => Err(fault),
                Ok(machine) => machine.retain_all(addresses.drop_first()),
            }
        }
    }

    /// One reference less to `address`.
    pub open spec fn release(self, address: HeapAddress) -> Result<Machine, RuntimeFault> {
        match crate::heap::release(self.cells, address) {
            Err(fault) => Err(fault),
            Ok(cells) => Ok(self.with_cells(cells)),
        }
    }

    /// One reference less to each of `addresses`, from the first to the last.
    pub open spec fn release_all(self, addresses: Seq<HeapAddress>) -> Result<Machine, RuntimeFault> {
        match crate::heap::release_all(self.cells, addresses) {
            Err(fault) => Err(fault),
            Ok(cells) => Ok(self.with_cells(cells)),
        }
    }

    /// `name` bound to `address` in the innermost block of the current call,
    /// which counts as one more reference to `address`.
    pub open spec fn bind(self, name: Name, address: HeapAddress) -> Result<Machine, RuntimeFault> {
        match self.retain(address) {
            Err(fault) => Err(fault),
            Ok(machine) => if machine.frames.len() == 0 || machine.frames.last().len() == 0 {
                Err(RuntimeFault::EmptyStack)
            } else {
                Ok(machine.with_frames(frames_after_bind(machine.frames, name, address)))
            },
        }
    }

    /// Each name of `bindings` bound to its value, from the first to the last.
    pub open spec fn bind_each(self, bindings: Seq<(Name, HeapAddress)>) -> Result<Machine, RuntimeFault>
        decreases bindings.len(),
    {
        if bindings.len() == 0 {
            Ok(self)
        } else {
            match self.bind(bindings[0].0, bindings[0].1) {
                Err(fault) => Err(fault),
                Ok(machine) => machine.bind_each(bindings.drop_first()),
            }
        }
    }

    /// The integer at `address`.
    pub open spec fn int_at(self, address: HeapAddress) -> Result<i32, RuntimeFault> {
        if !self.cells.contains_key(address) {
            Err(RuntimeFault::InvalidAddress)
        } else {
            match self.cells[address].value {
                HeapValueView::Int(value) => Ok(value),
                _ => Err(RuntimeFault::TypeMismatch),
            }
        }
    }

    /// The boolean at `address`.
    pub open spec fn bool_at(self, address: HeapAddress) -> Result<bool, RuntimeFault> {
        if !self.cells.contains_key(address) {
            Err(RuntimeFault::InvalidAddress)
        } else {
            match self.cells[address].value {
                HeapValueView::Bool(value) => Ok(value),
                _ => Err(RuntimeFault::TypeMismatch),
            }
        }
    }

    /// The fields of the tuple at `address`.
    pub open spec fn tuple_at(self, address: HeapAddress) -> Result<Seq<HeapAddress>, RuntimeFault> {
        if !self.cells.contains_key(address) {
            Err(RuntimeFault::InvalidAddress)
        } else {
            match self.cells[address].value {
                HeapValueView::Tuple(fields) => Ok(fields),
                _ => Err(RuntimeFault::TypeMismatch),
            }
        }
    }

    /// The closure at `address`.
    pub open spec fn closure_at(self, address: HeapAddress) -> Result<ClosureView, RuntimeFault> {
        if !self.cells.contains_key(address) {
            Err(RuntimeFault::InvalidAddress)
        } else {
            match self.cells[address].value {
                HeapValueView::Closure(closure) => Ok(closure),
                _ => Err(RuntimeFault::TypeMismatch),
            }
        }
    }

    /// A new cell for the integer `value`, if it fits in 32 bits.
    pub open spec fn allocate_int(self, value: int) -> Result<(Machine, HeapAddress), RuntimeFault> {
        if i32::MIN <= value <= i32::MAX {
            self.allocate(HeapValueView::Int(value as i32))
        } else {
            Err(RuntimeFault::ArithmeticOverflow)
        }
    }

    /// A binary operation on the values at two addresses. Sum, difference and
    /// equality read two integers and allocate their result. `Get` reads a
    /// tuple on the left and an index on the right, and yields the field
    /// itself: nothing is allocated and no count changes.
    pub open spec fn eval_binop(self, op: BinOp, lhs: HeapAddress, rhs: HeapAddress) -> Result<
        (Machine, HeapAddress),
        RuntimeFault,
    > {
        match op {
            BinOp::Get => match self.tuple_at(lhs) {
                Err(fault) => Err(fault),
                Ok(fields) => match self.int_at(rhs) {
                    Err(fault) => Err(fault),
                    Ok(index) => if 0 <= index < fields.len() {
                        Ok((self, fields[index as int]))
                    } else {
                        Err(RuntimeFault::IndexOutOfRange)
                    },
                },
            },
            _ => match self.int_at(lhs) {
                Err(fault) => Err(fault),
                Ok(left) => match self.int_at(rhs) {
                    Err(fault) => Err(fault),
                    Ok(right) => match op {
                        BinOp::Add => self.allocate_int(left + right),
                        BinOp::Sub => self.allocate_int(left - right),
                        _ => self.allocate(HeapValueView::Bool(left == right)),
                    },
                },
            },
        }
    }

    /// A new tuple of the values of `args`; the tuple holds a reference to
    /// each of its fields.
    pub open spec fn eval_tuple(self, args: Seq<Name>) -> Result<(Machine, HeapAddress), RuntimeFault> {
        match self.lookup_all(args) {
            Err(fault) => Err(fault),
            Ok(fields) => match self.retain_all(fields) {
                Err(fault) => Err(fault),
                Ok(machine) => machine.allocate(HeapValueView::Tuple(fields)),
            },
        }
    }

    /// A new closure of the function `name`; it holds a reference to the
    /// value of each captured name.
    pub open spec fn eval_closure(
        self,
        name: Name,
        arg_names: Seq<Name>,
        free_names: Seq<Name>,
        body: TargetAddress,
    ) -> Result<(Machine, HeapAddress), RuntimeFault> {
        match self.lookup_all(free_names) {
            Err(fault) => Err(fault),
            Ok(captured) => match self.retain_all(captured) {
                Err(fault) => Err(fault),
                Ok(machine) => machine.allocate(
                    HeapValueView::Closure(
                        ClosureView { name, arg_names, environment: pair_up(free_names, captured), body },
                    ),
                ),
            },
        }
    }

    /// Field `index` of the tuple `tuple` replaced by the value of
    /// `new_value`. The new value is retained before the old one is released,
    /// so that writing a field's own value back destroys nothing. The result
    /// is a new empty tuple.
    pub open spec fn eval_set_field(self, tuple: Name, index: u32, new_value: Name) -> Result<
        (Machine, HeapAddress),
        RuntimeFault,
    > {
        match self.lookup(tuple) {
            Err(fault) => Err(fault),
            Ok(tuple_address) => match self.lookup(new_value) {
                Err(fault) => Err(fault),
                Ok(new_address) => match self.tuple_at(tuple_address) {
                    Err(fault) => Err(fault),
                    Ok(fields) => if index >= fields.len() {
                        Err(RuntimeFault::IndexOutOfRange)
                    } else {
                        let written = self.with_cells(
                            self.cells.insert(
                                tuple_address,
                                CellView {
                                    refcount: self.cells[tuple_address].refcount,
                                    value: HeapValueView::Tuple(fields.update(index as int, new_address)),
                                },
                            ),
                        );
                        match written.retain(new_address) {
                            Err(fault) => Err(fault),
                            Ok(retained) => match retained.release(fields[index as int]) {
                                Err(fault) => Err(fault),
                                Ok(released) => released.allocate(HeapValueView::Tuple(Seq::empty())),
                            },
                        }
                    },
                },
            },
        }
    }

    /// The value of a definition that does not transfer execution.
    pub open spec fn eval_simple(self, definition: DefinitionView) -> Result<
        (Machine, HeapAddress),
        RuntimeFault,
    > {
        match definition {
            DefinitionView::Literal(Constant::Int { value }) => self.allocate(HeapValueView::Int(value)),
            DefinitionView::Literal(Constant::Bool { value }) => self.allocate(HeapValueView::Bool(value)),
            DefinitionView::Tuple { args } => self.eval_tuple(args),
            DefinitionView::Fun(function) => self.eval_closure(
                function.name,
                function.arg_names,
                function.free_names,
                function.body,
            ),
            DefinitionView::BinOp { op, lhs, rhs } => match self.lookup(lhs) {
                Err(fault) => Err(fault),
                Ok(lhs_address) => match self.lookup(rhs) {
                    Err(fault) => Err(fault),
                    Ok(rhs_address) => self.eval_binop(op, lhs_address, rhs_address),
                },
            },
            DefinitionView::SetField { tuple, index, new_value } => self.eval_set_field(
                tuple,
                index,
                new_value,
            ),
            DefinitionView::Var(name) => match self.lookup(name) {
                Err(fault) => Err(fault),
                Ok(address) => Ok((self, address)),
            },
            _ => Err(RuntimeFault::TypeMismatch),
        }
    }

    /// A call: a new call frame that returns to `return_info`, in which the
    /// captured names, then the parameters, then the closure's own name are
    /// bound; execution goes on at the closure's body.
    pub open spec fn eval_call(self, func: Name, args: Seq<Name>, return_info: ReturnInfoView) -> Result<
        (Machine, TargetAddress),
        RuntimeFault,
    > {
        match self.lookup(func) {
            Err(fault) => Err(fault),
            Ok(closure_address) => match self.lookup_all(args) {
                Err(fault) => Err(fault),
                Ok(arg_values) => match self.closure_at(closure_address) {
                    Err(fault) => Err(fault),
                    Ok(closure) => if closure.arg_names.len() != args.len() {
                        Err(RuntimeFault::ArityMismatch)
                    } else {
                        let entered = self.with_frames(
                            self.frames.push(seq![BlockFrameView::fresh(Some(return_info))]),
                        );
                        match entered.bind_each(closure.environment) {
                            Err(fault) => Err(fault),
                            Ok(captured) => match captured.bind_each(pair_up(closure.arg_names, arg_values)) {
                                Err(fault) => Err(fault),
                                Ok(passed) => match passed.bind(closure.name, closure_address) {
                                    Err(fault) => Err(fault),
                                    Ok(machine) => Ok((machine, closure.body)),
                                },
                            },
                        }
                    },
                },
            },
        }
    }

    /// A conditional: a new block frame in the current call that returns to
    /// `return_info`; execution goes on at the chosen branch.
    pub open spec fn eval_if(
        self,
        condition: Name,
        branch_success: TargetAddress,
        branch_failure: TargetAddress,
        return_info: ReturnInfoView,
    ) -> Result<(Machine, TargetAddress), RuntimeFault> {
        match self.lookup(condition) {
            Err(fault) => Err(fault),
            Ok(address) => match self.bool_at(address) {
                Err(fault) => Err(fault),
                Ok(chosen) => Ok(
                    (
                        self.with_frames(
                            self.frames.drop_last().push(
                                self.frames.last().push(BlockFrameView::fresh(Some(return_info))),
                            ),
                        ),
                        if chosen {
                            branch_success
                        } else {
                            branch_failure
                        },
                    ),
                ),
            },
        }
    }

    /// What a definition that transfers execution does, and where execution
    /// goes on.
    pub open spec fn eval_control(self, definition: DefinitionView, return_info: ReturnInfoView) -> Result<
        (Machine, TargetAddress),
        RuntimeFault,
    > {
        match definition {
            DefinitionView::Call { func, args } => self.eval_call(func, args, return_info),
            DefinitionView::If { condition, branch_success, branch_failure } => self.eval_if(
                condition,
                branch_success,
                branch_failure,
                return_info,
            ),
            _ => Err(RuntimeFault::TypeMismatch),
        }
    }

    /// What the assignment at `address` of `definition` to `name` does, and
    /// where execution goes on. A control step carries the name and the
    /// following address along as its return info; anything else binds the
    /// name at once.
    pub open spec fn eval_assignment(self, address: TargetAddress, name: Name, definition: DefinitionView) -> Result<
        (Machine, TargetAddress),
        RuntimeFault,
    > {
        if definition.is_control() {
            self.eval_control(
                definition,
                ReturnInfoView { result_variable: name, return_address: address.successor() },
            )
        } else {
            match self.eval_simple(definition) {
                Err(fault) => Err(fault),
                Ok((evaluated, value)) => match evaluated.bind(name, value) {
                    Err(fault) => Err(fault),
                    Ok(machine) => Ok((machine, address.successor())),
                },
            }
        }
    }

    /// The end of the innermost block, whose result is the value of
    /// `result_variable`: a local of the block, or of a block around it in
    /// the same call. The result is bound in the frame below before the
    /// block's locals are released: it may be one of them.
    pub open spec fn exit_block(self, result_variable: Name) -> Result<Progress, RuntimeFault> {
        if self.frames.len() == 0 || self.frames.last().len() == 0 {
            Err(RuntimeFault::EmptyStack)
        } else {
            let frame = self.frames.last().last();
            let exited = self.with_frames(frames_after_exit(self.frames));
            match lookup_in_frames(self.frames.last(), result_variable) {
                None => Err(RuntimeFault::UnboundVariable),
                Some(result) => match frame.return_info {
                    None => if !exited.cells.contains_key(result) {
                        Err(RuntimeFault::InvalidAddress)
                    } else {
                        match exited.release_all(frame.values) {
                            Err(fault) => Err(fault),
                            Ok(machine) => Ok(Progress::Finished(machine, exited.cells[result].value)),
                        }
                    },
                    Some(info) => match exited.bind(info.result_variable, result) {
                        Err(fault) => Err(fault),
                        Ok(stored) => match stored.release_all(frame.values) {
                            Err(fault) => Err(fault),
                            Ok(machine) => Ok(Progress::Running(machine, info.return_address)),
                        },
                    },
                },
            }
        }
    }
}

/// Where a run stands after some instructions.
pub enum Progress {
    /// The next instruction to execute is at the address.
    Running(Machine, TargetAddress),
    /// The outermost block has ended with the value.
    Finished(Machine, HeapValueView),
}

/// One instruction of `program`, executed at `pc`.
pub open spec fn step(program: ProgramView, machine: Machine, pc: TargetAddress) -> Result<
    Progress,
    RuntimeFault,
> {
    if !program.has_instruction(pc) {
        Err(RuntimeFault::InvalidTarget)
    } else {
        match program.instruction_at(pc) {
            InstructionView::EnterBlock => Ok(Progress::Running(machine, pc.successor())),
            InstructionView::ExitBlock(result_variable) => machine.exit_block(result_variable),
            InstructionView::Assignment { name, definition } => match machine.eval_assignment(
                pc,
                name,
                definition,
            ) {
                Err(fault) => Err(fault),
                Ok((following, target)) => Ok(Progress::Running(following, target)),
            },
        }
    }
}

/// At most `budget` instructions of `program`, executed from `pc` on.
pub open spec fn run(program: ProgramView, machine: Machine, pc: TargetAddress, budget: nat) -> Result<
    Progress,
    RuntimeFault,
>
    decreases budget,
{
    if budget == 0 {
        Ok(Progress::Running(machine, pc))
    } else {
        match step(program, machine, pc) {
            Err(fault) => Err(fault),
            Ok(Progress::Finished(following, value)) => Ok(Progress::Finished(following, value)),
            Ok(Progress::Running(following, target)) => run(
                program,
                following,
                target,
                (budget - 1) as nat,
            ),
        }
    }
}

} // verus!
