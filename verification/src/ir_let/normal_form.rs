//! What let-normalization produces, as a function of the expression.
//!
//! Everything here is ghost: a model to hold the normalizer to. The
//! normalizer's state is the program built so far, the function and the
//! block that instructions are emitted to, a counter for generated names,
//! and the names in scope with their replacements, innermost last. Each
//! function below takes a state and yields the state that follows together
//! with what was computed, or the error that ends the build.

use vstd::prelude::*;
use crate::fault::BuildErrorView;
use crate::ir_let::free_vars::free_names_of;
use crate::ir_let::let_expr::{
    AllocClosureView, BlockView, DefinitionView, FunctionView, InstructionView, ProgramView,
    TargetAddress,
};
use crate::ir_let::names::fresh_name;
use crate::syntax::{Expr, Name, views};

verus! {

pub struct NormalizerView {
    pub functions: Seq<FunctionView>,
    pub current_function_index: Option<usize>,
    pub current_block_index: Option<usize>,
    pub var_counter: u64,
    pub substitution: Seq<(Name, Name)>,
}

/// The base of the names generated for intermediate results.
pub open spec fn generated_base() -> Name {
    seq!['_', '_', 'g', 'e', 'n']
}

/// The name of the function that holds the program's outermost expression.
pub open spec fn toplevel_name() -> Name {
    seq!['t', 'o', 'p', 'l', 'e', 'v', 'e', 'l']
}

/// The replacement of `name` in the innermost scope that has one.
pub open spec fn resolve(substitution: Seq<(Name, Name)>, name: Name) -> Option<Name>
    decreases substitution.len(),
{
    if substitution.len() == 0 {
        None
    } else if substitution.last().0 == name {
        Some(substitution.last().1)
    } else {
        resolve(substitution.drop_last(), name)
    }
}

impl BlockView {
    /// The block with one more instruction at its end.
    pub open spec fn emit(self, instruction: InstructionView) -> BlockView {
        BlockView {
            instructions: self.instructions.push(instruction),
            parent_block_index: self.parent_block_index,
        }
    }
}

impl FunctionView {
    /// The function with block `index` replaced.
    pub open spec fn with_block(self, index: int, block: BlockView) -> FunctionView {
        FunctionView {
            name: self.name,
            arg_names: self.arg_names,
            free_names: self.free_names,
            blocks: self.blocks.update(index, block),
        }
    }

    /// The function with one more block.
    pub open spec fn open_block(self, parent_block_index: Option<usize>) -> FunctionView {
        FunctionView {
            name: self.name,
            arg_names: self.arg_names,
            free_names: self.free_names,
            blocks: self.blocks.push(BlockView { instructions: Seq::empty(), parent_block_index }),
        }
    }

    /// The function with its captured names known.
    pub open spec fn with_free_names(self, free_names: Seq<Name>) -> FunctionView {
        FunctionView {
            name: self.name,
            arg_names: self.arg_names,
            free_names: Some(free_names),
            blocks: self.blocks,
        }
    }
}

impl NormalizerView {
    /// The state that a build starts with.
    pub open spec fn initial() -> NormalizerView {
        NormalizerView {
            functions: Seq::empty(),
            current_function_index: None,
            current_block_index: None,
            var_counter: 0,
            substitution: Seq::empty(),
        }
    }

    /// Whether there is a function that blocks can be added to.
    pub open spec fn has_active_function(self) -> bool {
        self.current_function_index matches Some(f) && f < self.functions.len()
    }

    /// Whether there is a block that instructions can be emitted to.
    pub open spec fn has_active_block(self) -> bool {
        &&& self.has_active_function()
        &&& self.current_block_index matches Some(b) && b < self.functions[self.function_index()].blocks.len()
    }

    pub open spec fn function_index(self) -> int {
        match self.current_function_index {
            Some(f) => f as int,
            None => 0,
        }
    }

    pub open spec fn block_index(self) -> int {
        match self.current_block_index {
            Some(b) => b as int,
            None => 0,
        }
    }

    pub open spec fn with_functions(self, functions: Seq<FunctionView>) -> NormalizerView {
        NormalizerView {
            functions,
            current_function_index: self.current_function_index,
            current_block_index: self.current_block_index,
            var_counter: self.var_counter,
            substitution: self.substitution,
        }
    }

    pub open spec fn with_cursor(
        self,
        current_function_index: Option<usize>,
        current_block_index: Option<usize>,
    ) -> NormalizerView {
        NormalizerView {
            functions: self.functions,
            current_function_index,
            current_block_index,
            var_counter: self.var_counter,
            substitution: self.substitution,
        }
    }

    pub open spec fn with_substitution(self, substitution: Seq<(Name, Name)>) -> NormalizerView {
        NormalizerView {
            functions: self.functions,
            current_function_index: self.current_function_index,
            current_block_index: self.current_block_index,
            var_counter: self.var_counter,
            substitution,
        }
    }

    /// A name that was not generated before, derived from `base`.
    pub open spec fn fresh(self, base: Name) -> Result<(Name, NormalizerView), BuildErrorView> {
        if self.var_counter == u64::MAX {
            Err(BuildErrorView::TooManyNames)
        } else {
            Ok(
                (
                    fresh_name(base, self.var_counter as nat),
                    NormalizerView {
                        functions: self.functions,
                        current_function_index: self.current_function_index,
                        current_block_index: self.current_block_index,
                        var_counter: (self.var_counter + 1) as u64,
                        substitution: self.substitution,
                    },
                ),
            )
        }
    }

    /// Fresh names for the first `remaining` of `bases`, generated from the
    /// last of them to the first, in front of `generated`.
    pub open spec fn fresh_each(self, bases: Seq<Name>, remaining: int, generated: Seq<Name>) -> Result<
        (Seq<Name>, NormalizerView),
        BuildErrorView,
    >
        decreases remaining,
    {
        if remaining <= 0 || remaining > bases.len() {
            Ok((generated, self))
        } else {
            match self.fresh(bases[remaining - 1]) {
                Err(error) => Err(error),
                Ok((name, following)) => following.fresh_each(bases, remaining - 1, seq![name] + generated),
            }
        }
    }

    /// One more instruction at the end of the active block.
    pub open spec fn emit(self, instruction: InstructionView) -> NormalizerView {
        let f = self.function_index();
        let b = self.block_index();
        self.with_functions(
            self.functions.update(
                f,
                self.functions[f].with_block(b, self.functions[f].blocks[b].emit(instruction)),
            ),
        )
    }

    /// `to` in place of `from`, in a new innermost scope.
    pub open spec fn bind(self, from: Name, to: Name) -> NormalizerView {
        self.with_substitution(self.substitution.push((from, to)))
    }

    /// Each of `from` replaced by the name at the same place in `to`, the
    /// last innermost.
    pub open spec fn bind_each(self, from: Seq<Name>, to: Seq<Name>) -> NormalizerView {
        self.with_substitution(self.substitution + Seq::new(from.len(), |i: int| (from[i], to[i])))
    }

    /// The scopes as they were when there were `depth` of them.
    pub open spec fn restore(self, depth: int) -> NormalizerView {
        self.with_substitution(self.substitution.subrange(0, depth))
    }
}

/// Whether each of the expressions is a variable.
pub open spec fn all_variables(es: Seq<Expr>) -> bool {
    forall|k: int| 0 <= k < es.len() ==> (#[trigger] es[k]) is Var
}

/// Whether normalizing `e` needs an active block: whether it may emit an
/// instruction, or open a block under the active one. A literal, a variable
/// and a function need none: a function is lifted into a function of its
/// own. An operation on variables needs none either: a variable stands for
/// itself.
pub open spec fn needs_block(e: Expr) -> bool {
    match e {
        Expr::Literal(_) => false,
        Expr::Var { .. } => false,
        Expr::Fun { .. } => false,
        Expr::Call { func, args } => !(*func is Var) || !all_variables(args@),
        Expr::BinOp { lhs, rhs, .. } => !(*lhs is Var) || !(*rhs is Var),
        Expr::Tuple { values } => !all_variables(values@),
        Expr::SetField { tuple, new_expr, .. } => !(*tuple is Var) || !(*new_expr is Var),
        Expr::Let { .. } => true,
        Expr::If { .. } => true,
    }
}

/// The definition that stands for `e`, after the instructions that compute
/// its parts have been emitted.
pub open spec fn normal_rhs(e: Expr, state: NormalizerView) -> Result<
    (DefinitionView, NormalizerView),
    BuildErrorView,
>
    decreases e, 0nat,
{
    match e {
        Expr::Literal(c) => Ok((DefinitionView::Literal(c), state)),
        Expr::Var { var_name } => match resolve(state.substitution, var_name@) {
            Some(name) => Ok((DefinitionView::Var(name), state)),
            None => Err(BuildErrorView::UnboundVariable { name: var_name@ }),
        },
        Expr::Fun { name, arg_names, body } => match state.fresh(name@) {
            Err(error) => Err(error),
            Ok((unique_name, named)) => match named.fresh_each(
                views(arg_names@),
                arg_names@.len() as int,
                Seq::empty(),
            ) {
                Err(error) => Err(error),
                Ok((unique_arg_names, generated)) => match normal_function_body(
                    *body,
                    generated.bind_each(views(arg_names@), unique_arg_names).bind(name@, unique_name),
                    unique_name,
                    unique_arg_names,
                ) {
                    Err(error) => Err(error),
                    Ok((function, lifted)) => Ok(
                        (DefinitionView::Fun(function), lifted.restore(state.substitution.len() as int)),
                    ),
                },
            },
        },
        Expr::Call { func, args } => match normal_var(*func, state) {
            Err(error) => Err(error),
            Ok((func_name, after_func)) => match normal_vars(args@, 0, after_func, Seq::empty()) {
                Err(error) => Err(error),
                Ok((arg_names, after_args)) => Ok(
                    (DefinitionView::Call { func: func_name, args: arg_names }, after_args),
                ),
            },
        },
        Expr::BinOp { op, lhs, rhs } => match normal_var(*lhs, state) {
            Err(error) => Err(error),
            Ok((lhs_name, after_lhs)) => match normal_var(*rhs, after_lhs) {
                Err(error) => Err(error),
                Ok((rhs_name, after_rhs)) => Ok(
                    (DefinitionView::BinOp { op, lhs: lhs_name, rhs: rhs_name }, after_rhs),
                ),
            },
        },
        Expr::Let { name, definition, body } => match normal_rhs(*definition, state) {
            Err(error) => Err(error),
            Ok((defined, after_definition)) => match after_definition.fresh(name@) {
                Err(error) => Err(error),
                Ok((unique_name, named)) => match normal_rhs(
                    *body,
                    named.emit(InstructionView::Assignment { name: unique_name, definition: defined }).bind(
                        name@,
                        unique_name,
                    ),
                ) {
                    Err(error) => Err(error),
                    Ok((result, after_body)) => Ok(
                        (result, after_body.restore(state.substitution.len() as int)),
                    ),
                },
            },
        },
        Expr::If { condition, branch_success, branch_failure } => match normal_var(*condition, state) {
            Err(error) => Err(error),
            Ok((condition_name, after_condition)) => match normal_block(*branch_success, after_condition) {
                Err(error) => Err(error),
                Ok((success, after_success)) => match normal_block(*branch_failure, after_success) {
                    Err(error) => Err(error),
                    Ok((failure, after_failure)) => Ok(
                        (
                            DefinitionView::If {
                                condition: condition_name,
                                branch_success: success,
                                branch_failure: failure,
                            },
                            after_failure,
                        ),
                    ),
                },
            },
        },
        Expr::Tuple { values } => match normal_vars(values@, 0, state, Seq::empty()) {
            Err(error) => Err(error),
            Ok((arg_names, after_args)) => Ok((DefinitionView::Tuple { args: arg_names }, after_args)),
        },
        Expr::SetField { tuple, index, new_expr } => match normal_var(*tuple, state) {
            Err(error) => Err(error),
            Ok((tuple_name, after_tuple)) => match normal_var(*new_expr, after_tuple) {
                Err(error) => Err(error),
                Ok((new_name, after_new)) => Ok(
                    (
                        DefinitionView::SetField { tuple: tuple_name, index, new_value: new_name },
                        after_new,
                    ),
                ),
            },
        },
    }
}

/// The name that stands for `e`: the name itself where `e` is a variable,
/// else a generated name that an emitted assignment binds to what stands
/// for `e`.
pub open spec fn normal_var(e: Expr, state: NormalizerView) -> Result<(Name, NormalizerView), BuildErrorView>
    decreases e, 1nat,
{
    match normal_rhs(e, state) {
        Err(error) => Err(error),
        Ok((DefinitionView::Var(name), following)) => Ok((name, following)),
        Ok((step, following)) => match following.fresh(generated_base()) {
            Err(error) => Err(error),
            Ok((name, named)) => Ok(
                (name, named.emit(InstructionView::Assignment { name, definition: step })),
            ),
        },
    }
}

/// `done`, followed by the names that stand for the expressions of `es` from
/// position `from` on, normalized from left to right.
pub open spec fn normal_vars(es: Seq<Expr>, from: int, state: NormalizerView, done: Seq<Name>) -> Result<
    (Seq<Name>, NormalizerView),
    BuildErrorView,
>
    decreases es, es.len() - from,
{
    if from < 0 || from >= es.len() {
        Ok((done, state))
    } else {
        match normal_var(es[from], state) {
            Err(error) => Err(error),
            Ok((name, following)) => normal_vars(es, from + 1, following, done.push(name)),
        }
    }
}

/// A new block of the active function that computes `e`, between its entry
/// and its exit; the block that was active is its parent.
pub open spec fn normal_block(e: Expr, state: NormalizerView) -> Result<
    (TargetAddress, NormalizerView),
    BuildErrorView,
>
    decreases e, 2nat,
{
    let f = state.function_index();
    let new_block_index = state.functions[f].blocks.len() as usize;
    let opened = state.with_functions(
        state.functions.update(f, state.functions[f].open_block(state.current_block_index)),
    ).with_cursor(state.current_function_index, Some(new_block_index)).emit(InstructionView::EnterBlock);
    if state.functions[f].blocks.len() >= usize::MAX {
        Err(BuildErrorView::ProgramTooLarge)
    } else {
        match normal_var(e, opened) {
            Err(error) => Err(error),
            Ok((result, computed)) => Ok(
                (
                    TargetAddress {
                        function_index: f as usize,
                        block_index: new_block_index,
                        instruction_index: 0,
                    },
                    computed.emit(InstructionView::ExitBlock(result)).with_cursor(
                        state.current_function_index,
                        state.current_block_index,
                    ),
                ),
            ),
        }
    }
}

/// A new function of the program with body `e`, and the closure allocation
/// that names it. The captured names are those of the finished body.
pub open spec fn normal_function_body(e: Expr, state: NormalizerView, name: Name, arg_names: Seq<Name>) -> Result<
    (AllocClosureView, NormalizerView),
    BuildErrorView,
>
    decreases e, 3nat,
{
    let new_function_index = state.functions.len() as usize;
    let started = state.with_functions(
        state.functions.push(FunctionView { name, arg_names, free_names: None, blocks: Seq::empty() }),
    ).with_cursor(Some(new_function_index), None);
    if state.functions.len() >= usize::MAX {
        Err(BuildErrorView::ProgramTooLarge)
    } else {
        match normal_block(e, started) {
            Err(error) => Err(error),
            Ok((body, built)) => {
                let function = built.functions[new_function_index as int];
                let free_names = free_names_of(function.blocks, name, arg_names, body.block_index as int);
                Ok(
                    (
                        AllocClosureView { name, arg_names, free_names, body },
                        built.with_functions(
                            built.functions.update(
                                new_function_index as int,
                                function.with_free_names(free_names),
                            ),
                        ).with_cursor(state.current_function_index, state.current_block_index),
                    ),
                )
            },
        }
    }
}

impl ProgramView {
    /// Whether the program begins with the function that holds the
    /// outermost expression: it is named `toplevel`, takes no parameter and
    /// captures no name.
    pub open spec fn starts_at_toplevel(self) -> bool {
        &&& self.functions.len() >= 1
        &&& self.functions[0].name == toplevel_name()
        &&& self.functions[0].arg_names == Seq::<Name>::empty()
        &&& self.functions[0].free_names == Some(Seq::<Name>::empty())
    }
}

/// The flat program of `e`: its functions in the order in which their
/// normalization began, the first holding `e` itself.
pub open spec fn normal_program(e: Expr) -> Result<ProgramView, BuildErrorView> {
    match normal_function_body(e, NormalizerView::initial(), toplevel_name(), Seq::empty()) {
        Err(error) => Err(error),
        Ok((_, built)) => Ok(ProgramView { functions: built.functions }),
    }
}

} // verus!
