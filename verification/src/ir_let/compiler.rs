//! Let-normalization: from an expression tree to a flat program.
//!
//! Every part of a composite expression is normalized from left to right
//! into a name: a variable stands for itself, anything else is bound to a
//! generated name by an assignment emitted before its use. Every binder is
//! renamed to a name that was not generated before. Functions are lifted
//! into the program's function table.

use vstd::prelude::*;
use vstd::string::*;
use crate::fault::{BuildError, BuildErrorView};
use crate::heap_value::clone_names;
use crate::ir_let::closedness::closed;
use crate::ir_let::capture_scope::{captures_known, lemma_fun_captures_known};
use crate::ir_let::free_vars::FreeVars;
use crate::ir_let::invariants::{
    lemma_normal_block, lemma_normal_function_body, lemma_normal_rhs,
    lemma_normal_rhs_without_block, lemma_normal_var, lemma_normal_var_of_variable,
    lemma_normal_vars, lemma_normal_vars_of_variables,
};
use crate::ir_let::let_expr::{
    AllocClosure, Assignment, Block, Control, Definition, Function, FunctionView, Instruction,
    Program, Simple, Step, TargetAddress, VariableReference,
};
use crate::ir_let::names::generate_name;
use crate::ir_let::normal_form::{
    NormalizerView, all_variables, generated_base, needs_block, normal_block,
    normal_function_body, normal_program, normal_rhs, normal_var, normal_vars, resolve, toplevel_name,
};
use crate::syntax::{Expr, Name, views};

verus! {

/// The scopes as the contracts see them.
pub open spec fn substitution_view(substitution: Seq<(String, String)>) -> Seq<(Name, Name)> {
    Seq::new(substitution.len(), |i: int| (substitution[i].0@, substitution[i].1@))
}

/// Whether a step of a build ended as the normal form has it: with the same
/// error, or in the same state, in order, with the same result.
pub open spec fn built<T: View>(
    outcome: Result<T, BuildError>,
    after: NormalizerView,
    expected: Result<(T::V, NormalizerView), BuildErrorView>,
) -> bool {
    match expected {
        Ok((value, state)) => outcome matches Ok(result) && result@ == value && after == state && state.inv(),
        Err(error) => outcome matches Err(found) && found@ == error,
    }
}

struct LetNormalizer {
    program: Program,
    current_function_index: Option<usize>,
    current_block_index: Option<usize>,
    var_counter: u64,
    /// The names in scope with their replacements, the innermost scope last.
    var_substitution: Vec<(String, String)>,
}

impl View for LetNormalizer {
    type V = NormalizerView;

    closed spec fn view(&self) -> NormalizerView {
        NormalizerView {
            functions: self.program@.functions,
            current_function_index: self.current_function_index,
            current_block_index: self.current_block_index,
            var_counter: self.var_counter,
            substitution: substitution_view(self.var_substitution@),
        }
    }
}

impl LetNormalizer {
    fn new() -> (normalizer: Self)
        ensures
            normalizer@ == NormalizerView::initial(),
    {
        let normalizer = LetNormalizer {
            program: Program { functions: Vec::new() },
            current_function_index: None,
            current_block_index: None,
            var_counter: 0,
            var_substitution: Vec::new(),
        };
        assert(normalizer@.functions =~= Seq::empty());
        assert(normalizer@.substitution =~= Seq::empty());
        normalizer
    }

    fn fresh(&mut self, base_name: &str) -> (outcome: Result<String, BuildError>)
        requires
            old(self)@.inv(),
        ensures
            built(outcome, final(self)@, old(self)@.fresh(base_name@)),
    {
        if self.var_counter == u64::MAX {
            return Err(BuildError::TooManyNames);
        }
        let count = self.var_counter;
        self.var_counter += 1;
        Ok(generate_name(base_name, count))
    }

    /// Fresh names for `bases`, generated from the last to the first.
    fn fresh_each(&mut self, bases: &Vec<String>) -> (outcome: Result<Vec<String>, BuildError>)
        requires
            old(self)@.inv(),
        ensures
            match old(self)@.fresh_each(views(bases@), bases.len() as int, Seq::empty()) {
                Ok((names, state)) => outcome matches Ok(generated) && views(generated@) == names
                    && generated.len() == bases.len() && final(self)@ == state && state.inv()
                    && state.substitution == old(self)@.substitution && state.functions == old(
                    self,
                )@.functions && state.resumes(old(self)@),
                Err(error) => outcome matches Err(found) && found@ == error,
            },
    {
        proof {
            crate::ir_let::invariants::lemma_fresh_each(
                old(self)@,
                views(bases@),
                bases.len() as int,
                Seq::empty(),
            );
        }
        let ghost all = views(bases@);
        let mut reversed: Vec<String> = Vec::new();
        let mut i: usize = bases.len();
        assert(views(reversed@).reverse() =~= Seq::<Name>::empty());
        while i > 0
            invariant
                i <= bases.len(),
                all == views(bases@),
                reversed.len() == bases.len() - i,
                self@.inv(),
                self@.fresh_each(all, i as int, views(reversed@).reverse()) == old(self)@.fresh_each(
                    all,
                    bases.len() as int,
                    Seq::empty(),
                ),
            decreases i,
        {
            let ghost generated = views(reversed@).reverse();
            i -= 1;
            let name = self.fresh(bases[i].as_str())?;
            reversed.push(name);
            assert(views(reversed@).reverse() =~= seq![name@] + generated);
        }
        let mut generated: Vec<String> = Vec::new();
        let ghost backwards = views(reversed@);
        while reversed.len() > 0
            invariant
                generated.len() + reversed.len() == bases.len(),
                views(generated@) + views(reversed@).reverse() == backwards.reverse(),
                self@.inv(),
                self@.fresh_each(all, 0, backwards.reverse()) == old(self)@.fresh_each(
                    all,
                    bases.len() as int,
                    Seq::empty(),
                ),
            decreases reversed.len(),
        {
            let ghost before = views(reversed@);
            let ghost done = views(generated@);
            let name = reversed.pop().unwrap();
            generated.push(name);
            assert(views(reversed@) =~= before.drop_last());
            assert(views(generated@) =~= done.push(before.last()));
            assert(views(generated@) + views(reversed@).reverse() =~= done + before.reverse());
        }
        assert(views(generated@) =~= backwards.reverse());
        Ok(generated)
    }

    /// Opens a scope in which `to` stands for `from`.
    fn push_substitution(&mut self, from: String, to: String)
        ensures
            final(self)@ == old(self)@.bind(from@, to@),
    {
        self.var_substitution.push((from, to));
        assert(self@.substitution =~= old(self)@.substitution.push((from@, to@)));
    }

    /// Opens a scope for each name of `from`, in which the name at the same
    /// place in `to` stands for it.
    fn push_substitutions(&mut self, from: &Vec<String>, to: &Vec<String>)
        requires
            from.len() == to.len(),
        ensures
            final(self)@ == old(self)@.bind_each(views(from@), views(to@)),
    {
        let ghost start = old(self)@.substitution;
        let mut i: usize = 0;
        while i < from.len()
            invariant
                i <= from.len(),
                from.len() == to.len(),
                self@.functions == old(self)@.functions,
                self@.current_function_index == old(self)@.current_function_index,
                self@.current_block_index == old(self)@.current_block_index,
                self@.var_counter == old(self)@.var_counter,
                self@.substitution.len() == start.len() + i,
                forall|k: int| 0 <= k < start.len() ==> self@.substitution[k] == start[k],
                forall|k: int|
                    0 <= k < i ==> self@.substitution[start.len() + k] == (from[k]@, to[k]@),
            decreases from.len() - i,
        {
            let ghost before = self@.substitution;
            let source = from[i].clone();
            let target = to[i].clone();
            self.var_substitution.push((source, target));
            assert(self@.substitution =~= before.push((from[i as int]@, to[i as int]@)));
            i += 1;
        }
        assert(self@.substitution =~= start + Seq::new(
            views(from@).len(),
            |k: int| (views(from@)[k], views(to@)[k]),
        ));
    }

    /// Closes the scopes opened since there were `depth` of them.
    fn restore(&mut self, depth: usize)
        requires
            depth <= old(self)@.substitution.len(),
        ensures
            final(self)@ == old(self)@.restore(depth as int),
    {
        self.var_substitution.truncate(depth);
        assert(self@.substitution =~= old(self)@.substitution.subrange(0, depth as int));
    }

    /// The name that stands for `name` in the innermost scope that has one.
    fn lookup(&self, name: &String) -> (found: Option<String>)
        ensures
            match resolve(self@.substitution, name@) {
                Some(replacement) => found matches Some(result) && result@ == replacement,
                None => found is None,
            },
    {
        let ghost all = self@.substitution;
        let mut i: usize = self.var_substitution.len();
        assert(all.subrange(0, i as int) =~= all);
        while i > 0
            invariant
                i <= self.var_substitution.len(),
                all == self@.substitution,
                resolve(all, name@) == resolve(all.subrange(0, i as int), name@),
            decreases i,
        {
            let ghost upto = all.subrange(0, i as int);
            assert(upto.drop_last() =~= all.subrange(0, i - 1));
            i -= 1;
            assert(upto.last() == all[i as int]);
            if self.var_substitution[i].0 == *name {
                return Some(self.var_substitution[i].1.clone());
            }
        }
        None
    }

    fn emit(&mut self, instruction: Instruction)
        requires
            old(self)@.has_active_block(),
        ensures
            final(self)@ == old(self)@.emit(instruction@),
    {
        let current_function_index = self.current_function_index.unwrap();
        let current_block_index = self.current_block_index.unwrap();
        self.program.functions[current_function_index].blocks[current_block_index].instructions.push(
            instruction,
        );
        proof {
            let f = current_function_index as int;
            let b = current_block_index as int;
            let before = old(self)@;
            let expected = before.emit(instruction@);
            assert(self.program.functions[f].blocks[b]@.instructions =~= before.functions[f].blocks[b].instructions.push(
                instruction@,
            ));
            assert(self.program.functions[f]@.blocks =~= before.functions[f].blocks.update(
                b,
                before.functions[f].blocks[b].emit(instruction@),
            ));
            assert(self@.functions =~= expected.functions);
        }
    }

    /// The name that stands for `e`. A variable stands for itself; anything
    /// else is bound to a generated name in the active block, which must be
    /// there.
    fn normalize_var(&mut self, e: &Expr) -> (outcome: Result<VariableReference, BuildError>)
        requires
            old(self)@.inv(),
            !(e is Var) ==> old(self)@.current_block_index is Some,
        ensures
            built(outcome, final(self)@, normal_var(*e, old(self)@)),
            outcome is Ok ==> old(self)@.normalized_to(!(e is Var), final(self)@),
        decreases e, 2nat,
    {
        proof {
            if self@.current_block_index is Some {
                lemma_normal_var(*e, old(self)@);
                lemma_normal_rhs(*e, old(self)@);
            }
            if e is Var {
                lemma_normal_var_of_variable(*e, old(self)@);
            }
            reveal_strlit("__gen");
            assert("__gen"@ =~= generated_base());
        }
        let norm_rhs = self.normalize_rhs(e)?;
        match norm_rhs {
            Definition::Var(expr_at) => Ok(expr_at),
            Definition::Step(step) => {
                let var_name = self.fresh("__gen")?;
                self.emit(
                    Instruction::Assignment(
                        Assignment { name: var_name.clone(), definition: Definition::Step(step) },
                    ),
                );
                Ok(VariableReference { var_name })
            },
        }
    }

    /// Normalizes each expression of `es` to a name, from left to right.
    fn normalize_vars(&mut self, es: &Vec<Expr>) -> (outcome: Result<Vec<VariableReference>, BuildError>)
        requires
            old(self)@.inv(),
            !all_variables(es@) ==> old(self)@.current_block_index is Some,
        ensures
            match normal_vars(es@, 0, old(self)@, Seq::empty()) {
                Ok((names, state)) => outcome matches Ok(vars) && views(vars@) == names && final(self)@
                    == state && state.inv() && old(self)@.normalized_to(!all_variables(es@), state),
                Err(error) => outcome matches Err(found) && found@ == error,
            },
        decreases es, 0nat,
    {
        proof {
            if self@.current_block_index is Some {
                lemma_normal_vars(es@, 0, old(self)@, Seq::empty());
            }
            if all_variables(es@) {
                lemma_normal_vars_of_variables(es@, 0, old(self)@, Seq::empty());
            }
        }
        let mut vars: Vec<VariableReference> = Vec::new();
        let mut i: usize = 0;
        assert(views(vars@) =~= Seq::<Name>::empty());
        while i < es.len()
            invariant
                i <= es.len(),
                self@.inv(),
                !all_variables(es@) ==> self@.current_block_index is Some,
                normal_vars(es@, i as int, self@, views(vars@)) == normal_vars(
                    es@,
                    0,
                    old(self)@,
                    Seq::empty(),
                ),
            decreases es.len() - i,
        {
            let ghost done = views(vars@);
            let var = self.normalize_var(&es[i])?;
            vars.push(var);
            assert(views(vars@) =~= done.push(var@));
            i += 1;
        }
        Ok(vars)
    }

    fn normalize_function_body(&mut self, name: String, arg_names: Vec<String>, e: &Expr) -> (outcome: Result<
        AllocClosure,
        BuildError,
    >)
        requires
            old(self)@.inv(),
        ensures
            built(outcome, final(self)@, normal_function_body(*e, old(self)@, name@, views(arg_names@))),
            outcome matches Ok(closure) ==> old(self)@.grows_by_function(final(self)@, closure@)
                && final(self)@.substitution == old(self)@.substitution,
        decreases e, 4nat,
    {
        proof {
            lemma_normal_function_body(*e, old(self)@, name@, views(arg_names@));
        }
        if self.program.functions.len() == usize::MAX {
            return Err(BuildError::ProgramTooLarge);
        }
        let old_function_index = self.current_function_index;
        let new_function_index = self.program.functions.len();
        self.program.functions.push(
            Function {
                name: name.clone(),
                arg_names: clone_names(&arg_names),
                free_names: None,
                blocks: Vec::new(),
            },
        );
        self.current_function_index = Some(new_function_index);
        let old_block_index = self.current_block_index;
        self.current_block_index = None;
        let ghost started = self@;
        proof {
            let expected = old(self)@.with_functions(
                old(self)@.functions.push(
                    FunctionView {
                        name: name@,
                        arg_names: views(arg_names@),
                        free_names: None,
                        blocks: Seq::empty(),
                    },
                ),
            ).with_cursor(Some(new_function_index), None);
            assert(self.program.functions[new_function_index as int]@.blocks =~= Seq::empty());
            assert(started.functions =~= expected.functions);
            crate::ir_let::invariants::lemma_start_function(old(self)@, name@, views(arg_names@));
            lemma_normal_block(*e, started);
        }
        let body_address = self.normalize_block(e)?;
        proof {
            crate::ir_let::well_formed::lemma_ok_branches_forward(self@.functions, new_function_index as int);
            crate::ir_let::free_vars::lemma_forward_walk_ends(
                self@.functions[new_function_index as int].blocks,
                body_address.block_index as int,
            );
        }
        let freevars = FreeVars::free_vars_function(
            &self.program.functions[new_function_index].blocks,
            &name,
            &arg_names,
            body_address.block_index,
        );
        let ghost built_state = self@;
        self.program.functions[new_function_index].free_names = Some(clone_names(&freevars));
        let function = AllocClosure { name, arg_names, free_names: freevars, body: body_address };
        self.current_function_index = old_function_index;
        self.current_block_index = old_block_index;
        proof {
            let h = new_function_index as int;
            assert(self@.functions =~= built_state.functions.update(
                h,
                built_state.functions[h].with_free_names(views(freevars@)),
            ));
        }
        Ok(function)
    }

    /// The definition that stands for `e`, after the instructions that
    /// compute its parts have been emitted into the active block. The block
    /// must be there where `e` needs one. A function captures only names
    /// that stand for a name in scope: none where nothing is in scope.
    fn normalize_rhs(&mut self, e: &Expr) -> (outcome: Result<Definition, BuildError>)
        requires
            old(self)@.inv(),
            needs_block(*e) ==> old(self)@.current_block_index is Some,
        ensures
            built(outcome, final(self)@, normal_rhs(*e, old(self)@)),
            outcome is Ok ==> old(self)@.normalized_to(needs_block(*e), final(self)@),
            e is Fun ==> (outcome matches Ok(definition) ==> captures_known(
                definition@,
                old(self)@.substitution,
            )),
        decreases e, 1nat,
    {
        proof {
            if self@.current_block_index is Some {
                lemma_normal_rhs(*e, old(self)@);
            }
            if !needs_block(*e) {
                lemma_normal_rhs_without_block(*e, old(self)@);
            }
            if e is Fun {
                lemma_fun_captures_known(*e, old(self)@);
            }
        }
        match e {
            Expr::Literal(c) => Ok(Definition::Step(Step::Simple(Simple::Literal(*c)))),
            Expr::Var { var_name } => match self.lookup(var_name) {
                Some(replacement) => Ok(Definition::Var(VariableReference { var_name: replacement })),
                None => Err(BuildError::UnboundVariable { name: var_name.clone() }),
            },
            Expr::Fun { .. } => self.normalize_fun(e),
            Expr::Call { .. } => self.normalize_call(e),
            Expr::BinOp { .. } => self.normalize_binop(e),
            Expr::Let { .. } => self.normalize_let(e),
            Expr::If { .. } => self.normalize_if(e),
            Expr::Tuple { .. } => self.normalize_tuple(e),
            Expr::SetField { .. } => self.normalize_set_field(e),
        }
    }

    /// A function: lifted into the program, under fresh names for itself and its parameters.
    fn normalize_fun(&mut self, e: &Expr) -> (outcome: Result<Definition, BuildError>)
        requires
            old(self)@.inv(),
            needs_block(*e) ==> old(self)@.current_block_index is Some,
            e is Fun,
        ensures
            built(outcome, final(self)@, normal_rhs(*e, old(self)@)),
            outcome is Ok ==> old(self)@.normalized_to(needs_block(*e), final(self)@),
        decreases e, 0nat,
    {
        proof {
            if self@.current_block_index is Some {
                lemma_normal_rhs(*e, old(self)@);
            }
            if !needs_block(*e) {
                lemma_normal_rhs_without_block(*e, old(self)@);
            }
        }
        match e {
            Expr::Fun { name: source_name, arg_names: source_arg_names, body } => {
                let depth = self.var_substitution.len();
                let unique_name = self.fresh(source_name.as_str())?;
                let unique_arg_names = self.fresh_each(source_arg_names)?;
                self.push_substitutions(source_arg_names, &unique_arg_names);
                self.push_substitution(source_name.clone(), unique_name.clone());
                assert(self@.substitution.len() >= depth);
                let function = self.normalize_function_body(unique_name, unique_arg_names, body)?;
                self.restore(depth);
                Ok(Definition::Step(Step::Simple(Simple::Fun(function))))
            },
            _ => unreached(),
        }
    }

    /// A call: the function, then the arguments from left to right.
    fn normalize_call(&mut self, e: &Expr) -> (outcome: Result<Definition, BuildError>)
        requires
            old(self)@.inv(),
            needs_block(*e) ==> old(self)@.current_block_index is Some,
            e is Call,
        ensures
            built(outcome, final(self)@, normal_rhs(*e, old(self)@)),
            outcome is Ok ==> old(self)@.normalized_to(needs_block(*e), final(self)@),
        decreases e, 0nat,
    {
        proof {
            if self@.current_block_index is Some {
                lemma_normal_rhs(*e, old(self)@);
            }
            if !needs_block(*e) {
                lemma_normal_rhs_without_block(*e, old(self)@);
            }
        }
        match e {
            Expr::Call { func, args } => {
                let fun_at = self.normalize_var(func)?;
                let args_at = self.normalize_vars(args)?;
                Ok(Definition::Step(Step::Control(Control::Call { func: fun_at, args: args_at })))
            },
            _ => unreached(),
        }
    }

    /// A binary operation: the left operand, then the right.
    fn normalize_binop(&mut self, e: &Expr) -> (outcome: Result<Definition, BuildError>)
        requires
            old(self)@.inv(),
            needs_block(*e) ==> old(self)@.current_block_index is Some,
            e is BinOp,
        ensures
            built(outcome, final(self)@, normal_rhs(*e, old(self)@)),
            outcome is Ok ==> old(self)@.normalized_to(needs_block(*e), final(self)@),
        decreases e, 0nat,
    {
        proof {
            if self@.current_block_index is Some {
                lemma_normal_rhs(*e, old(self)@);
            }
            if !needs_block(*e) {
                lemma_normal_rhs_without_block(*e, old(self)@);
            }
        }
        match e {
            Expr::BinOp { op, lhs, rhs } => {
                let lhs_at = self.normalize_var(lhs)?;
                let rhs_at = self.normalize_var(rhs)?;
                Ok(Definition::Step(Step::Simple(Simple::BinOp { op: *op, lhs: lhs_at, rhs: rhs_at })))
            },
            _ => unreached(),
        }
    }

    /// A let-binding: the definition is bound to a fresh name, which stands for the source name in the body.
    fn normalize_let(&mut self, e: &Expr) -> (outcome: Result<Definition, BuildError>)
        requires
            old(self)@.inv(),
            old(self)@.current_block_index is Some,
            e is Let,
        ensures
            built(outcome, final(self)@, normal_rhs(*e, old(self)@)),
            outcome is Ok ==> old(self)@.normalized_to(needs_block(*e), final(self)@),
        decreases e, 0nat,
    {
        proof {
            lemma_normal_rhs(*e, old(self)@);
        }
        match e {
            Expr::Let { name: source_name, definition, body } => {
                let depth = self.var_substitution.len();
                proof {
                    lemma_normal_rhs(**definition, old(self)@);
                }
                let def_c = self.normalize_rhs(definition)?;
                let unique_name = self.fresh(source_name.as_str())?;
                proof {
                    crate::ir_let::invariants::lemma_emit_assignment(self@, unique_name@, def_c@);
                }
                self.emit(
                    Instruction::Assignment(Assignment { name: unique_name.clone(), definition: def_c }),
                );
                self.push_substitution(source_name.clone(), unique_name);
                let result = self.normalize_rhs(body)?;
                self.restore(depth);
                Ok(result)
            },
            _ => unreached(),
        }
    }

    /// A conditional: the condition, then a block for each branch.
    fn normalize_if(&mut self, e: &Expr) -> (outcome: Result<Definition, BuildError>)
        requires
            old(self)@.inv(),
            old(self)@.current_block_index is Some,
            e is If,
        ensures
            built(outcome, final(self)@, normal_rhs(*e, old(self)@)),
            outcome is Ok ==> old(self)@.normalized_to(needs_block(*e), final(self)@),
        decreases e, 0nat,
    {
        proof {
            lemma_normal_rhs(*e, old(self)@);
        }
        match e {
            Expr::If { condition, branch_success, branch_failure } => {
                let cond_at = self.normalize_var(condition)?;
                let branch_success = self.normalize_block(branch_success)?;
                let branch_failure = self.normalize_block(branch_failure)?;
                Ok(
                    Definition::Step(
                        Step::Control(
                            Control::If { condition: cond_at, branch_success, branch_failure },
                        ),
                    ),
                )
            },
            _ => unreached(),
        }
    }

    /// A tuple: the fields from left to right.
    fn normalize_tuple(&mut self, e: &Expr) -> (outcome: Result<Definition, BuildError>)
        requires
            old(self)@.inv(),
            needs_block(*e) ==> old(self)@.current_block_index is Some,
            e is Tuple,
        ensures
            built(outcome, final(self)@, normal_rhs(*e, old(self)@)),
            outcome is Ok ==> old(self)@.normalized_to(needs_block(*e), final(self)@),
        decreases e, 0nat,
    {
        proof {
            if self@.current_block_index is Some {
                lemma_normal_rhs(*e, old(self)@);
            }
            if !needs_block(*e) {
                lemma_normal_rhs_without_block(*e, old(self)@);
            }
        }
        match e {
            Expr::Tuple { values } => {
                let args_norm = self.normalize_vars(values)?;
                Ok(Definition::Step(Step::Simple(Simple::Tuple { args: args_norm })))
            },
            _ => unreached(),
        }
    }

    /// A field assignment: the tuple, then the new value.
    fn normalize_set_field(&mut self, e: &Expr) -> (outcome: Result<Definition, BuildError>)
        requires
            old(self)@.inv(),
            needs_block(*e) ==> old(self)@.current_block_index is Some,
            e is SetField,
        ensures
            built(outcome, final(self)@, normal_rhs(*e, old(self)@)),
            outcome is Ok ==> old(self)@.normalized_to(needs_block(*e), final(self)@),
        decreases e, 0nat,
    {
        proof {
            if self@.current_block_index is Some {
                lemma_normal_rhs(*e, old(self)@);
            }
            if !needs_block(*e) {
                lemma_normal_rhs_without_block(*e, old(self)@);
            }
        }
        match e {
            Expr::SetField { tuple, index, new_expr } => {
                let tuple_at = self.normalize_var(tuple)?;
                let new_at = self.normalize_var(new_expr)?;
                Ok(
                    Definition::Step(
                        Step::Simple(
                            Simple::SetField { tuple: tuple_at, index: *index, new_value: new_at },
                        ),
                    ),
                )
            },
            _ => unreached(),
        }
    }

    fn normalize_block(&mut self, e: &Expr) -> (outcome: Result<TargetAddress, BuildError>)
        requires
            old(self)@.inv(),
            old(self)@.current_function_index is Some,
        ensures
            built(outcome, final(self)@, normal_block(*e, old(self)@)),
            outcome matches Ok(address) ==> old(self)@.grows_by_block(final(self)@, address)
                && final(self)@.substitution == old(self)@.substitution,
        decreases e, 3nat,
    {
        proof {
            lemma_normal_block(*e, old(self)@);
        }
        let current_function_index = self.current_function_index.unwrap();
        let new_block_index = self.program.functions[current_function_index].blocks.len();
        if new_block_index == usize::MAX {
            return Err(BuildError::ProgramTooLarge);
        }
        self.program.functions[current_function_index].blocks.push(
            Block { instructions: Vec::new(), parent_block_index: self.current_block_index },
        );
        // The block that was active is the new block's parent, and becomes
        // active again once the new block is closed.
        let old_block_index = self.current_block_index;
        self.current_block_index = Some(new_block_index);
        proof {
            let f = current_function_index as int;
            let before = old(self)@;
            let expected = before.with_functions(
                before.functions.update(f, before.functions[f].open_block(before.current_block_index)),
            ).with_cursor(before.current_function_index, Some(new_block_index));
            assert(self.program.functions[f].blocks[new_block_index as int]@.instructions =~= Seq::empty());
            assert(self.program.functions[f]@.blocks =~= before.functions[f].open_block(
                before.current_block_index,
            ).blocks);
            assert(self@.functions =~= expected.functions);
            assert(self@ == expected);
        }
        self.emit(Instruction::EnterBlock);
        proof {
            crate::ir_let::invariants::lemma_open_block(old(self)@);
        }
        let result = self.normalize_var(e)?;
        self.emit(Instruction::ExitBlock(result));
        self.current_block_index = old_block_index;
        Ok(
            TargetAddress {
                function_index: current_function_index,
                block_index: new_block_index,
                instruction_index: 0,
            },
        )
    }

    fn normalize_program(self, e: &Expr) -> (outcome: Result<Program, BuildError>)
        requires
            self@ == NormalizerView::initial(),
        ensures
            match normal_program(*e) {
                Ok(program) => outcome matches Ok(result) && result@ == program,
                Err(error) => outcome matches Err(found) && found@ == error,
            },
    {
        proof {
            reveal_strlit("toplevel");
            assert("toplevel"@ =~= toplevel_name());
        }
        let mut normalizer = self;
        let arg_names: Vec<String> = Vec::new();
        assert(views(arg_names@) =~= Seq::<Name>::empty());
        normalizer.normalize_function_body("toplevel".to_owned(), arg_names, e)?;
        Ok(normalizer.program)
    }
}

/// The flat program of `e`, or the reason why there is none: a variable that
/// nothing binds, or a program beyond what can be numbered. The program is
/// well formed and begins with the function `toplevel`, which takes no
/// parameter, captures no name and holds `e`; no name is bound twice in the
/// whole program, and
/// no closure allocation names a captured name twice; the two branches of
/// each of its conditionals are different blocks; and every name that it
/// reads can be resolved where it is read.
pub fn let_normalize(e: &Expr) -> (outcome: Result<Program, BuildError>)
    ensures
        match normal_program(*e) {
            Ok(program) => {
                &&& outcome matches Ok(result) && result@ == program
                &&& program.well_formed()
                &&& program.starts_at_toplevel()
                &&& program.branches_apart()
                &&& program.binders_distinct()
                &&& program.captures_distinct()
                &&& program.references_resolve()
            },
            Err(error) => outcome matches Err(found) && found@ == error,
        },
        closed(*e) ==> !(outcome matches Err(BuildError::UnboundVariable { .. })),
        !closed(*e) ==> outcome is Err,
{
    proof {
        crate::ir_let::closedness::lemma_normal_program_closed(*e);
        crate::ir_let::invariants::lemma_normal_program_well_formed(*e);
        crate::ir_let::capture_scope::lemma_normal_program_starts_at_toplevel(*e);
        crate::ir_let::binders::lemma_normal_program_binders_distinct(*e);
        crate::ir_flat::layout_laws::lemma_normal_program_resolves(*e);
        if let Ok(program) = normal_program(*e) {
            crate::ir_let::binders::lemma_well_formed_captures_distinct(program);
        }
    }
    let normalizer = LetNormalizer::new();
    normalizer.normalize_program(e)
}

} // verus!
