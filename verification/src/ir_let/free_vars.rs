//! The captured names of a lifted function.
//!
//! A function's blocks are walked from the entry block through the branches
//! of its conditionals, each block from its last instruction to its first. A
//! name that is read becomes live; the name that an assignment binds stops
//! being live before the names that its definition reads are added, since a
//! binding does not scope over its own definition. What is live at the end,
//! less the function's own name and its parameters, is what the function
//! captures.
//!
//! The walk follows every branch into its block before it goes on, so it
//! ends only where the blocks that it reaches from the entry lead back to
//! none of them. That is asked of the blocks, and nothing else: not that
//! branches go to later blocks, and nothing of blocks that the walk never
//! reaches.

use vstd::prelude::*;
use crate::ir_let::let_expr::{
    Block, BlockView, Control, Definition, DefinitionView, Instruction, InstructionView, Simple,
    Step, VariableReference,
};
use crate::syntax::{Name, views};

verus! {

/// The live names with `name` among them. The names are kept in the order in
/// which they became live.
pub open spec fn with_name(live: Seq<Name>, name: Name) -> Seq<Name> {
    if live.contains(name) {
        live
    } else {
        live.push(name)
    }
}

/// The live names with each of `names` among them.
pub open spec fn with_names(live: Seq<Name>, names: Seq<Name>) -> Seq<Name>
    decreases names.len(),
{
    if names.len() == 0 {
        live
    } else {
        with_names(with_name(live, names[0]), names.drop_first())
    }
}

/// The live names other than `name`.
pub open spec fn without_name(live: Seq<Name>, name: Name) -> Seq<Name>
    decreases live.len(),
{
    if live.len() == 0 {
        live
    } else if live.last() == name {
        without_name(live.drop_last(), name)
    } else {
        without_name(live.drop_last(), name).push(live.last())
    }
}

/// The live names other than those of `names`.
pub open spec fn without_names(live: Seq<Name>, names: Seq<Name>) -> Seq<Name>
    decreases names.len(),
{
    if names.len() == 0 {
        live
    } else {
        without_names(without_name(live, names[0]), names.drop_first())
    }
}

/// Whether `target` is a block that comes after block `from`.
pub open spec fn is_later_block(blocks: Seq<BlockView>, from: int, target: int) -> bool {
    from < target < blocks.len()
}

/// Whether every conditional branches to blocks that come after its own.
pub open spec fn branches_forward(blocks: Seq<BlockView>) -> bool {
    forall|b: int, i: int|
        #![trigger blocks[b].instructions[i]]
        0 <= b < blocks.len() && 0 <= i < blocks[b].instructions.len() ==> (
        blocks[b].instructions[i] matches InstructionView::Assignment {
            definition: DefinitionView::If { branch_success, branch_failure, .. },
            ..
        } ==> is_later_block(blocks, b, branch_success.block_index as int) && is_later_block(
            blocks,
            b,
            branch_failure.block_index as int,
        ))
}

/// Whether the walk from block `from` ends without going more than `depth`
/// blocks deep: `from` is a block, and the walk from each block that one of
/// its conditionals branches to ends one block less deep.
pub open spec fn ends_within(blocks: Seq<BlockView>, from: int, depth: nat) -> bool
    decreases depth,
{
    &&& depth > 0
    &&& 0 <= from < blocks.len()
    &&& forall|i: int|
        0 <= i < blocks[from].instructions.len() ==> (
        #[trigger] blocks[from].instructions[i] matches InstructionView::Assignment {
            definition: DefinitionView::If { branch_success, branch_failure, .. },
            ..
        } ==> ends_within(blocks, branch_success.block_index as int, (depth - 1) as nat) && ends_within(
            blocks,
            branch_failure.block_index as int,
            (depth - 1) as nat,
        ))
}

/// Whether the walk from block `from` ends: the branches lead from `from`
/// to blocks only, and never back to a block that they came through.
pub open spec fn walk_ends(blocks: Seq<BlockView>, from: int) -> bool {
    exists|depth: nat| ends_within(blocks, from, depth)
}

/// Whether `depth` is how deep the walk from block `from` goes.
pub open spec fn is_walk_depth(blocks: Seq<BlockView>, from: int, depth: nat) -> bool {
    ends_within(blocks, from, depth) && forall|less: nat| less < depth ==> !ends_within(blocks, from, less)
}

/// How deep the walk from block `from` goes, where it ends; zero where it
/// does not.
pub open spec fn walk_depth(blocks: Seq<BlockView>, from: int) -> nat {
    if walk_ends(blocks, from) {
        choose|depth: nat| is_walk_depth(blocks, from, depth)
    } else {
        0
    }
}

/// Whether the walk from block `target` ends, less deep than that from
/// block `from`.
pub open spec fn descends(blocks: Seq<BlockView>, from: int, target: int) -> bool {
    walk_ends(blocks, target) && walk_depth(blocks, target) < walk_depth(blocks, from)
}

/// A walk that ends within some depth has a least such depth.
proof fn lemma_least_depth(blocks: Seq<BlockView>, from: int, depth: nat)
    requires
        ends_within(blocks, from, depth),
    ensures
        exists|least: nat| is_walk_depth(blocks, from, least),
    decreases depth,
{
    if exists|less: nat| less < depth && ends_within(blocks, from, less) {
        let less = choose|less: nat| less < depth && ends_within(blocks, from, less);
        lemma_least_depth(blocks, from, less);
    } else {
        assert(is_walk_depth(blocks, from, depth));
    }
}

/// A walk that ends ends within its depth, and within none below it.
pub proof fn lemma_walk_depth(blocks: Seq<BlockView>, from: int)
    requires
        walk_ends(blocks, from),
    ensures
        is_walk_depth(blocks, from, walk_depth(blocks, from)),
        walk_depth(blocks, from) > 0,
        0 <= from < blocks.len(),
{
    let depth = choose|depth: nat| ends_within(blocks, from, depth);
    lemma_least_depth(blocks, from, depth);
}

/// Where the walk from a block ends, the walk from each block that one of
/// its conditionals branches to ends too, and less deep.
pub proof fn lemma_branches_descend(blocks: Seq<BlockView>, from: int, i: int)
    requires
        walk_ends(blocks, from),
        0 <= i < blocks[from].instructions.len(),
    ensures
        blocks[from].instructions[i] matches InstructionView::Assignment {
            definition: DefinitionView::If { branch_success, branch_failure, .. },
            ..
        } ==> descends(blocks, from, branch_success.block_index as int) && descends(
            blocks,
            from,
            branch_failure.block_index as int,
        ) && branch_success.block_index < blocks.len() && branch_failure.block_index < blocks.len(),
{
    lemma_walk_depth(blocks, from);
    let depth = walk_depth(blocks, from);
    if let InstructionView::Assignment {
        definition: DefinitionView::If { branch_success, branch_failure, .. },
        ..
    } = blocks[from].instructions[i] {
        let below = (depth - 1) as nat;
        assert(ends_within(blocks, branch_success.block_index as int, below));
        assert(ends_within(blocks, branch_failure.block_index as int, below));
        lemma_walk_depth(blocks, branch_success.block_index as int);
        lemma_walk_depth(blocks, branch_failure.block_index as int);
    }
}

/// A walk that ends within a depth ends within any greater depth.
pub proof fn lemma_ends_within_more(blocks: Seq<BlockView>, from: int, depth: nat, more: nat)
    requires
        ends_within(blocks, from, depth),
        depth <= more,
    ensures
        ends_within(blocks, from, more),
    decreases depth,
{
    assert forall|i: int| 0 <= i < blocks[from].instructions.len() implies (
    #[trigger] blocks[from].instructions[i] matches InstructionView::Assignment {
        definition: DefinitionView::If { branch_success, branch_failure, .. },
        ..
    } ==> ends_within(blocks, branch_success.block_index as int, (more - 1) as nat) && ends_within(
        blocks,
        branch_failure.block_index as int,
        (more - 1) as nat,
    )) by {
        if let InstructionView::Assignment {
            definition: DefinitionView::If { branch_success, branch_failure, .. },
            ..
        } = blocks[from].instructions[i] {
            lemma_ends_within_more(
                blocks,
                branch_success.block_index as int,
                (depth - 1) as nat,
                (more - 1) as nat,
            );
            lemma_ends_within_more(
                blocks,
                branch_failure.block_index as int,
                (depth - 1) as nat,
                (more - 1) as nat,
            );
        }
    }
}

/// Where every conditional branches to later blocks, the walk from every
/// block ends.
pub proof fn lemma_forward_walk_ends(blocks: Seq<BlockView>, from: int)
    requires
        branches_forward(blocks),
        0 <= from < blocks.len(),
    ensures
        ends_within(blocks, from, (blocks.len() - from) as nat),
        walk_ends(blocks, from),
    decreases blocks.len() - from,
{
    let depth = (blocks.len() - from) as nat;
    assert forall|i: int| 0 <= i < blocks[from].instructions.len() implies (
    #[trigger] blocks[from].instructions[i] matches InstructionView::Assignment {
        definition: DefinitionView::If { branch_success, branch_failure, .. },
        ..
    } ==> ends_within(blocks, branch_success.block_index as int, (depth - 1) as nat) && ends_within(
        blocks,
        branch_failure.block_index as int,
        (depth - 1) as nat,
    )) by {
        if let InstructionView::Assignment {
            definition: DefinitionView::If { branch_success, branch_failure, .. },
            ..
        } = blocks[from].instructions[i] {
            let s = branch_success.block_index as int;
            let f = branch_failure.block_index as int;
            assert(is_later_block(blocks, from, s) && is_later_block(blocks, from, f));
            lemma_forward_walk_ends(blocks, s);
            lemma_forward_walk_ends(blocks, f);
            lemma_ends_within_more(blocks, s, (blocks.len() - s) as nat, (depth - 1) as nat);
            lemma_ends_within_more(blocks, f, (blocks.len() - f) as nat, (depth - 1) as nat);
        }
    }
}

/// The names live before a definition in block `block_index`, given those
/// live after it. A conditional makes its condition live, then what its
/// first branch reads, then what its second branch reads. Where the walk
/// from the block ends, both branches are followed; the test that the walk
/// goes less deep in a branch only keeps the definition meaningful where
/// the walk does not end.
pub open spec fn live_before_definition(
    blocks: Seq<BlockView>,
    block_index: int,
    definition: DefinitionView,
    live: Seq<Name>,
) -> Seq<Name>
    decreases walk_depth(blocks, block_index), 0nat, 0nat,
{
    match definition {
        DefinitionView::Var(name) => with_name(live, name),
        DefinitionView::Literal(_) => live,
        DefinitionView::Tuple { args } => with_names(live, args),
        DefinitionView::SetField { tuple, new_value, .. } => with_name(with_name(live, tuple), new_value),
        DefinitionView::BinOp { lhs, rhs, .. } => with_name(with_name(live, lhs), rhs),
        DefinitionView::Fun(function) => with_names(live, function.free_names),
        DefinitionView::Call { func, args } => with_names(with_name(live, func), args),
        DefinitionView::If { condition, branch_success, branch_failure } => {
            let after_condition = with_name(live, condition);
            let after_success = if descends(blocks, block_index, branch_success.block_index as int) {
                live_before_block(blocks, branch_success.block_index as int, after_condition)
            } else {
                after_condition
            };
            if descends(blocks, block_index, branch_failure.block_index as int) {
                live_before_block(blocks, branch_failure.block_index as int, after_success)
            } else {
                after_success
            }
        },
    }
}

/// The names live before the first `count` instructions of block
/// `block_index` have all been walked, last to first, given those live after
/// them.
pub open spec fn live_before_instructions(
    blocks: Seq<BlockView>,
    block_index: int,
    count: int,
    live: Seq<Name>,
) -> Seq<Name>
    decreases walk_depth(blocks, block_index), 1nat, count,
{
    if block_index < 0 || block_index >= blocks.len() || count <= 0 || count
        > blocks[block_index].instructions.len() {
        live
    } else {
        let walked = match blocks[block_index].instructions[count - 1] {
            InstructionView::EnterBlock => live,
            InstructionView::ExitBlock(name) => with_name(live, name),
            InstructionView::Assignment { name, definition } => live_before_definition(
                blocks,
                block_index,
                definition,
                without_name(live, name),
            ),
        };
        live_before_instructions(blocks, block_index, count - 1, walked)
    }
}

/// The names live before block `block_index`, given those live after it.
pub open spec fn live_before_block(blocks: Seq<BlockView>, block_index: int, live: Seq<Name>) -> Seq<Name>
    decreases walk_depth(blocks, block_index), 2nat, 0nat,
{
    if block_index < 0 || block_index >= blocks.len() {
        live
    } else {
        live_before_instructions(
            blocks,
            block_index,
            blocks[block_index].instructions.len() as int,
            live,
        )
    }
}

/// The names that the function with these blocks captures: what is live
/// before its entry block, less its own name and its parameters.
pub open spec fn free_names_of(
    blocks: Seq<BlockView>,
    funname: Name,
    argnames: Seq<Name>,
    initial_block_index: int,
) -> Seq<Name> {
    without_names(
        without_name(live_before_block(blocks, initial_block_index, Seq::empty()), funname),
        argnames,
    )
}

/// A name is live after `with_name` exactly if it was before or is the one
/// added, and what was free of duplicates stays so.
pub proof fn lemma_with_name(live: Seq<Name>, name: Name)
    requires
        live.no_duplicates(),
    ensures
        with_name(live, name).no_duplicates(),
        forall|other: Name| with_name(live, name).contains(other) <==> live.contains(other) || other == name,
{
    let added = with_name(live, name);
    if !live.contains(name) {
        assert(added.last() == name);
        assert forall|other: Name| added.contains(other) implies live.contains(other) || other
            == name by {
            let i = choose|i: int| 0 <= i < added.len() && added[i] == other;
            if i < live.len() {
                assert(live[i] == other);
            }
        }
        assert forall|other: Name| live.contains(other) implies added.contains(other) by {
            let i = choose|i: int| 0 <= i < live.len() && live[i] == other;
            assert(added[i] == other);
        }
    }
}

/// A name is live after `without_name` exactly if it was before and is not
/// the one removed, and what was free of duplicates stays so.
pub proof fn lemma_without_name(live: Seq<Name>, name: Name)
    requires
        live.no_duplicates(),
    ensures
        without_name(live, name).no_duplicates(),
        forall|other: Name| without_name(live, name).contains(other) <==> live.contains(other) && other != name,
    decreases live.len(),
{
    if live.len() > 0 {
        let init = live.drop_last();
        let last = live.last();
        lemma_without_name(init, name);
        let kept = without_name(init, name);
        let result = without_name(live, name);
        assert forall|other: Name| live.contains(other) <==> init.contains(other) || other == last by {
            if live.contains(other) {
                let i = choose|i: int| 0 <= i < live.len() && live[i] == other;
                if i < init.len() {
                    assert(init[i] == other);
                }
            }
            if init.contains(other) {
                let i = choose|i: int| 0 <= i < init.len() && init[i] == other;
                assert(live[i] == other);
            }
            if other == last {
                assert(live[live.len() - 1] == other);
            }
        }
        assert(!init.contains(last)) by {
            if init.contains(last) {
                let i = choose|i: int| 0 <= i < init.len() && init[i] == last;
                assert(live[i] == live[live.len() - 1]);
            }
        }
        if last != name {
            assert(!kept.contains(last));
            assert forall|other: Name| result.contains(other) <==> kept.contains(other) || other == last by {
                if result.contains(other) {
                    let i = choose|i: int| 0 <= i < result.len() && result[i] == other;
                    if i < kept.len() {
                        assert(kept[i] == other);
                    }
                }
                if kept.contains(other) {
                    let i = choose|i: int| 0 <= i < kept.len() && kept[i] == other;
                    assert(result[i] == other);
                }
                if other == last {
                    assert(result[result.len() - 1] == other);
                }
            }
            assert forall|i: int, j: int| 0 <= i < result.len() && 0 <= j < result.len() && i != j implies result[i]
                != result[j] by {
                if i == kept.len() {
                    assert(kept[j] == result[j]);
                    assert(kept.contains(result[j]));
                } else if j == kept.len() {
                    assert(kept[i] == result[i]);
                    assert(kept.contains(result[i]));
                } else {
                    assert(kept[i] == result[i] && kept[j] == result[j]);
                }
            }
        }
    }
}

pub struct FreeVars<'a> {
    function_blocks: &'a Vec<Block>,
    free_vars: Vec<String>,
}

impl<'a> FreeVars<'a> {
    /// The blocks that are walked.
    pub closed spec fn blocks(&self) -> Seq<BlockView> {
        views(self.function_blocks@)
    }

    /// The names that are live where the walk stands.
    pub closed spec fn live(&self) -> Seq<Name> {
        views(self.free_vars@)
    }

    /// The names that a function captures, in the order in which the walk
    /// from its entry block finds them. The walk must end: the branches lead
    /// from the entry block to blocks only, and never back to a block that
    /// they came through. Nothing is asked of the order of the blocks, nor of
    /// blocks that the walk does not reach.
    pub fn free_vars_function(
        function_blocks: &'a Vec<Block>,
        funname: &String,
        argnames: &Vec<String>,
        initial_block_index: usize,
    ) -> (free: Vec<String>)
        requires
            walk_ends(views(function_blocks@), initial_block_index as int),
        ensures
            views(free@) == free_names_of(
                views(function_blocks@),
                funname@,
                views(argnames@),
                initial_block_index as int,
            ),
            views(free@).no_duplicates(),
    {
        let mut collector = FreeVars::new(function_blocks);
        collector.collect_function(funname, argnames, initial_block_index);
        collector.done()
    }

    fn new(function_blocks: &'a Vec<Block>) -> (collector: Self)
        ensures
            collector.blocks() == views(function_blocks@),
            collector.live() == Seq::<Name>::empty(),
    {
        let collector = FreeVars { function_blocks, free_vars: Vec::new() };
        assert(collector.live() =~= Seq::<Name>::empty());
        collector
    }

    fn collect_block(&mut self, block_index: usize)
        requires
            walk_ends(old(self).blocks(), block_index as int),
            old(self).live().no_duplicates(),
        ensures
            final(self).blocks() == old(self).blocks(),
            final(self).live() == live_before_block(old(self).blocks(), block_index as int, old(self).live()),
            final(self).live().no_duplicates(),
        decreases walk_depth(old(self).blocks(), block_index as int), 2nat,
    {
        proof {
            lemma_walk_depth(self.blocks(), block_index as int);
        }
        let function_blocks = self.function_blocks;
        let block = &function_blocks[block_index];
        let ghost blocks = self.blocks();
        assert(blocks[block_index as int] == block@);
        // The instructions are walked from the last to the first: a binding
        // scopes over everything after it in the block.
        let mut i: usize = block.instructions.len();
        while i > 0
            invariant
                i <= block.instructions.len(),
                block_index < blocks.len(),
                blocks == self.blocks(),
                blocks == old(self).blocks(),
                blocks[block_index as int] == block@,
                walk_ends(blocks, block_index as int),
                self.live().no_duplicates(),
                live_before_instructions(blocks, block_index as int, i as int, self.live())
                    == live_before_block(blocks, block_index as int, old(self).live()),
            decreases i,
        {
            i -= 1;
            assert(block@.instructions[i as int] == block.instructions[i as int]@);
            proof {
                lemma_branches_descend(blocks, block_index as int, i as int);
            }
            match &block.instructions[i] {
                Instruction::EnterBlock => {},
                Instruction::ExitBlock(return_var) => {
                    self.collect_var(return_var);
                },
                Instruction::Assignment(assignment) => {
                    // The name is removed before the definition is walked:
                    // a binding does not scope over its own definition.
                    self.remove(&assignment.name);
                    self.collect_definition(block_index, &assignment.definition);
                },
            }
        }
    }

    fn collect_definition(&mut self, block_index: usize, expr: &Definition)
        requires
            old(self).live().no_duplicates(),
            expr@ matches DefinitionView::If { branch_success, branch_failure, .. } ==> descends(
                old(self).blocks(),
                block_index as int,
                branch_success.block_index as int,
            ) && descends(old(self).blocks(), block_index as int, branch_failure.block_index as int),
        ensures
            final(self).blocks() == old(self).blocks(),
            final(self).live() == live_before_definition(
                old(self).blocks(),
                block_index as int,
                expr@,
                old(self).live(),
            ),
            final(self).live().no_duplicates(),
        decreases walk_depth(old(self).blocks(), block_index as int), 1nat,
    {
        match expr {
            Definition::Var(var_ref) => self.collect_var(var_ref),
            Definition::Step(Step::Simple(e)) => self.collect_simple(e),
            Definition::Step(Step::Control(e)) => self.collect_control(block_index, e),
        }
    }

    fn collect_function(&mut self, funname: &String, argnames: &Vec<String>, initial_block_index: usize)
        requires
            walk_ends(old(self).blocks(), initial_block_index as int),
            old(self).live() == Seq::<Name>::empty(),
        ensures
            final(self).blocks() == old(self).blocks(),
            final(self).live() == free_names_of(
                old(self).blocks(),
                funname@,
                views(argnames@),
                initial_block_index as int,
            ),
            final(self).live().no_duplicates(),
    {
        self.collect_block(initial_block_index);
        self.remove(funname);
        let ghost names = views(argnames@);
        let ghost start = self.live();
        assert(names.subrange(0, names.len() as int) =~= names);
        let mut i: usize = 0;
        while i < argnames.len()
            invariant
                i <= argnames.len(),
                names == views(argnames@),
                self.blocks() == old(self).blocks(),
                self.live().no_duplicates(),
                without_names(self.live(), names.subrange(i as int, names.len() as int)) == without_names(
                    start,
                    names,
                ),
            decreases argnames.len() - i,
        {
            let ghost rest = names.subrange(i as int, names.len() as int);
            assert(rest[0] == names[i as int]);
            assert(rest.drop_first() =~= names.subrange(i + 1, names.len() as int));
            self.remove(&argnames[i]);
            i += 1;
        }
    }

    fn collect_control(&mut self, block_index: usize, expr: &Control)
        requires
            old(self).live().no_duplicates(),
            expr@ matches DefinitionView::If { branch_success, branch_failure, .. } ==> descends(
                old(self).blocks(),
                block_index as int,
                branch_success.block_index as int,
            ) && descends(old(self).blocks(), block_index as int, branch_failure.block_index as int),
        ensures
            final(self).blocks() == old(self).blocks(),
            final(self).live() == live_before_definition(
                old(self).blocks(),
                block_index as int,
                expr@,
                old(self).live(),
            ),
            final(self).live().no_duplicates(),
        decreases walk_depth(old(self).blocks(), block_index as int), 0nat,
    {
        match expr {
            Control::Call { func, args } => {
                self.collect_var(func);
                self.collect_vars(args);
            },
            Control::If { condition, branch_success, branch_failure } => {
                self.collect_var(condition);
                self.collect_block(branch_success.block_index);
                self.collect_block(branch_failure.block_index);
            },
        }
    }

    fn collect_simple(&mut self, expr: &Simple)
        requires
            old(self).live().no_duplicates(),
        ensures
            final(self).blocks() == old(self).blocks(),
            forall|block_index: int|
                final(self).live() == #[trigger] live_before_definition(
                    old(self).blocks(),
                    block_index,
                    expr@,
                    old(self).live(),
                ),
            final(self).live().no_duplicates(),
    {
        match expr {
            Simple::Literal(_) => {},
            Simple::Tuple { args } => {
                self.collect_vars(args);
            },
            Simple::SetField { tuple, index: _index, new_value } => {
                self.collect_var(tuple);
                self.collect_var(new_value);
            },
            Simple::BinOp { op: _op, lhs, rhs } => {
                self.collect_var(lhs);
                self.collect_var(rhs);
            },
            Simple::Fun(f) => {
                self.insert_all(&f.free_names);
            },
        }
    }

    fn collect_var(&mut self, expr: &VariableReference)
        requires
            old(self).live().no_duplicates(),
        ensures
            final(self).blocks() == old(self).blocks(),
            final(self).live() == with_name(old(self).live(), expr@),
            final(self).live().no_duplicates(),
    {
        self.insert(&expr.var_name);
    }

    fn collect_vars(&mut self, args: &Vec<VariableReference>)
        requires
            old(self).live().no_duplicates(),
        ensures
            final(self).blocks() == old(self).blocks(),
            final(self).live() == with_names(old(self).live(), views(args@)),
            final(self).live().no_duplicates(),
    {
        let ghost names = views(args@);
        assert(names.subrange(0, names.len() as int) =~= names);
        let mut i: usize = 0;
        while i < args.len()
            invariant
                i <= args.len(),
                names == views(args@),
                self.blocks() == old(self).blocks(),
                self.live().no_duplicates(),
                with_names(self.live(), names.subrange(i as int, names.len() as int)) == with_names(
                    old(self).live(),
                    names,
                ),
            decreases args.len() - i,
        {
            let ghost rest = names.subrange(i as int, names.len() as int);
            assert(rest[0] == names[i as int]);
            assert(rest.drop_first() =~= names.subrange(i + 1, names.len() as int));
            self.collect_var(&args[i]);
            i += 1;
        }
    }

    fn insert_all(&mut self, names: &Vec<String>)
        requires
            old(self).live().no_duplicates(),
        ensures
            final(self).blocks() == old(self).blocks(),
            final(self).live() == with_names(old(self).live(), views(names@)),
            final(self).live().no_duplicates(),
    {
        let ghost all = views(names@);
        assert(all.subrange(0, all.len() as int) =~= all);
        let mut i: usize = 0;
        while i < names.len()
            invariant
                i <= names.len(),
                all == views(names@),
                self.blocks() == old(self).blocks(),
                self.live().no_duplicates(),
                with_names(self.live(), all.subrange(i as int, all.len() as int)) == with_names(
                    old(self).live(),
                    all,
                ),
            decreases names.len() - i,
        {
            let ghost rest = all.subrange(i as int, all.len() as int);
            assert(rest[0] == all[i as int]);
            assert(rest.drop_first() =~= all.subrange(i + 1, all.len() as int));
            self.insert(&names[i]);
            i += 1;
        }
    }

    /// Makes `name` live.
    fn insert(&mut self, name: &String)
        requires
            old(self).live().no_duplicates(),
        ensures
            final(self).blocks() == old(self).blocks(),
            final(self).live() == with_name(old(self).live(), name@),
            final(self).live().no_duplicates(),
    {
        proof {
            lemma_with_name(self.live(), name@);
        }
        let ghost live = self.live();
        let mut i: usize = 0;
        while i < self.free_vars.len()
            invariant
                i <= self.free_vars.len(),
                live == self.live(),
                self.blocks() == old(self).blocks(),
                self.live() == old(self).live(),
                live.no_duplicates(),
                forall|k: int| 0 <= k < i ==> live[k] != name@,
            decreases self.free_vars.len() - i,
        {
            if self.free_vars[i] == *name {
                assert(live[i as int] == name@);
                return ;
            }
            i += 1;
        }
        self.free_vars.push(name.clone());
        assert(self.live() =~= live.push(name@));
    }

    /// Ends the liveness of `name`.
    fn remove(&mut self, name: &String)
        requires
            old(self).live().no_duplicates(),
        ensures
            final(self).blocks() == old(self).blocks(),
            final(self).live() == without_name(old(self).live(), name@),
            final(self).live().no_duplicates(),
    {
        proof {
            lemma_without_name(self.live(), name@);
        }
        let ghost live = self.live();
        let mut kept: Vec<String> = Vec::new();
        let mut i: usize = 0;
        assert(live.subrange(0, 0) =~= Seq::<Name>::empty());
        while i < self.free_vars.len()
            invariant
                i <= self.free_vars.len(),
                live == self.live(),
                self.blocks() == old(self).blocks(),
                self.live() == old(self).live(),
                views(kept@) == without_name(live.subrange(0, i as int), name@),
            decreases self.free_vars.len() - i,
        {
            let ghost upto = live.subrange(0, i + 1);
            assert(upto.drop_last() =~= live.subrange(0, i as int));
            assert(upto.last() == live[i as int]);
            if self.free_vars[i] != *name {
                kept.push(self.free_vars[i].clone());
                assert(views(kept@) =~= without_name(live.subrange(0, i as int), name@).push(live[i as int]));
            }
            i += 1;
        }
        assert(live.subrange(0, i as int) =~= live);
        self.free_vars = kept;
    }

    fn done(self) -> (free: Vec<String>)
        ensures
            views(free@) == self.live(),
    {
        self.free_vars
    }
}

} // verus!
