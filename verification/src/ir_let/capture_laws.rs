//! The analysis finds every name that a function needs from outside: a name
//! that the function reads and no block of it binds is live before the
//! entry block.

use vstd::prelude::*;
use crate::ir_flat::frame_layout::assigned_names;
use crate::ir_let::free_vars::{
    branches_forward, descends, free_names_of, lemma_branches_descend, lemma_forward_walk_ends,
    lemma_with_name, lemma_without_name, live_before_block, live_before_definition,
    live_before_instructions, walk_depth, with_name, without_name,
};
use crate::ir_let::free_vars_laws::{
    definition_mentions, lemma_live_before_block, lemma_live_before_definition, lemma_with_names,
    lemma_without_names, mentions,
};
use crate::ir_let::let_expr::{BlockView, DefinitionView, InstructionView};
use crate::ir_let::reachability::{branches_to, targeted};
use crate::ir_let::scoping::{bound_anywhere, names_of};
use crate::syntax::Name;

verus! {

/// The name that an assignment binds is among the names that its block
/// binds.
pub proof fn lemma_assigned_name_listed(instructions: Seq<InstructionView>, i: int)
    requires
        0 <= i < instructions.len(),
        instructions[i] is Assignment,
    ensures
        assigned_names(instructions).contains(instructions[i]->Assignment_name),
    decreases instructions.len(),
{
    let names = assigned_names(instructions);
    if i == instructions.len() - 1 {
        assert(names.last() == instructions[i]->Assignment_name);
    } else {
        lemma_assigned_name_listed(instructions.drop_last(), i);
        let shorter = assigned_names(instructions.drop_last());
        let k = choose|k: int| 0 <= k < shorter.len() && shorter[k] == instructions[i]->Assignment_name;
        assert(names[k] == shorter[k]);
    }
}

/// Whether `name` is live before block `block_index` whatever is live after
/// it.
pub open spec fn collects(blocks: Seq<BlockView>, block_index: int, name: Name) -> bool {
    forall|live: Seq<Name>|
        live.no_duplicates() ==> #[trigger] live_before_block(blocks, block_index, live).contains(name)
}

/// A name that no block binds stays live across a definition.
pub proof fn lemma_kept_by_definition(
    blocks: Seq<BlockView>,
    block_index: int,
    definition: DefinitionView,
    live: Seq<Name>,
    name: Name,
)
    requires
        !bound_anywhere(blocks, name),
        live.no_duplicates(),
        live.contains(name),
    ensures
        live_before_definition(blocks, block_index, definition, live).contains(name),
        live_before_definition(blocks, block_index, definition, live).no_duplicates(),
    decreases walk_depth(blocks, block_index), 0nat, 0nat,
{
    match definition {
        DefinitionView::Var(var) => {
            lemma_with_name(live, var);
        },
        DefinitionView::Literal(_) => {},
        DefinitionView::Tuple { args } => {
            lemma_with_names(live, args);
        },
        DefinitionView::SetField { tuple, new_value, .. } => {
            lemma_with_name(live, tuple);
            lemma_with_name(with_name(live, tuple), new_value);
        },
        DefinitionView::BinOp { lhs, rhs, .. } => {
            lemma_with_name(live, lhs);
            lemma_with_name(with_name(live, lhs), rhs);
        },
        DefinitionView::Fun(function) => {
            lemma_with_names(live, function.free_names);
        },
        DefinitionView::Call { func, args } => {
            lemma_with_name(live, func);
            lemma_with_names(with_name(live, func), args);
        },
        DefinitionView::If { condition, branch_success, branch_failure } => {
            lemma_with_name(live, condition);
            let after_condition = with_name(live, condition);
            let after_success = if descends(blocks, block_index, branch_success.block_index as int) {
                lemma_kept_by_block(blocks, branch_success.block_index as int, after_condition, name);
                live_before_block(blocks, branch_success.block_index as int, after_condition)
            } else {
                after_condition
            };
            if descends(blocks, block_index, branch_failure.block_index as int) {
                lemma_kept_by_block(blocks, branch_failure.block_index as int, after_success, name);
            }
        },
    }
}

/// A name that no block binds stays live across the instructions of a block.
pub proof fn lemma_kept_by_instructions(
    blocks: Seq<BlockView>,
    block_index: int,
    count: int,
    live: Seq<Name>,
    name: Name,
)
    requires
        !bound_anywhere(blocks, name),
        live.no_duplicates(),
        live.contains(name),
    ensures
        live_before_instructions(blocks, block_index, count, live).contains(name),
        live_before_instructions(blocks, block_index, count, live).no_duplicates(),
    decreases walk_depth(blocks, block_index), 1nat, count,
{
    if 0 <= block_index < blocks.len() && 0 < count <= blocks[block_index].instructions.len() {
        let instruction = blocks[block_index].instructions[count - 1];
        match instruction {
            InstructionView::EnterBlock => {
                lemma_kept_by_instructions(blocks, block_index, count - 1, live, name);
            },
            InstructionView::ExitBlock(var) => {
                lemma_with_name(live, var);
                lemma_kept_by_instructions(blocks, block_index, count - 1, with_name(live, var), name);
            },
            InstructionView::Assignment { name: bound, definition } => {
                lemma_assigned_name_listed(blocks[block_index].instructions, count - 1);
                assert(names_of(blocks[block_index]).contains(bound));
                lemma_without_name(live, bound);
                lemma_kept_by_definition(blocks, block_index, definition, without_name(live, bound), name);
                lemma_kept_by_instructions(
                    blocks,
                    block_index,
                    count - 1,
                    live_before_definition(blocks, block_index, definition, without_name(live, bound)),
                    name,
                );
            },
        }
    }
}

/// A name that no block binds stays live across a block.
pub proof fn lemma_kept_by_block(blocks: Seq<BlockView>, block_index: int, live: Seq<Name>, name: Name)
    requires
        !bound_anywhere(blocks, name),
        live.no_duplicates(),
        live.contains(name),
    ensures
        live_before_block(blocks, block_index, live).contains(name),
        live_before_block(blocks, block_index, live).no_duplicates(),
    decreases walk_depth(blocks, block_index), 2nat, 0nat,
{
    if 0 <= block_index < blocks.len() {
        lemma_kept_by_instructions(
            blocks,
            block_index,
            blocks[block_index].instructions.len() as int,
            live,
            name,
        );
    }
}

/// A name that a definition reads and no block binds is live before the
/// definition.
pub proof fn lemma_read_by_definition(
    blocks: Seq<BlockView>,
    block_index: int,
    definition: DefinitionView,
    live: Seq<Name>,
    name: Name,
)
    requires
        !bound_anywhere(blocks, name),
        live.no_duplicates(),
        definition_mentions(definition, name),
    ensures
        live_before_definition(blocks, block_index, definition, live).contains(name),
{
    match definition {
        DefinitionView::Var(var) => {
            lemma_with_name(live, var);
        },
        DefinitionView::Literal(_) => {},
        DefinitionView::Tuple { args } => {
            lemma_with_names(live, args);
        },
        DefinitionView::SetField { tuple, new_value, .. } => {
            lemma_with_name(live, tuple);
            lemma_with_name(with_name(live, tuple), new_value);
        },
        DefinitionView::BinOp { lhs, rhs, .. } => {
            lemma_with_name(live, lhs);
            lemma_with_name(with_name(live, lhs), rhs);
        },
        DefinitionView::Fun(function) => {
            lemma_with_names(live, function.free_names);
        },
        DefinitionView::Call { func, args } => {
            lemma_with_name(live, func);
            lemma_with_names(with_name(live, func), args);
        },
        DefinitionView::If { condition, branch_success, branch_failure } => {
            lemma_with_name(live, condition);
            lemma_kept_by_definition(blocks, block_index, definition, with_name(live, condition), name);
            assert(with_name(with_name(live, condition), condition) == with_name(live, condition));
        },
    }
}

/// A name that an instruction of a block reads and no block binds is live
/// before the block's first instructions, if the instruction is among them.
pub proof fn lemma_read_collected(
    blocks: Seq<BlockView>,
    block_index: int,
    count: int,
    live: Seq<Name>,
    i: int,
    name: Name,
)
    requires
        0 <= block_index < blocks.len(),
        0 <= i < count <= blocks[block_index].instructions.len(),
        mentions(blocks[block_index].instructions[i], name),
        !bound_anywhere(blocks, name),
        live.no_duplicates(),
    ensures
        live_before_instructions(blocks, block_index, count, live).contains(name),
    decreases count,
{
    let instruction = blocks[block_index].instructions[count - 1];
    let walked = match instruction {
        InstructionView::EnterBlock => live,
        InstructionView::ExitBlock(var) => with_name(live, var),
        InstructionView::Assignment { name: bound, definition } => live_before_definition(
            blocks,
            block_index,
            definition,
            without_name(live, bound),
        ),
    };
    match instruction {
        InstructionView::EnterBlock => {},
        InstructionView::ExitBlock(var) => {
            lemma_with_name(live, var);
        },
        InstructionView::Assignment { name: bound, definition } => {
            lemma_without_name(live, bound);
            lemma_live_before_definition(blocks, block_index, definition, without_name(live, bound));
            if i == count - 1 {
                lemma_read_by_definition(blocks, block_index, definition, without_name(live, bound), name);
            }
        },
    }
    if i == count - 1 {
        lemma_kept_by_instructions(blocks, block_index, count - 1, walked, name);
    } else {
        lemma_read_collected(blocks, block_index, count - 1, walked, i, name);
    }
}

/// A name that is live before a branch of a conditional, whatever is live
/// after it, and that no block binds, is live before the first instructions
/// of the conditional's block, if the conditional is among them.
pub proof fn lemma_branch_collected(
    blocks: Seq<BlockView>,
    block_index: int,
    count: int,
    live: Seq<Name>,
    i: int,
    branch: int,
    name: Name,
)
    requires
        branches_forward(blocks),
        0 <= block_index < blocks.len(),
        0 <= i < count <= blocks[block_index].instructions.len(),
        branches_to(blocks[block_index].instructions[i], branch),
        collects(blocks, branch, name),
        !bound_anywhere(blocks, name),
        live.no_duplicates(),
    ensures
        live_before_instructions(blocks, block_index, count, live).contains(name),
    decreases count,
{
    let instruction = blocks[block_index].instructions[count - 1];
    let walked = match instruction {
        InstructionView::EnterBlock => live,
        InstructionView::ExitBlock(var) => with_name(live, var),
        InstructionView::Assignment { name: bound, definition } => live_before_definition(
            blocks,
            block_index,
            definition,
            without_name(live, bound),
        ),
    };
    match instruction {
        InstructionView::EnterBlock => {},
        InstructionView::ExitBlock(var) => {
            lemma_with_name(live, var);
        },
        InstructionView::Assignment { name: bound, definition } => {
            lemma_without_name(live, bound);
            let below = without_name(live, bound);
            lemma_live_before_definition(blocks, block_index, definition, below);
            if i == count - 1 {
                if let DefinitionView::If { condition, branch_success, branch_failure } = definition {
                    lemma_with_name(below, condition);
                    let after_condition = with_name(below, condition);
                    lemma_forward_walk_ends(blocks, block_index);
                    lemma_branches_descend(blocks, block_index, count - 1);
                    lemma_live_before_block(blocks, branch_success.block_index as int, after_condition);
                    let after_success = live_before_block(
                        blocks,
                        branch_success.block_index as int,
                        after_condition,
                    );
                    if branch_failure.block_index == branch {
                        assert(live_before_block(blocks, branch, after_success).contains(name));
                    } else {
                        assert(live_before_block(blocks, branch, after_condition).contains(name));
                        lemma_kept_by_block(blocks, branch_failure.block_index as int, after_success, name);
                    }
                }
            }
        },
    }
    if i == count - 1 {
        lemma_kept_by_instructions(blocks, block_index, count - 1, walked, name);
    } else {
        lemma_branch_collected(blocks, block_index, count - 1, walked, i, branch, name);
    }
}

/// A name that is live before a block, whatever is live after it, and that
/// no block binds, is live before the entry block, if every block but the
/// entry is a branch of a conditional in its parent.
pub proof fn lemma_collected_at_entry(blocks: Seq<BlockView>, block_index: int, name: Name)
    requires
        branches_forward(blocks),
        forall|j: int| #![trigger blocks[j]] 0 < j < blocks.len() ==> targeted(blocks, j),
        0 <= block_index < blocks.len(),
        collects(blocks, block_index, name),
        !bound_anywhere(blocks, name),
    ensures
        collects(blocks, 0, name),
    decreases block_index,
{
    if block_index > 0 {
        assert(targeted(blocks, block_index)) by {
            let block = blocks[block_index];
        }
        let parent = blocks[block_index].parent_block_index->Some_0 as int;
        let i = choose|i: int|
            0 <= i < blocks[parent].instructions.len() && branches_to(
                #[trigger] blocks[parent].instructions[i],
                block_index,
            );
        assert forall|live: Seq<Name>| live.no_duplicates() implies #[trigger] live_before_block(
            blocks,
            parent,
            live,
        ).contains(name) by {
            lemma_branch_collected(
                blocks,
                parent,
                blocks[parent].instructions.len() as int,
                live,
                i,
                block_index,
                name,
            );
        }
        lemma_collected_at_entry(blocks, parent, name);
    }
}

/// A name that a function reads and none of its blocks binds is the
/// function's own name, a parameter or a captured name, if every block but
/// the entry is a branch of a conditional in its parent.
pub proof fn lemma_unbound_read_is_captured(
    blocks: Seq<BlockView>,
    funname: Name,
    argnames: Seq<Name>,
    block_index: int,
    i: int,
    name: Name,
)
    requires
        branches_forward(blocks),
        forall|j: int| #![trigger blocks[j]] 0 < j < blocks.len() ==> targeted(blocks, j),
        0 <= block_index < blocks.len(),
        0 <= i < blocks[block_index].instructions.len(),
        mentions(blocks[block_index].instructions[i], name),
        !bound_anywhere(blocks, name),
    ensures
        name == funname || argnames.contains(name) || free_names_of(blocks, funname, argnames, 0).contains(
            name,
        ),
{
    assert forall|live: Seq<Name>| live.no_duplicates() implies #[trigger] live_before_block(
        blocks,
        block_index,
        live,
    ).contains(name) by {
        lemma_read_collected(
            blocks,
            block_index,
            blocks[block_index].instructions.len() as int,
            live,
            i,
            name,
        );
    }
    lemma_collected_at_entry(blocks, block_index, name);
    let live = live_before_block(blocks, 0, Seq::empty());
    assert(Seq::<Name>::empty().no_duplicates());
    assert(live.contains(name));
    lemma_live_before_block(blocks, 0, Seq::empty());
    lemma_without_name(live, funname);
    lemma_without_names(without_name(live, funname), argnames);
}

} // verus!
