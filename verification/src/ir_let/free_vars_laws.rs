//! What holds of the names that the analysis of a function's blocks finds.

use vstd::prelude::*;
use crate::ir_let::free_vars::{
    descends, free_names_of, lemma_with_name, lemma_without_name, live_before_block,
    live_before_definition, live_before_instructions, walk_depth, with_name, with_names,
    without_name, without_names,
};
use crate::ir_let::let_expr::{BlockView, DefinitionView, InstructionView};
use crate::syntax::Name;

verus! {

/// Whether a definition reads `name`. A closure allocation reads the names
/// that the function captures; a conditional reads its condition, and what
/// its branches read is read in their blocks.
pub open spec fn definition_mentions(definition: DefinitionView, name: Name) -> bool {
    match definition {
        DefinitionView::Var(var) => var == name,
        DefinitionView::Literal(_) => false,
        DefinitionView::Fun(function) => function.free_names.contains(name),
        DefinitionView::BinOp { lhs, rhs, .. } => lhs == name || rhs == name,
        DefinitionView::Tuple { args } => args.contains(name),
        DefinitionView::SetField { tuple, new_value, .. } => tuple == name || new_value == name,
        DefinitionView::Call { func, args } => func == name || args.contains(name),
        DefinitionView::If { condition, .. } => condition == name,
    }
}

/// Whether an instruction reads `name`.
pub open spec fn mentions(instruction: InstructionView, name: Name) -> bool {
    match instruction {
        InstructionView::EnterBlock => false,
        InstructionView::ExitBlock(var) => var == name,
        InstructionView::Assignment { definition, .. } => definition_mentions(definition, name),
    }
}

/// Whether some instruction of some block reads `name`.
pub open spec fn mentioned_in(blocks: Seq<BlockView>, name: Name) -> bool {
    exists|j: int, i: int|
        0 <= j < blocks.len() && 0 <= i < blocks[j].instructions.len() && mentions(
            #[trigger] blocks[j].instructions[i],
            name,
        )
}

/// A name is live after `with_names` exactly if it was before or is one of
/// those added, and what was free of duplicates stays so.
pub proof fn lemma_with_names(live: Seq<Name>, names: Seq<Name>)
    requires
        live.no_duplicates(),
    ensures
        with_names(live, names).no_duplicates(),
        forall|other: Name|
            with_names(live, names).contains(other) <==> live.contains(other) || names.contains(other),
    decreases names.len(),
{
    if names.len() > 0 {
        lemma_with_name(live, names[0]);
        lemma_with_names(with_name(live, names[0]), names.drop_first());
        assert forall|other: Name| names.contains(other) <==> other == names[0] || names.drop_first().contains(
            other,
        ) by {
            if names.contains(other) {
                let i = choose|i: int| 0 <= i < names.len() && names[i] == other;
                if i > 0 {
                    assert(names.drop_first()[i - 1] == other);
                }
            }
            if names.drop_first().contains(other) {
                let i = choose|i: int| 0 <= i < names.drop_first().len() && names.drop_first()[i] == other;
                assert(names[i + 1] == other);
            }
        }
    }
}

/// A name is live after `without_names` exactly if it was before and is none
/// of those removed, and what was free of duplicates stays so.
pub proof fn lemma_without_names(live: Seq<Name>, names: Seq<Name>)
    requires
        live.no_duplicates(),
    ensures
        without_names(live, names).no_duplicates(),
        forall|other: Name|
            without_names(live, names).contains(other) <==> live.contains(other) && !names.contains(other),
    decreases names.len(),
{
    if names.len() > 0 {
        lemma_without_name(live, names[0]);
        lemma_without_names(without_name(live, names[0]), names.drop_first());
        assert forall|other: Name| names.contains(other) <==> other == names[0] || names.drop_first().contains(
            other,
        ) by {
            if names.contains(other) {
                let i = choose|i: int| 0 <= i < names.len() && names[i] == other;
                if i > 0 {
                    assert(names.drop_first()[i - 1] == other);
                }
            }
            if names.drop_first().contains(other) {
                let i = choose|i: int| 0 <= i < names.drop_first().len() && names.drop_first()[i] == other;
                assert(names[i + 1] == other);
            }
        }
    }
}

/// The names live before a definition are free of duplicates, and each was
/// live after it or is read somewhere in the blocks.
pub proof fn lemma_live_before_definition(
    blocks: Seq<BlockView>,
    block_index: int,
    definition: DefinitionView,
    live: Seq<Name>,
)
    requires
        live.no_duplicates(),
        0 <= block_index < blocks.len(),
        exists|i: int|
            0 <= i < blocks[block_index].instructions.len() && (
            #[trigger] blocks[block_index].instructions[i] matches InstructionView::Assignment {
                definition: found,
                ..
            } && found == definition),
    ensures
        live_before_definition(blocks, block_index, definition, live).no_duplicates(),
        forall|name: Name|
            live_before_definition(blocks, block_index, definition, live).contains(name) ==> live.contains(
                name,
            ) || mentioned_in(blocks, name),
    decreases walk_depth(blocks, block_index), 0nat, 0nat,
{
    let at = choose|i: int|
        0 <= i < blocks[block_index].instructions.len() && (
        #[trigger] blocks[block_index].instructions[i] matches InstructionView::Assignment {
            definition: found,
            ..
        } && found == definition);
    assert forall|name: Name| definition_mentions(definition, name) implies mentioned_in(blocks, name) by {
        assert(mentions(blocks[block_index].instructions[at], name));
    }
    match definition {
        DefinitionView::Var(name) => {
            lemma_with_name(live, name);
        },
        DefinitionView::Literal(_) => {},
        DefinitionView::Tuple { args } => {
            lemma_with_names(live, args);
        },
        DefinitionView::SetField { tuple, new_value, .. } => {
            lemma_with_name(live, tuple);
            lemma_with_name(with_name(live, tuple), new_value);
        },
        DefinitionView::BinOp { lhs, rhs, .. } => {
            lemma_with_name(live, lhs);
            lemma_with_name(with_name(live, lhs), rhs);
        },
        DefinitionView::Fun(function) => {
            lemma_with_names(live, function.free_names);
        },
        DefinitionView::Call { func, args } => {
            lemma_with_name(live, func);
            lemma_with_names(with_name(live, func), args);
        },
        DefinitionView::If { condition, branch_success, branch_failure } => {
            lemma_with_name(live, condition);
            let after_condition = with_name(live, condition);
            let after_success = if descends(blocks, block_index, branch_success.block_index as int) {
                lemma_live_before_block(blocks, branch_success.block_index as int, after_condition);
                live_before_block(blocks, branch_success.block_index as int, after_condition)
            } else {
                after_condition
            };
            if descends(blocks, block_index, branch_failure.block_index as int) {
                lemma_live_before_block(blocks, branch_failure.block_index as int, after_success);
            }
        },
    }
}

/// The names live before the first instructions of a block are free of
/// duplicates, and each was live after them or is read somewhere in the
/// blocks.
pub proof fn lemma_live_before_instructions(
    blocks: Seq<BlockView>,
    block_index: int,
    count: int,
    live: Seq<Name>,
)
    requires
        live.no_duplicates(),
    ensures
        live_before_instructions(blocks, block_index, count, live).no_duplicates(),
        forall|name: Name|
            live_before_instructions(blocks, block_index, count, live).contains(name) ==> live.contains(name)
                || mentioned_in(blocks, name),
    decreases walk_depth(blocks, block_index), 1nat, count,
{
    if 0 <= block_index < blocks.len() && 0 < count <= blocks[block_index].instructions.len() {
        let instruction = blocks[block_index].instructions[count - 1];
        let walked = match instruction {
            InstructionView::EnterBlock => live,
            InstructionView::ExitBlock(name) => with_name(live, name),
            InstructionView::Assignment { name, definition } => live_before_definition(
                blocks,
                block_index,
                definition,
                without_name(live, name),
            ),
        };
        match instruction {
            InstructionView::EnterBlock => {},
            InstructionView::ExitBlock(name) => {
                lemma_with_name(live, name);
                assert(mentions(blocks[block_index].instructions[count - 1], name));
            },
            InstructionView::Assignment { name, definition } => {
                lemma_without_name(live, name);
                lemma_live_before_definition(blocks, block_index, definition, without_name(live, name));
            },
        }
        lemma_live_before_instructions(blocks, block_index, count - 1, walked);
    }
}

/// The names live before a block are free of duplicates, and each was live
/// after it or is read somewhere in the blocks.
pub proof fn lemma_live_before_block(blocks: Seq<BlockView>, block_index: int, live: Seq<Name>)
    requires
        live.no_duplicates(),
    ensures
        live_before_block(blocks, block_index, live).no_duplicates(),
        forall|name: Name|
            live_before_block(blocks, block_index, live).contains(name) ==> live.contains(name)
                || mentioned_in(blocks, name),
    decreases walk_depth(blocks, block_index), 2nat, 0nat,
{
    if 0 <= block_index < blocks.len() {
        lemma_live_before_instructions(
            blocks,
            block_index,
            blocks[block_index].instructions.len() as int,
            live,
        );
    }
}

/// The captured names of a function are free of duplicates; each is read
/// somewhere in the function's blocks, and none is the function's own name
/// or a parameter.
pub proof fn lemma_free_names(
    blocks: Seq<BlockView>,
    funname: Name,
    argnames: Seq<Name>,
    initial_block_index: int,
)
    ensures
        free_names_of(blocks, funname, argnames, initial_block_index).no_duplicates(),
        forall|name: Name|
            free_names_of(blocks, funname, argnames, initial_block_index).contains(name) ==> mentioned_in(
                blocks,
                name,
            ) && name != funname && !argnames.contains(name),
{
    let live = live_before_block(blocks, initial_block_index, Seq::empty());
    lemma_live_before_block(blocks, initial_block_index, Seq::empty());
    lemma_without_name(live, funname);
    lemma_without_names(without_name(live, funname), argnames);
    let result = free_names_of(blocks, funname, argnames, initial_block_index);
    assert forall|name: Name| result.contains(name) implies mentioned_in(blocks, name) && name != funname
        && !argnames.contains(name) by {
        assert(without_name(live, funname).contains(name));
        assert(live.contains(name));
        assert(!Seq::<Name>::empty().contains(name));
    }
}

} // verus!
