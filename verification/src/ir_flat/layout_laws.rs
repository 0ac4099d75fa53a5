//! What holds of the layout of a normalized program.

use vstd::prelude::*;
use crate::ir_flat::frame_layout::{
    assigned_names, block_layout_of, function_layout_of, known_free_names, layout_ready,
    local_slot, numbered, slot_from, slot_of, start_offset_of,
};
use crate::ir_let::capture_laws::lemma_unbound_read_is_captured;
use crate::ir_let::free_vars_laws::mentions;
use crate::ir_let::let_expr::{FunctionView, ProgramView};
use crate::ir_let::normal_form::normal_program;
use crate::ir_let::reachability::{lemma_normal_program_reached, targeted};
use crate::ir_let::scoping::{bound_in_chain, in_scope, names_of};
use crate::ir_let::scoping_laws::lemma_normal_program_reads_in_scope;
use crate::ir_let::well_formed::{
    block_ok, function_complete, function_ok, lemma_ok_branches_forward,
};
use crate::syntax::{Expr, Name};

verus! {

/// A well-formed program whose binders are all different can be laid out,
/// if the slots of its blocks can be numbered.
pub proof fn lemma_well_formed_is_layout_ready(program: ProgramView)
    requires
        program.well_formed(),
        program.binders_distinct(),
        program.frames_fit(),
    ensures
        program.layout_ready(),
{
    assert forall|g: int| 0 <= g < program.functions.len() implies layout_ready(
        #[trigger] program.functions[g],
    ) by {
        let function = program.functions[g];
        assert(function_ok(program.functions, g));
        assert(crate::ir_let::binders::binders_unique(function));
        assert forall|j: int| #![trigger function.blocks[j]] 0 <= j < function.blocks.len() implies {
            &&& function.blocks[j].parent_block_index matches Some(parent) ==> parent < j
            &&& assigned_names(function.blocks[j].instructions).no_duplicates()
            &&& start_offset_of(function.blocks, j) + assigned_names(function.blocks[j].instructions).len()
                <= usize::MAX
        } by {
            assert(block_ok(program.functions, g, j));
            assert(program.functions[g].blocks[j] == function.blocks[j]);
        }
    }
}

/// A name that is among `offsets` at or after position `from` has a slot.
pub proof fn lemma_slot_found(offsets: Seq<(Name, usize)>, name: Name, from: int, at: int)
    requires
        0 <= from <= at < offsets.len(),
        offsets[at].0 == name,
    ensures
        slot_from(offsets, name, from) is Some,
    decreases at - from,
{
    if offsets[from].0 != name {
        lemma_slot_found(offsets, name, from + 1, at);
    }
}

/// A name that is among the names laid out has a slot.
pub proof fn lemma_numbered_has_slot(base: int, names: Seq<Name>, name: Name)
    requires
        names.contains(name),
    ensures
        slot_of(numbered(base, names), name) is Some,
{
    let at = choose|at: int| 0 <= at < names.len() && names[at] == name;
    lemma_slot_found(numbered(base, names), name, 0, at);
}

/// A name that a block or a block around it binds has a local slot.
pub proof fn lemma_bound_has_local_slot(function: FunctionView, block_index: int, name: Name)
    requires
        bound_in_chain(function.blocks, block_index, name),
    ensures
        local_slot(function_layout_of(function).blocks, block_index, name) is Some,
    decreases block_index,
{
    let blocks = function.blocks;
    let layouts = function_layout_of(function).blocks;
    assert(layouts[block_index] == block_layout_of(blocks, block_index));
    if names_of(blocks[block_index]).contains(name) {
        lemma_numbered_has_slot(
            start_offset_of(blocks, block_index),
            assigned_names(blocks[block_index].instructions),
            name,
        );
    } else {
        let parent = blocks[block_index].parent_block_index->Some_0 as int;
        lemma_bound_has_local_slot(function, parent, name);
    }
}

impl ProgramView {
    /// Whether every name that an instruction reads can be resolved in the
    /// instruction's block: as a local, a parameter, the function's own
    /// name or a captured name.
    pub open spec fn references_resolve(self) -> bool {
        forall|g: int, j: int, i: int, name: Name|
            0 <= g < self.functions.len() && 0 <= j < self.functions[g].blocks.len() && 0 <= i
                < self.functions[g].blocks[j].instructions.len() && #[trigger] mentions(
                self.functions[g].blocks[j].instructions[i],
                name,
            ) ==> function_layout_of(self.functions[g]).resolve(j, name) is Some
    }
}

/// In a well-formed program that reads every name where it is in scope, and
/// whose blocks are all branches of conditionals in their parents, every
/// name that an instruction reads can be resolved.
pub proof fn lemma_scoped_program_resolves(program: ProgramView)
    requires
        program.well_formed(),
        program.reads_in_scope(),
        program.branches_reach_blocks(),
    ensures
        program.references_resolve(),
{
    assert forall|g: int, j: int, i: int, name: Name|
        0 <= g < program.functions.len() && 0 <= j < program.functions[g].blocks.len() && 0 <= i
            < program.functions[g].blocks[j].instructions.len() && #[trigger] mentions(
            program.functions[g].blocks[j].instructions[i],
            name,
        ) implies function_layout_of(program.functions[g]).resolve(j, name) is Some by {
        let function = program.functions[g];
        let blocks = function.blocks;
        assert(in_scope(blocks, j, name));
        if bound_in_chain(blocks, j, name) {
            lemma_bound_has_local_slot(function, j, name);
        } else {
            assert(function_ok(program.functions, g));
            assert(function_complete(function));
            lemma_ok_branches_forward(program.functions, g);
            assert forall|k: int| #![trigger blocks[k]] 0 < k < blocks.len() implies targeted(blocks, k) by {
                assert(targeted(program.functions[g].blocks, k));
            }
            lemma_unbound_read_is_captured(blocks, function.name, function.arg_names, j, i, name);
            if function.arg_names.contains(name) {
                lemma_numbered_has_slot(0, function.arg_names, name);
            } else if name != function.name {
                lemma_numbered_has_slot(0, known_free_names(function), name);
            }
        }
    }
}

/// In a program that let-normalization yields, every name that an
/// instruction reads can be resolved in the instruction's block.
pub proof fn lemma_normal_program_resolves(e: Expr)
    ensures
        normal_program(e) matches Ok(program) ==> program.references_resolve(),
{
    crate::ir_let::invariants::lemma_normal_program_well_formed(e);
    lemma_normal_program_reads_in_scope(e);
    lemma_normal_program_reached(e);
    if let Ok(program) = normal_program(e) {
        lemma_scoped_program_resolves(program);
    }
}

} // verus!
