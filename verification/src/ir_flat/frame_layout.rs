//! Frame layout: a slot for every name of a function.
//!
//! The locals of a block take consecutive slots in the order in which the
//! block binds them, starting where the slots of its parent block end, or at
//! 0 where it has no parent. Parameters and captured names are numbered by
//! position. A name is resolved in the block where it is read, then in that
//! block's ancestors, then among the parameters, then as the function's own
//! name, then among the captured names.

use vstd::prelude::*;
use crate::ir_flat::syntax::{ArgumentReference, ClosureReference, LocalReference, Reference};
use crate::ir_let::let_expr::{
    Block, BlockView, Function, FunctionView, Instruction, InstructionView, Program, ProgramView,
};
use crate::syntax::{Name, views};

verus! {

/// The names that the assignments of a block bind, in order.
pub open spec fn assigned_names(instructions: Seq<InstructionView>) -> Seq<Name>
    decreases instructions.len(),
{
    if instructions.len() == 0 {
        Seq::empty()
    } else {
        match instructions.last() {
            InstructionView::Assignment { name, .. } => assigned_names(instructions.drop_last()).push(name),
            _ => assigned_names(instructions.drop_last()),
        }
    }
}

/// The names of `names`, each with its slot: `base` and up.
pub open spec fn numbered(base: int, names: Seq<Name>) -> Seq<(Name, usize)> {
    Seq::new(names.len(), |i: int| (names[i], (base + i) as usize))
}

/// The slot of `name` among `offsets`, searched from position `from` on.
pub open spec fn slot_from(offsets: Seq<(Name, usize)>, name: Name, from: int) -> Option<usize>
    decreases offsets.len() - from,
{
    if from < 0 || from >= offsets.len() {
        None
    } else if offsets[from].0 == name {
        Some(offsets[from].1)
    } else {
        slot_from(offsets, name, from + 1)
    }
}

/// The slot of `name` among `offsets`.
pub open spec fn slot_of(offsets: Seq<(Name, usize)>, name: Name) -> Option<usize> {
    slot_from(offsets, name, 0)
}

pub struct BlockLayoutView {
    pub start_offset: usize,
    pub offsets: Seq<(Name, usize)>,
    pub parent_block_index: Option<usize>,
}

impl BlockLayoutView {
    /// The first slot after those of the block.
    pub open spec fn end_offset(self) -> int {
        self.start_offset + self.offsets.len()
    }
}

pub struct FunctionLayoutView {
    pub this_name: Name,
    pub offsets_arguments: Seq<(Name, usize)>,
    pub offsets_free_vars: Seq<(Name, usize)>,
    pub blocks: Seq<BlockLayoutView>,
}

/// The slot of `name` as a local of block `block_index` or of the nearest of
/// its ancestors that binds it.
pub open spec fn local_slot(blocks: Seq<BlockLayoutView>, block_index: int, name: Name) -> Option<usize>
    decreases block_index,
{
    if block_index < 0 || block_index >= blocks.len() {
        None
    } else {
        match slot_of(blocks[block_index].offsets, name) {
            Some(slot) => Some(slot),
            None => match blocks[block_index].parent_block_index {
                Some(parent) => if parent < block_index {
                    local_slot(blocks, parent as int, name)
                } else {
                    None
                },
                None => None,
            },
        }
    }
}

impl FunctionLayoutView {
    /// Where `name` lives when read in block `block_index`: a local of the
    /// block or of an ancestor, else a parameter, else the function itself,
    /// else a captured name.
    pub open spec fn resolve(self, block_index: int, name: Name) -> Option<Reference> {
        match local_slot(self.blocks, block_index, name) {
            Some(slot) => Some(Reference::Local(LocalReference(slot))),
            None => match slot_of(self.offsets_arguments, name) {
                Some(slot) => Some(Reference::Argument(ArgumentReference(slot))),
                None => if self.this_name == name {
                    Some(Reference::This)
                } else {
                    match slot_of(self.offsets_free_vars, name) {
                        Some(slot) => Some(Reference::Closure(ClosureReference(slot))),
                        None => None,
                    }
                },
            },
        }
    }
}

/// The slot at which the locals of block `block_index` start.
pub open spec fn start_offset_of(blocks: Seq<BlockView>, block_index: int) -> int
    decreases block_index,
{
    if block_index < 0 || block_index >= blocks.len() {
        0
    } else {
        match blocks[block_index].parent_block_index {
            Some(parent) => if parent < block_index {
                start_offset_of(blocks, parent as int) + assigned_names(blocks[parent as int].instructions).len()
            } else {
                0
            },
            None => 0,
        }
    }
}

/// The layout of block `block_index`.
pub open spec fn block_layout_of(blocks: Seq<BlockView>, block_index: int) -> BlockLayoutView {
    BlockLayoutView {
        start_offset: start_offset_of(blocks, block_index) as usize,
        offsets: numbered(
            start_offset_of(blocks, block_index),
            assigned_names(blocks[block_index].instructions),
        ),
        parent_block_index: blocks[block_index].parent_block_index,
    }
}

/// The names that a function captures; none where they are not known.
pub open spec fn known_free_names(function: FunctionView) -> Seq<Name> {
    match function.free_names {
        Some(names) => names,
        None => Seq::empty(),
    }
}

/// The layout of a function.
pub open spec fn function_layout_of(function: FunctionView) -> FunctionLayoutView {
    FunctionLayoutView {
        this_name: function.name,
        offsets_arguments: numbered(0, function.arg_names),
        offsets_free_vars: numbered(0, known_free_names(function)),
        blocks: Seq::new(function.blocks.len(), |j: int| block_layout_of(function.blocks, j)),
    }
}

/// The layout of a program: that of each of its functions.
pub open spec fn program_layout_of(program: ProgramView) -> Seq<FunctionLayoutView> {
    Seq::new(program.functions.len(), |g: int| function_layout_of(program.functions[g]))
}

/// Whether a function can be laid out: its captured names are known, every
/// block comes after its parent, no block binds a name twice, no parameter
/// and no captured name occurs twice, and the slots can be numbered.
pub open spec fn layout_ready(function: FunctionView) -> bool {
    &&& function.free_names is Some
    &&& function.arg_names.no_duplicates()
    &&& known_free_names(function).no_duplicates()
    &&& forall|j: int|
        #![trigger function.blocks[j]]
        0 <= j < function.blocks.len() ==> {
            &&& function.blocks[j].parent_block_index matches Some(parent) ==> parent < j
            &&& assigned_names(function.blocks[j].instructions).no_duplicates()
            &&& start_offset_of(function.blocks, j) + assigned_names(function.blocks[j].instructions).len()
                <= usize::MAX
        }
}

impl ProgramView {
    /// Whether every function of the program can be laid out.
    pub open spec fn layout_ready(self) -> bool {
        forall|g: int| 0 <= g < self.functions.len() ==> layout_ready(#[trigger] self.functions[g])
    }

    /// Whether the slots of every block can be numbered.
    pub open spec fn frames_fit(self) -> bool {
        forall|g: int, j: int|
            #![trigger self.functions[g].blocks[j]]
            0 <= g < self.functions.len() && 0 <= j < self.functions[g].blocks.len() ==> start_offset_of(
                self.functions[g].blocks,
                j,
            ) + assigned_names(self.functions[g].blocks[j].instructions).len() <= usize::MAX
    }
}

/// Whether no name occurs twice.
fn all_distinct(names: &Vec<String>) -> (distinct: bool)
    ensures
        distinct == views(names@).no_duplicates(),
{
    let ghost all = views(names@);
    let mut i: usize = 0;
    while i < names.len()
        invariant
            i <= names.len(),
            all == views(names@),
            forall|p: int, q: int| 0 <= p < q < i ==> all[p] != all[q],
        decreases names.len() - i,
    {
        let mut k: usize = 0;
        while k < i
            invariant
                k <= i,
                i < names.len(),
                all == views(names@),
                forall|p: int| 0 <= p < k ==> all[p] != all[i as int],
            decreases i - k,
        {
            if names[k] == names[i] {
                assert(all[k as int] == all[i as int]);
                return false;
            }
            k += 1;
        }
        i += 1;
    }
    assert forall|p: int, q: int| 0 <= p < all.len() && 0 <= q < all.len() && p != q implies all[p]
        != all[q] by {
        if p < q {
            assert(all[p] != all[q]);
        } else {
            assert(all[q] != all[p]);
        }
    }
    true
}

/// Whether a function can be laid out.
pub fn function_layout_ready(function: &Function) -> (ready: bool)
    ensures
        ready == layout_ready(function@),
{
    let free_distinct = match &function.free_names {
        Some(names) => all_distinct(names),
        None => false,
    };
    if !free_distinct || !all_distinct(&function.arg_names) {
        return false;
    }
    let ghost blocks = function@.blocks;
    let mut ends: Vec<usize> = Vec::new();
    let mut j: usize = 0;
    while j < function.blocks.len()
        invariant
            j <= function.blocks.len(),
            blocks == function@.blocks,
            ends.len() == j,
            forall|k: int|
                #![trigger blocks[k]]
                0 <= k < j ==> {
                    &&& blocks[k].parent_block_index matches Some(parent) ==> parent < k
                    &&& assigned_names(blocks[k].instructions).no_duplicates()
                    &&& ends[k] == start_offset_of(blocks, k) + assigned_names(blocks[k].instructions).len()
                },
        decreases function.blocks.len() - j,
    {
        let block = &function.blocks[j];
        assert(blocks[j as int] == block@);
        let start: usize = match block.parent_block_index {
            Some(parent) => {
                if parent >= j {
                    return false;
                }
                assert(blocks[parent as int] == function@.blocks[parent as int]);
                ends[parent]
            },
            None => 0,
        };
        assert(start == start_offset_of(blocks, j as int));
        let names = block_names(block);
        if !all_distinct(&names) {
            return false;
        }
        match start.checked_add(names.len()) {
            Some(end) => {
                ends.push(end);
            },
            None => {
                return false;
            },
        }
        j += 1;
    }
    true
}

/// Whether every function of the program can be laid out.
pub fn program_layout_ready(program: &Program) -> (ready: bool)
    ensures
        ready == program@.layout_ready(),
{
    let mut g: usize = 0;
    while g < program.functions.len()
        invariant
            g <= program.functions.len(),
            forall|k: int| 0 <= k < g ==> layout_ready(#[trigger] program@.functions[k]),
        decreases program.functions.len() - g,
    {
        assert(program@.functions[g as int] == program.functions[g as int]@);
        if !function_layout_ready(&program.functions[g]) {
            return false;
        }
        g += 1;
    }
    true
}

/// The slots of `names`, from `base_offset` up.
fn compute_layout(base_offset: usize, names: &Vec<String>) -> (offsets: Vec<(String, usize)>)
    requires
        views(names@).no_duplicates(),
        base_offset + names.len() <= usize::MAX,
    ensures
        offsets_view(offsets@) == numbered(base_offset as int, views(names@)),
{
    let mut offsets: Vec<(String, usize)> = Vec::new();
    let mut i: usize = 0;
    while i < names.len()
        invariant
            i <= names.len(),
            base_offset + names.len() <= usize::MAX,
            offsets.len() == i,
            forall|k: int|
                #![trigger offsets[k]]
                0 <= k < i ==> offsets[k].0@ == names[k]@ && offsets[k].1 == base_offset + k,
        decreases names.len() - i,
    {
        let name = names[i].clone();
        offsets.push((name, base_offset + i));
        i += 1;
    }
    assert(offsets_view(offsets@) =~= numbered(base_offset as int, views(names@)));
    offsets
}

/// Names with their slots, as the contracts see them.
pub open spec fn offsets_view(offsets: Seq<(String, usize)>) -> Seq<(Name, usize)> {
    Seq::new(offsets.len(), |i: int| (offsets[i].0@, offsets[i].1))
}

/// The slot of `name` among `offsets`.
fn find_slot(offsets: &Vec<(String, usize)>, name: &String) -> (slot: Option<usize>)
    ensures
        slot == slot_of(offsets_view(offsets@), name@),
{
    let ghost all = offsets_view(offsets@);
    let mut i: usize = 0;
    while i < offsets.len()
        invariant
            i <= offsets.len(),
            all == offsets_view(offsets@),
            slot_from(all, name@, i as int) == slot_of(all, name@),
        decreases offsets.len() - i,
    {
        if offsets[i].0 == *name {
            return Some(offsets[i].1);
        }
        i += 1;
    }
    None
}

/// The names that the assignments of a block bind, in order.
fn block_names(block: &Block) -> (names: Vec<String>)
    ensures
        views(names@) == assigned_names(block@.instructions),
{
    let ghost all = block@.instructions;
    let mut names: Vec<String> = Vec::new();
    let mut i: usize = 0;
    assert(all.subrange(0, 0) =~= Seq::<InstructionView>::empty());
    assert(views(names@) =~= Seq::<Name>::empty());
    while i < block.instructions.len()
        invariant
            i <= block.instructions.len(),
            all == block@.instructions,
            views(names@) == assigned_names(all.subrange(0, i as int)),
        decreases block.instructions.len() - i,
    {
        let ghost upto = all.subrange(0, i + 1);
        let ghost before = views(names@);
        assert(upto.drop_last() =~= all.subrange(0, i as int));
        assert(upto.last() == block.instructions[i as int]@);
        match &block.instructions[i] {
            Instruction::Assignment(assignment) => {
                names.push(assignment.name.clone());
                assert(views(names@) =~= before.push(assignment.name@));
            },
            _ => {},
        }
        i += 1;
    }
    assert(all.subrange(0, i as int) =~= all);
    names
}

#[derive(Debug)]
struct BlockFrameLayout {
    /// The first slot of the block, counted from the base of the function's
    /// local space.
    start_offset: usize,
    offsets: Vec<(String, usize)>,
    parent_block_index: Option<usize>,
}

impl View for BlockFrameLayout {
    type V = BlockLayoutView;

    closed spec fn view(&self) -> BlockLayoutView {
        BlockLayoutView {
            start_offset: self.start_offset,
            offsets: offsets_view(self.offsets@),
            parent_block_index: self.parent_block_index,
        }
    }
}

impl BlockFrameLayout {
    /// The first slot that the block does not occupy: blocks nested in it
    /// start there.
    fn end_offset(&self) -> (end: usize)
        requires
            self@.end_offset() <= usize::MAX,
        ensures
            end == self@.end_offset(),
    {
        self.start_offset + self.offsets.len()
    }
}

#[derive(Debug)]
struct FunctionFrameLayout {
    this_name: String,
    offsets_arguments: Vec<(String, usize)>,
    offsets_free_vars: Vec<(String, usize)>,
    blocks: Vec<BlockFrameLayout>,
}

impl View for FunctionFrameLayout {
    type V = FunctionLayoutView;

    closed spec fn view(&self) -> FunctionLayoutView {
        FunctionLayoutView {
            this_name: self.this_name@,
            offsets_arguments: offsets_view(self.offsets_arguments@),
            offsets_free_vars: offsets_view(self.offsets_free_vars@),
            blocks: views(self.blocks@),
        }
    }
}

#[derive(Debug)]
pub struct ProgramFrameLayout {
    functions: Vec<FunctionFrameLayout>,
}

impl View for ProgramFrameLayout {
    type V = Seq<FunctionLayoutView>;

    closed spec fn view(&self) -> Seq<FunctionLayoutView> {
        views(self.functions@)
    }
}

impl ProgramFrameLayout {
    /// The number of functions laid out.
    pub fn function_count(&self) -> (count: usize)
        ensures
            count == self@.len(),
    {
        self.functions.len()
    }

    /// The number of blocks of a function.
    pub fn block_count(&self, function_index: usize) -> (count: usize)
        requires
            function_index < self@.len(),
        ensures
            count == self@[function_index as int].blocks.len(),
    {
        self.functions[function_index].blocks.len()
    }

    /// The number of slots that a block occupies.
    pub fn frame_size(&self, function_index: usize, block_index: usize) -> (size: usize)
        requires
            function_index < self@.len(),
            block_index < self@[function_index as int].blocks.len(),
        ensures
            size == self@[function_index as int].blocks[block_index as int].offsets.len(),
    {
        let function_layout = &self.functions[function_index];
        let block_layout = &function_layout.blocks[block_index];
        assert(function_layout@.blocks[block_index as int] == block_layout@);
        block_layout.offsets.len()
    }

    /// Where `name` lives when read in the given block, if it is bound there.
    pub fn resolve_var(&self, function_index: usize, block_index: usize, name: &String) -> (found: Option<
        Reference,
    >)
        requires
            function_index < self@.len(),
            block_index < self@[function_index as int].blocks.len(),
        ensures
            found == self@[function_index as int].resolve(block_index as int, name@),
    {
        let function_layout = &self.functions[function_index];
        let ghost blocks = function_layout@.blocks;
        // The locals come first, from the innermost enclosing block to the
        // outermost.
        let mut current_block_index: Option<usize> = Some(block_index);
        let ghost mut bound: int = block_index + 1;
        while current_block_index.is_some()
            invariant
                function_layout@ == self@[function_index as int],
                blocks == function_layout@.blocks,
                current_block_index matches Some(index) ==> index < bound && index < blocks.len() && local_slot(
                    blocks,
                    index as int,
                    name@,
                ) == local_slot(blocks, block_index as int, name@),
                current_block_index is None ==> local_slot(blocks, block_index as int, name@) is None,
            decreases bound,
        {
            let index = current_block_index.unwrap();
            let block_layout = &function_layout.blocks[index];
            assert(blocks[index as int] == block_layout@);
            if let Some(offset) = find_slot(&block_layout.offsets, name) {
                return Some(Reference::Local(LocalReference(offset)));
            }
            current_block_index = match block_layout.parent_block_index {
                Some(parent) => if parent < index {
                    Some(parent)
                } else {
                    None
                },
                None => None,
            };
            proof {
                bound = index as int;
            }
        }
        // Then the parameters, the function's own name, and the captured
        // names.
        if let Some(offset) = find_slot(&function_layout.offsets_arguments, name) {
            return Some(Reference::Argument(ArgumentReference(offset)));
        }
        if function_layout.this_name == *name {
            return Some(Reference::This);
        }
        if let Some(offset) = find_slot(&function_layout.offsets_free_vars, name) {
            return Some(Reference::Closure(ClosureReference(offset)));
        }
        None
    }

    /// Where `name` lives when read in the given block, where it is bound.
    pub fn lookup_var(&self, function_index: usize, block_index: usize, name: &String) -> (reference: Reference)
        requires
            function_index < self@.len(),
            block_index < self@[function_index as int].blocks.len(),
            self@[function_index as int].resolve(block_index as int, name@) is Some,
        ensures
            self@[function_index as int].resolve(block_index as int, name@) == Some(reference),
    {
        self.resolve_var(function_index, block_index, name).unwrap()
    }
}

pub fn compute_program_frame_layout(program: &Program) -> (layout: ProgramFrameLayout)
    requires
        program@.layout_ready(),
    ensures
        layout@ == program_layout_of(program@),
{
    let mut function_layouts: Vec<FunctionFrameLayout> = Vec::new();
    let mut i: usize = 0;
    while i < program.functions.len()
        invariant
            i <= program.functions.len(),
            program@.layout_ready(),
            function_layouts.len() == i,
            forall|g: int| 0 <= g < i ==> (#[trigger] function_layouts[g])@ == function_layout_of(program@.functions[g]),
        decreases program.functions.len() - i,
    {
        assert(layout_ready(program@.functions[i as int]));
        assert(program@.functions[i as int] == program.functions[i as int]@);
        function_layouts.push(compute_function_frame_layout(&program.functions[i]));
        i += 1;
    }
    let layout = ProgramFrameLayout { functions: function_layouts };
    assert(layout@ =~= program_layout_of(program@));
    layout
}

/// The layout of block `block_index`, given those of the blocks before it.
fn compute_block_frame_layout(function: &Function, block_index: usize, earlier: &Vec<BlockFrameLayout>) -> (layout:
    BlockFrameLayout)
    requires
        layout_ready(function@),
        block_index < function.blocks.len(),
        earlier.len() == block_index,
        forall|k: int| 0 <= k < block_index ==> (#[trigger] earlier[k])@ == block_layout_of(function@.blocks, k),
    ensures
        layout@ == block_layout_of(function@.blocks, block_index as int),
{
    let ghost blocks = function@.blocks;
    let b = &function.blocks[block_index];
    assert(blocks[block_index as int] == b@);
    proof {
        lemma_start_offset_nonnegative(blocks, block_index as int);
    }
    let start_offset = match b.parent_block_index {
        Some(parent_index) => {
            assert(parent_index < block_index);
            proof {
                lemma_start_offset_nonnegative(blocks, parent_index as int);
                assert(earlier[parent_index as int]@ == block_layout_of(blocks, parent_index as int));
                let parent = function@.blocks[parent_index as int];
                assert(start_offset_of(blocks, parent_index as int) + assigned_names(parent.instructions).len()
                    <= usize::MAX);
            }
            earlier[parent_index].end_offset()
        },
        None => 0,
    };
    assert(start_offset == start_offset_of(blocks, block_index as int));
    let names = block_names(b);
    BlockFrameLayout {
        start_offset,
        offsets: compute_layout(start_offset, &names),
        parent_block_index: b.parent_block_index,
    }
}

/// No block starts below slot 0.
proof fn lemma_start_offset_nonnegative(blocks: Seq<BlockView>, block_index: int)
    ensures
        start_offset_of(blocks, block_index) >= 0,
    decreases block_index,
{
    if 0 <= block_index < blocks.len() {
        if let Some(parent) = blocks[block_index].parent_block_index {
            if parent < block_index {
                lemma_start_offset_nonnegative(blocks, parent as int);
            }
        }
    }
}

fn compute_function_frame_layout(function: &Function) -> (layout: FunctionFrameLayout)
    requires
        layout_ready(function@),
    ensures
        layout@ == function_layout_of(function@),
{
    let ghost blocks = function@.blocks;
    let mut block_layouts: Vec<BlockFrameLayout> = Vec::new();
    let mut j: usize = 0;
    while j < function.blocks.len()
        invariant
            j <= function.blocks.len(),
            layout_ready(function@),
            blocks == function@.blocks,
            block_layouts.len() == j,
            forall|k: int| 0 <= k < j ==> (#[trigger] block_layouts[k])@ == block_layout_of(blocks, k),
        decreases function.blocks.len() - j,
    {
        let block_layout = compute_block_frame_layout(function, j, &block_layouts);
        block_layouts.push(block_layout);
        j += 1;
    }
    let free_names = match &function.free_names {
        Some(names) => compute_layout(0, names),
        None => Vec::new(),
    };
    let layout = FunctionFrameLayout {
        this_name: function.name.clone(),
        offsets_arguments: compute_layout(0, &function.arg_names),
        offsets_free_vars: free_names,
        blocks: block_layouts,
    };
    assert(layout@.blocks =~= function_layout_of(function@).blocks);
    layout
}

} // verus!
