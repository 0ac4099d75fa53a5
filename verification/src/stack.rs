//! The interpreter's stack: call frames made of block frames.

use vstd::prelude::*;
use crate::heap_value::HeapAddress;
use crate::ir_let::let_expr::TargetAddress;
use crate::syntax::{Name, views};

verus! {

/// Where the result of a block goes and where execution resumes after it.
#[derive(Debug)]
pub struct ReturnInfo {
    pub result_variable: String,
    pub return_address: TargetAddress,
}

pub struct ReturnInfoView {
    pub result_variable: Name,
    pub return_address: TargetAddress,
}

impl View for ReturnInfo {
    type V = ReturnInfoView;

    open spec fn view(&self) -> ReturnInfoView {
        ReturnInfoView {
            result_variable: self.result_variable@,
            return_address: self.return_address,
        }
    }
}

impl Clone for ReturnInfo {
    fn clone(&self) -> (copy: Self)
        ensures
            copy@ == self@,
    {
        ReturnInfo {
            result_variable: self.result_variable.clone(),
            return_address: self.return_address,
        }
    }
}

/// The locals of one block, in the order in which they were bound:
/// `variable_names[i]` names `values[i]`.
#[derive(Debug)]
pub struct BlockFrame {
    pub values: Vec<HeapAddress>,
    pub variable_names: Vec<String>,
    pub return_info: Option<ReturnInfo>,
}

pub struct BlockFrameView {
    pub values: Seq<HeapAddress>,
    pub variable_names: Seq<Name>,
    pub return_info: Option<ReturnInfoView>,
}

/// The value of the latest binding of `name` among `names`, where `names[i]`
/// names `values[i]`.
pub open spec fn latest_binding(names: Seq<Name>, values: Seq<HeapAddress>, name: Name) -> Option<
    HeapAddress,
>
    decreases names.len(),
{
    if names.len() == 0 || values.len() != names.len() {
        None
    } else if names.last() == name {
        Some(values.last())
    } else {
        latest_binding(names.drop_last(), values.drop_last(), name)
    }
}

impl BlockFrameView {
    pub open spec fn wf(self) -> bool {
        self.values.len() == self.variable_names.len()
    }

    /// The frame without locals that a block starts with.
    pub open spec fn fresh(return_info: Option<ReturnInfoView>) -> BlockFrameView {
        BlockFrameView { values: Seq::empty(), variable_names: Seq::empty(), return_info }
    }

    /// The value that the frame binds `name` to; a later binding hides an
    /// earlier one of the same name.
    pub open spec fn lookup(self, name: Name) -> Option<HeapAddress> {
        latest_binding(self.variable_names, self.values, name)
    }

    /// The frame with one more local.
    pub open spec fn bind(self, name: Name, value: HeapAddress) -> BlockFrameView {
        BlockFrameView {
            values: self.values.push(value),
            variable_names: self.variable_names.push(name),
            return_info: self.return_info,
        }
    }
}

impl View for BlockFrame {
    type V = BlockFrameView;

    open spec fn view(&self) -> BlockFrameView {
        BlockFrameView {
            values: self.values@,
            variable_names: views(self.variable_names@),
            return_info: match self.return_info {
                Some(info) => Some(info@),
                None => None,
            },
        }
    }
}

impl BlockFrame {
    fn new(return_info: Option<ReturnInfo>) -> (frame: Self)
        ensures
            frame@ == BlockFrameView::fresh(
                match return_info {
                    Some(info) => Some(info@),
                    None => None,
                },
            ),
    {
        let frame = BlockFrame { values: Vec::new(), variable_names: Vec::new(), return_info };
        assert(views(frame.variable_names@) =~= Seq::<Name>::empty());
        frame
    }

    pub fn lookup_var(&self, name: &String) -> (found: Option<HeapAddress>)
        requires
            self@.wf(),
        ensures
            found == self@.lookup(name@),
    {
        let ghost names = views(self.variable_names@);
        assert(names.subrange(0, names.len() as int) =~= names);
        assert(self.values@.subrange(0, names.len() as int) =~= self.values@);
        let mut i: usize = self.variable_names.len();
        while i > 0
            invariant
                i <= self.variable_names.len(),
                self.values.len() == self.variable_names.len(),
                names == views(self.variable_names@),
                latest_binding(names, self.values@, name@) == latest_binding(
                    names.subrange(0, i as int),
                    self.values@.subrange(0, i as int),
                    name@,
                ),
            decreases i,
        {
            let ghost upto = names.subrange(0, i as int);
            let ghost held = self.values@.subrange(0, i as int);
            proof {
                assert(upto.drop_last() =~= names.subrange(0, i - 1));
                assert(held.drop_last() =~= self.values@.subrange(0, i - 1));
            }
            i -= 1;
            if self.variable_names[i] == *name {
                return Some(self.values[i]);
            }
        }
        None
    }

    fn set_var(&mut self, name: String, value: HeapAddress)
        ensures
            final(self)@ == old(self)@.bind(name@, value),
    {
        self.values.push(value);
        self.variable_names.push(name);
        assert(views(self.variable_names@) =~= views(old(self).variable_names@).push(name@));
    }
}

/// The value that the block frames of one call bind `name` to, the innermost
/// frame that binds it deciding.
pub open spec fn lookup_in_frames(frames: Seq<BlockFrameView>, name: Name) -> Option<HeapAddress>
    decreases frames.len(),
{
    if frames.len() == 0 {
        None
    } else {
        match frames.last().lookup(name) {
            Some(value) => Some(value),
            None => lookup_in_frames(frames.drop_last(), name),
        }
    }
}

#[derive(Debug)]
struct CallStackFrame {
    nested_block_frames: Vec<BlockFrame>,
}

impl View for CallStackFrame {
    type V = Seq<BlockFrameView>;

    closed spec fn view(&self) -> Seq<BlockFrameView> {
        views(self.nested_block_frames@)
    }
}

impl CallStackFrame {
    fn new(return_info: Option<ReturnInfo>) -> (frame: Self)
        ensures
            frame@ == seq![
                BlockFrameView::fresh(
                    match return_info {
                        Some(info) => Some(info@),
                        None => None,
                    },
                ),
            ],
    {
        let mut nested_block_frames: Vec<BlockFrame> = Vec::new();
        nested_block_frames.push(BlockFrame::new(return_info));
        let frame = CallStackFrame { nested_block_frames };
        assert(frame@ =~= seq![
            BlockFrameView::fresh(
                match return_info {
                    Some(info) => Some(info@),
                    None => None,
                },
            ),
        ]);
        frame
    }

    fn enter_block(&mut self, return_info: ReturnInfo)
        ensures
            final(self)@ == old(self)@.push(BlockFrameView::fresh(Some(return_info@))),
    {
        self.nested_block_frames.push(BlockFrame::new(Some(return_info)));
        assert(self@ =~= old(self)@.push(BlockFrameView::fresh(Some(return_info@))));
    }

    fn exit_block(&mut self) -> (frame: BlockFrame)
        requires
            old(self)@.len() > 0,
        ensures
            frame@ == old(self)@.last(),
            final(self)@ == old(self)@.drop_last(),
    {
        let popped = self.nested_block_frames.pop();
        assert(self@ =~= old(self)@.drop_last());
        popped.unwrap()
    }

    fn current_block_mut(&mut self) -> (frame: &mut BlockFrame)
        requires
            old(self)@.len() > 0,
        ensures
            frame@ == old(self)@.last(),
            final(self)@ == old(self)@.drop_last().push(final(frame)@),
    {
        let last = self.nested_block_frames.len() - 1;
        &mut self.nested_block_frames[last]
    }

    fn lookup_var(&self, name: &String) -> (found: Option<HeapAddress>)
        requires
            forall|i: int| 0 <= i < self@.len() ==> (#[trigger] self@[i]).wf(),
        ensures
            found == lookup_in_frames(self@, name@),
    {
        let mut i: usize = self.nested_block_frames.len();
        assert(self@.subrange(0, i as int) =~= self@);
        while i > 0
            invariant
                i <= self.nested_block_frames.len(),
                forall|k: int| 0 <= k < self@.len() ==> (#[trigger] self@[k]).wf(),
                lookup_in_frames(self@, name@) == lookup_in_frames(self@.subrange(0, i as int), name@),
            decreases i,
        {
            let ghost upto = self@.subrange(0, i as int);
            proof {
                assert(upto.drop_last() =~= self@.subrange(0, i - 1));
                assert(upto.last() == self@[i - 1]);
            }
            i -= 1;
            assert(self.nested_block_frames[i as int]@ == self@[i as int]);
            if let Some(value) = self.nested_block_frames[i].lookup_var(name) {
                return Some(value);
            }
        }
        None
    }

    fn set_var_no_refcount(&mut self, name: String, value: HeapAddress)
        requires
            old(self)@.len() > 0,
        ensures
            final(self)@ == old(self)@.drop_last().push(old(self)@.last().bind(name@, value)),
    {
        self.current_block_mut().set_var(name, value);
    }
}

/// The frames of the calls in progress, the current one last; each is the
/// list of its block frames, the innermost last.
pub type Frames = Seq<Seq<BlockFrameView>>;

/// Frames as a stack keeps them: no call without a block, and in every block
/// one name for each value.
pub open spec fn frames_wf(frames: Frames) -> bool {
    forall|i: int|
        0 <= i < frames.len() ==> (#[trigger] frames[i]).len() > 0 && forall|j: int|
            0 <= j < frames[i].len() ==> (#[trigger] frames[i][j]).wf()
}

/// The frames after the innermost block of the current call has ended: the
/// call goes with its last block.
pub open spec fn frames_after_exit(frames: Frames) -> Frames {
    if frames.last().len() <= 1 {
        frames.drop_last()
    } else {
        frames.drop_last().push(frames.last().drop_last())
    }
}

/// The frames after the innermost block of the current call has got one more
/// local.
pub open spec fn frames_after_bind(frames: Frames, name: Name, value: HeapAddress) -> Frames {
    frames.drop_last().push(
        frames.last().drop_last().push(frames.last().last().bind(name, value)),
    )
}

#[derive(Debug)]
pub struct Stack {
    frames: Vec<CallStackFrame>,
}

impl View for Stack {
    type V = Frames;

    closed spec fn view(&self) -> Frames {
        views(self.frames@)
    }
}

impl Stack {
    pub open spec fn wf(&self) -> bool {
        frames_wf(self@)
    }

    pub fn new() -> (stack: Self)
        ensures
            stack@ == seq![seq![BlockFrameView::fresh(None)]],
            stack.wf(),
    {
        let mut frames: Vec<CallStackFrame> = Vec::new();
        frames.push(CallStackFrame::new(None));
        let stack = Stack { frames };
        assert(stack@ =~= seq![seq![BlockFrameView::fresh(None)]]);
        stack
    }

    /// The number of calls in progress.
    pub fn depth(&self) -> (calls: usize)
        ensures
            calls == self@.len(),
    {
        self.frames.len()
    }

    pub fn enter_function(&mut self, return_info: ReturnInfo)
        ensures
            final(self)@ == old(self)@.push(seq![BlockFrameView::fresh(Some(return_info@))]),
    {
        self.frames.push(CallStackFrame::new(Some(return_info)));
        assert(self@ =~= old(self)@.push(seq![BlockFrameView::fresh(Some(return_info@))]));
    }

    pub fn enter_block(&mut self, return_info: ReturnInfo)
        requires
            old(self)@.len() > 0,
        ensures
            final(self)@ == old(self)@.drop_last().push(
                old(self)@.last().push(BlockFrameView::fresh(Some(return_info@))),
            ),
    {
        self.current_frame_mut().enter_block(return_info);
    }

    pub fn exit_block(&mut self) -> (frame: BlockFrame)
        requires
            old(self)@.len() > 0,
            old(self)@.last().len() > 0,
        ensures
            frame@ == old(self)@.last().last(),
            final(self)@ == frames_after_exit(old(self)@),
    {
        let frame = self.current_frame_mut().exit_block();
        let ghost exited = self@;
        assert(exited == old(self)@.drop_last().push(old(self)@.last().drop_last()));
        let remaining = self.current_frame().nested_block_frames.len();
        assert(remaining == exited.last().len());
        assert(exited.last() == old(self)@.last().drop_last());
        if remaining == 0 {
            self.frames.pop();
            assert(self@ =~= exited.drop_last());
            assert(exited.drop_last() =~= old(self)@.drop_last());
        }
        frame
    }

    pub fn set_var_no_refcount(&mut self, name: String, value: HeapAddress)
        requires
            old(self)@.len() > 0,
            old(self)@.last().len() > 0,
        ensures
            final(self)@ == frames_after_bind(old(self)@, name@, value),
    {
        self.current_frame_mut().set_var_no_refcount(name, value);
    }

    /// The value that the current call binds `name` to, if it binds it.
    /// Other calls' frames are not searched.
    pub fn find_var(&self, name: &String) -> (found: Option<HeapAddress>)
        requires
            self.wf(),
            self@.len() > 0,
        ensures
            found == lookup_in_frames(self@.last(), name@),
    {
        self.current_frame().lookup_var(name)
    }

    pub fn lookup_var(&self, name: &String) -> (value: HeapAddress)
        requires
            self.wf(),
            self@.len() > 0,
            lookup_in_frames(self@.last(), name@) is Some,
        ensures
            lookup_in_frames(self@.last(), name@) == Some(value),
    {
        self.find_var(name).unwrap()
    }

    fn current_frame_mut(&mut self) -> (frame: &mut CallStackFrame)
        requires
            old(self)@.len() > 0,
        ensures
            frame@ == old(self)@.last(),
            final(self)@ == old(self)@.drop_last().push(final(frame)@),
    {
        let last = self.frames.len() - 1;
        &mut self.frames[last]
    }

    fn current_frame(&self) -> (frame: &CallStackFrame)
        requires
            self@.len() > 0,
        ensures
            frame@ == self@.last(),
    {
        &self.frames[self.frames.len() - 1]
    }
}

} // verus!
