//! Decisions of the processing threads: the decoder checks that the frames of a group have one
//! size, and the transformer decides when its GPU resources have to be set up again.
use vstd::prelude::*;

verus! {

/// A frame whose size differs from that of the frames before it in its group.
#[derive(Debug, Clone, Copy, PartialEq, Eq, Structural)]
pub enum SizeMismatch {
    /// The width differs: `expected` is that of the earlier frames, `found` that of this one.
    Width { expected: u32, found: u32 },
    /// The height differs: `expected` is that of the earlier frames, `found` that of this one.
    Height { expected: u32, found: u32 },
}

/// The size shared by the frames of a group decoded so far.
pub struct GroupDimensions {
    size: Option<(u32, u32)>,
    accepted: Ghost<Seq<(u32, u32)>>,
}

impl GroupDimensions {
    /// The sizes of the frames accepted so far, in order.
    pub closed spec fn accepted(&self) -> Seq<(u32, u32)> {
        self.accepted@
    }

    /// The size of the group: that of its first frame, if there is one.
    pub closed spec fn spec_size(&self) -> Option<(u32, u32)> {
        self.size
    }

    /// Every accepted frame has the group's size, and the group has a size exactly when a
    /// frame was accepted.
    pub closed spec fn wf(&self) -> bool {
        &&& (self.size is None <==> self.accepted@.len() == 0)
        &&& forall|i: int| 0 <= i < self.accepted@.len() ==> Some(#[trigger] self.accepted@[i]) == self.size
    }

    /// A group with no frame yet.
    pub fn new() -> (res: GroupDimensions)
        ensures
            res.wf(),
            res.accepted() == Seq::<(u32, u32)>::empty(),
            res.spec_size() is None,
    {
        GroupDimensions { size: None, accepted: Ghost(Seq::empty()) }
    }

    /// The size of the group, once a frame was accepted.
    pub fn size(&self) -> (res: Option<(u32, u32)>)
        ensures
            res == self.spec_size(),
    {
        self.size
    }

    /// Accepts a frame of `width` by `height` pixels when it has the size of the frames before
    /// it (the width is compared first, then the height).  A refused frame leaves the group as
    /// it was.
    pub fn accept(&mut self, width: u32, height: u32) -> (res: Result<(), SizeMismatch>)
        requires
            old(self).wf(),
        ensures
            final(self).wf(),
            match old(self).spec_size() {
                None => res is Ok,
                Some((w, h)) => if w != width {
                    res == Err::<(), SizeMismatch>(SizeMismatch::Width { expected: w, found: width })
                } else if h != height {
                    res == Err::<(), SizeMismatch>(SizeMismatch::Height { expected: h, found: height })
                } else {
                    res is Ok
                },
            },
            res is Ok ==> final(self).accepted() == old(self).accepted().push((width, height))
                && final(self).spec_size() == Some((width, height)),
            res is Err ==> final(self).accepted() == old(self).accepted() && final(self).spec_size()
                == old(self).spec_size(),
    {
        if let Some((w, h)) = self.size {
            if w != width {
                return Err(SizeMismatch::Width { expected: w, found: width });
            }
            if h != height {
                return Err(SizeMismatch::Height { expected: h, found: height });
            }
        }
        self.size = Some((width, height));
        self.accepted = Ghost(self.accepted@.push((width, height)));
        Ok(())
    }
}

/// Frames accepted into a group, one after another, all have the size of the group.
pub proof fn lemma_group_frames_share_size(d: GroupDimensions)
    requires
        d.wf(),
    ensures
        forall|i: int| 0 <= i < d.accepted().len() ==> Some(#[trigger] d.accepted()[i]) == d.spec_size(),
{
}

/// What the transformer thread has set up on the GPU.
#[derive(Debug, Clone, Copy, PartialEq, Eq, Structural)]
pub enum TransformerState {
    /// Nothing is set up.
    NoContext,
    /// Textures and buffers are set up for frames of this size.
    Context { width: u32, height: u32 },
}

/// The transformer has frames of `width` by `height` pixels to process: the GPU resources are
/// set up again (`true`) unless they already are for that size; afterwards they are set up
/// for that size.
pub fn on_frames(state: TransformerState, width: u32, height: u32) -> (res: (TransformerState, bool))
    ensures
        res.0 == (TransformerState::Context { width, height }),
        res.1 == (state != (TransformerState::Context { width, height })),
{
    let rebuild = match state {
        TransformerState::Context { width: w, height: h } => !(w == width && h == height),
        TransformerState::NoContext => true,
    };
    (TransformerState::Context { width, height }, rebuild)
}

/// The processed frames were handed on (`sent`) or could not be: after a failure the GPU
/// resources are set up afresh for the next frames.
pub fn on_sent(state: TransformerState, sent: bool) -> (res: TransformerState)
    ensures
        sent ==> res == state,
        !sent ==> res == TransformerState::NoContext,
{
    if sent {
        state
    } else {
        TransformerState::NoContext
    }
}

} // verus!
