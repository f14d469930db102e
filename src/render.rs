//! The video render worker's bookkeeping: two offscreen targets drawn in
//! turn, and the handle of the last finished one, which the display samples.

use vstd::prelude::*;

verus! {

/// What the worker does on one turn of its loop.
#[derive(PartialEq, Eq, Structural, Clone, Copy, Debug)]
pub enum RenderStep {
    /// Free the engine context and the targets, and end.
    Exit,
    /// Resize both targets to the new viewport.
    Resize,
    /// Render a frame into the back target.
    Draw,
    /// Nothing to do: sleep about a millisecond.
    Idle,
}

/// The order of the worker's checks: quitting first, then a pending
/// resize, then a pending redraw.
pub fn render_step(quit: bool, resize: bool, redraw: bool) -> (r: RenderStep)
    ensures
        r == if quit {
            RenderStep::Exit
        } else if resize {
            RenderStep::Resize
        } else if redraw {
            RenderStep::Draw
        } else {
            RenderStep::Idle
        },
{
    if quit {
        RenderStep::Exit
    } else if resize {
        RenderStep::Resize
    } else if redraw {
        RenderStep::Draw
    } else {
        RenderStep::Idle
    }
}

/// Two texture handles, the one drawn into next and the one shown, and
/// what has been published: the last finished texture (0 before any).
pub struct RenderTargets {
    pub front: u32,
    pub back: u32,
    pub display_tex: u32,
    pub has_frame: bool,
}

impl RenderTargets {
    /// Two distinct, non-zero textures; the published one, if any, is the front.
    pub open spec fn wf(&self) -> bool {
        self.front != self.back && self.front != 0 && self.back != 0
            && (self.has_frame ==> self.display_tex == self.front)
            && (!self.has_frame ==> self.display_tex == 0)
    }

    /// Targets over two fresh textures.
    pub fn new(a: u32, b: u32) -> (r: RenderTargets)
        requires
            a != b,
            a != 0,
            b != 0,
        ensures
            r.wf(),
            r.front == a && r.back == b,
            !r.has_frame && r.display_tex == 0,
    {
        RenderTargets { front: a, back: b, display_tex: 0, has_frame: false }
    }

    /// After a frame is fully written into the back target: publishes it and
    /// makes it the front, so that the next frame goes into the other one.
    pub fn frame_finished(&mut self)
        requires
            old(self).wf(),
        ensures
            final(self).wf(),
            final(self).display_tex == old(self).back,
            final(self).has_frame,
            final(self).front == old(self).back,
            final(self).back == old(self).front,
    {
        let b = self.back;
        self.display_tex = b;
        self.has_frame = true;
        self.back = self.front;
        self.front = b;
    }

    /// After the video is stopped: nothing is shown until the next frame.
    pub fn clear_frame(&mut self)
        requires
            old(self).wf(),
        ensures
            final(self).wf(),
            !final(self).has_frame,
            final(self).display_tex == 0,
            final(self).front == old(self).front && final(self).back == old(self).back,
    {
        self.has_frame = false;
        self.display_tex = 0;
    }
}

/// The display never samples the texture being drawn into.
pub proof fn law_shown_is_not_drawn(t: RenderTargets)
    requires
        t.wf(),
        t.has_frame,
    ensures
        t.display_tex != t.back,
{
}

} // verus!
