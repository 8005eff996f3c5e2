//! RGA 2D blitter model: a recording `improcess` fake.
//!
//! The display driver offloads copies/scales/format-conversions to the RGA via
//! librga's `improcess(src, dst, ..., IM_SYNC)`, and falls back to the CPU draw
//! path when it returns anything but `IM_STATUS_SUCCESS`. The blit *pixels*
//! are not modelled: what matters for testing is the **dispatch** logic. So the
//! sim records each requested op and returns a programmable status.

use vstd::prelude::*;

verus! {

/// A rectangle in a surface (im2d `im_rect`).
#[derive(Clone, Copy, PartialEq, Eq, Debug, Structural)]
pub struct Rect {
    pub x: i32,
    pub y: i32,
    pub w: i32,
    pub h: i32,
}

/// A surface descriptor: dimensions + pixel format.
#[derive(Clone, Copy, PartialEq, Eq, Debug, Structural)]
pub struct Surface {
    pub width: i32,
    pub height: i32,
    pub format: u32,
}

/// One recorded RGA operation.
#[derive(Clone, Copy, PartialEq, Eq, Debug, Structural)]
pub struct Blit {
    pub src: Surface,
    pub dst: Surface,
    pub srect: Rect,
    pub drect: Rect,
}

/// im2d status subset: success, or a failure that must drive the CPU fallback.
#[derive(Clone, Copy, PartialEq, Eq, Debug, Structural)]
pub enum ImStatus {
    Success,
    Failed,
}

/// A recording RGA. `status` is what `improcess` returns; `blits` is the log.
pub struct RgaSim {
    status: ImStatus,
    blits: Vec<Blit>,
}

impl View for RgaSim {
    type V = (ImStatus, Seq<Blit>);

    /// The programmed status and the log of dispatched blits, oldest first.
    closed spec fn view(&self) -> (ImStatus, Seq<Blit>) {
        (self.status, self.blits@)
    }
}

impl RgaSim {
    /// A working RGA whose `improcess` succeeds.
    pub fn new() -> (r: Self)
        ensures
            r@ == (ImStatus::Success, Seq::<Blit>::empty()),
    {
        RgaSim { status: ImStatus::Success, blits: Vec::new() }
    }

    /// Program the status `improcess` returns (set `Failed` to drive the
    /// driver's CPU fallback path).
    pub fn set_status(&mut self, s: ImStatus)
        ensures
            final(self)@ == (s, old(self)@.1),
    {
        self.status = s;
    }

    /// Model one `improcess()` call: record it and return the programmed status.
    pub fn improcess(&mut self, src: Surface, dst: Surface, srect: Rect, drect: Rect) -> (st: ImStatus)
        ensures
            st == old(self)@.0,
            final(self)@ == (old(self)@.0, old(self)@.1.push(Blit { src, dst, srect, drect })),
    {
        self.blits.push(Blit { src, dst, srect, drect });
        self.status
    }

    /// The recorded blit log, in dispatch order.
    pub fn blits(&self) -> (b: &[Blit])
        ensures
            b@ == self@.1,
    {
        self.blits.as_slice()
    }

    /// Number of blits dispatched.
    pub fn count(&self) -> (n: usize)
        ensures
            n == self@.1.len(),
    {
        self.blits.len()
    }

    /// The most recent blit, if any.
    pub fn last(&self) -> (b: Option<&Blit>)
        ensures
            match b {
                Some(x) => self@.1.len() > 0 && *x == self@.1.last(),
                None => self@.1.len() == 0,
            },
    {
        let n = self.blits.len();
        if n == 0 {
            None
        } else {
            Some(&self.blits[n - 1])
        }
    }

    /// Forget the recorded blits (e.g. between frames).
    pub fn clear(&mut self)
        ensures
            final(self)@ == (old(self)@.0, Seq::<Blit>::empty()),
    {
        self.blits.clear();
    }
}

impl Default for RgaSim {
    fn default() -> (r: Self)
        ensures
            r@ == (ImStatus::Success, Seq::<Blit>::empty()),
    {
        RgaSim::new()
    }
}

} // verus!
