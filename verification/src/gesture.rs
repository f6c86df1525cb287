//! Tracking of one pointer stroke from press to release.
use vstd::prelude::*;

verus! {

/// A finished stroke: where the pointer was pressed, where it was released,
/// and when it was pressed.
#[derive(PartialEq, Eq, Structural, Debug)]
pub struct Stroke<P, T> {
    pub start: P,
    pub end: P,
    pub started_at: T,
}

/// What releasing the pointer at `pos` yields in tracker state `s` (start,
/// last position, press time): the finished stroke when one was in progress.
pub open spec fn released_stroke<P, T>(s: (Option<P>, Option<P>, Option<T>), pos: P) -> Option<
    Stroke<P, T>,
> {
    match (s.0, s.2) {
        (Some(start), Some(started_at)) => Some(Stroke { start, end: pos, started_at }),
        _ => None,
    }
}

/// The tracker state after releasing the pointer at `pos` in state `s`: reset
/// when a stroke finished, else only the last position moves.
pub open spec fn state_after_release<P, T>(s: (Option<P>, Option<P>, Option<T>), pos: P) -> (
    Option<P>,
    Option<P>,
    Option<T>,
) {
    match (s.0, s.2) {
        (Some(_), Some(_)) => (None, None, None),
        _ => (s.0, Some(pos), s.2),
    }
}

/// A stroke is reported once: after a release that finished one, another
/// release without a new press reports nothing.
pub proof fn law_stroke_reported_once<P, T>(s: (Option<P>, Option<P>, Option<T>), first: P, second: P)
    requires
        released_stroke(s, first) is Some,
    ensures
        released_stroke(state_after_release(s, first), second) is None,
{
}

/// The pointer positions and press time of the stroke in progress, if any.
/// `P` is a pointer position and `T` a point in time.
pub struct SwipeTracker<P, T> {
    start_pos: Option<P>,
    last_pos: Option<P>,
    start_time: Option<T>,
}

impl<P: Copy, T: Copy> SwipeTracker<P, T> {
    /// Where the stroke began, where the pointer was last seen, and when the
    /// stroke began.
    pub closed spec fn state(&self) -> (Option<P>, Option<P>, Option<T>) {
        (self.start_pos, self.last_pos, self.start_time)
    }

    /// A tracker with no stroke in progress.
    pub fn new() -> (t: Self)
        ensures
            t.state() == (None::<P>, None::<P>, None::<T>),
    {
        SwipeTracker { start_pos: None, last_pos: None, start_time: None }
    }

    /// The pointer went down at `pos` at time `now`: a new stroke begins.
    pub fn pointer_down(&mut self, pos: P, now: T)
        ensures
            final(self).state() == (Some(pos), Some(pos), Some(now)),
    {
        self.start_pos = Some(pos);
        self.last_pos = Some(pos);
        self.start_time = Some(now);
    }

    /// The pointer moved to `pos`.
    pub fn pointer_move(&mut self, pos: P)
        ensures
            final(self).state() == (old(self).state().0, Some(pos), old(self).state().2),
    {
        self.last_pos = Some(pos);
    }

    /// The pointer went up at `pos`. When a stroke was in progress it is
    /// finished and returned and the tracker is reset; otherwise only the
    /// last position changes and nothing is returned.
    pub fn pointer_up(&mut self, pos: P) -> (r: Option<Stroke<P, T>>)
        ensures
            r == released_stroke(old(self).state(), pos),
            final(self).state() == state_after_release(old(self).state(), pos),
    {
        self.last_pos = Some(pos);
        let start = match self.start_pos {
            Some(p) => p,
            None => return None,
        };
        let started_at = match self.start_time {
            Some(t) => t,
            None => return None,
        };
        self.reset();
        Some(Stroke { start, end: pos, started_at })
    }

    /// Forgets the stroke in progress.
    pub fn reset(&mut self)
        ensures
            final(self).state() == (None::<P>, None::<P>, None::<T>),
    {
        self.start_pos = None;
        self.last_pos = None;
        self.start_time = None;
    }
}

} // verus!
