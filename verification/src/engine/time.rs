//! Time control: whether the world advances, and stepping it a fixed number of frames.
//!
//! The virtual clock owns the paused flag. [`TimeControl`] owns the step countdown, and says what
//! the clock should do; whoever holds the clock does it.

use vstd::prelude::*;

verus! {

/// What the virtual clock should do.
#[derive(Debug, Clone, Copy, PartialEq, Eq, Structural)]
pub enum ClockAction {
    Pause,
    Unpause,
}

/// The step countdown that sits beside the virtual clock's paused flag.
#[derive(Debug, Clone, Copy, PartialEq, Eq, Structural)]
pub struct TimeControl {
    steps_remaining: Option<u32>,
}

impl TimeControl {
    /// No step in flight.
    pub fn new() -> (out: TimeControl)
        ensures
            out.steps() is None,
    {
        TimeControl { steps_remaining: None }
    }

    /// Frames still to run before the world repauses, as the contracts see it.
    pub closed spec fn steps(self) -> Option<u32> {
        self.steps_remaining
    }

    /// Frames still to run before the world repauses. `None` means "run until told otherwise".
    pub fn steps_remaining(&self) -> (out: Option<u32>)
        ensures
            out == self.steps(),
    {
        self.steps_remaining
    }

    /// Freezes the world, cancelling a step in flight.
    pub fn pause(&mut self) -> (out: ClockAction)
        ensures
            final(self).steps() is None,
            out == ClockAction::Pause,
    {
        self.steps_remaining = None;
        ClockAction::Pause
    }

    /// Unfreezes the world, cancelling a step in flight.
    pub fn resume(&mut self) -> (out: ClockAction)
        ensures
            final(self).steps() is None,
            out == ClockAction::Unpause,
    {
        self.steps_remaining = None;
        ClockAction::Unpause
    }

    /// Runs `frames` frames and pauses again. Zero frames is a pause, not an error: it is what
    /// "step until here" means at the end.
    pub fn step(&mut self, frames: u32) -> (out: ClockAction)
        ensures
            frames == 0 ==> final(self).steps() is None && out == ClockAction::Pause,
            frames > 0 ==> final(self).steps() == Some(frames) && out == ClockAction::Unpause,
    {
        if frames == 0 {
            self.pause()
        } else {
            self.steps_remaining = Some(frames);
            ClockAction::Unpause
        }
    }

    /// The end of one frame: a step in flight counts down, and the frame that finishes it pauses
    /// the world.
    pub fn frame_end(&mut self) -> (out: Option<ClockAction>)
        ensures
            final(self).steps() == frame_ended(old(self).steps()),
            out == (if old(self).steps() matches Some(n) && n <= 1 { Some(ClockAction::Pause) } else { None::<ClockAction> }),
    {
        match self.steps_remaining {
            None => None,
            Some(remaining) => {
                let left = remaining.saturating_sub(1);
                if left == 0 {
                    Some(self.pause())
                } else {
                    self.steps_remaining = Some(left);
                    None
                }
            },
        }
    }
}

/// The countdown after one frame ends.
pub open spec fn frame_ended(steps: Option<u32>) -> Option<u32> {
    match steps {
        None => None,
        Some(n) => if n <= 1 {
            None
        } else {
            Some((n - 1) as u32)
        },
    }
}

/// The countdown after `k` frames end.
pub open spec fn frames_ended(steps: Option<u32>, k: nat) -> Option<u32>
    decreases k,
{
    if k == 0 {
        steps
    } else {
        frame_ended(frames_ended(steps, (k - 1) as nat))
    }
}

/// A step of `n` frames runs exactly `n` frames: the countdown is still running after each of the
/// first `n - 1`, and the `n`th ends it.
pub proof fn lemma_a_step_runs_exactly_its_frames(n: u32, k: nat)
    requires
        n > 0,
        k <= n,
    ensures
        k < n ==> frames_ended(Some(n), k) == Some((n - k) as u32),
        k == n ==> frames_ended(Some(n), k) is None,
    decreases k,
{
    if k > 0 {
        lemma_a_step_runs_exactly_its_frames(n, (k - 1) as nat);
    }
}

} // verus!
