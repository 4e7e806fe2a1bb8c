//! `game.run_state.set`: pause the world, resume it, or run a fixed number of frames.

use crate::engine::time::{ClockAction, TimeControl};
use vstd::prelude::*;

verus! {

/// What a run-state request asks for.
#[derive(Debug, Clone, Copy, PartialEq, Eq, Structural)]
pub enum RunRequest {
    Pause,
    Resume,
    /// Runs `frames` frames and pauses again.
    Step { frames: u32 },
}

impl RunRequest {
    /// Applies the request to the step countdown and says what the virtual clock should do.
    /// Every request cancels a step in flight; a step of zero frames is a pause.
    pub fn apply(self, control: &mut TimeControl) -> (out: ClockAction)
        ensures
            self == RunRequest::Pause ==> out == ClockAction::Pause && final(control).steps() is None,
            self == RunRequest::Resume ==> out == ClockAction::Unpause && final(control).steps() is None,
            self == (RunRequest::Step { frames: 0 }) ==> out == ClockAction::Pause && final(control).steps() is None,
            self matches RunRequest::Step { frames } ==> (frames > 0 ==> out == ClockAction::Unpause
                && final(control).steps() == Some(frames)),
    {
        match self {
            RunRequest::Pause => control.pause(),
            RunRequest::Resume => control.resume(),
            RunRequest::Step { frames } => control.step(frames),
        }
    }
}

} // verus!
