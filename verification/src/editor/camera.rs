//! The viewport camera's key bindings: which keys fly it, and in which direction.
//!
//! The camera and the gizmo shortcuts both want W and E; the camera wins while the right mouse
//! button is held, and this is where that rule is written down.

use vstd::prelude::*;

verus! {

/// Whether the fly camera is claiming the keyboard: while the right mouse button is held.
pub fn fly_camera_active(right_button: bool) -> (out: bool)
    ensures
        out == right_button,
{
    right_button
}

/// The keys that fly the camera, as held this frame.
#[derive(Debug, Clone, Copy, PartialEq, Eq, Structural)]
pub struct FlyKeys {
    pub w: bool,
    pub s: bool,
    pub a: bool,
    pub d: bool,
    pub space: bool,
    pub left_control: bool,
    pub q: bool,
    pub e: bool,
    pub left_shift: bool,
}

/// How far the held keys push the camera this frame, in steps: forward is negative toward the
/// view, as the camera's own axes have it. Roll turns two steps per key.
#[derive(Debug, Clone, Copy, PartialEq, Eq, Structural)]
pub struct FlySteps {
    pub forward: i8,
    pub right: i8,
    pub up: i8,
    pub roll: i8,
    pub boost: bool,
}

/// One step for each key held: W forward, S back, A left, D right, space up, left control down,
/// Q and E roll, left shift boosts.
pub open spec fn steps_for(keys: FlyKeys) -> FlySteps {
    FlySteps {
        forward: ((if keys.s { 1int } else { 0 }) - (if keys.w { 1int } else { 0 })) as i8,
        right: ((if keys.d { 1int } else { 0 }) - (if keys.a { 1int } else { 0 })) as i8,
        up: ((if keys.space { 1int } else { 0 }) - (if keys.left_control { 1int } else { 0 })) as i8,
        roll: ((if keys.q { 2int } else { 0 }) - (if keys.e { 2int } else { 0 })) as i8,
        boost: keys.left_shift,
    }
}

/// What the held keys ask of the camera this frame. Nothing while it is not flying.
pub fn fly_steps(keys: FlyKeys, flying: bool) -> (out: FlySteps)
    ensures
        flying ==> out == steps_for(keys),
        !flying ==> out == (FlySteps { forward: 0, right: 0, up: 0, roll: 0, boost: false }),
{
    if !flying {
        return FlySteps { forward: 0, right: 0, up: 0, roll: 0, boost: false };
    }
    let mut out = FlySteps { forward: 0, right: 0, up: 0, roll: 0, boost: false };
    if keys.w {
        out.forward = out.forward - 1;
    }
    if keys.s {
        out.forward = out.forward + 1;
    }
    if keys.a {
        out.right = out.right - 1;
    }
    if keys.d {
        out.right = out.right + 1;
    }
    if keys.space {
        out.up = out.up + 1;
    }
    if keys.left_control {
        out.up = out.up - 1;
    }
    if keys.q {
        out.roll = out.roll + 2;
    }
    if keys.e {
        out.roll = out.roll - 2;
    }
    if keys.left_shift {
        out.boost = true;
    }
    out
}

} // verus!
