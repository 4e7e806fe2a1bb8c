//! What the transform gizmo does on input, apart from drawing it: when it runs, what its
//! keyboard shortcuts switch, which entity it holds, and when a click selects through it.

use vstd::prelude::*;

verus! {

/// What dragging a handle does.
#[derive(Debug, Clone, Copy, PartialEq, Eq, Structural)]
pub enum GizmoMode {
    Translate,
    Rotate,
    Scale,
}

/// Which axes the handles follow.
#[derive(Debug, Clone, Copy, PartialEq, Eq, Structural)]
pub enum GizmoSpace {
    World,
    Local,
}

/// The gizmo's settings the shortcuts change.
#[derive(Debug, Clone, Copy, PartialEq, Eq, Structural)]
pub struct GizmoSettings {
    pub mode: GizmoMode,
    pub space: GizmoSpace,
}

/// The shortcut keys pressed this frame: W, E and R pick the mode, X flips the space.
#[derive(Debug, Clone, Copy, PartialEq, Eq, Structural)]
pub struct GizmoKeys {
    pub w: bool,
    pub e: bool,
    pub r: bool,
    pub x: bool,
}

/// The gizmo reads the raw cursor and knows nothing of the panels over the window, so it runs
/// only while the pointer is over the game view; a drag in progress keeps running wherever the
/// cursor goes, since cutting it off would strand it.
pub fn gizmo_should_run(pointer_in_viewport: bool, dragging: bool) -> (out: bool)
    ensures
        out == (pointer_in_viewport || dragging),
{
    pointer_in_viewport || dragging
}

/// The flipped space.
pub open spec fn flipped(space: GizmoSpace) -> GizmoSpace {
    match space {
        GizmoSpace::World => GizmoSpace::Local,
        GizmoSpace::Local => GizmoSpace::World,
    }
}

/// The settings after this frame's shortcut keys. They stand down while the pointer is off the
/// game view, and while the right button flies the camera, which shares W and E. Of several mode
/// keys at once the last of W, E, R wins.
pub open spec fn after_shortcuts(settings: GizmoSettings, keys: GizmoKeys, pointer_in_viewport: bool, flying: bool) -> GizmoSettings {
    if !pointer_in_viewport || flying {
        settings
    } else {
        GizmoSettings {
            mode: if keys.r {
                GizmoMode::Scale
            } else if keys.e {
                GizmoMode::Rotate
            } else if keys.w {
                GizmoMode::Translate
            } else {
                settings.mode
            },
            space: if keys.x { flipped(settings.space) } else { settings.space },
        }
    }
}

/// Applies this frame's shortcut keys to the settings.
pub fn gizmo_keyboard_shortcuts(settings: &mut GizmoSettings, keys: GizmoKeys, pointer_in_viewport: bool, flying: bool)
    ensures
        *final(settings) == after_shortcuts(*old(settings), keys, pointer_in_viewport, flying),
{
    if !pointer_in_viewport || flying {
        return;
    }
    if keys.w {
        settings.mode = GizmoMode::Translate;
    }
    if keys.e {
        settings.mode = GizmoMode::Rotate;
    }
    if keys.r {
        settings.mode = GizmoMode::Scale;
    }
    if keys.x {
        settings.space = match settings.space {
            GizmoSpace::World => GizmoSpace::Local,
            GizmoSpace::Local => GizmoSpace::World,
        };
    }
}

/// The entity the gizmo holds: the selection's only entity, when it has a transform; none
/// otherwise. `transformable[k]` says whether `selection[k]` has one.
pub fn gizmo_focus(selection: &Vec<u64>, transformable: &Vec<bool>) -> (out: Option<u64>)
    requires
        transformable@.len() == selection@.len(),
    ensures
        selection@.len() == 1 && transformable@[0] ==> out == Some(selection@[0]),
        !(selection@.len() == 1 && transformable@[0]) ==> out is None,
{
    if selection.len() == 1 && transformable[0] {
        Some(selection[0])
    } else {
        None
    }
}

/// Whether a press in the viewport selects what is under the pointer: a primary press, over the
/// game view, that the gizmo is not consuming, neither mid-drag nor over a handle.
pub fn press_selects(pointer_in_viewport: bool, primary: bool, dragging: bool, over_handle: bool) -> (out: bool)
    ensures
        out == (pointer_in_viewport && primary && !dragging && !over_handle),
{
    pointer_in_viewport && primary && !dragging && !over_handle
}

} // verus!
