//! Confining the game camera to the part of the window the dock does not cover.

use vstd::prelude::*;

verus! {

/// A rectangle in physical pixels: its top-left corner and its size.
#[derive(Debug, Clone, Copy, PartialEq, Eq, Structural)]
pub struct PhysicalRect {
    pub x: u32,
    pub y: u32,
    pub width: u32,
    pub height: u32,
}

/// The dock's rectangle as the camera's viewport, or `None` when it reaches past the window.
///
/// Rejected rather than clamped: it happens while the window is resizing, and a clamped viewport
/// for one frame reads as a jump.
pub fn viewport_for(rect: PhysicalRect, window_width: u32, window_height: u32) -> (out: Option<PhysicalRect>)
    requires
        rect.x + rect.width <= u32::MAX,
        rect.y + rect.height <= u32::MAX,
    ensures
        (rect.x + rect.width > window_width || rect.y + rect.height > window_height) ==> out is None,
        !(rect.x + rect.width > window_width || rect.y + rect.height > window_height) ==> out == Some(rect),
{
    let far_x = rect.x + rect.width;
    let far_y = rect.y + rect.height;
    if far_x > window_width || far_y > window_height {
        None
    } else {
        Some(rect)
    }
}

} // verus!
