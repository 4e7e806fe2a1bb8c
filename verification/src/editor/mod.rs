//! What the editor decides, apart from how it draws.

pub mod camera;
pub mod console;
pub mod gizmo;
pub mod viewport;
