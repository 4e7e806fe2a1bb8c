//! Content addressing, package resolution and the engine's small state machines, with their
//! contracts proved.

pub mod alias;
pub mod asset_content;
pub mod content;
pub mod editor;
pub mod engine;
pub mod game;
pub mod mcp;
pub mod package;
pub mod remote;
pub mod text;
