//! The agent's tool server, as far as it decides anything: which entity a selector names, which
//! writes it refuses, and how it shapes what it forwards to the game.

pub mod entity;
pub mod server;
