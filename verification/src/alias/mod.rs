//! Addressing an asset by a namespaced alias: what an alias is, the files that name one, the walk
//! that finds them and the index they fold into.

pub mod discovery;
pub mod index;
pub mod problem;
pub mod rules;
pub mod scan_plugin;
pub mod sidecar;
pub mod table;
