//! Content packages: what a manifest declares, the order packages load in, and the index they
//! fold into.

pub mod constraints;
pub mod cycles;
pub mod edges;
pub mod index;
pub mod manifest;
pub mod order;
pub mod resolve;
pub mod scan;
pub mod vfs;
