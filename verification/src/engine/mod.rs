//! The engine's own bookkeeping: the ring of recent log events and the step countdown of the
//! virtual clock.

pub mod log;
pub mod time;
