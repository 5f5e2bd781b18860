//! The mode machine, the bridge gate it owns, and the fault latch that feeds it.

pub mod fault;
pub mod mode;
pub mod moe;
