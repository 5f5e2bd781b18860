//! Control and communication core of a two-board hoverboard.

pub mod bench;
pub mod bounded;
pub mod bytes;
pub mod config;
pub mod counter;
pub mod inputs;
pub mod link;
pub mod linkctl;
pub mod net;
pub mod node;
pub mod orchestrator;
pub mod qnum;
pub mod scheduler;
pub mod state;
