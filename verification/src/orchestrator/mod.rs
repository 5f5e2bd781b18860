//! The control pipeline and the input task.

pub mod dispatch;
pub mod events;
pub mod health;
pub mod inbox;
pub mod pipeline;
