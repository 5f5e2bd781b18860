//! The decision logic of the on-board validators: what they send, what they accept, and the result
//! blocks that a debugger reads. The drivers around them only move bytes and registers.

pub mod ble;
pub mod imu;
pub mod irqload;
pub mod result;
pub mod uart;
