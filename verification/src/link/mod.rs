//! The point-to-point link layer.

use vstd::prelude::*;

pub mod crc16;
pub mod frag;
pub mod frame;
pub mod framer;
pub mod item;
pub mod link;
pub mod opcode;
pub mod payload;
pub mod reasm;
pub mod serial;
pub mod transport;

verus! {

/// The baud rate of the inter-board UART. A cyclic frame is sent blocking, and takes about 0.6 ms at
/// this rate.
pub const INTER_BOARD_BAUD: u32 = 460_800;

} // verus!
