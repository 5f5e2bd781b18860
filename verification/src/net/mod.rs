//! Addressing, multi-hop forwarding, and the discovery walk.

pub mod controller;
pub mod forward;
pub mod mesh;
pub mod pdu;
pub mod protocol;
pub mod walk;
