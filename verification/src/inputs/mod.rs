//! Input conditioning: line debounce, combined button and two-key combos, the foot pads, and the
//! throttle filter. Everything here is a pure producer of flags and levels; sampling the pins and
//! the converter is the caller's.
//!
//! Debounce, combos and pads run every 16 ms; the throttle runs every 4 ms.

pub mod combo;
pub mod debounce;
pub mod pad;
pub mod throttle;
