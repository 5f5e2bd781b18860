//! The master-output-enable (MOE) arming gate.
//!
//! This gate decides whether the bridge hardware may be active; the firmware enacts the decision.
//! It is opened on the INIT pass alone, and cleared on every SHUTDOWN pass. There is one gate per
//! motor.

use vstd::prelude::*;

verus! {

/// The arming decision of one motor.
#[derive(Debug, Clone, Copy, PartialEq, Eq, Structural)]
pub struct MoeGate {
    allowed: bool,
}

impl View for MoeGate {
    type V = bool;

    /// Whether the bridge may be active.
    closed spec fn view(&self) -> bool {
        self.allowed
    }
}

impl MoeGate {
    /// A fresh gate, clear.
    pub fn new() -> (g: Self)
        ensures
            !g@,
    {
        MoeGate { allowed: false }
    }

    /// The decision: `true` = MOE may be active, `false` = MOE must be clear.
    pub fn allowed(&self) -> (b: bool)
        ensures
            b == self@,
    {
        self.allowed
    }

    /// Opens it.
    pub fn set_at_init(&mut self)
        ensures
            final(self)@,
    {
        self.allowed = true;
    }

    /// Clears it. Clearing a clear gate changes nothing.
    pub fn clear(&mut self)
        ensures
            !final(self)@,
    {
        self.allowed = false;
    }
}

impl Default for MoeGate {
    fn default() -> (g: Self)
        ensures
            !g@,
    {
        MoeGate::new()
    }
}

} // verus!
