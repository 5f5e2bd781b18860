//! The combined button flag and the two-key combos, computed after the debounce. They are levels,
//! and add no debounce of their own.

use crate::inputs::debounce::LineBank;
use vstd::prelude::*;

verus! {

/// In which context a button press happened: `a` with the brake inactive, `b` with it active.
#[derive(Clone, Copy, Debug, PartialEq, Eq, Structural)]
pub struct ComboState {
    pub a: bool,
    pub b: bool,
}

impl ComboState {
    /// Both sub-flags clear.
    pub fn new() -> (s: Self)
        ensures
            s == (ComboState { a: false, b: false }),
    {
        ComboState { a: false, b: false }
    }

    /// The combined button flag.
    pub fn combined(&self) -> (c: bool)
        ensures
            c == (self.a || self.b),
    {
        self.a || self.b
    }
}

impl Default for ComboState {
    fn default() -> (s: Self)
        ensures
            s == (ComboState { a: false, b: false }),
    {
        ComboState::new()
    }
}

/// Sets the sub-flag of the current brake state to the button level, leaves the other alone, and
/// returns the combined flag.
pub fn combined_button(state: &mut ComboState, button_pressed: bool, brake_active: bool) -> (c:
    bool)
    ensures
        *final(state) == (if brake_active {
            ComboState { a: old(state).a, b: button_pressed }
        } else {
            ComboState { a: button_pressed, b: old(state).b }
        }),
        c == (final(state).a || final(state).b),
{
    if button_pressed {
        if !brake_active {
            state.a = true;
        } else {
            state.b = true;
        }
    } else if !brake_active {
        state.a = false;
    } else {
        state.b = false;
    }
    state.combined()
}

/// A two-key combo: the indices of its two lines.
#[derive(Clone, Copy, Debug, PartialEq, Eq, Structural)]
pub struct ComboPair {
    pub a: usize,
    pub b: usize,
}

impl ComboPair {
    /// A combo over lines `a` and `b`.
    pub fn new(a: usize, b: usize) -> (p: Self)
        ensures
            p == (ComboPair { a, b }),
    {
        ComboPair { a, b }
    }

    /// Both lines are pressed.
    pub fn active(&self, bank: &LineBank) -> (r: bool)
        requires
            bank.wf(),
        ensures
            r == (bank@.pressed(self.a as int) && bank@.pressed(self.b as int)),
    {
        bank.pressed(self.a) && bank.pressed(self.b)
    }
}

/// The power combo and the mode combo.
#[derive(Clone, Copy, Debug, PartialEq, Eq, Structural)]
pub struct ComboSet {
    pub power: ComboPair,
    pub mode: ComboPair,
}

impl ComboSet {
    /// A set of the two pairs.
    pub fn new(power: ComboPair, mode: ComboPair) -> (s: Self)
        ensures
            s == (ComboSet { power, mode }),
    {
        ComboSet { power, mode }
    }

    /// Evaluates both combos.
    pub fn evaluate(&self, bank: &LineBank) -> (f: ComboFlags)
        requires
            bank.wf(),
        ensures
            f.power == (bank@.pressed(self.power.a as int) && bank@.pressed(self.power.b as int)),
            f.mode == (bank@.pressed(self.mode.a as int) && bank@.pressed(self.mode.b as int)),
    {
        ComboFlags { power: self.power.active(bank), mode: self.mode.active(bank) }
    }
}

/// The evaluated combos.
#[derive(Clone, Copy, Debug, PartialEq, Eq, Structural)]
pub struct ComboFlags {
    pub power: bool,
    pub mode: bool,
}

impl Default for ComboFlags {
    fn default() -> (f: Self)
        ensures
            f == (ComboFlags { power: false, mode: false }),
    {
        ComboFlags { power: false, mode: false }
    }
}

} // verus!
