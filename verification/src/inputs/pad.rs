//! The foot pads. Active-high, with the inverse asymmetry of the buttons: one high sample engages,
//! two consecutive low samples disengage. The field selects the gain schedule; it is no enable.

use vstd::prelude::*;

verus! {

/// Pad A: foot on when set.
pub const PAD_A_BIT: u8 = 0b01;

/// Pad B: foot on when set.
pub const PAD_B_BIT: u8 = 0b10;

/// The merged field: 0 = no rider, both bits = full rider.
pub type PadField = u8;

/// The state of one pad: engaged, and how many low samples in a row were seen, up to two.
pub struct Pad {
    pub on: bool,
    pub low_run: nat,
}

/// A pad that has seen nothing yet.
pub open spec fn fresh_pad() -> Pad {
    Pad { on: false, low_run: 0 }
}

/// A pad after one sample.
pub open spec fn pad_step(p: Pad, high: bool) -> Pad {
    if high {
        Pad { on: true, low_run: 0 }
    } else {
        let low_run = if p.low_run < 2 {
            p.low_run + 1
        } else {
            p.low_run
        };
        Pad { on: p.on && low_run < 2, low_run }
    }
}

/// The field of two pads.
pub open spec fn field_of(a: bool, b: bool) -> PadField {
    if a && b {
        3
    } else if a {
        PAD_A_BIT
    } else if b {
        PAD_B_BIT
    } else {
        0
    }
}

/// One pad debouncer.
#[derive(Clone, Copy, Debug)]
struct PadSensor {
    on: bool,
    low_run: u8,
}

impl View for PadSensor {
    type V = Pad;

    closed spec fn view(&self) -> Pad {
        Pad { on: self.on, low_run: self.low_run as nat }
    }
}

impl PadSensor {
    fn new() -> (s: Self)
        ensures
            s@ == fresh_pad(),
    {
        PadSensor { on: false, low_run: 0 }
    }

    /// Advances the pad one sample and returns whether it is engaged.
    fn update(&mut self, high: bool) -> (on: bool)
        ensures
            final(self)@ == pad_step(old(self)@, high),
            on == final(self)@.on,
    {
        if high {
            self.on = true;
            self.low_run = 0;
        } else {
            if self.low_run < 2 {
                self.low_run = self.low_run + 1;
            }
            if self.low_run >= 2 {
                self.on = false;
            }
        }
        self.on
    }
}

/// The two pads.
#[derive(Clone, Copy, Debug)]
pub struct PadBank {
    pad_a: PadSensor,
    pad_b: PadSensor,
}

impl View for PadBank {
    type V = (Pad, Pad);

    closed spec fn view(&self) -> (Pad, Pad) {
        (self.pad_a@, self.pad_b@)
    }
}

impl PadBank {
    /// Both pads off.
    pub fn new() -> (p: Self)
        ensures
            p@ == (fresh_pad(), fresh_pad()),
    {
        PadBank { pad_a: PadSensor::new(), pad_b: PadSensor::new() }
    }

    /// Advances both pads one sample and returns the field.
    pub fn update(&mut self, pad_a_high: bool, pad_b_high: bool) -> (f: PadField)
        ensures
            final(self)@ == (pad_step(old(self)@.0, pad_a_high), pad_step(
                old(self)@.1,
                pad_b_high,
            )),
            f == field_of(final(self)@.0.on, final(self)@.1.on),
    {
        let a = self.pad_a.update(pad_a_high);
        let b = self.pad_b.update(pad_b_high);
        self.field_from(a, b)
    }

    /// The field as it stands.
    pub fn field(&self) -> (f: PadField)
        ensures
            f == field_of(self@.0.on, self@.1.on),
    {
        self.field_from(self.pad_a.on, self.pad_b.on)
    }

    fn field_from(&self, a: bool, b: bool) -> (f: PadField)
        ensures
            f == field_of(a, b),
    {
        let mut f: PadField = 0;
        if a {
            f = f + PAD_A_BIT;
        }
        if b {
            f = f + PAD_B_BIT;
        }
        f
    }
}

impl Default for PadBank {
    fn default() -> (p: Self)
        ensures
            p@ == (fresh_pad(), fresh_pad()),
    {
        PadBank::new()
    }
}

/// A pad after a history of samples, oldest first.
pub open spec fn pad_run(h: Seq<bool>) -> Pad
    decreases h.len(),
{
    if h.len() == 0 {
        fresh_pad()
    } else {
        pad_step(pad_run(h.drop_last()), h.last())
    }
}

/// One to engage, two to disengage: a pad is on exactly when one of its last two samples was high.
pub proof fn lemma_one_to_engage_two_to_release(h: Seq<bool>)
    ensures
        pad_run(h).on == ((h.len() >= 1 && h[h.len() - 1]) || (h.len() >= 2 && h[h.len() - 2])),
        pad_run(h).low_run == 0 <==> (h.len() == 0 || h.last()),
        pad_run(h).low_run <= 2,
        pad_run(h).low_run == 1 && h.len() >= 2 ==> h[h.len() - 2],
        pad_run(h).low_run == 2 ==> h.len() >= 2 && !h[h.len() - 2],
    decreases h.len(),
{
    if h.len() > 0 {
        lemma_one_to_engage_two_to_release(h.drop_last());
    }
}

/// The field says which pads are on: pad A in the low bit, pad B in the next.
pub proof fn lemma_field(a: bool, b: bool)
    ensures
        field_of(a, b) as int == (if a { 1int } else { 0 }) + if b { 2int } else { 0 },
{
}

} // verus!
