//! Fault codes and the fault latch of one motor.
//!
//! The latch runs once per 4 ms tick. It consumes the fast inputs (an external trip flag and a
//! one-shot fault code), then runs the slow counter of persistent inconsistency. The whole unit is
//! inert while the motor is not enabled. The latch is one-way: nothing here clears it.

use vstd::prelude::*;

verus! {

/// Over-current code: latches at once.
pub const CODE_OVERCURRENT: u8 = 0x11;

/// Stall code: consumed, but latches through the slow counter alone.
pub const CODE_STALL: u8 = 0x21;

/// Counter value at which the slow fault latches; the counter clamps here. About 10 minutes.
pub const LATCH_THRESHOLD: u32 = 150_000;

/// The counter is not incremented at or above this value.
pub const COUNT_CAP: u32 = 1_000_000;

/// The balance sub-state that means "cleanly running".
pub const RUN_SUBSTATE: i8 = 3;

/// The fault latch of one motor.
#[derive(Debug, Clone, Copy, PartialEq, Eq, Structural)]
pub struct FaultLatch {
    /// The unit is inert while this is 0.
    pub running_enable: u8,
    /// External trip input: latches on every tick while set.
    pub ext_trip: u8,
    /// One-shot code mailbox; consumed by the tick.
    pub fault_code: u8,
    /// Balance sub-state: 0 = idle, 1 = soft-start, 2 = wind-down, 3 = run.
    pub a_substate: i8,
    /// Wheel motion word.
    pub b_motion: i16,
    /// Ticks of persistent inconsistency.
    pub fault_counter: u32,
    /// The latch. Only ever written 1 here.
    pub fault_latch: u8,
}

/// Sub-state and motion agree: something is going on, and the wheel moves only while running.
pub open spec fn healthy(l: FaultLatch) -> bool {
    (l.a_substate != 0 || l.b_motion != 0) && (l.a_substate == RUN_SUBSTATE || l.b_motion == 0)
}

/// The slow counter after an unhealthy tick.
pub open spec fn counted(c: u32) -> u32 {
    if c < LATCH_THRESHOLD {
        (c + 1) as u32
    } else {
        LATCH_THRESHOLD
    }
}

/// The unit after one tick.
pub open spec fn latch_tick(l: FaultLatch) -> FaultLatch {
    if l.running_enable == 0 {
        l
    } else {
        let counter = if healthy(l) {
            0
        } else {
            counted(l.fault_counter)
        };
        let latches = l.ext_trip != 0 || l.fault_code == CODE_OVERCURRENT || (!healthy(l) && counter
            == LATCH_THRESHOLD);
        FaultLatch {
            fault_code: 0,
            fault_counter: counter,
            fault_latch: if latches {
                1
            } else {
                l.fault_latch
            },
            ..l
        }
    }
}

impl FaultLatch {
    /// A fresh, disabled unit.
    pub fn new() -> (l: Self)
        ensures
            l == (FaultLatch {
                running_enable: 0,
                ext_trip: 0,
                fault_code: 0,
                a_substate: 0,
                b_motion: 0,
                fault_counter: 0,
                fault_latch: 0,
            }),
    {
        FaultLatch {
            running_enable: 0,
            ext_trip: 0,
            fault_code: 0,
            a_substate: 0,
            b_motion: 0,
            fault_counter: 0,
            fault_latch: 0,
        }
    }

    /// True once the latch has fired.
    pub fn is_latched(&self) -> (b: bool)
        ensures
            b == (self.fault_latch != 0),
    {
        self.fault_latch != 0
    }

    /// True while sub-state and motion agree.
    pub fn is_healthy(&self) -> (b: bool)
        ensures
            b == healthy(*self),
    {
        let a: i8 = self.a_substate;
        let b: i16 = self.b_motion;
        (a != 0 || b != 0) && (a == RUN_SUBSTATE || b == 0)
    }

    /// One 4 ms pass: the running enable, the external trip, the code, then the slow counter.
    pub fn tick(&mut self)
        ensures
            *final(self) == latch_tick(*old(self)),
    {
        if self.running_enable == 0 {
            return;
        }
        if self.ext_trip != 0 {
            self.fault_latch = 1;
        }
        let code: u8 = self.fault_code;
        self.fault_code = 0;
        if code == CODE_OVERCURRENT {
            self.fault_latch = 1;
        }
        if self.is_healthy() {
            self.fault_counter = 0;
            return;
        }
        if self.fault_counter < COUNT_CAP {
            self.fault_counter = self.fault_counter + 1;
        }
        if self.fault_counter >= LATCH_THRESHOLD {
            self.fault_counter = LATCH_THRESHOLD;
            self.fault_latch = 1;
        }
    }
}

impl Default for FaultLatch {
    fn default() -> (l: Self)
        ensures
            l.running_enable == 0,
            l.ext_trip == 0,
            l.fault_code == 0,
            l.a_substate == 0,
            l.b_motion == 0,
            l.fault_counter == 0,
            l.fault_latch == 0,
    {
        FaultLatch::new()
    }
}

/// The latch is one-way: a tick never clears it.
pub proof fn lemma_one_way(l: FaultLatch)
    requires
        l.fault_latch != 0,
    ensures
        latch_tick(l).fault_latch != 0,
{
}

/// A disabled unit is inert: the code is not consumed, the counter is frozen, the latch untouched.
pub proof fn lemma_gate_off_inert(l: FaultLatch)
    requires
        l.running_enable == 0,
    ensures
        latch_tick(l) == l,
{
}

/// The unit after `n` ticks with nothing new coming in.
pub open spec fn latch_ticks(l: FaultLatch, n: nat) -> FaultLatch
    decreases n,
{
    if n == 0 {
        l
    } else {
        latch_tick(latch_ticks(l, (n - 1) as nat))
    }
}

/// The slow counter latches on exactly the tick on which it reaches the threshold, and stays there.
pub proof fn lemma_slow_latch(l: FaultLatch, n: nat)
    requires
        l.running_enable != 0,
        !healthy(l),
        l.ext_trip == 0,
        l.fault_code != CODE_OVERCURRENT,
        l.fault_latch == 0,
        l.fault_counter < LATCH_THRESHOLD,
    ensures
        latch_ticks(l, n).fault_counter == vstd::math::min(
            l.fault_counter + n,
            LATCH_THRESHOLD as int,
        ),
        latch_ticks(l, n).fault_latch != 0 <==> l.fault_counter + n >= LATCH_THRESHOLD,
        latch_ticks(l, n).running_enable == l.running_enable,
        latch_ticks(l, n).ext_trip == 0,
        latch_ticks(l, n).fault_code != CODE_OVERCURRENT,
        latch_ticks(l, n).a_substate == l.a_substate,
        latch_ticks(l, n).b_motion == l.b_motion,
    decreases n,
{
    if n > 0 {
        lemma_slow_latch(l, (n - 1) as nat);
    }
}

/// A code is consumed by the tick that sees it; only the over-current code latches.
pub proof fn lemma_code_consumed(l: FaultLatch)
    requires
        l.running_enable != 0,
    ensures
        latch_tick(l).fault_code == 0,
        l.fault_code == CODE_OVERCURRENT ==> latch_tick(l).fault_latch == 1,
        l.fault_code != CODE_OVERCURRENT && l.ext_trip == 0 && healthy(l) ==> latch_tick(
            l,
        ).fault_latch == l.fault_latch,
{
}

/// What agrees: a motor that runs, whatever its wheel does, and one that is winding up or down with
/// its wheel at rest. A wheel that moves outside a run does not, and neither does nothing at all.
pub proof fn lemma_healthy(l: FaultLatch)
    ensures
        healthy(l) <==> l.a_substate == 3 || (l.a_substate != 0 && l.b_motion == 0),
{
}

/// A live unit fires exactly on an external trip, the over-current code, or a count that has come to
/// the threshold; a healthy tick starts the count again from 0; and nothing but the code, the count
/// and the latch changes.
pub proof fn lemma_fires(l: FaultLatch)
    requires
        l.running_enable != 0,
    ensures
        ({
            let n = latch_tick(l);
            &&& l.ext_trip != 0 || l.fault_code == 0x11 ==> n.fault_latch == 1
            &&& l.fault_latch == 0 ==> (n.fault_latch != 0 <==> l.ext_trip != 0 || l.fault_code
                == 0x11 || n.fault_counter == 150_000)
            &&& healthy(l) ==> n.fault_counter == 0
            &&& !healthy(l) && l.fault_counter < 150_000 ==> n.fault_counter == l.fault_counter + 1
            &&& !healthy(l) && l.fault_counter >= 150_000 ==> n.fault_counter == 150_000
            &&& n.fault_code == 0
            &&& n == (FaultLatch {
                fault_code: n.fault_code,
                fault_counter: n.fault_counter,
                fault_latch: n.fault_latch,
                ..l
            })
        }),
{
}

} // verus!
