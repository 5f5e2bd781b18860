//! Transition counters for the levels that can start or end an arming cycle.
//!
//! Every producer that can drive the mode machine folds into one of two aggregate bits, and a level
//! that asserts and releases within one tick leaves no trace in a read of the level. So each
//! producer has a counter that steps on every change of its level: a blip that is gone before the
//! next read still shows, and shows attributed. An even count with the level clear is a blip that
//! came and went; an odd one means that the level is still held. Counts saturate at 255.
//!
//! The wheel-motion level is not counted: it can delay an arming, but not end one.

use crate::bytes;
use vstd::prelude::*;

verus! {

/// Peer staleness (part of `fault_a`).
pub const EV_COMMS_LOSS: u8 = 0x01;

/// The stop latch of the link (part of `fault_a`).
pub const EV_STOP_ALL: u8 = 0x02;

/// Loss of a configured sensor (part of `fault_a`).
pub const EV_IMU_LOSS: u8 = 0x04;

/// The motor-side fault level (part of `fault_a`).
pub const EV_MOTOR_FAULT: u8 = 0x08;

/// Motor 0's fault latch (part of `fault_a`).
pub const EV_LATCH_A: u8 = 0x10;

/// Motor 1's fault latch (all of `fault_b`).
pub const EV_LATCH_B: u8 = 0x20;

/// The control mode was demoted.
pub const EV_MODE_FAULT: u8 = 0x40;

/// The power request, whose fall ends a run.
pub const EV_POWER_REQUEST: u8 = 0x80;

/// The number of counted producers: one per bit.
pub const N_EVENT_PRODUCERS: usize = 8;

/// The levels of one tick. The pipeline reads each producer once and folds the same value into the
/// aggregates that the mode machine consumes and into the mask that is counted, so the counters
/// cannot disagree with the decision that they explain.
#[derive(Clone, Copy, Debug, PartialEq, Eq, Structural)]
pub struct Levels {
    pub comms_loss: bool,
    pub stop_all: bool,
    pub imu_loss: bool,
    pub motor_fault: bool,
    pub latch_a: bool,
    pub latch_b: bool,
    pub mode_fault: bool,
    pub power_request: bool,
}

impl Default for Levels {
    fn default() -> (l: Self)
        ensures
            l == (Levels {
                comms_loss: false,
                stop_all: false,
                imu_loss: false,
                motor_fault: false,
                latch_a: false,
                latch_b: false,
                mode_fault: false,
                power_request: false,
            }),
    {
        Levels {
            comms_loss: false,
            stop_all: false,
            imu_loss: false,
            motor_fault: false,
            latch_a: false,
            latch_b: false,
            mode_fault: false,
            power_request: false,
        }
    }
}

/// The byte that stands for a level at the place of `ev`.
pub open spec fn flag(set: bool, ev: u8) -> u8 {
    if set {
        ev
    } else {
        0
    }
}

impl Levels {
    /// The mask of the levels.
    pub open spec fn packed(self) -> u8 {
        flag(self.comms_loss, EV_COMMS_LOSS) | flag(self.stop_all, EV_STOP_ALL) | flag(
            self.imu_loss,
            EV_IMU_LOSS,
        ) | flag(self.motor_fault, EV_MOTOR_FAULT) | flag(self.latch_a, EV_LATCH_A) | flag(
            self.latch_b,
            EV_LATCH_B,
        ) | flag(self.mode_fault, EV_MODE_FAULT) | flag(self.power_request, EV_POWER_REQUEST)
    }

    /// The general fault group.
    pub open spec fn a(self) -> bool {
        self.latch_a || self.comms_loss || self.stop_all || self.imu_loss || self.motor_fault
    }

    /// The mask of the levels: one bit each.
    pub fn mask(&self) -> (m: u8)
        ensures
            m == self.packed(),
            bytes::bit(m, 0) == self.comms_loss,
            bytes::bit(m, 1) == self.stop_all,
            bytes::bit(m, 2) == self.imu_loss,
            bytes::bit(m, 3) == self.motor_fault,
            bytes::bit(m, 4) == self.latch_a,
            bytes::bit(m, 5) == self.latch_b,
            bytes::bit(m, 6) == self.mode_fault,
            bytes::bit(m, 7) == self.power_request,
    {
        proof {
            lemma_packed(*self);
        }
        Self::flagged(self.comms_loss, EV_COMMS_LOSS) | Self::flagged(self.stop_all, EV_STOP_ALL)
            | Self::flagged(self.imu_loss, EV_IMU_LOSS) | Self::flagged(
            self.motor_fault,
            EV_MOTOR_FAULT,
        ) | Self::flagged(self.latch_a, EV_LATCH_A) | Self::flagged(self.latch_b, EV_LATCH_B)
            | Self::flagged(self.mode_fault, EV_MODE_FAULT) | Self::flagged(
            self.power_request,
            EV_POWER_REQUEST,
        )
    }

    fn flagged(set: bool, ev: u8) -> (b: u8)
        ensures
            b == flag(set, ev),
    {
        if set {
            ev
        } else {
            0
        }
    }

    /// The `fault_a` aggregate that the mode machine consumes.
    pub fn fault_a(&self) -> (b: bool)
        ensures
            b == self.a(),
    {
        self.latch_a || self.comms_loss || self.stop_all || self.imu_loss || self.motor_fault
    }

    /// The `fault_b` aggregate.
    pub fn fault_b(&self) -> (b: bool)
        ensures
            b == self.latch_b,
    {
        self.latch_b
    }
}

/// Every level has a bit of its own.
pub proof fn lemma_packed(l: Levels)
    ensures
        bytes::bit(l.packed(), 0) == l.comms_loss,
        bytes::bit(l.packed(), 1) == l.stop_all,
        bytes::bit(l.packed(), 2) == l.imu_loss,
        bytes::bit(l.packed(), 3) == l.motor_fault,
        bytes::bit(l.packed(), 4) == l.latch_a,
        bytes::bit(l.packed(), 5) == l.latch_b,
        bytes::bit(l.packed(), 6) == l.mode_fault,
        bytes::bit(l.packed(), 7) == l.power_request,
{
    let a = flag(l.comms_loss, EV_COMMS_LOSS);
    let b = flag(l.stop_all, EV_STOP_ALL);
    let c = flag(l.imu_loss, EV_IMU_LOSS);
    let d = flag(l.motor_fault, EV_MOTOR_FAULT);
    let e = flag(l.latch_a, EV_LATCH_A);
    let f = flag(l.latch_b, EV_LATCH_B);
    let g = flag(l.mode_fault, EV_MODE_FAULT);
    let h = flag(l.power_request, EV_POWER_REQUEST);
    let m = a | b | c | d | e | f | g | h;
    assert(((m >> 0u8) & 1 != 0) == (a != 0) && ((m >> 1u8) & 1 != 0) == (b != 0) && ((m >> 2u8) & 1
        != 0) == (c != 0) && ((m >> 3u8) & 1 != 0) == (d != 0) && ((m >> 4u8) & 1 != 0) == (e != 0)
        && ((m >> 5u8) & 1 != 0) == (f != 0) && ((m >> 6u8) & 1 != 0) == (g != 0) && ((m >> 7u8) & 1
        != 0) == (h != 0)) by (bit_vector)
        requires
            m == a | b | c | d | e | f | g | h,
            a == 0 || a == 1,
            b == 0 || b == 2,
            c == 0 || c == 4,
            d == 0 || d == 8,
            e == 0 || e == 16,
            f == 0 || f == 32,
            g == 0 || g == 64,
            h == 0 || h == 128,
    ;
}

/// The state of the counters: a count per bit, and the levels of the last tick.
#[verifier::ext_equal]
pub struct Events {
    pub counts: Seq<u8>,
    pub prev: u8,
}

/// The counters after a tick: a count steps where its level changed, up to 255.
pub open spec fn events_tick(e: Events, levels: u8) -> Events {
    Events {
        counts: Seq::new(
            e.counts.len(),
            |i: int|
                if bytes::bit(levels, i) != bytes::bit(e.prev, i) && e.counts[i] < 255 {
                    (e.counts[i] + 1) as u8
                } else {
                    e.counts[i]
                },
        ),
        prev: levels,
    }
}

/// The counters before the first tick. Every level starts clear, so one that is asserted on the
/// first tick counts as a transition.
pub open spec fn no_events() -> Events {
    Events { counts: Seq::new(8, |i: int| 0u8), prev: 0 }
}

/// The transition counters.
#[derive(Clone, Copy, Debug, PartialEq, Eq)]
pub struct FaultEvents {
    counts: [u8; N_EVENT_PRODUCERS],
    prev: u8,
}

impl View for FaultEvents {
    type V = Events;

    closed spec fn view(&self) -> Events {
        Events { counts: self.counts@, prev: self.prev }
    }
}

impl FaultEvents {
    /// Counters at zero.
    pub fn new() -> (e: Self)
        ensures
            e@ == no_events(),
    {
        let e = FaultEvents { counts: [0;N_EVENT_PRODUCERS], prev: 0 };
        assert(e@ =~= no_events());
        e
    }

    /// Takes one tick's levels and counts every producer whose level changed.
    pub fn tick(&mut self, levels: u8)
        ensures
            final(self)@ == events_tick(old(self)@, levels),
    {
        let prev: u8 = self.prev;
        self.prev = levels;
        let mut i: usize = 0;
        while i < N_EVENT_PRODUCERS
            invariant
                prev == old(self).prev,
                self.prev == levels,
                i <= N_EVENT_PRODUCERS,
                forall|k: int|
                    0 <= k < i ==> #[trigger] self.counts@[k] == events_tick(
                        old(self)@,
                        levels,
                    ).counts[k],
                forall|k: int|
                    i <= k < N_EVENT_PRODUCERS ==> self.counts@[k] == old(self).counts@[k],
            decreases N_EVENT_PRODUCERS - i,
        {
            let at: u8 = i as u8;
            let was = (prev >> at) & 1 != 0;
            let is = (levels >> at) & 1 != 0;
            if is != was && self.counts[i] < 255 {
                self.counts[i] = self.counts[i] + 1;
            }
            i += 1;
        }
        assert(self@ =~= events_tick(old(self)@, levels));
    }

    /// The levels of the last tick.
    pub fn levels(&self) -> (m: u8)
        ensures
            m == self@.prev,
    {
        self.prev
    }

    /// The counts, by bit.
    pub fn counts(&self) -> (c: [u8; N_EVENT_PRODUCERS])
        ensures
            c@ == self@.counts,
    {
        self.counts
    }

    /// The count of the producer whose bit is the lowest that `ev` has set; 0 where it has none.
    pub fn count(&self, ev: u8) -> (c: u8)
        ensures
            forall|i: int|
                0 <= i < 8 && #[trigger] bytes::bit(ev, i) && (forall|j: int|
                    0 <= j < i ==> !#[trigger] bytes::bit(ev, j)) ==> c == self@.counts[i],
            (forall|i: int| 0 <= i < 8 ==> !#[trigger] bytes::bit(ev, i)) ==> c == 0,
    {
        let mut i: usize = 0;
        while i < N_EVENT_PRODUCERS
            invariant
                i <= N_EVENT_PRODUCERS,
                forall|j: int| 0 <= j < i ==> !#[trigger] bytes::bit(ev, j),
            decreases N_EVENT_PRODUCERS - i,
        {
            let at: u8 = i as u8;
            if (ev >> at) & 1 != 0 {
                assert(bytes::bit(ev, i as int));
                return self.counts[i];
            }
            i += 1;
        }
        0
    }
}

impl Default for FaultEvents {
    fn default() -> (e: Self)
        ensures
            e@ == no_events(),
    {
        FaultEvents::new()
    }
}

/// The counters after a run of ticks.
pub open spec fn events_run(e: Events, levels: Seq<u8>) -> Events
    decreases levels.len(),
{
    if levels.len() == 0 {
        e
    } else {
        events_tick(events_run(e, levels.drop_last()), levels.last())
    }
}

/// The number of times that bit `i` changes over a run of ticks that starts from `prev`.
pub open spec fn changes(prev: u8, levels: Seq<u8>, i: int) -> nat
    decreases levels.len(),
{
    if levels.len() == 0 {
        0
    } else {
        let before = levels.drop_last();
        let last = if before.len() == 0 {
            prev
        } else {
            before.last()
        };
        changes(prev, before, i) + if bytes::bit(levels.last(), i) != bytes::bit(last, i) {
            1nat
        } else {
            0nat
        }
    }
}

/// Over any run of ticks from the start, a count is the number of changes of its level, or 255 if
/// there were more.
pub proof fn lemma_counts_are_changes(levels: Seq<u8>, i: int)
    requires
        0 <= i < 8,
    ensures
        events_run(no_events(), levels).counts[i] == vstd::math::min(
            255,
            changes(0, levels, i) as int,
        ),
{
    lemma_counts_add_up(no_events(), levels, i);
}

/// The same from any counters on.
pub proof fn lemma_counts_add_up(e: Events, levels: Seq<u8>, i: int)
    requires
        0 <= i < e.counts.len(),
    ensures
        events_run(e, levels).counts.len() == e.counts.len(),
        events_run(e, levels).prev == (if levels.len() == 0 {
            e.prev
        } else {
            levels.last()
        }),
        events_run(e, levels).counts[i] == vstd::math::min(
            255,
            e.counts[i] + changes(e.prev, levels, i),
        ),
    decreases levels.len(),
{
    if levels.len() > 0 {
        lemma_counts_add_up(e, levels.drop_last(), i);
    }
}

/// The counters tell held levels from blips: below saturation, a count is odd exactly while its
/// level is held.
pub open spec fn parity_tells(e: Events) -> bool {
    e.counts.len() == 8 && forall|i: int|
        0 <= i < 8 && (#[trigger] e.counts[i]) < 255 ==> (e.counts[i] % 2 == 1) == bytes::bit(
            e.prev,
            i,
        )
}

/// Parity tells at the start, and every tick keeps it so.
pub proof fn lemma_parity_tells(e: Events, levels: u8)
    ensures
        parity_tells(no_events()),
        parity_tells(e) ==> parity_tells(events_tick(e, levels)),
{
    assert forall|i: int| 0 <= i < 8 implies !#[trigger] bytes::bit(0u8, i) by {
        let j = i as u8;
        assert((0u8 >> j) & 1 == 0) by (bit_vector)
            requires
                j < 8,
        ;
    }
}

/// A level that did not change is not counted, and counts never fall.
pub proof fn lemma_only_changes_count(e: Events, levels: u8, i: int)
    requires
        0 <= i < e.counts.len(),
    ensures
        bytes::bit(levels, i) == bytes::bit(e.prev, i) ==> events_tick(e, levels).counts[i]
            == e.counts[i],
        events_tick(e, levels).counts[i] >= e.counts[i],
{
}

/// What the fault groups are made of: any one of five levels raises the general one, and nothing
/// else does; neither the second motor's latch, nor the mode, nor the power request is in it.
pub proof fn lemma_fault_group(l: Levels, m: Levels)
    ensures
        l.latch_a || l.comms_loss || l.stop_all || l.imu_loss || l.motor_fault ==> l.a(),
        l.a() ==> l.latch_a || l.comms_loss || l.stop_all || l.imu_loss || l.motor_fault,
        ({
            &&& l.latch_a == m.latch_a
            &&& l.comms_loss == m.comms_loss
            &&& l.stop_all == m.stop_all
            &&& l.imu_loss == m.imu_loss
            &&& l.motor_fault == m.motor_fault
        }) ==> l.a() == m.a(),
{
}

} // verus!
