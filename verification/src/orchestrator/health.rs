//! The read health of a configured inertial sensor.
//!
//! A failing read must become a fault: a balance loop on a frozen attitude would go on producing
//! torque. Absence of a sensor is no loss.

use vstd::prelude::*;

verus! {

/// Failed reads in a row that assert the loss and open the retry breaker: 20 ms.
pub const IMU_LOSS_THRESHOLD: u16 = 5;

/// Good reads in a row that clear the loss: 100 ms of an unbroken stream.
pub const IMU_RECOVER_THRESHOLD: u16 = 25;

/// While the breaker is open, a read is tried every this many ticks: once per second.
pub const IMU_PROBE_CADENCE: u32 = 250;

/// The state of the read health.
pub struct Health {
    pub fail_streak: u16,
    pub ok_streak: u16,
    pub loss: bool,
}

/// A healthy start.
pub open spec fn healthy_start() -> Health {
    Health { fail_streak: 0, ok_streak: 0, loss: false }
}

/// One more, up to the largest number.
pub open spec fn one_more(n: u16) -> u16 {
    if n < u16::MAX {
        (n + 1) as u16
    } else {
        n
    }
}

/// The health after a tick.
pub open spec fn health_step(h: Health, configured: bool, read_ok: bool) -> Health {
    if !configured {
        healthy_start()
    } else if read_ok {
        Health {
            fail_streak: 0,
            ok_streak: one_more(h.ok_streak),
            loss: h.loss && one_more(h.ok_streak) < IMU_RECOVER_THRESHOLD,
        }
    } else {
        Health {
            fail_streak: one_more(h.fail_streak),
            ok_streak: 0,
            loss: h.loss || one_more(h.fail_streak) >= IMU_LOSS_THRESHOLD,
        }
    }
}

/// The read health of a sensor: the loss is a hysteresis latch, the breaker follows the failure
/// streak. So one good probe closes the breaker, while the loss holds until the stream has proved
/// itself.
#[derive(Clone, Copy, Debug)]
pub struct ImuHealth {
    fail_streak: u16,
    ok_streak: u16,
    loss: bool,
}

impl View for ImuHealth {
    type V = Health;

    closed spec fn view(&self) -> Health {
        Health { fail_streak: self.fail_streak, ok_streak: self.ok_streak, loss: self.loss }
    }
}

impl ImuHealth {
    /// A healthy start.
    pub fn new() -> (h: Self)
        ensures
            h@ == healthy_start(),
    {
        ImuHealth { fail_streak: 0, ok_streak: 0, loss: false }
    }

    /// Takes the outcome of one tick.
    pub fn update(&mut self, configured: bool, read_ok: bool)
        ensures
            final(self)@ == health_step(old(self)@, configured, read_ok),
    {
        if !configured {
            *self = ImuHealth::new();
            return;
        }
        if read_ok {
            self.fail_streak = 0;
            if self.ok_streak < u16::MAX {
                self.ok_streak = self.ok_streak + 1;
            }
            if self.loss && self.ok_streak >= IMU_RECOVER_THRESHOLD {
                self.loss = false;
            }
        } else {
            self.ok_streak = 0;
            if self.fail_streak < u16::MAX {
                self.fail_streak = self.fail_streak + 1;
            }
            if self.fail_streak >= IMU_LOSS_THRESHOLD {
                self.loss = true;
            }
        }
    }

    /// The loss level.
    pub fn loss(&self) -> (b: bool)
        ensures
            b == self@.loss,
    {
        self.loss
    }

    /// Whether the retry breaker is open.
    pub fn backoff(&self) -> (b: bool)
        ensures
            b == (self@.fail_streak >= IMU_LOSS_THRESHOLD),
    {
        self.fail_streak >= IMU_LOSS_THRESHOLD
    }

    /// Failed reads in a row.
    pub fn fail_streak(&self) -> (n: u16)
        ensures
            n == self@.fail_streak,
    {
        self.fail_streak
    }
}

impl Default for ImuHealth {
    fn default() -> (h: Self)
        ensures
            h@ == healthy_start(),
    {
        ImuHealth::new()
    }
}

/// The health of a configured sensor after `n` more reads that all went the same way.
pub open spec fn health_run(h: Health, read_ok: bool, n: nat) -> Health
    decreases n,
{
    if n == 0 {
        h
    } else {
        health_step(health_run(h, read_ok, (n - 1) as nat), true, read_ok)
    }
}

/// A healthy stream is lost after exactly [`IMU_LOSS_THRESHOLD`] failed reads in a row, and that
/// opens the breaker.
pub proof fn lemma_loss_after_threshold(h: Health, n: nat)
    requires
        !h.loss,
        h.fail_streak == 0,
    ensures
        health_run(h, false, n).loss == (n >= IMU_LOSS_THRESHOLD),
        health_run(h, false, n).fail_streak == vstd::math::min(n as int, u16::MAX as int),
    decreases n,
{
    if n > 0 {
        lemma_loss_after_threshold(h, (n - 1) as nat);
    }
}

/// A loss clears after exactly [`IMU_RECOVER_THRESHOLD`] good reads in a row, while the first of
/// them closes the breaker.
pub proof fn lemma_recovery_after_threshold(h: Health, n: nat)
    requires
        h.loss,
        h.ok_streak == 0,
    ensures
        health_run(h, true, n).loss == (n < IMU_RECOVER_THRESHOLD),
        health_run(h, true, n).ok_streak == vstd::math::min(n as int, u16::MAX as int),
        n > 0 ==> health_run(h, true, n).fail_streak == 0,
    decreases n,
{
    if n > 0 {
        lemma_recovery_after_threshold(h, (n - 1) as nat);
    }
}

/// Absence is never loss.
pub proof fn lemma_absence_is_not_loss(h: Health, read_ok: bool)
    ensures
        !health_step(h, false, read_ok).loss,
        health_step(h, false, read_ok).fail_streak == 0,
{
}

/// One read: a good one closes the breaker and never makes a loss, a failed one starts the good ones
/// again from 0 and never clears a loss; either counts on by one.
pub proof fn lemma_one_read(h: Health)
    ensures
        ({
            let g = health_step(h, true, true);
            &&& g.fail_streak == 0
            &&& h.ok_streak < u16::MAX ==> g.ok_streak == h.ok_streak + 1
            &&& !h.loss ==> !g.loss
            &&& h.loss ==> (g.loss <==> g.ok_streak < 25)
        }),
        ({
            let g = health_step(h, true, false);
            &&& g.ok_streak == 0
            &&& h.fail_streak < u16::MAX ==> g.fail_streak == h.fail_streak + 1
            &&& h.loss ==> g.loss
            &&& !h.loss ==> (g.loss <==> g.fail_streak >= 5)
        }),
{
}

} // verus!
