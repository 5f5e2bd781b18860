//! The interrupt-load validator: bursts under load, counted, with the bus registers of the first
//! failure.

use crate::counter;
use vstd::prelude::*;

verus! {

/// The block is live.
pub const MAGIC: u32 = 0x4C51_5249;

/// The result block.
#[derive(Debug, Clone, Copy, PartialEq, Eq, Structural)]
pub struct Obs {
    pub magic: u32,
    /// Fatal bring-up error; 0 = none.
    pub err: u32,
    /// Successful bursts.
    pub samples: u32,
    /// Failed bursts.
    pub errs: u32,
    /// Bus registers at the first failure.
    pub first_err_stat0: u32,
    pub first_err_stat1: u32,
    pub first_err_ctl0: u32,
    /// Interrupts served.
    pub ticks: u32,
}

/// The bus registers.
#[derive(Debug, Clone, Copy, PartialEq, Eq, Structural)]
pub struct BusRegisters {
    pub stat0: u32,
    pub stat1: u32,
    pub ctl0: u32,
}

/// The block before anything ran.
pub open spec fn blank() -> Obs {
    Obs {
        magic: 0,
        err: 0,
        samples: 0,
        errs: 0,
        first_err_stat0: 0,
        first_err_stat1: 0,
        first_err_ctl0: 0,
        ticks: 0,
    }
}

/// The block after a burst. The registers are taken while no failure has been counted.
pub open spec fn after_burst(o: Obs, ok: bool, regs: BusRegisters, ticks: u32) -> Obs {
    if ok {
        Obs { samples: counter::after32(o.samples), ticks, ..o }
    } else if o.errs == 0 {
        Obs {
            errs: 1,
            first_err_stat0: regs.stat0,
            first_err_stat1: regs.stat1,
            first_err_ctl0: regs.ctl0,
            ticks,
            ..o
        }
    } else {
        Obs { errs: counter::after32(o.errs), ticks, ..o }
    }
}

impl Obs {
    /// The block before anything ran.
    pub fn new() -> (o: Self)
        ensures
            o == blank(),
    {
        Obs {
            magic: 0,
            err: 0,
            samples: 0,
            errs: 0,
            first_err_stat0: 0,
            first_err_stat1: 0,
            first_err_ctl0: 0,
            ticks: 0,
        }
    }

    /// Bring-up failed for good.
    pub fn fail(&mut self, code: u32)
        ensures
            *final(self) == (Obs { err: code, magic: MAGIC, ..*old(self) }),
    {
        self.err = code;
        self.magic = MAGIC;
    }

    /// Bring-up is done and the load runs.
    pub fn start(&mut self)
        ensures
            *final(self) == (Obs { magic: MAGIC, ..*old(self) }),
    {
        self.magic = MAGIC;
    }

    /// Takes the outcome of a burst, the bus registers after it, and the interrupts served so far.
    pub fn burst(&mut self, ok: bool, regs: BusRegisters, ticks: u32)
        ensures
            *final(self) == after_burst(*old(self), ok, regs, ticks),
    {
        if ok {
            self.samples = counter::inc32(self.samples);
        } else {
            if self.errs == 0 {
                self.first_err_stat0 = regs.stat0;
                self.first_err_stat1 = regs.stat1;
                self.first_err_ctl0 = regs.ctl0;
            }
            self.errs = counter::inc32(self.errs);
        }
        self.ticks = ticks;
    }
}

/// The registers of the first failure stay: no later burst changes them, unless the failure count
/// has come round to 0.
pub proof fn lemma_first_failure_kept(o: Obs, ok: bool, regs: BusRegisters, ticks: u32)
    requires
        o.errs != 0,
    ensures
        after_burst(o, ok, regs, ticks).first_err_stat0 == o.first_err_stat0,
        after_burst(o, ok, regs, ticks).first_err_stat1 == o.first_err_stat1,
        after_burst(o, ok, regs, ticks).first_err_ctl0 == o.first_err_ctl0,
{
}

/// What a burst counts: one more success or one more failure and never both, the interrupts as they
/// were told, and nothing else, but that the first failure leaves its registers.
pub proof fn lemma_burst_counts(o: Obs, ok: bool, regs: BusRegisters, ticks: u32)
    ensures
        ({
            let n = after_burst(o, ok, regs, ticks);
            &&& n.samples as int == if ok { (o.samples + 1) % 0x1_0000_0000 } else { o.samples as int }
            &&& n.errs as int == if ok { o.errs as int } else { (o.errs + 1) % 0x1_0000_0000 }
            &&& n.ticks == ticks
            &&& n.magic == o.magic && n.err == o.err
            &&& !ok && o.errs == 0 ==> n.first_err_stat0 == regs.stat0 && n.first_err_stat1
                == regs.stat1 && n.first_err_ctl0 == regs.ctl0
            &&& ok ==> n.first_err_stat0 == o.first_err_stat0 && n.first_err_stat1
                == o.first_err_stat1 && n.first_err_ctl0 == o.first_err_ctl0
        }),
{
}

} // verus!
