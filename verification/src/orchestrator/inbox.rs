//! The link inbox: the latest word of each control family, and the supervision of their age.
//!
//! All families are latest-wins: no queue, one slot each. A board that never saw a peer has none to
//! lose. The stop latch is set by a received fault and cleared only by a pass that lands in OFF.

use crate::linkctl::{
    CyclicState, DriveCmd, Inputs, Payload, CYCLIC_TIMEOUT_TICKS, DRIVE_TIMEOUT_TICKS,
};
use vstd::prelude::*;

verus! {

/// The contents of the inbox.
pub struct Inbox {
    /// The latest peer state; none before the first.
    pub peer: Option<CyclicState>,
    /// Ticks since then.
    pub cyclic_age: u32,
    /// The latest drive command; none before the first.
    pub drive: Option<DriveCmd>,
    /// Ticks since then.
    pub drive_age: u32,
    /// The latest input mirror; none before the first.
    pub remote: Option<Inputs>,
    /// The stop latch.
    pub stop_all: bool,
}

impl Inbox {
    /// The peer went silent.
    pub open spec fn comms_loss(self) -> bool {
        self.peer is Some && self.cyclic_age > CYCLIC_TIMEOUT_TICKS
    }

    /// No drive command is fresh.
    pub open spec fn drive_stale(self) -> bool {
        self.drive is None || self.drive_age > DRIVE_TIMEOUT_TICKS
    }

    /// The peer asserts lockdown: bit 7 of its flags.
    pub open spec fn peer_lockdown(self) -> bool {
        self.peer is Some && self.peer->0.flags >= 0x80
    }

    /// The peer reports a rider: bit 0 of its flags.
    pub open spec fn peer_rider(self) -> bool {
        self.peer is Some && self.peer->0.flags % 2 == 1
    }

    /// The mirror asks for power: bit 0 of its buttons.
    pub open spec fn remote_power(self) -> bool {
        self.remote is Some && self.remote->0.buttons % 2 == 1
    }

    /// The mirror reports a rider: bit 0 of its rider byte.
    pub open spec fn remote_rider(self) -> bool {
        self.remote is Some && self.remote->0.rider % 2 == 1
    }
}

/// The empty inbox.
pub open spec fn empty_inbox() -> Inbox {
    Inbox {
        peer: None,
        cyclic_age: 0,
        drive: None,
        drive_age: 0,
        remote: None,
        stop_all: false,
    }
}

/// The inbox after a payload was accepted.
pub open spec fn accepted(b: Inbox, p: Payload) -> Inbox {
    match p {
        Payload::CyclicState(c) => Inbox { peer: Some(c), cyclic_age: 0, ..b },
        Payload::DriveCmd(d) => Inbox { drive: Some(d), drive_age: 0, ..b },
        Payload::Inputs(i) => Inbox { remote: Some(i), ..b },
        Payload::Fault(f) => Inbox { stop_all: b.stop_all || f.action == 1, ..b },
    }
}

/// One tick older, up to the largest age.
pub open spec fn older(age: u32) -> u32 {
    if age < u32::MAX {
        (age + 1) as u32
    } else {
        age
    }
}

/// The inbox one tick later: only what was ever received ages.
pub open spec fn aged(b: Inbox) -> Inbox {
    Inbox {
        cyclic_age: if b.peer is Some {
            older(b.cyclic_age)
        } else {
            b.cyclic_age
        },
        drive_age: if b.drive is Some {
            older(b.drive_age)
        } else {
            b.drive_age
        },
        ..b
    }
}

/// The link inbox.
#[derive(Clone, Copy, Debug)]
pub struct LinkInbox {
    peer: Option<CyclicState>,
    cyclic_age: u32,
    drive: Option<DriveCmd>,
    drive_age: u32,
    remote: Option<Inputs>,
    stop_all: bool,
}

impl View for LinkInbox {
    type V = Inbox;

    closed spec fn view(&self) -> Inbox {
        Inbox {
            peer: self.peer,
            cyclic_age: self.cyclic_age,
            drive: self.drive,
            drive_age: self.drive_age,
            remote: self.remote,
            stop_all: self.stop_all,
        }
    }
}

impl LinkInbox {
    /// An empty inbox.
    pub fn new() -> (b: Self)
        ensures
            b@ == empty_inbox(),
    {
        LinkInbox {
            peer: None,
            cyclic_age: 0,
            drive: None,
            drive_age: 0,
            remote: None,
            stop_all: false,
        }
    }

    /// Accepts a decoded payload: the latest wins.
    pub fn accept(&mut self, payload: Payload)
        ensures
            final(self)@ == accepted(old(self)@, payload),
    {
        match payload {
            Payload::CyclicState(c) => {
                self.peer = Some(c);
                self.cyclic_age = 0;
            },
            Payload::DriveCmd(d) => {
                self.drive = Some(d);
                self.drive_age = 0;
            },
            Payload::Inputs(i) => {
                self.remote = Some(i);
            },
            Payload::Fault(f) => {
                if f.stop_all() {
                    self.stop_all = true;
                }
            },
        }
    }

    /// One tick passes.
    pub fn tick_ages(&mut self)
        ensures
            final(self)@ == aged(old(self)@),
    {
        if self.peer.is_some() && self.cyclic_age < u32::MAX {
            self.cyclic_age = self.cyclic_age + 1;
        }
        if self.drive.is_some() && self.drive_age < u32::MAX {
            self.drive_age = self.drive_age + 1;
        }
    }

    /// Clears the stop latch.
    pub(crate) fn clear_stop_all(&mut self)
        ensures
            final(self)@ == (Inbox { stop_all: false, ..old(self)@ }),
    {
        self.stop_all = false;
    }

    /// The peer-staleness level. A fresh state clears it; before the first it is never asserted.
    pub fn comms_loss(&self) -> (b: bool)
        ensures
            b == self@.comms_loss(),
    {
        self.peer.is_some() && self.cyclic_age > CYCLIC_TIMEOUT_TICKS
    }

    /// Whether no drive command is fresh.
    pub fn drive_stale(&self) -> (b: bool)
        ensures
            b == self@.drive_stale(),
    {
        match self.drive {
            None => true,
            Some(_) => self.drive_age > DRIVE_TIMEOUT_TICKS,
        }
    }

    /// The latest drive command, fresh or not.
    pub fn drive(&self) -> (d: Option<DriveCmd>)
        ensures
            d == self@.drive,
    {
        self.drive
    }

    /// The latest peer state.
    pub fn peer(&self) -> (p: Option<CyclicState>)
        ensures
            p == self@.peer,
    {
        self.peer
    }

    /// The peer's lockdown level.
    pub fn peer_lockdown(&self) -> (b: bool)
        ensures
            b == self@.peer_lockdown(),
    {
        match self.peer {
            Some(p) => p.lockdown(),
            None => false,
        }
    }

    /// The mirror's power request.
    pub fn remote_power_request(&self) -> (b: bool)
        ensures
            b == self@.remote_power(),
    {
        match self.remote {
            Some(i) => i.power_request(),
            None => false,
        }
    }

    /// The mirror's rider level.
    pub fn remote_rider_present(&self) -> (b: bool)
        ensures
            b == self@.remote_rider(),
    {
        match self.remote {
            Some(i) => i.rider_present(),
            None => false,
        }
    }

    /// The mirror's throttle word; none before the first mirror.
    pub fn remote_throttle(&self) -> (t: Option<i16>)
        ensures
            t == match self@.remote {
                Some(i) => Some(i.throttle),
                None => None,
            },
    {
        match self.remote {
            Some(i) => Some(i.throttle),
            None => None,
        }
    }

    /// The stop latch.
    pub fn stop_all(&self) -> (b: bool)
        ensures
            b == self@.stop_all,
    {
        self.stop_all
    }

    /// Ticks since the latest peer state.
    pub fn cyclic_age(&self) -> (n: u32)
        ensures
            n == self@.cyclic_age,
    {
        self.cyclic_age
    }

    /// Ticks since the latest drive command.
    pub fn drive_age(&self) -> (n: u32)
        ensures
            n == self@.drive_age,
    {
        self.drive_age
    }
}

impl Default for LinkInbox {
    fn default() -> (b: Self)
        ensures
            b@ == empty_inbox(),
    {
        LinkInbox::new()
    }
}

/// The inbox after `n` ticks in which nothing came in.
pub open spec fn aged_by(b: Inbox, n: nat) -> Inbox
    decreases n,
{
    if n == 0 {
        b
    } else {
        aged(aged_by(b, (n - 1) as nat))
    }
}

/// A peer is lost on exactly the tick on which its last state is older than the timeout, a drive
/// command is stale on exactly the tick on which it is, and a board that never saw a peer never
/// loses one.
pub proof fn lemma_staleness(b: Inbox, n: nat)
    requires
        b.peer is Some ==> b.cyclic_age == 0,
        b.drive is Some ==> b.drive_age == 0,
    ensures
        aged_by(b, n).comms_loss() == (b.peer is Some && n > CYCLIC_TIMEOUT_TICKS),
        aged_by(b, n).drive_stale() == (b.drive is None || n > DRIVE_TIMEOUT_TICKS),
        aged_by(b, n).peer == b.peer,
        aged_by(b, n).drive == b.drive,
        b.peer is Some ==> aged_by(b, n).cyclic_age == vstd::math::min(n as int, u32::MAX as int),
        b.drive is Some ==> aged_by(b, n).drive_age == vstd::math::min(n as int, u32::MAX as int),
    decreases n,
{
    if n > 0 {
        lemma_staleness(b, (n - 1) as nat);
    }
}

/// A fresh word clears the staleness of its family at once; a notification latches nothing, and no
/// payload clears the stop latch.
pub proof fn lemma_accept(b: Inbox, p: Payload)
    ensures
        p is CyclicState ==> !accepted(b, p).comms_loss(),
        p is DriveCmd ==> !accepted(b, p).drive_stale(),
        b.stop_all ==> accepted(b, p).stop_all,
        p is Fault && p->Fault_0.action != 1 ==> accepted(b, p) == b,
{
}

/// The latest wins: an accepted word is the one that the inbox holds afterwards, whatever it held
/// before, and fresh; the other families are as they were.
pub proof fn lemma_latest_wins(b: Inbox, p: Payload)
    ensures
        ({
            let n = accepted(b, p);
            &&& p matches Payload::CyclicState(c) ==> {
                &&& n.peer == Some(c)
                &&& n.cyclic_age == 0
                &&& n == (Inbox { peer: n.peer, cyclic_age: n.cyclic_age, ..b })
            }
            &&& p matches Payload::DriveCmd(d) ==> {
                &&& n.drive == Some(d)
                &&& n.drive_age == 0
                &&& n == (Inbox { drive: n.drive, drive_age: n.drive_age, ..b })
            }
            &&& p matches Payload::Inputs(i) ==> {
                &&& n.remote == Some(i)
                &&& n == (Inbox { remote: n.remote, ..b })
            }
            &&& p matches Payload::Fault(f) ==> {
                &&& f.action == 1 ==> n.stop_all
                &&& f.action != 1 ==> n.stop_all == b.stop_all
                &&& n == (Inbox { stop_all: n.stop_all, ..b })
            }
        }),
{
}

/// The flags of what was received, bit by bit: a peer that has lockdown asserts it, one that has a
/// rider reports it, and so does the mirror with its power button and its rider.
pub proof fn lemma_received_flags(b: Inbox)
    ensures
        b.peer is None ==> !b.peer_lockdown() && !b.peer_rider() && !b.comms_loss(),
        b.peer matches Some(c) ==> {
            &&& b.peer_lockdown() == (c.flags >= 128)
            &&& b.peer_rider() == (c.flags % 2 == 1)
            &&& b.comms_loss() == (b.cyclic_age > 25)
        },
        b.remote is None ==> !b.remote_power() && !b.remote_rider(),
        b.remote matches Some(i) ==> {
            &&& b.remote_power() == (i.buttons % 2 == 1)
            &&& b.remote_rider() == (i.rider % 2 == 1)
        },
        b.drive is None ==> b.drive_stale(),
        b.drive is Some ==> b.drive_stale() == (b.drive_age > 50),
{
}

} // verus!
