//! The part of a board definition that routing and supervision read: the links with their bindings,
//! the motors with their sources, and the speed-sync peer. Decoding a stored board definition into
//! these values is the caller's.
//!
//! How many links and motors a board may have, and over how many links an attitude may be fused, are
//! parameters.

use crate::bounded::BoundedVec;
use crate::link::item::ItemSet;
use vstd::prelude::*;

verus! {

/// Where a motor has its drive command from.
#[derive(Debug, Clone, Copy, PartialEq, Eq, Structural)]
pub enum DriveSource {
    /// From its own balance loop.
    LocalBalance,
    /// From the link with this index.
    Link(u8),
}

/// Where a motor has its attitude from.
pub enum AttitudeSource<const FUSED: usize> {
    /// From the board's own sensor.
    LocalImu,
    /// From the link with this index.
    Link(u8),
    /// From the links with these indices, fused.
    Fused(BoundedVec<u8, FUSED>),
}

/// An attitude source, by its link indices.
pub enum Source {
    LocalImu,
    Link(u8),
    Fused(Seq<u8>),
}

impl Source {
    /// The source takes from link `link`.
    pub open spec fn names(self, link: u8) -> bool {
        match self {
            Source::LocalImu => false,
            Source::Link(i) => i == link,
            Source::Fused(v) => v.contains(link),
        }
    }
}

impl<const FUSED: usize> View for AttitudeSource<FUSED> {
    type V = Source;

    open spec fn view(&self) -> Source {
        match self {
            AttitudeSource::LocalImu => Source::LocalImu,
            AttitudeSource::Link(i) => Source::Link(*i),
            AttitudeSource::Fused(v) => Source::Fused(v@),
        }
    }
}

impl<const FUSED: usize> AttitudeSource<FUSED> {
    /// A fused source over `links`, or `None` where they are too many.
    pub fn fused(links: &[u8]) -> (s: Option<Self>)
        ensures
            s is Some <==> links@.len() <= FUSED,
            s is Some ==> s->0@ == Source::Fused(links@),
    {
        match BoundedVec::from_slice(links) {
            Some(v) => Some(AttitudeSource::Fused(v)),
            None => None,
        }
    }

    /// The same source.
    pub fn duplicate(&self) -> (s: Self)
        ensures
            s@ == self@,
    {
        match self {
            AttitudeSource::LocalImu => AttitudeSource::LocalImu,
            AttitudeSource::Link(i) => AttitudeSource::Link(*i),
            AttitudeSource::Fused(v) => AttitudeSource::Fused(v.duplicate()),
        }
    }
}

/// A link and its bindings.
#[derive(Debug, Clone, Copy, PartialEq, Eq, Structural)]
pub struct LinkConfig {
    /// This node's id on the link.
    pub node_id: u8,
    /// Items that this node produces onto the link.
    pub produce: ItemSet,
    /// Items that this node consumes from the link.
    pub consume: ItemSet,
}

/// A motor and its sources.
pub struct MotorConfig<const FUSED: usize> {
    pub attitude_source: AttitudeSource<FUSED>,
    pub drive_source: DriveSource,
}

/// A motor, by its sources.
pub struct Motor {
    pub attitude: Source,
    pub drive: DriveSource,
}

impl Motor {
    /// Link `link` feeds the motor's attitude or drive.
    pub open spec fn fed_by(self, link: u8) -> bool {
        self.drive == DriveSource::Link(link) || self.attitude.names(link)
    }
}

impl<const FUSED: usize> View for MotorConfig<FUSED> {
    type V = Motor;

    open spec fn view(&self) -> Motor {
        Motor { attitude: self.attitude_source@, drive: self.drive_source }
    }
}

/// The motors of a board, by their sources.
pub open spec fn motor_views<const FUSED: usize>(v: Seq<MotorConfig<FUSED>>) -> Seq<Motor> {
    Seq::new(v.len(), |i: int| v[i]@)
}

/// A board.
#[verifier::reject_recursive_types(FUSED)]
pub struct BoardConfig<const LINKS: usize, const MOTORS: usize, const FUSED: usize> {
    pub links: BoundedVec<LinkConfig, LINKS>,
    pub motors: BoundedVec<MotorConfig<FUSED>, MOTORS>,
    /// The link whose peer the wheel speed is blended with.
    pub speed_sync_peer: Option<u8>,
}

/// A board, by its bindings.
#[verifier::ext_equal]
pub struct Board {
    pub links: Seq<LinkConfig>,
    pub motors: Seq<Motor>,
    pub speed_sync_peer: Option<u8>,
}

impl<const LINKS: usize, const MOTORS: usize, const FUSED: usize> View for BoardConfig<
    LINKS,
    MOTORS,
    FUSED,
> {
    type V = Board;

    open spec fn view(&self) -> Board {
        Board {
            links: self.links@,
            motors: motor_views(self.motors@),
            speed_sync_peer: self.speed_sync_peer,
        }
    }
}

impl<const LINKS: usize, const MOTORS: usize, const FUSED: usize> BoardConfig<
    LINKS,
    MOTORS,
    FUSED,
> {
    /// A board without links and motors.
    pub fn new(speed_sync_peer: Option<u8>) -> (b: Self)
        ensures
            b@ == (Board { links: Seq::empty(), motors: Seq::empty(), speed_sync_peer }),
    {
        let b = BoardConfig {
            links: BoundedVec::new(),
            motors: BoundedVec::new(),
            speed_sync_peer,
        };
        assert(b@.motors =~= Seq::empty());
        b
    }

    /// Adds a link. Returns whether there was room for it.
    pub fn add_link(&mut self, link: LinkConfig) -> (added: bool)
        ensures
            added == (old(self)@.links.len() < LINKS),
            added ==> final(self)@ == (Board { links: old(self)@.links.push(link), ..old(self)@ }),
            !added ==> final(self)@ == old(self)@,
    {
        self.links.push(link).is_ok()
    }

    /// Adds a motor. Returns whether there was room for it.
    pub fn add_motor(&mut self, motor: MotorConfig<FUSED>) -> (added: bool)
        ensures
            added == (old(self)@.motors.len() < MOTORS),
            added ==> final(self)@ == (Board {
                motors: old(self)@.motors.push(motor@),
                ..old(self)@
            }),
            !added ==> final(self)@ == old(self)@,
    {
        let added = self.motors.push(motor).is_ok();
        proof {
            if added {
                assert(self@.motors =~= old(self)@.motors.push(motor@));
            }
        }
        added
    }
}

/// What feeds a motor: the link that it has its drive command from, the one that it has its
/// attitude from, every one that its attitude is fused from, and no other.
pub proof fn lemma_fed_by(m: Motor, link: u8)
    ensures
        m.drive == DriveSource::Link(link) ==> m.fed_by(link),
        m.attitude == Source::Link(link) ==> m.fed_by(link),
        m.attitude is Fused && m.attitude->Fused_0.contains(link) ==> m.fed_by(link),
        m.fed_by(link) ==> m.drive == DriveSource::Link(link) || m.attitude == Source::Link(link)
            || (m.attitude is Fused && m.attitude->Fused_0.contains(link)),
        m.drive is LocalBalance && m.attitude is LocalImu ==> !m.fed_by(link),
{
}

} // verus!
