//! Named data items and sets of them.
//!
//! An [`ItemSet`] is a small bit mask over [`DataItem`]. The same mask is the capability word that
//! a node announces, so configuration and node logic both build on it.

use vstd::prelude::*;

verus! {

/// A named data item carried over a link.
#[derive(Debug, Clone, Copy, PartialEq, Eq, Structural)]
pub enum DataItem {
    Attitude,
    WheelSpeed,
    DriveCmd,
    Inputs,
    Telemetry,
    Fault,
    /// The status byte of the cyclic state (rider present, stationary, balance engaged, fault
    /// pending). It is carried beside attitude and wheel speed, and bound on its own.
    Status,
}

impl DataItem {
    /// The mask of this item: one bit.
    pub open spec fn mask(self) -> u16 {
        match self {
            DataItem::Attitude => 1,
            DataItem::WheelSpeed => 2,
            DataItem::DriveCmd => 4,
            DataItem::Inputs => 8,
            DataItem::Telemetry => 16,
            DataItem::Fault => 32,
            DataItem::Status => 64,
        }
    }

    /// The single-bit mask of this item within an [`ItemSet`].
    fn bit(self) -> (m: u16)
        ensures
            m == self.mask(),
    {
        match self {
            DataItem::Attitude => 1,
            DataItem::WheelSpeed => 2,
            DataItem::DriveCmd => 4,
            DataItem::Inputs => 8,
            DataItem::Telemetry => 16,
            DataItem::Fault => 32,
            DataItem::Status => 64,
        }
    }
}

/// A bit mask over [`DataItem`].
#[derive(Debug, Clone, Copy, PartialEq, Eq, Structural)]
pub struct ItemSet(pub u16);

impl View for ItemSet {
    type V = Set<DataItem>;

    /// The items whose bit is set.
    open spec fn view(&self) -> Set<DataItem> {
        Set::new(|i: DataItem| self.0 & i.mask() != 0)
    }
}

impl Default for ItemSet {
    fn default() -> (s: ItemSet)
        ensures
            s == ItemSet(0),
    {
        ItemSet(0)
    }
}

impl ItemSet {
    /// An empty set.
    pub fn empty() -> (s: ItemSet)
        ensures
            s.0 == 0,
            s@ == Set::<DataItem>::empty(),
    {
        let s = ItemSet(0);
        proof {
            assert forall|i: DataItem| !s@.contains(i) by {
                let m = i.mask();
                assert(0u16 & m == 0) by (bit_vector);
            }
            assert(s@ =~= Set::<DataItem>::empty());
        }
        s
    }

    /// The set of a raw mask, such as a received capability word.
    pub fn from_bits(bits: u16) -> (s: ItemSet)
        ensures
            s == ItemSet(bits),
    {
        ItemSet(bits)
    }

    /// The raw mask.
    pub fn bits(self) -> (b: u16)
        ensures
            b == self.0,
    {
        self.0
    }

    /// Adds `item` to the set.
    pub fn insert(&mut self, item: DataItem)
        ensures
            final(self).0 == old(self).0 | item.mask(),
            final(self)@ == old(self)@.insert(item),
    {
        self.0 = self.0 | item.bit();
        proof {
            lemma_or(old(self).0, item.mask());
            assert forall|i: DataItem| self@.contains(i) == old(self)@.insert(item).contains(i) by {
                lemma_masks(item, i);
            }
            assert(self@ =~= old(self)@.insert(item));
        }
    }

    /// True if `item` is in the set.
    pub fn contains(self, item: DataItem) -> (b: bool)
        ensures
            b == self@.contains(item),
    {
        self.0 & item.bit() != 0
    }

    /// The union of two sets.
    pub fn union(self, other: ItemSet) -> (s: ItemSet)
        ensures
            s.0 == self.0 | other.0,
            s@ == self@.union(other@),
    {
        let s = ItemSet(self.0 | other.0);
        proof {
            lemma_or(self.0, other.0);
            assert(s@ =~= self@.union(other@));
        }
        s
    }
}

proof fn lemma_or(a: u16, b: u16)
    ensures
        forall|m: u16| #![trigger (a | b) & m] ((a | b) & m != 0) == (a & m != 0 || b & m != 0),
{
    assert forall|m: u16|
        #![trigger (a | b) & m]
        ((a | b) & m != 0) == (a & m != 0 || b & m != 0) by {
        assert(((a | b) & m != 0) == (a & m != 0 || b & m != 0)) by (bit_vector);
    }
}

/// Two items have a bit in common exactly when they are the same.
proof fn lemma_masks(a: DataItem, b: DataItem)
    ensures
        (a.mask() & b.mask() != 0) == (a == b),
{
    let x = a.mask();
    let y = b.mask();
    assert((x & y != 0) == (x == y)) by (bit_vector)
        requires
            x == 1 || x == 2 || x == 4 || x == 8 || x == 16 || x == 32 || x == 64,
            y == 1 || y == 2 || y == 4 || y == 8 || y == 16 || y == 32 || y == 64,
    ;
}

/// The place of each item in the mask, from the lowest bit on, and that inserting one item leaves
/// every other as it was.
pub proof fn lemma_places(bits: u16, item: DataItem, other: DataItem)
    ensures
        DataItem::Attitude.mask() == 1 && DataItem::WheelSpeed.mask() == 2,
        DataItem::DriveCmd.mask() == 4 && DataItem::Inputs.mask() == 8,
        DataItem::Telemetry.mask() == 16 && DataItem::Fault.mask() == 32,
        DataItem::Status.mask() == 64,
        ItemSet(bits | item.mask())@.contains(item),
        item != other ==> (ItemSet(bits | item.mask())@.contains(other) <==> ItemSet(
            bits,
        )@.contains(other)),
        ItemSet(item.mask())@.contains(other) <==> item == other,
{
    lemma_or(bits, item.mask());
    lemma_masks(item, other);
    lemma_masks(item, item);
}

} // verus!
