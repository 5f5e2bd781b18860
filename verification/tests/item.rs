//! Data items.

use hoverboard::link::item::{DataItem, ItemSet};

#[test]
fn insert_contains() {
    let mut s = ItemSet::empty();
    assert!(!s.contains(DataItem::Attitude));
    s.insert(DataItem::Attitude);
    s.insert(DataItem::Fault);
    assert!(s.contains(DataItem::Attitude));
    assert!(s.contains(DataItem::Fault));
    assert!(!s.contains(DataItem::WheelSpeed));
}

#[test]
fn union_combines() {
    let mut a = ItemSet::empty();
    a.insert(DataItem::Attitude);
    let mut b = ItemSet::empty();
    b.insert(DataItem::Telemetry);
    let u = a.union(b);
    assert!(u.contains(DataItem::Attitude));
    assert!(u.contains(DataItem::Telemetry));
}

#[test]
fn bits_round_trip() {
    let mut s = ItemSet::empty();
    s.insert(DataItem::DriveCmd);
    s.insert(DataItem::Inputs);
    assert_eq!(ItemSet::from_bits(s.bits()), s);
}

#[test]
fn default_is_empty() {
    assert_eq!(ItemSet::default(), ItemSet::empty());
    assert_eq!(ItemSet::empty().bits(), 0);
}
