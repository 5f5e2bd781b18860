//! The bridge gate.

use hoverboard::state::moe::MoeGate;

#[test]
fn new_gate_is_clear() {
    let g = MoeGate::new();
    assert!(!g.allowed(), "reset-settled resting state has MOE clear");
}

#[test]
fn set_at_init_opens_gate() {
    let mut g = MoeGate::new();
    g.set_at_init();
    assert!(g.allowed());
}

#[test]
fn clear_forces_gate_off_and_is_idempotent() {
    let mut g = MoeGate::new();
    g.set_at_init();
    g.clear();
    assert!(!g.allowed());
    g.clear(); // idempotent
    assert!(!g.allowed());
}
