//! The fault latch.

use hoverboard::state::fault::{FaultLatch, CODE_OVERCURRENT, CODE_STALL, COUNT_CAP, LATCH_THRESHOLD, RUN_SUBSTATE};

fn enabled() -> FaultLatch {
    let mut f = FaultLatch::new();
    f.running_enable = 1;
    f
}

#[test]
fn fixed_constants_preserved() {
    assert_eq!(CODE_OVERCURRENT, 0x11);
    assert_eq!(CODE_STALL, 0x21);
    assert_eq!(LATCH_THRESHOLD, 150_000);
    assert_eq!(LATCH_THRESHOLD, 0x0002_49F0);
    assert_eq!(COUNT_CAP, 1_000_000);
    assert_eq!(COUNT_CAP, 0x000F_4240);
    assert_eq!(RUN_SUBSTATE, 3);
}

#[test]
fn gate_off_is_completely_inert() {
    let mut f = FaultLatch::new(); // running_enable == 0
    f.ext_trip = 1;
    f.fault_code = CODE_OVERCURRENT;
    f.fault_counter = 1234;
    f.a_substate = 0;
    f.b_motion = 0; // would be UNHEALTHY if enabled
    f.tick();
    // Code not consumed, counter frozen (not reset), latch untouched.
    assert_eq!(f.fault_code, CODE_OVERCURRENT);
    assert_eq!(f.fault_counter, 1234);
    assert_eq!(f.fault_latch, 0);
    assert_eq!(f.ext_trip, 1);
}

#[test]
fn overcurrent_code_latches_immediately() {
    let mut f = enabled();
    f.fault_code = CODE_OVERCURRENT;
    // Healthy motion so the slow path cannot be the cause.
    f.a_substate = RUN_SUBSTATE;
    f.b_motion = 100;
    f.tick();
    assert_eq!(f.fault_latch, 1);
    assert_eq!(f.fault_code, 0, "code is consumed");
}

#[test]
fn stall_code_is_consumed_but_does_not_latch_directly() {
    let mut f = enabled();
    f.fault_code = CODE_STALL;
    f.a_substate = RUN_SUBSTATE;
    f.b_motion = 100;
    f.tick();
    assert_eq!(f.fault_code, 0, "stall code is consumed");
    assert_eq!(f.fault_latch, 0, "stall code does not latch directly");
}

#[test]
fn unknown_code_is_consumed_no_latch() {
    let mut f = enabled();
    f.fault_code = 0x55;
    f.a_substate = RUN_SUBSTATE;
    f.b_motion = 100;
    f.tick();
    assert_eq!(f.fault_code, 0);
    assert_eq!(f.fault_latch, 0);
}

#[test]
fn ext_trip_latches_and_is_level_sensitive() {
    let mut f = enabled();
    f.ext_trip = 1;
    f.a_substate = RUN_SUBSTATE;
    f.b_motion = 1;
    f.tick();
    assert_eq!(f.fault_latch, 1);
    assert_eq!(f.ext_trip, 1, "ext_trip is not cleared by the unit");
    // Re-asserts every tick while set.
    f.fault_latch = 0; // pretend a co-writer cleared it
    f.tick();
    assert_eq!(f.fault_latch, 1, "re-asserted while ext_trip stays high");
}

#[test]
fn healthy_predicate_table() {
    let mut f = enabled();
    // idle, stationary: A==0,B==0 -> UNHEALTHY (both zero).
    f.a_substate = 0;
    f.b_motion = 0;
    assert!(!f.is_healthy());
    // running cleanly: A==3 -> HEALTHY regardless of motion.
    f.a_substate = 3;
    f.b_motion = 500;
    assert!(f.is_healthy());
    // not run substate but moving: A==1,B!=0 -> UNHEALTHY (commanded-not-turning style).
    f.a_substate = 1;
    f.b_motion = 500;
    assert!(!f.is_healthy());
    // not run substate, not moving: A==1,B==0 -> HEALTHY.
    f.a_substate = 1;
    f.b_motion = 0;
    assert!(f.is_healthy());
    // idle but moving (coasting): A==0,B!=0 -> UNHEALTHY.
    f.a_substate = 0;
    f.b_motion = 500;
    assert!(!f.is_healthy());
}

#[test]
fn b_min_halfword_counts_as_nonzero() {
    let mut f = enabled();
    // 0x8000 as i16 is the most-negative value: nonzero, so it counts in the != 0 test.
    f.a_substate = 0;
    f.b_motion = i16::MIN; // 0x8000
    assert!(!f.is_healthy(), "B = 0x8000 is nonzero so A==0,B!=0 is UNHEALTHY");
}

#[test]
fn slow_counter_latches_at_exactly_threshold() {
    let mut f = enabled();
    // Make every tick UNHEALTHY: idle + stationary (A==0,B==0).
    f.a_substate = 0;
    f.b_motion = 0;
    for _ in 0..(LATCH_THRESHOLD - 1) {
        f.tick();
    }
    assert_eq!(f.fault_counter, LATCH_THRESHOLD - 1);
    assert_eq!(f.fault_latch, 0, "not yet latched at threshold - 1");
    f.tick();
    assert_eq!(f.fault_counter, LATCH_THRESHOLD);
    assert_eq!(f.fault_latch, 1, "latches at exactly the threshold tick");
}

#[test]
fn preset_149999_latches_and_clamps_same_tick() {
    let mut f = enabled();
    f.a_substate = 0;
    f.b_motion = 0;
    f.fault_counter = 149_999;
    f.tick();
    assert_eq!(f.fault_counter, LATCH_THRESHOLD); // 150000, clamped
    assert_eq!(f.fault_latch, 1);
}

#[test]
fn counter_clamps_at_threshold_in_steady_state() {
    let mut f = enabled();
    f.a_substate = 0;
    f.b_motion = 0;
    f.fault_counter = 250_000; // preset in [150000, 999999]
    f.tick();
    // Increments to 250001 then clamps back to 150000.
    assert_eq!(f.fault_counter, LATCH_THRESHOLD);
    assert_eq!(f.fault_latch, 1);
    // Stays clamped on further unhealthy ticks.
    f.tick();
    assert_eq!(f.fault_counter, LATCH_THRESHOLD);
}

#[test]
fn count_cap_suppresses_increment_but_clamp_still_latches() {
    let mut f = enabled();
    f.a_substate = 0;
    f.b_motion = 0;
    f.fault_counter = COUNT_CAP; // >= cap: increment suppressed
    f.tick();
    // No increment (cap), but >= threshold so clamp forces 150000 and latches.
    assert_eq!(f.fault_counter, LATCH_THRESHOLD);
    assert_eq!(f.fault_latch, 1);
}

#[test]
fn count_cap_prevents_wrap() {
    let mut f = enabled();
    f.a_substate = 0;
    f.b_motion = 0;
    f.fault_counter = COUNT_CAP - 1;
    f.tick(); // increments to exactly COUNT_CAP
    assert_eq!(f.fault_counter, LATCH_THRESHOLD); // then clamped back down
    // Even forcing the raw counter to the cap, it never increments past it.
    f.fault_counter = COUNT_CAP;
    f.tick();
    assert_eq!(f.fault_counter, LATCH_THRESHOLD);
}

#[test]
fn healthy_tick_at_threshold_zeroes_counter_no_latch_write() {
    let mut f = enabled();
    // Counter already at/above threshold, but this tick is HEALTHY.
    f.fault_counter = 200_000;
    f.a_substate = RUN_SUBSTATE;
    f.b_motion = 500;
    f.fault_latch = 0;
    f.tick();
    assert_eq!(f.fault_counter, 0, "HEALTHY zeroes the counter");
    assert_eq!(f.fault_latch, 0, "no latch write on the HEALTHY path");
}

#[test]
fn one_way_latch_does_not_auto_clear() {
    let mut f = enabled();
    f.fault_code = CODE_OVERCURRENT;
    f.a_substate = RUN_SUBSTATE;
    f.b_motion = 1;
    f.tick();
    assert_eq!(f.fault_latch, 1);
    // Subsequent perfectly healthy ticks must not clear the latch.
    f.a_substate = RUN_SUBSTATE;
    f.b_motion = 100;
    for _ in 0..10 {
        f.tick();
    }
    assert_eq!(f.fault_latch, 1, "latch is set-only; never auto-clears");
}

#[test]
fn three_steps_can_each_latch_same_tick_idempotent() {
    let mut f = enabled();
    f.ext_trip = 1; // step 1
    f.fault_code = CODE_OVERCURRENT; // step 2
    f.a_substate = 0;
    f.b_motion = 0; // step 4 (with preset)
    f.fault_counter = 149_999;
    f.tick();
    assert_eq!(f.fault_latch, 1, "idempotent: all three paths set the same flag");
    assert_eq!(f.fault_counter, LATCH_THRESHOLD);
}
