//! The mode machine.

use hoverboard::state::fault::{FaultLatch, CODE_OVERCURRENT};
use hoverboard::state::mode::{Mode, ModeInputs, ModeMachine};

fn req_on() -> ModeInputs {
    ModeInputs {
        power_request: true,
        ..Default::default()
    }
}

#[test]
fn mode_byte_values_are_fixed() {
    assert_eq!(Mode::Off.as_byte(), 0);
    assert_eq!(Mode::Init.as_byte(), 1);
    assert_eq!(Mode::Ready.as_byte(), 2);
    assert_eq!(Mode::Run.as_byte(), 3);
    assert_eq!(Mode::Shutdown.as_byte(), 4);
}

#[test]
fn clean_power_on_off_init_ready_run_in_three_ticks() {
    let mut m: ModeMachine<1> = ModeMachine::new();
    assert_eq!(m.mode(), Mode::Off);
    assert!(!m.moe_allowed(0), "OFF holds MOE clear");

    // Tick 1: OFF -> INIT (request on, all clear). The INIT pass (bring-up + MOE set) runs on
    // the next tick, when the mode byte is current at INIT.
    let o = m.tick(&req_on());
    assert_eq!(o.mode, Mode::Init);
    assert!(o.init.is_none(), "bring-up runs on the INIT pass, not the OFF->INIT tick");
    assert!(!m.moe_allowed(0), "MOE not yet set on the OFF->INIT tick");

    // Tick 2: INIT pass runs the bring-up and sets MOE, then INIT -> READY.
    let o = m.tick(&req_on());
    assert_eq!(o.mode, Mode::Ready);
    assert!(o.init.is_some(), "INIT bring-up runs on the INIT pass");
    assert!(o.init.unwrap().run_bringup);
    assert!(m.moe_allowed(0), "MOE set on the INIT pass");

    // Tick 3: READY -> RUN (unconditional). RUN reached on the third tick.
    let o = m.tick(&req_on());
    assert_eq!(o.mode, Mode::Run);
    assert!(m.moe_allowed(0), "MOE still allowed in RUN");
}

fn drive_to_run(m: &mut ModeMachine<1>) {
    m.tick(&req_on()); // INIT
    m.tick(&req_on()); // READY
    let o = m.tick(&req_on()); // RUN
    assert_eq!(o.mode, Mode::Run);
}

#[test]
fn off_init_blocked_by_each_gate_input() {
    // Fault A holds OFF.
    let mut m: ModeMachine<1> = ModeMachine::new();
    let mut inp = req_on();
    inp.fault_a = true;
    assert_eq!(m.tick(&inp).mode, Mode::Off);
    assert!(!m.moe_allowed(0));

    // Fault B holds OFF.
    let mut m: ModeMachine<1> = ModeMachine::new();
    let mut inp = req_on();
    inp.fault_b = true;
    assert_eq!(m.tick(&inp).mode, Mode::Off);

    // OFF-only inhibit holds OFF (boot-not-ready / not-yet-Armed).
    let mut m: ModeMachine<1> = ModeMachine::new();
    let mut inp = req_on();
    inp.off_inhibit = true;
    assert_eq!(m.tick(&inp).mode, Mode::Off);

    // Power request off holds OFF.
    let mut m: ModeMachine<1> = ModeMachine::new();
    assert_eq!(m.tick(&ModeInputs::default()).mode, Mode::Off);
}

#[test]
fn run_to_shutdown_on_fault_a_clears_moe_and_request() {
    let mut m: ModeMachine<1> = ModeMachine::new();
    drive_to_run(&mut m);

    // Fault A asserts in RUN: RUN -> SHUTDOWN. The safe-down (MOE clear) runs on the SHUTDOWN
    // pass, the next tick.
    let mut inp = req_on();
    inp.fault_a = true;
    let o = m.tick(&inp);
    assert_eq!(o.mode, Mode::Shutdown);
    assert!(o.shutdown.is_none(), "safe-down runs on the SHUTDOWN pass, not the RUN->SHUTDOWN tick");

    // SHUTDOWN pass: safe-down runs (MOE cleared), SHUTDOWN -> OFF, power-request cleared.
    let o = m.tick(&inp);
    assert_eq!(o.mode, Mode::Off);
    assert!(o.shutdown.is_some(), "safe-down runs");
    assert!(!m.moe_allowed(0), "MOE cleared on the SHUTDOWN pass");
    assert!(!m.power_request(), "power-request cleared on SHUTDOWN");
}

#[test]
fn run_to_shutdown_on_power_off_routes_through_shutdown() {
    let mut m: ModeMachine<1> = ModeMachine::new();
    drive_to_run(&mut m);

    // Power request goes off mid-RUN. Must route through SHUTDOWN (full safe-down), not a direct
    // jump to OFF.
    let o = m.tick(&ModeInputs::default());
    assert_eq!(o.mode, Mode::Shutdown);
    // MOE is cleared on the SHUTDOWN pass (the next tick), not the RUN->SHUTDOWN tick.
    let o = m.tick(&ModeInputs::default());
    assert_eq!(o.mode, Mode::Off);
    assert!(!m.moe_allowed(0), "MOE cleared on the SHUTDOWN pass");
}

#[test]
fn off_inhibit_not_consulted_in_run() {
    let mut m: ModeMachine<1> = ModeMachine::new();
    drive_to_run(&mut m);
    // OFF-only inhibit asserted in RUN must NOT cause SHUTDOWN.
    let mut inp = req_on();
    inp.off_inhibit = true;
    let o = m.tick(&inp);
    assert_eq!(o.mode, Mode::Run, "OFF-inhibit is not a runtime trip");
}

#[test]
fn fault_raised_then_lowered_re_enters_init() {
    // Fault asserts in RUN -> SHUTDOWN -> OFF (request cleared by SHUTDOWN). Rider requests power
    // again while fault still asserted -> held OFF. Producer lowers fault -> next tick OFF -> INIT.
    let mut m: ModeMachine<1> = ModeMachine::new();
    drive_to_run(&mut m);

    let mut faulted = req_on();
    faulted.fault_a = true;
    assert_eq!(m.tick(&faulted).mode, Mode::Shutdown);
    assert_eq!(m.tick(&faulted).mode, Mode::Off);

    // Rider requests power again, fault still asserted -> held OFF.
    let mut req_with_fault = req_on();
    req_with_fault.fault_a = true;
    assert_eq!(m.tick(&req_with_fault).mode, Mode::Off);
    assert_eq!(m.tick(&req_with_fault).mode, Mode::Off);

    // Producer lowers the fault while request still held -> OFF -> INIT next tick.
    let o = m.tick(&req_on());
    assert_eq!(o.mode, Mode::Init, "re-enters INIT once all gates read clear");
    // The new INIT pass (next tick) re-enables MOE.
    m.tick(&req_on());
    assert!(m.moe_allowed(0), "MOE re-enabled on the new INIT pass");
}

#[test]
fn fault_and_power_off_both_true_single_shutdown_pass() {
    let mut m: ModeMachine<1> = ModeMachine::new();
    drive_to_run(&mut m);
    // Power off AND a fault both true.
    let inp = ModeInputs {
        power_request: false,
        fault_a: true,
        ..Default::default()
    };
    let o = m.tick(&inp);
    assert_eq!(o.mode, Mode::Shutdown);
    // Single safe-down, idempotent.
    let o = m.tick(&inp);
    assert_eq!(o.mode, Mode::Off);
}

#[test]
fn re_power_after_non_sticky_stop_re_runs_init() {
    let mut m: ModeMachine<1> = ModeMachine::new();
    drive_to_run(&mut m);
    // Stop only because power went off (no fault).
    m.tick(&ModeInputs::default()); // SHUTDOWN
    assert_eq!(m.tick(&ModeInputs::default()).mode, Mode::Off);
    assert!(!m.moe_allowed(0), "MOE not left enabled across the OFF dwell");
    // Fresh on request re-runs INIT cleanly; bring-up repeated, MOE re-enabled on the INIT pass.
    let o = m.tick(&req_on()); // OFF -> INIT
    assert_eq!(o.mode, Mode::Init);
    assert!(!m.moe_allowed(0), "not yet set on the OFF->INIT tick");
    let o = m.tick(&req_on()); // INIT pass: bring-up + MOE, -> READY
    assert!(o.init.unwrap().run_bringup, "bring-up repeated every power-on");
    assert!(m.moe_allowed(0));
}

#[test]
fn moe_never_enabled_across_off_dwell() {
    // MOE is clear in OFF before any INIT, and clear again after SHUTDOWN -> OFF.
    let mut m: ModeMachine<1> = ModeMachine::new();
    assert!(!m.moe_allowed(0));
    // Hold OFF for several ticks with no request.
    for _ in 0..5 {
        assert_eq!(m.tick(&ModeInputs::default()).mode, Mode::Off);
        assert!(!m.moe_allowed(0));
    }
}

#[test]
fn n_motor_all_moe_gates_set_at_init_and_cleared_on_shutdown() {
    let mut m: ModeMachine<2> = ModeMachine::new();
    let inp = req_on();
    m.tick(&inp); // OFF -> INIT
    m.tick(&inp); // INIT pass (sets both MOE) -> READY
    assert!(m.moe_allowed(0) && m.moe_allowed(1), "both motors MOE set on the INIT pass");
    m.tick(&inp); // READY -> RUN
    // Fault on one motor (via aggregated Fault A) safes ALL motors.
    let mut f = req_on();
    f.fault_a = true;
    m.tick(&f); // RUN -> SHUTDOWN
    m.tick(&f); // SHUTDOWN pass clears both MOE -> OFF
    assert!(!m.moe_allowed(0) && !m.moe_allowed(1), "all motors safed");
}

#[test]
fn moe_allowed_out_of_range_is_false() {
    let m: ModeMachine<1> = ModeMachine::new();
    assert!(!m.moe_allowed(5), "non-existent motor never reported armed");
}

#[test]
fn integrates_with_fault_latch_as_fault_source() {
    // The fault-latch unit's sticky latch feeds Fault A. Demonstrates the level-sensitive
    // sampling: the mode machine follows the latch.
    let mut latch = FaultLatch::new();
    latch.running_enable = 1;
    let mut m: ModeMachine<1> = ModeMachine::new();

    // Reach RUN with the latch healthy.
    latch.a_substate = 3;
    latch.b_motion = 100;
    for _ in 0..3 {
        latch.tick();
        let inp = ModeInputs {
            power_request: true,
            fault_a: latch.is_latched(),
            ..Default::default()
        };
        m.tick(&inp);
    }
    assert_eq!(m.mode(), Mode::Run);

    // Over-current arrives: latch fires, Fault A asserts, RUN -> SHUTDOWN.
    latch.fault_code = CODE_OVERCURRENT;
    latch.tick();
    assert!(latch.is_latched());
    let inp = ModeInputs {
        power_request: true,
        fault_a: latch.is_latched(),
        ..Default::default()
    };
    let o = m.tick(&inp); // RUN -> SHUTDOWN
    assert_eq!(o.mode, Mode::Shutdown);
    let o = m.tick(&inp); // SHUTDOWN pass clears MOE -> OFF
    assert_eq!(o.mode, Mode::Off);
    assert!(!m.moe_allowed(0), "fault clears MOE on the SHUTDOWN pass");
}
