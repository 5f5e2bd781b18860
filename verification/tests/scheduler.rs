//! The cooperative scheduler.

use hoverboard::scheduler::{systick_load, SchedError, Scheduler, NSLOT, TICK_HZ, TICK_MS};

/// A task is a bare function that bumps its own counter.
type Task = fn(&mut [u32; 4]);

fn task0(c: &mut [u32; 4]) {
    c[0] += 1;
}
fn task1(c: &mut [u32; 4]) {
    c[1] += 1;
}
fn task2(c: &mut [u32; 4]) {
    c[2] += 1;
}
fn task3(c: &mut [u32; 4]) {
    c[3] += 1;
}

/// Runs the due tasks, the way the main loop does.
fn dispatch(sched: &mut Scheduler<Task>, c: &mut [u32; 4]) {
    for index in 0..NSLOT {
        if let Some(task) = sched.due_task(index) {
            task(c);
            sched.complete(index);
        }
    }
}

// Drive N ticks, each with a dispatch pass, the normal main-loop cadence.
fn run_ticks_then_dispatch(sched: &mut Scheduler<Task>, c: &mut [u32; 4], n: usize) {
    for _ in 0..n {
        sched.tick();
        dispatch(sched, c);
    }
}

#[test]
fn new_is_empty_and_clean() {
    let sched = Scheduler::<Task>::new();
    assert_eq!(sched.status(), SchedError::NoError);
    // No slot is occupied: registering should land at index 0.
    let mut sched = sched;
    assert_eq!(sched.register(task0 as Task, 4).unwrap(), 0);
}

#[test]
fn systick_init_clears_table_and_status() {
    let mut sched = Scheduler::<Task>::new();
    // Fill a slot and force an error status.
    sched.register(task0 as Task, 4).unwrap();
    let _ = sched.unregister(5); // empty slot -> status UnregisterEmpty
    assert_eq!(sched.status(), SchedError::UnregisterEmpty);

    sched.systick_init();
    assert_eq!(sched.status(), SchedError::NoError);
    // Table cleared: first registration lands at 0 again.
    assert_eq!(sched.register(task0 as Task, 4).unwrap(), 0);
}

#[test]
fn reload_constants_match_spec() {
    // 250 Hz, 4 ms tick, reload 4 == 16 ms.
    assert_eq!(TICK_HZ, 250);
    assert_eq!(TICK_MS, 4);
    assert_eq!(NSLOT, 20);
    // reload -> period mapping documented on TICK_MS.
    assert_eq!(4 * TICK_MS, 16); // reload 4 -> 16 ms
    assert_eq!(15 * TICK_MS, 60); // reload 15 -> 60 ms
    assert_eq!(62 * TICK_MS, 248); // reload 62 -> 248 ms
    assert_eq!(250 * TICK_MS, 1000); // reload 250 -> 1000 ms
}

#[test]
fn reload4_task_fires_every_fourth_tick() {
    let mut c = [0u32; 4];
    let mut sched = Scheduler::<Task>::new();
    // register() sets initial_counter = reload = 4, so first due on tick 5, then every 4 ticks.
    sched.register(task0 as Task, 4).unwrap();

    // First 4 ticks: counter 4 -> 0, not yet due.
    for _ in 0..4 {
        sched.tick();
        dispatch(&mut sched, &mut c);
    }
    assert_eq!(c[0], 0);

    // 5th tick: due, fires once.
    sched.tick();
    dispatch(&mut sched, &mut c);
    assert_eq!(c[0], 1);

    // Next 8 ticks: two more firings (every 4th).
    run_ticks_then_dispatch(&mut sched, &mut c, 8);
    assert_eq!(c[0], 3);

    // Total after 5 + 8 = 13 ticks: firings at ticks 5, 9, 13 -> 3.
    // After 12 more ticks (25 total): ticks 17, 21, 25 -> 6.
    run_ticks_then_dispatch(&mut sched, &mut c, 12);
    assert_eq!(c[0], 6);
}

#[test]
fn reload1_task_fires_every_tick() {
    let mut c = [0u32; 4];
    let mut sched = Scheduler::<Task>::new();
    // initial_counter = reload = 1: first due on tick 2, then every tick.
    sched.register(task0 as Task, 1).unwrap();
    run_ticks_then_dispatch(&mut sched, &mut c, 10);
    // Due on ticks 2..10 inclusive = 9 firings.
    assert_eq!(c[0], 9);
}

#[test]
fn rounds_run_at_the_counter_and_every_reload_after() {
    // Counter 3, reload 5: rounds 4, 9, 14, 19. A one-shot of delay 6: round 7 alone.
    let mut c = [0u32; 4];
    let mut sched = Scheduler::<Task>::new();
    assert_eq!(sched.sched_register(task0 as Task, 3, 5), 0);
    sched.register_oneshot(task1 as Task, 6).unwrap();
    let mut periodic = Vec::new();
    let mut once = Vec::new();
    for round in 1..=20u32 {
        let before = c;
        run_ticks_then_dispatch(&mut sched, &mut c, 1);
        if c[0] != before[0] {
            periodic.push(round);
        }
        if c[1] != before[1] {
            once.push(round);
        }
    }
    assert_eq!(periodic, [4, 9, 14, 19]);
    assert_eq!(once, [7]);
    assert_eq!(c, [4, 1, 0, 0]);
}

#[test]
fn dispatch_runs_in_ascending_slot_order() {
    let mut sched = Scheduler::<u8>::new();
    assert_eq!(sched.register(0, 1).unwrap(), 0);
    assert_eq!(sched.register(1, 1).unwrap(), 1);
    assert_eq!(sched.register(2, 1).unwrap(), 2);

    // One tick brings each counter 1 -> 0; second tick marks all due.
    sched.tick(); // counters 1 -> 0
    sched.tick(); // due, runcount = 1 each, counter reloaded to 0
    let order = sched.dispatch();
    assert_eq!(order, vec![0, 1, 2], "dispatch must run ascending slot order");
}

#[test]
fn oneshot_runs_once_then_removed() {
    let mut c = [0u32; 4];
    let mut sched = Scheduler::<Task>::new();
    // One-shot with delay 2: due on tick 3, runs once, slot removed.
    let id = sched.register_oneshot(task0, 2).unwrap();
    assert_eq!(id, 0);

    // Ticks 1,2: counter 2 -> 0.
    run_ticks_then_dispatch(&mut sched, &mut c, 2);
    assert_eq!(c[0], 0);

    // Tick 3: due, fires once, slot removed by dispatch.
    sched.tick();
    dispatch(&mut sched, &mut c);
    assert_eq!(c[0], 1);

    // Many more ticks: never fires again (slot is empty).
    run_ticks_then_dispatch(&mut sched, &mut c, 100);
    assert_eq!(c[0], 1);

    // The freed slot 0 is reused by the next registration.
    assert_eq!(sched.register(task1, 4).unwrap(), 0);
}

#[test]
fn register_when_full_returns_full_error() {
    let mut sched = Scheduler::<Task>::new();
    // Fill all 20 slots.
    for i in 0..NSLOT {
        assert_eq!(sched.register(task0 as Task, 4).unwrap(), i);
    }
    assert_eq!(sched.status(), SchedError::NoError);

    // 21st registration: full.
    let err = sched.register(task1, 4).unwrap_err();
    assert_eq!(err, SchedError::Full);
    assert_eq!(sched.status(), SchedError::Full);

    // The low-level form returns the NSLOT sentinel and modifies nothing.
    assert_eq!(sched.sched_register(task1, 4, 4), NSLOT);
}

#[test]
fn unregister_empty_returns_error_and_sets_status() {
    let mut sched = Scheduler::<Task>::new();
    // Unregister a never-registered slot.
    let err = sched.unregister(7).unwrap_err();
    assert_eq!(err, SchedError::UnregisterEmpty);
    assert_eq!(sched.status(), SchedError::UnregisterEmpty);

    // Low-level form returns was_already_empty = true.
    assert!(sched.sched_unregister(7));
}

#[test]
fn unregister_occupied_succeeds() {
    let mut sched = Scheduler::<Task>::new();
    let id = sched.register(task0 as Task, 4).unwrap();
    assert!(sched.unregister(id).is_ok());
    // Now empty: re-unregister errors.
    assert_eq!(sched.unregister(id).unwrap_err(), SchedError::UnregisterEmpty);
}

#[test]
fn tick_decrements_marks_due_and_reloads() {
    let mut c = [0u32; 4];
    let mut sched = Scheduler::<Task>::new();
    // initial_counter = reload = 3 via sched_register for precise control.
    let id = sched.sched_register(task0, 3, 3);
    assert_eq!(id, 0);

    // Inspect internal state through behavior: 3 ticks bring counter to 0 with no due event.
    sched.tick(); // counter 3 -> 2
    sched.tick(); // counter 2 -> 1
    sched.tick(); // counter 1 -> 0
    // Not due yet (runcount still 0): dispatch runs nothing.
    dispatch(&mut sched, &mut c);
    assert_eq!(c[0], 0);

    // 4th tick: counter == 0 -> increment runcount, reload counter = reload - 1 = 2.
    sched.tick();
    dispatch(&mut sched, &mut c);
    assert_eq!(c[0], 1);

    // After reload, next due is 3 ticks later (counter went 2 -> 1 -> 0 -> due).
    run_ticks_then_dispatch(&mut sched, &mut c, 3);
    assert_eq!(c[0], 2);
}

#[test]
fn dispatch_consumes_one_due_event_per_pass() {
    let mut c = [0u32; 4];
    let mut sched = Scheduler::<Task>::new();
    // reload 1, initial_counter 0: due on tick 1, then every tick.
    let id = sched.sched_register(task0, 0, 1);
    assert_eq!(id, 0);

    // Tick three times WITHOUT dispatching: runcount accumulates.
    sched.tick(); // counter 0 -> due, runcount 1, counter = reload-1 = 0
    sched.tick(); // due, runcount 2
    sched.tick(); // due, runcount 3

    // Each dispatch consumes exactly one pending due event.
    dispatch(&mut sched, &mut c);
    assert_eq!(c[0], 1);
    dispatch(&mut sched, &mut c);
    assert_eq!(c[0], 2);
    dispatch(&mut sched, &mut c);
    assert_eq!(c[0], 3);
    // Drained: further dispatch does nothing until the next tick.
    dispatch(&mut sched, &mut c);
    assert_eq!(c[0], 3);
}

#[test]
fn empty_slots_are_skipped_and_untouched() {
    let mut c = [0u32; 4];
    let mut sched = Scheduler::<Task>::new();
    // Register at slot 0 and slot 2, leaving slot 1 empty.
    assert_eq!(sched.sched_register(task0, 1, 1), 0);
    // Manually open a gap: register two then unregister the middle.
    assert_eq!(sched.sched_register(task1, 1, 1), 1);
    assert_eq!(sched.sched_register(task2, 1, 1), 2);
    let _ = sched.unregister(1);

    // Tick twice (due on tick 2), dispatch: only slots 0 and 2 fire, slot 1 stays empty.
    sched.tick();
    sched.tick();
    dispatch(&mut sched, &mut c);
    assert_eq!(c[0], 1);
    assert_eq!(c[1], 0); // empty slot never ran
    assert_eq!(c[2], 1);

    // The freed slot 1 is the lowest free index, so the next register reclaims it.
    assert_eq!(sched.register(task3, 4).unwrap(), 1);
}

#[test]
fn independent_initial_counter_and_reload() {
    let mut c = [0u32; 4];
    let mut sched = Scheduler::<Task>::new();
    // First delay 10, steady period 2: first due on tick 11, then every 2 ticks.
    let id = sched.sched_register(task0, 10, 2);
    assert_eq!(id, 0);

    run_ticks_then_dispatch(&mut sched, &mut c, 10);
    assert_eq!(c[0], 0); // not due until tick 11

    sched.tick();
    dispatch(&mut sched, &mut c);
    assert_eq!(c[0], 1); // tick 11 due

    // Then every 2 ticks: ticks 13, 15, 17, 19, 21 ...
    run_ticks_then_dispatch(&mut sched, &mut c, 10);
    assert_eq!(c[0], 6); // 1 + 5 more
}

#[test]
fn systick_load_computation_and_24bit_check() {
    // Nominal: 72 MHz / 250 - 1 = 287999, fits in 24 bits.
    assert_eq!(systick_load(72_000_000).unwrap(), 72_000_000 / 250 - 1);
    // 8 MHz HSI: 8_000_000 / 250 - 1 = 31999.
    assert_eq!(systick_load(8_000_000).unwrap(), 31999);
    // A clock so high the reload overflows 24 bits is a fatal config error.
    // 0x0100_0000 ticks per 4 ms => sysclk = (2^24 + 1) * 250.
    let too_fast = (0x0100_0000u32 + 1) * TICK_HZ;
    assert!(systick_load(too_fast).is_err());
}

#[test]
fn error_bytes_are_fixed() {
    assert_eq!(SchedError::NoError.to_u8(), 0);
    assert_ne!(SchedError::Full.to_u8(), SchedError::UnregisterEmpty.to_u8());
}

/// A pass in which the task of a slot may change the table. Returns the tasks that ran.
fn sweep(sched: &mut Scheduler<u8>, act: fn(&mut Scheduler<u8>, u8)) -> Vec<u8> {
    let mut ran = Vec::new();
    for index in 0..NSLOT {
        if let Some(task) = sched.due_task(index) {
            ran.push(task);
            act(sched, task);
            sched.complete(index);
        }
    }
    ran
}

/// Three tasks with period 1, all due.
fn three_due() -> Scheduler<u8> {
    let mut sched = Scheduler::new();
    for task in 0..3 {
        sched.sched_register(task, 0, 1);
    }
    sched.tick();
    sched
}

#[test]
fn a_task_unregistered_in_the_middle_of_a_pass_does_not_run() {
    let mut sched = three_due();
    let ran = sweep(&mut sched, |s, task| {
        if task == 0 {
            s.unregister(1).unwrap();
        }
    });
    assert_eq!(ran, vec![0, 2]);
    assert_eq!(sched.status(), SchedError::NoError);
    // The slot is free.
    assert_eq!(sched.register(9, 1), Ok(1));
}

#[test]
fn a_task_registered_in_the_middle_of_a_pass_waits_for_a_tick() {
    let mut sched = three_due();
    let ran = sweep(&mut sched, |s, task| {
        if task == 0 {
            s.unregister(2).unwrap();
            // Lands in slot 2, which the pass has yet to come to.
            assert_eq!(s.sched_register(7, 0, 1), 2);
        }
    });
    assert_eq!(ran, vec![0, 1]);
    sched.tick();
    assert_eq!(sched.dispatch(), vec![0, 1, 7]);
}

#[test]
fn a_task_that_unregisters_itself_leaves_its_slot_free() {
    let mut sched = three_due();
    let ran = sweep(&mut sched, |s, task| {
        if task == 1 {
            s.unregister(1).unwrap();
        }
    });
    assert_eq!(ran, vec![0, 1, 2]);
    sched.tick();
    assert_eq!(sched.dispatch(), vec![0, 2]);
    assert_eq!(sched.status(), SchedError::NoError);
}

#[test]
fn a_pass_without_changes_is_a_dispatch() {
    let mut a = three_due();
    let mut b = three_due();
    assert_eq!(sweep(&mut a, |_, _| {}), b.dispatch());
    a.tick();
    b.tick();
    assert_eq!(sweep(&mut a, |_, _| {}), b.dispatch());
    assert_eq!(a.due_task(0), None);
}
