//! The 250 Hz cooperative scheduler of the outer tasks.
//!
//! A fixed table of 20 slots. The tick handler advances a down-counter per slot and marks tasks
//! due; a dispatch pass of the main loop takes every due task in ascending slot order. The
//! scheduler owns no timer: the timer interrupt calls [`Scheduler::tick`]. The main loop walks the
//! slots: it runs what [`Scheduler::due_task`] hands out and then calls [`Scheduler::complete`],
//! so that a task may register and unregister others in the middle of the pass. Where no task
//! does, [`Scheduler::dispatch`] takes the whole pass at once.

use vstd::prelude::*;

verus! {

/// Number of task slots. Also the index that [`Scheduler::sched_register`] returns when the table
/// is full.
pub const NSLOT: usize = 20;

/// Tick rate, Hz.
pub const TICK_HZ: u32 = 250;

/// Tick period in milliseconds. A task with reload `R` has a period of `R * TICK_MS` ms.
pub const TICK_MS: u32 = 4;

/// Status of the scheduler, for diagnostics.
#[derive(Debug, Clone, Copy, PartialEq, Eq, Structural)]
pub enum SchedError {
    /// No error.
    NoError,
    /// Registration failed because the table is full.
    Full,
    /// Unregister targeted an empty slot.
    UnregisterEmpty,
}

impl SchedError {
    /// The status byte: 0, 1 and 2.
    pub fn to_u8(self) -> (b: u8)
        ensures
            b == (match self {
                SchedError::NoError => 0u8,
                SchedError::Full => 1,
                SchedError::UnregisterEmpty => 2,
            }),
    {
        match self {
            SchedError::NoError => 0,
            SchedError::Full => 1,
            SchedError::UnregisterEmpty => 2,
        }
    }
}

/// A slot index.
pub type SlotId = usize;

/// One slot of the table.
pub struct Slot<C> {
    /// What to run. `None` means the slot is free.
    pub callback: Option<C>,
    /// Ticks until the next due event.
    pub counter: u16,
    /// Period in ticks; 0 marks a one-shot.
    pub reload: u16,
    /// Due events not yet taken.
    pub runcount: u8,
}

impl<C: Copy> Clone for Slot<C> {
    fn clone(&self) -> (s: Self)
        ensures
            s == *self,
    {
        *self
    }
}

impl<C: Copy> Copy for Slot<C> {

}

/// A free slot.
pub open spec fn empty_slot<C>() -> Slot<C> {
    Slot { callback: None, counter: 0, reload: 0, runcount: 0 }
}

/// A slot after one tick. A free slot is untouched; a counter that has not run out goes down by
/// one; one that has run out adds a due event, and is set up for the next period unless the task
/// is a one-shot. The count of due events wraps.
pub open spec fn slot_tick<C>(s: Slot<C>) -> Slot<C> {
    if s.callback is None {
        s
    } else if s.counter != 0 {
        Slot { counter: (s.counter - 1) as u16, ..s }
    } else {
        Slot {
            runcount: ((s.runcount + 1) % 256) as u8,
            counter: if s.reload != 0 {
                (s.reload - 1) as u16
            } else {
                0
            },
            ..s
        }
    }
}

/// A slot after one dispatch pass: one due event is taken, and a one-shot that ran is removed.
pub open spec fn slot_dispatch<C>(s: Slot<C>) -> Slot<C> {
    if s.runcount == 0 {
        s
    } else if s.reload == 0 {
        empty_slot()
    } else {
        Slot { runcount: (s.runcount - 1) as u8, ..s }
    }
}

/// The task of a slot, if it is due.
pub open spec fn slot_due<C>(s: Slot<C>) -> Option<C> {
    if s.runcount != 0 {
        s.callback
    } else {
        None
    }
}

/// The tasks due in the first `n` slots, in ascending slot order.
pub open spec fn due<C>(table: Seq<Slot<C>>, n: int) -> Seq<C>
    decreases n,
{
    if n <= 0 {
        Seq::empty()
    } else if slot_due(table[n - 1]) is Some {
        due(table, n - 1).push(slot_due(table[n - 1])->0)
    } else {
        due(table, n - 1)
    }
}

/// The lowest free slot at or above `from`, or the size of the table.
pub open spec fn lowest_free<C>(table: Seq<Slot<C>>, from: int) -> int
    decreases table.len() - from,
{
    if from < 0 || from >= table.len() {
        table.len() as int
    } else if table[from].callback is None {
        from
    } else {
        lowest_free(table, from + 1)
    }
}

/// The scheduler: the task table and the status. `C` is what a task is: something that the main
/// loop can run, such as a function pointer.
pub struct Scheduler<C> {
    table: [Slot<C>; 20],
    status: SchedError,
}

impl<C: Copy> Scheduler<C> {
    /// The slots.
    pub closed spec fn slots(&self) -> Seq<Slot<C>> {
        self.table@
    }

    /// The status.
    pub closed spec fn state(&self) -> SchedError {
        self.status
    }

    /// There are 20 slots, and a free slot is blank.
    pub open spec fn wf(&self) -> bool {
        &&& self.slots().len() == NSLOT
        &&& forall|i: int|
            0 <= i < NSLOT && (#[trigger] self.slots()[i]).callback is None ==> self.slots()[i]
                == empty_slot::<C>()
    }

    /// A fresh scheduler.
    pub fn new() -> (s: Self)
        ensures
            s.wf(),
            s.state() == SchedError::NoError,
            s.slots() == Seq::new(20, |i: int| empty_slot::<C>()),
    {
        let e: Slot<C> = Slot { callback: None, counter: 0, reload: 0, runcount: 0 };
        let s = Scheduler {
            table: vstd::array::array_fill_for_copy_types::<Slot<C>, 20>(e),
            status: SchedError::NoError,
        };
        assert(s.slots() =~= Seq::new(20, |i: int| empty_slot::<C>()));
        s
    }

    /// The status.
    pub fn status(&self) -> (e: SchedError)
        ensures
            e == self.state(),
    {
        self.status
    }

    /// Clears the table and the status.
    pub fn systick_init(&mut self)
        ensures
            final(self).wf(),
            final(self).state() == SchedError::NoError,
            final(self).slots() == Seq::new(20, |i: int| empty_slot::<C>()),
    {
        let e: Slot<C> = Slot { callback: None, counter: 0, reload: 0, runcount: 0 };
        self.table = vstd::array::array_fill_for_copy_types::<Slot<C>, 20>(e);
        self.status = SchedError::NoError;
        assert(self.slots() =~= Seq::new(20, |i: int| empty_slot::<C>()));
    }

    /// Registers a task in the lowest free slot and returns its index. With a full table, sets the
    /// status and returns [`NSLOT`].
    pub fn sched_register(&mut self, callback: C, initial_counter: u16, reload: u16) -> (index:
        usize)
        requires
            old(self).wf(),
        ensures
            final(self).wf(),
            index == lowest_free(old(self).slots(), 0),
            index < NSLOT ==> final(self).state() == old(self).state() && final(self).slots()
                == old(self).slots().update(
                index as int,
                Slot { callback: Some(callback), counter: initial_counter, reload, runcount: 0 },
            ),
            index >= NSLOT ==> index == NSLOT && final(self).state() == SchedError::Full
                && final(self).slots() == old(self).slots(),
    {
        let mut index: usize = 0;
        while index < NSLOT
            invariant
                self.wf(),
                *self == *old(self),
                index <= NSLOT,
                lowest_free(self.slots(), 0) == lowest_free(self.slots(), index as int),
            decreases NSLOT - index,
        {
            if self.table[index].callback.is_none() {
                self.table[index] =
                Slot { callback: Some(callback), counter: initial_counter, reload, runcount: 0 };
                return index;
            }
            index += 1;
        }
        self.status = SchedError::Full;
        NSLOT
    }

    /// Registers a periodic task: first due on tick `reload + 1`, then every `reload` ticks.
    pub fn register(&mut self, callback: C, reload: u16) -> (r: Result<SlotId, SchedError>)
        requires
            old(self).wf(),
        ensures
            final(self).wf(),
            ({
                let index = lowest_free(old(self).slots(), 0);
                if index < NSLOT {
                    &&& r == Ok::<SlotId, SchedError>(index as usize)
                    &&& final(self).state() == old(self).state()
                    &&& final(self).slots() == old(self).slots().update(
                        index,
                        Slot { callback: Some(callback), counter: reload, reload, runcount: 0 },
                    )
                } else {
                    &&& r == Err::<SlotId, SchedError>(SchedError::Full)
                    &&& final(self).state() == SchedError::Full
                    &&& final(self).slots() == old(self).slots()
                }
            }),
    {
        let index: usize = self.sched_register(callback, reload, reload);
        if index < NSLOT {
            Ok(index)
        } else {
            Err(SchedError::Full)
        }
    }

    /// Registers a one-shot: due on tick `delay + 1`, and removed once it has run.
    pub fn register_oneshot(&mut self, callback: C, delay: u16) -> (r: Result<SlotId, SchedError>)
        requires
            old(self).wf(),
        ensures
            final(self).wf(),
            ({
                let index = lowest_free(old(self).slots(), 0);
                if index < NSLOT {
                    &&& r == Ok::<SlotId, SchedError>(index as usize)
                    &&& final(self).state() == old(self).state()
                    &&& final(self).slots() == old(self).slots().update(
                        index,
                        Slot { callback: Some(callback), counter: delay, reload: 0, runcount: 0 },
                    )
                } else {
                    &&& r == Err::<SlotId, SchedError>(SchedError::Full)
                    &&& final(self).state() == SchedError::Full
                    &&& final(self).slots() == old(self).slots()
                }
            }),
    {
        let index: usize = self.sched_register(callback, delay, 0);
        if index < NSLOT {
            Ok(index)
        } else {
            Err(SchedError::Full)
        }
    }

    /// Clears a slot. Returns whether it was empty already, which also sets the status.
    pub fn sched_unregister(&mut self, index: SlotId) -> (was_empty: bool)
        requires
            old(self).wf(),
            index < NSLOT,
        ensures
            final(self).wf(),
            was_empty == old(self).slots()[index as int].callback is None,
            final(self).slots() == old(self).slots().update(index as int, empty_slot()),
            final(self).state() == (if was_empty {
                SchedError::UnregisterEmpty
            } else {
                old(self).state()
            }),
    {
        let was_empty = self.table[index].callback.is_none();
        if was_empty {
            self.status = SchedError::UnregisterEmpty;
        }
        self.table[index] = Slot { callback: None, counter: 0, reload: 0, runcount: 0 };
        was_empty
    }

    /// Clears a slot that holds a task; an empty one is an error.
    pub fn unregister(&mut self, slot: SlotId) -> (r: Result<(), SchedError>)
        requires
            old(self).wf(),
            slot < NSLOT,
        ensures
            final(self).wf(),
            old(self).slots()[slot as int].callback is Some ==> r == Ok::<(), SchedError>(())
                && final(self).state() == old(self).state(),
            old(self).slots()[slot as int].callback is None ==> r == Err::<(), SchedError>(
                SchedError::UnregisterEmpty,
            ) && final(self).state() == SchedError::UnregisterEmpty,
            final(self).slots() == old(self).slots().update(slot as int, empty_slot()),
    {
        if self.sched_unregister(slot) {
            Err(SchedError::UnregisterEmpty)
        } else {
            Ok(())
        }
    }

    /// Advances one tick.
    pub fn tick(&mut self)
        requires
            old(self).wf(),
        ensures
            final(self).wf(),
            final(self).state() == old(self).state(),
            final(self).slots() == Seq::new(20, |i: int| slot_tick(old(self).slots()[i])),
    {
        let mut index: usize = 0;
        while index < NSLOT
            invariant
                old(self).wf(),
                index <= NSLOT,
                self.status == old(self).status,
                self.slots().len() == NSLOT,
                forall|i: int|
                    0 <= i < index ==> #[trigger] self.slots()[i] == slot_tick(
                        old(self).slots()[i],
                    ),
                forall|i: int|
                    index <= i < NSLOT ==> #[trigger] self.slots()[i] == old(self).slots()[i],
            decreases NSLOT - index,
        {
            let mut slot = self.table[index];
            if slot.callback.is_some() {
                if slot.counter != 0 {
                    slot.counter = slot.counter - 1;
                } else {
                    slot.runcount = slot.runcount.wrapping_add(1);
                    if slot.reload != 0 {
                        slot.counter = slot.reload - 1;
                    }
                }
                self.table[index] = slot;
            }
            index += 1;
        }
        assert(self.slots() =~= Seq::new(20, |i: int| slot_tick(old(self).slots()[i])));
    }

    /// The task of a slot, if it is due, for the caller to run. The slot is looked up when its
    /// turn comes: what the tasks before it have done to the table counts.
    pub fn due_task(&self, index: SlotId) -> (task: Option<C>)
        requires
            self.wf(),
            index < NSLOT,
        ensures
            task == slot_due(self.slots()[index as int]),
    {
        let slot = self.table[index];
        if slot.runcount != 0 {
            slot.callback
        } else {
            None
        }
    }

    /// Completes a slot whose task has run: one due event is taken, and a one-shot is removed. A
    /// slot that its own task has cleared in the meantime has no event left to take, and stays.
    pub fn complete(&mut self, index: SlotId)
        requires
            old(self).wf(),
            index < NSLOT,
        ensures
            final(self).wf(),
            final(self).state() == old(self).state(),
            final(self).slots() == old(self).slots().update(
                index as int,
                slot_dispatch(old(self).slots()[index as int]),
            ),
    {
        let mut slot = self.table[index];
        if slot.runcount != 0 {
            if slot.reload == 0 {
                let _ = self.sched_unregister(index);
            } else {
                slot.runcount = slot.runcount - 1;
                self.table[index] = slot;
            }
        }
        assert(self.slots() =~= old(self).slots().update(
            index as int,
            slot_dispatch(old(self).slots()[index as int]),
        ));
    }

    /// One pass of the main loop: the due tasks, in ascending slot order, for the caller to run
    /// once the pass is over. Each pass takes one due event per task.
    pub fn dispatch(&mut self) -> (run: Vec<C>)
        requires
            old(self).wf(),
        ensures
            final(self).wf(),
            final(self).state() == old(self).state(),
            run@ == due(old(self).slots(), 20),
            final(self).slots() == Seq::new(20, |i: int| slot_dispatch(old(self).slots()[i])),
    {
        let mut run: Vec<C> = Vec::new();
        let mut index: usize = 0;
        while index < NSLOT
            invariant
                old(self).wf(),
                self.wf(),
                index <= NSLOT,
                self.status == old(self).status,
                run@ == due(old(self).slots(), index as int),
                forall|i: int|
                    0 <= i < index ==> #[trigger] self.slots()[i] == slot_dispatch(
                        old(self).slots()[i],
                    ),
                forall|i: int|
                    index <= i < NSLOT ==> #[trigger] self.slots()[i] == old(self).slots()[i],
            decreases NSLOT - index,
        {
            if let Some(task) = self.due_task(index) {
                run.push(task);
                self.complete(index);
            }
            index += 1;
        }
        assert(self.slots() =~= Seq::new(20, |i: int| slot_dispatch(old(self).slots()[i])));
        run
    }
}

impl<C: Copy> Default for Scheduler<C> {
    fn default() -> (s: Self)
        ensures
            s.wf(),
            s.state() == SchedError::NoError,
            s.slots() == Seq::new(20, |i: int| empty_slot::<C>()),
    {
        Scheduler::new()
    }
}

/// The timer reload value for the tick rate at system clock `sysclk_hz`. `Err` if it does not fit
/// the 24-bit field of the timer.
pub fn systick_load(sysclk_hz: u32) -> (r: Result<u32, ()>)
    requires
        sysclk_hz >= TICK_HZ,
    ensures
        r is Ok <==> sysclk_hz / 250 - 1 < 0x100_0000,
        r is Ok ==> r->Ok_0 == sysclk_hz / 250 - 1,
{
    let load: u32 = sysclk_hz / TICK_HZ - 1;
    if load >= 0x0100_0000 {
        Err(())
    } else {
        Ok(load)
    }
}

/// A slot after `n` ticks without a dispatch.
pub open spec fn slot_ticks<C>(s: Slot<C>, n: nat) -> Slot<C>
    decreases n,
{
    if n == 0 {
        s
    } else {
        slot_tick(slot_ticks(s, (n - 1) as nat))
    }
}

/// The due events of a task in its first `n` ticks, when its counter starts at `counter`.
pub open spec fn due_events(counter: int, reload: int, n: int) -> int {
    if n <= counter {
        0
    } else if reload == 0 {
        n - counter
    } else {
        (n - counter - 1) / reload + 1
    }
}

/// The first due event of a task comes on the tick after its counter has run out; those of a
/// periodic task then come exactly `reload` ticks apart.
pub proof fn lemma_periodic<C>(s: Slot<C>, n: nat)
    requires
        s.callback is Some,
    ensures
        slot_ticks(s, n).callback == s.callback,
        slot_ticks(s, n).reload == s.reload,
        slot_ticks(s, n).runcount == (s.runcount + due_events(
            s.counter as int,
            s.reload as int,
            n as int,
        )) % 256,
        slot_ticks(s, n).counter == (if n <= s.counter {
            s.counter - n
        } else if s.reload == 0 {
            0
        } else {
            s.reload - 1 - (n - s.counter - 1) % (s.reload as int)
        }),
    decreases n,
{
    if n > 0 {
        lemma_periodic(s, (n - 1) as nat);
        let r = s.reload as int;
        let k = n - s.counter - 2;
        if k >= 0 && r > 0 {
            lemma_next_in_period(k, r);
        }
        if k == -1 && r > 0 {
            vstd::arithmetic::div_mod::lemma_small_mod(0, r as nat);
            vstd::arithmetic::div_mod::lemma_basic_div(0, r);
        }
    }
}

/// A slot after `n` rounds of a tick and a dispatch each.
pub open spec fn slot_rounds<C>(s: Slot<C>, n: nat) -> Slot<C>
    decreases n,
{
    if n == 0 {
        s
    } else {
        slot_dispatch(slot_tick(slot_rounds(s, (n - 1) as nat)))
    }
}

/// Whether the task of a slot runs in round `n`, counted from 1.
pub open spec fn runs_in_round<C>(s: Slot<C>, n: nat) -> bool {
    slot_due(slot_tick(slot_rounds(s, (n - 1) as nat))) is Some
}

/// In how many of the first `n` rounds the task of a slot runs.
pub open spec fn rounds_run<C>(s: Slot<C>, n: nat) -> nat
    decreases n,
{
    if n == 0 {
        0
    } else {
        rounds_run(s, (n - 1) as nat) + if runs_in_round(s, n) {
            1nat
        } else {
            0nat
        }
    }
}

/// Over rounds of a tick and a dispatch each, a periodic task whose counter starts at `c` runs in
/// rounds `c + 1`, `c + 1 + reload`, `c + 1 + 2 * reload` and so on, and in no other; a one-shot
/// runs in round `c + 1` alone. What runs is the task that was registered.
pub proof fn lemma_rounds<C>(s: Slot<C>, n: nat)
    requires
        s.callback is Some,
        s.runcount == 0,
        n >= 1,
    ensures
        runs_in_round(s, n) <==> if s.reload == 0 {
            n == s.counter + 1
        } else {
            n > s.counter && (n - s.counter - 1) % (s.reload as int) == 0
        },
        runs_in_round(s, n) ==> slot_due(slot_tick(slot_rounds(s, (n - 1) as nat))) == s.callback,
{
    lemma_after_rounds(s, (n - 1) as nat);
    if n == s.counter + 1 && s.reload > 0 {
        vstd::arithmetic::div_mod::lemma_small_mod(0, s.reload as nat);
    }
    if n > s.counter + 1 && s.reload > 0 {
        lemma_next_in_period(n - s.counter - 2, s.reload as int);
    }
}

/// The number of rounds, out of the first `n`, in which a task runs: the due events of a periodic
/// task in as many ticks, and at most one for a one-shot.
pub proof fn lemma_rounds_run<C>(s: Slot<C>, n: nat)
    requires
        s.callback is Some,
        s.runcount == 0,
    ensures
        rounds_run(s, n) == (if s.reload == 0 {
            if n > s.counter {
                1int
            } else {
                0
            }
        } else {
            due_events(s.counter as int, s.reload as int, n as int)
        }),
    decreases n,
{
    if n > 0 {
        lemma_rounds_run(s, (n - 1) as nat);
        lemma_rounds(s, n);
        let r = s.reload as int;
        if r > 0 {
            if n > s.counter + 1 {
                lemma_next_in_period(n - s.counter - 2, r);
            }
            if n == s.counter + 1 {
                vstd::arithmetic::div_mod::lemma_small_mod(0, r as nat);
                vstd::arithmetic::div_mod::lemma_basic_div(0, r);
            }
        }
    }
}

/// A slot after `n` rounds: nothing stays due from one round to the next.
proof fn lemma_after_rounds<C>(s: Slot<C>, n: nat)
    requires
        s.callback is Some,
        s.runcount == 0,
    ensures
        slot_rounds(s, n) == (if n <= s.counter {
            Slot { counter: (s.counter - n) as u16, ..s }
        } else if s.reload == 0 {
            empty_slot()
        } else {
            Slot {
                counter: (s.reload - 1 - (n - s.counter - 1) % (s.reload as int)) as u16,
                ..s
            }
        }),
    decreases n,
{
    if n > 0 {
        lemma_after_rounds(s, (n - 1) as nat);
        let r = s.reload as int;
        if r > 0 {
            if n > s.counter + 1 {
                lemma_next_in_period(n - s.counter - 2, r);
            }
            if n == s.counter + 1 {
                vstd::arithmetic::div_mod::lemma_small_mod(0, r as nat);
            }
        }
    }
}

/// Counting on within a period, or over its end.
proof fn lemma_next_in_period(k: int, r: int)
    requires
        k >= 0,
        r > 0,
    ensures
        0 <= k % r < r,
        k % r == r - 1 ==> (k + 1) % r == 0 && (k + 1) / r == k / r + 1,
        k % r != r - 1 ==> (k + 1) % r == k % r + 1 && (k + 1) / r == k / r,
{
    vstd::arithmetic::div_mod::lemma_fundamental_div_mod(k, r);
    let q = k / r;
    let m = k % r;
    vstd::arithmetic::div_mod::lemma_mod_bound(k, r);
    assert(r * (q + 1) == r * q + r && r * q == q * r) by (nonlinear_arith);
    if m == r - 1 {
        vstd::arithmetic::div_mod::lemma_fundamental_div_mod_converse(k + 1, r, q + 1, 0);
    } else {
        vstd::arithmetic::div_mod::lemma_fundamental_div_mod_converse(k + 1, r, q, m + 1);
    }
}

/// A one-shot runs exactly once: however many due events have piled up, the pass that runs it
/// leaves its slot free.
pub proof fn lemma_oneshot_runs_once<C>(s: Slot<C>)
    requires
        s.callback is Some,
        s.reload == 0,
        s.runcount != 0,
    ensures
        slot_dispatch(s) == empty_slot::<C>(),
        slot_dispatch(slot_dispatch(s)) == empty_slot::<C>(),
{
}

/// A pass over the slots from `at` on, where the task of slot `i` does `acts(i, table)` to the
/// table while it runs: the slots that run, each with its task, and the table afterwards.
pub open spec fn swept<C>(
    table: Seq<Slot<C>>,
    at: int,
    acts: spec_fn(int, Seq<Slot<C>>) -> Seq<Slot<C>>,
) -> (Seq<(int, C)>, Seq<Slot<C>>)
    decreases NSLOT - at,
{
    if at >= NSLOT {
        (Seq::empty(), table)
    } else {
        match slot_due(table[at]) {
            None => swept(table, at + 1, acts),
            Some(task) => {
                let t = acts(at, table);
                let rest = swept(t.update(at, slot_dispatch(t[at])), at + 1, acts);
                (seq![(at, task)] + rest.0, rest.1)
            },
        }
    }
}

/// The slots of a pass run in ascending order, each at most once.
pub proof fn lemma_swept_ascends<C>(
    table: Seq<Slot<C>>,
    at: int,
    acts: spec_fn(int, Seq<Slot<C>>) -> Seq<Slot<C>>,
)
    ensures
        ({
            let ran = swept(table, at, acts).0;
            &&& forall|n: int| 0 <= n < ran.len() ==> at <= (#[trigger] ran[n]).0 < NSLOT
            &&& forall|m: int, n: int|
                0 <= m < n < ran.len() ==> (#[trigger] ran[m]).0 < (#[trigger] ran[n]).0
        }),
    decreases NSLOT - at,
{
    let ran = swept(table, at, acts).0;
    if at < NSLOT {
        match slot_due(table[at]) {
            None => {
                lemma_swept_ascends(table, at + 1, acts);
                assert(ran == swept(table, at + 1, acts).0);
            },
            Some(task) => {
                let t = acts(at, table);
                let next = t.update(at, slot_dispatch(t[at]));
                let rest = swept(next, at + 1, acts).0;
                lemma_swept_ascends(next, at + 1, acts);
                lemma_swept_step(table, at, acts);
                assert forall|n: int| 0 <= n < ran.len() implies at <= (#[trigger] ran[n]).0
                    < NSLOT by {
                    if n > 0 {
                        assert(ran[n] == rest[n - 1]);
                    }
                }
                assert forall|m: int, n: int| 0 <= m < n < ran.len() implies (#[trigger] ran[m]).0
                    < (#[trigger] ran[n]).0 by {
                    assert(ran[n] == rest[n - 1]);
                    if m > 0 {
                        assert(ran[m] == rest[m - 1]);
                    }
                }
            },
        }
    }
}

proof fn lemma_swept_step<C>(
    table: Seq<Slot<C>>,
    at: int,
    acts: spec_fn(int, Seq<Slot<C>>) -> Seq<Slot<C>>,
)
    requires
        at < NSLOT,
        slot_due(table[at]) is Some,
    ensures
        ({
            let t = acts(at, table);
            let rest = swept(t.update(at, slot_dispatch(t[at])), at + 1, acts).0;
            let now = swept(table, at, acts).0;
            &&& now.len() == rest.len() + 1
            &&& now[0] == (at, slot_due(table[at])->0)
            &&& forall|n: int| 0 < n < now.len() ==> #[trigger] now[n] == rest[n - 1]
        }),
{
}

/// A slot that holds nothing due when the pass comes to it does not run, whatever it held when the
/// pass began: neither one that an earlier task has unregistered nor one in which an earlier task
/// has registered anew. `i` is the slot of that earlier task, and no task between the two makes
/// slot `j` due.
pub proof fn lemma_changed_slot_is_passed_over<C>(
    table: Seq<Slot<C>>,
    i: int,
    j: int,
    acts: spec_fn(int, Seq<Slot<C>>) -> Seq<Slot<C>>,
)
    requires
        0 <= i < j < NSLOT,
        slot_due(table[i]) is Some,
        slot_due(acts(i, table)[j]) is None,
        table.len() == NSLOT,
        forall|k: int, t: Seq<Slot<C>>|
            i <= k < j && t.len() == NSLOT ==> (#[trigger] acts(k, t)).len() == NSLOT,
        forall|k: int, t: Seq<Slot<C>>|
            i < k < j && t.len() == NSLOT && slot_due(t[j]) is None ==> slot_due(
                (#[trigger] acts(k, t))[j],
            ) is None,
    ensures
        ({
            let ran = swept(table, i, acts).0;
            forall|n: int| 0 <= n < ran.len() ==> (#[trigger] ran[n]).0 != j
        }),
{
    let t = acts(i, table);
    let next = t.update(i, slot_dispatch(t[i]));
    assert(next[j] == t[j]);
    lemma_not_due_is_passed_over(next, i + 1, j, acts);
    lemma_swept_step(table, i, acts);
}

proof fn lemma_not_due_is_passed_over<C>(
    table: Seq<Slot<C>>,
    at: int,
    j: int,
    acts: spec_fn(int, Seq<Slot<C>>) -> Seq<Slot<C>>,
)
    requires
        0 <= at <= j < NSLOT,
        slot_due(table[j]) is None,
        table.len() == NSLOT,
        forall|k: int, t: Seq<Slot<C>>|
            at <= k < j && t.len() == NSLOT ==> (#[trigger] acts(k, t)).len() == NSLOT,
        forall|k: int, t: Seq<Slot<C>>|
            at <= k < j && t.len() == NSLOT && slot_due(t[j]) is None ==> slot_due(
                (#[trigger] acts(k, t))[j],
            ) is None,
    ensures
        ({
            let ran = swept(table, at, acts).0;
            forall|n: int| 0 <= n < ran.len() ==> (#[trigger] ran[n]).0 != j
        }),
    decreases j - at,
{
    if at == j {
        lemma_swept_ascends(table, j + 1, acts);
        assert(swept(table, at, acts) == swept(table, j + 1, acts));
    } else if slot_due(table[at]) is None {
        lemma_not_due_is_passed_over(table, at + 1, j, acts);
        assert(swept(table, at, acts) == swept(table, at + 1, acts));
    } else {
        let t = acts(at, table);
        let next = t.update(at, slot_dispatch(t[at]));
        assert(next[j] == t[j]);
        lemma_not_due_is_passed_over(next, at + 1, j, acts);
        lemma_swept_step(table, at, acts);
    }
}

/// Unregistering a slot, or registering a task in it, leaves nothing due there.
pub proof fn lemma_change_is_not_due<C>(
    table: Seq<Slot<C>>,
    j: int,
    task: C,
    counter: u16,
    reload: u16,
)
    requires
        0 <= j < table.len(),
    ensures
        slot_due(table.update(j, empty_slot())[j]) is None,
        slot_due(
            table.update(j, Slot { callback: Some(task), counter, reload, runcount: 0 })[j],
        ) is None,
{
}

/// A pass in which no task touches the table runs exactly what [`Scheduler::dispatch`] hands out,
/// and leaves the table as it does.
pub proof fn lemma_swept_unchanged<C>(
    table: Seq<Slot<C>>,
    acts: spec_fn(int, Seq<Slot<C>>) -> Seq<Slot<C>>,
)
    requires
        table.len() == NSLOT,
        forall|i: int|
            0 <= i < NSLOT && (#[trigger] table[i]).callback is None ==> table[i] == empty_slot::<
                C,
            >(),
        forall|k: int, t: Seq<Slot<C>>| #[trigger] acts(k, t) == t,
    ensures
        swept(table, 0, acts).0.map_values(|r: (int, C)| r.1) == due(table, 20),
        swept(table, 0, acts).1 == Seq::new(20, |i: int| slot_dispatch(table[i])),
{
    let f = |r: (int, C)| r.1;
    lemma_swept_from(table, table, 0, acts);
    assert(due(table, 0) =~= Seq::<C>::empty());
    assert(swept(table, 0, acts).0.map_values(f) =~= due(table, 20));
    assert(swept(table, 0, acts).1 =~= Seq::new(20, |i: int| slot_dispatch(table[i])));
}

proof fn lemma_swept_from<C>(
    start: Seq<Slot<C>>,
    table: Seq<Slot<C>>,
    at: int,
    acts: spec_fn(int, Seq<Slot<C>>) -> Seq<Slot<C>>,
)
    requires
        0 <= at <= NSLOT,
        start.len() == NSLOT,
        table.len() == NSLOT,
        forall|i: int|
            0 <= i < NSLOT && (#[trigger] start[i]).callback is None ==> start[i] == empty_slot::<
                C,
            >(),
        forall|k: int, t: Seq<Slot<C>>| #[trigger] acts(k, t) == t,
        forall|i: int| at <= i < NSLOT ==> table[i] == start[i],
    ensures
        due(start, at) + swept(table, at, acts).0.map_values(|r: (int, C)| r.1) == due(start, 20),
        swept(table, at, acts).1 == Seq::new(
            20,
            |i: int|
                if i < at {
                    table[i]
                } else {
                    slot_dispatch(start[i])
                },
        ),
    decreases NSLOT - at,
{
    let f = |r: (int, C)| r.1;
    let now = swept(table, at, acts);
    let end = Seq::new(
        20,
        |i: int|
            if i < at {
                table[i]
            } else {
                slot_dispatch(start[i])
            },
    );
    if at == NSLOT {
        assert(now.1 =~= end);
        assert(due(start, at) + now.0.map_values(f) =~= due(start, 20));
    } else {
        match slot_due(table[at]) {
            None => {
                lemma_swept_from(start, table, at + 1, acts);
                assert(now == swept(table, at + 1, acts));
                assert(slot_dispatch(start[at]) == table[at]);
                assert(now.1 =~= end);
            },
            Some(task) => {
                let next = table.update(at, slot_dispatch(table[at]));
                lemma_swept_from(start, next, at + 1, acts);
                let rest = swept(next, at + 1, acts);
                assert(acts(at, table) == table);
                assert(now.1 == rest.1);
                assert(now.1 =~= end);
                assert(now.0.map_values(f) =~= seq![task] + rest.0.map_values(f));
                assert(due(start, at) + now.0.map_values(f) =~= due(start, at + 1)
                    + rest.0.map_values(f));
            },
        }
    }
}

/// A freshly registered task is not due: it runs in no pass before a later tick.
pub proof fn lemma_fresh_task_not_due<C>(table: Seq<Slot<C>>, i: int, s: Slot<C>, n: int)
    requires
        0 <= i < table.len(),
        0 <= n <= table.len(),
        s.runcount == 0,
        table[i] == empty_slot::<C>(),
    ensures
        due(table.update(i, s), n) == due(table, n),
    decreases n,
{
    if n > 0 {
        lemma_fresh_task_not_due(table, i, s, n - 1);
    }
}

/// A registration takes the lowest free slot: that one is free and all below it are taken; and the
/// table is full exactly when no slot is free.
pub proof fn lemma_lowest_free<C>(table: Seq<Slot<C>>, from: int)
    requires
        0 <= from <= table.len(),
    ensures
        ({
            let i = lowest_free(table, from);
            &&& from <= i <= table.len()
            &&& i < table.len() ==> table[i].callback is None
            &&& forall|k: int| from <= k < i ==> (#[trigger] table[k]).callback is Some
        }),
    decreases table.len() - from,
{
    if from < table.len() && table[from].callback is Some {
        lemma_lowest_free(table, from + 1);
    }
}

/// One pass takes one due event and no more: what piled up stays due, one less, and the task keeps
/// its period and its place in it. A slot with nothing due, and a free one, is left alone, by a pass
/// as by a tick.
pub proof fn lemma_one_event_per_pass<C>(s: Slot<C>)
    ensures
        s.runcount != 0 && s.reload != 0 ==> {
            let n = slot_dispatch(s);
            &&& n.runcount == s.runcount - 1
            &&& n.callback == s.callback
            &&& n.counter == s.counter
            &&& n.reload == s.reload
        },
        s.runcount == 0 ==> slot_dispatch(s) == s && slot_due(s) is None,
        s.runcount != 0 ==> slot_due(s) == s.callback,
        s.callback is None ==> slot_tick(s) == s,
{
}

/// The tasks of a pass: the due ones of the first slots come first, and a slot adds its own task
/// exactly when it is due.
pub proof fn lemma_due_in_order<C>(table: Seq<Slot<C>>, i: int, n: int)
    requires
        0 <= i < n <= table.len(),
    ensures
        table[i].callback is Some && table[i].runcount != 0 ==> {
            &&& due(table, i).len() < due(table, n).len()
            &&& due(table, n)[due(table, i).len() as int] == table[i].callback->0
        },
        table[i].callback is None || table[i].runcount == 0 ==> due(table, i + 1) == due(table, i),
        due(table, i).len() <= due(table, n).len(),
        due(table, n).len() <= due(table, i).len() + (n - i),
    decreases n,
{
    if i + 1 < n {
        lemma_due_in_order(table, i, n - 1);
    }
}

} // verus!
