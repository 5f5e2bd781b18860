//! The top-level mode machine.
//!
//! Driven once per 4 ms tick. One pass makes at most one transition and, for INIT and SHUTDOWN,
//! runs the one-shot side effects on the bridge gates, of which the machine is the only owner. The
//! fault and inhibit inputs are levels, sampled afresh on every tick: any stickiness is that of
//! their producer. The power request is a level too, but the SHUTDOWN pass clears it.

use crate::state::moe::MoeGate;
use vstd::prelude::*;

verus! {

/// The system mode.
#[derive(Debug, Clone, Copy, PartialEq, Eq, Structural)]
pub enum Mode {
    /// Motor path not brought up, bridge disabled. The resting state.
    Off,
    /// One-shot power-on.
    Init,
    /// Transitional; promotes to RUN on the next tick.
    Ready,
    /// Powered and able to balance.
    Run,
    /// One-shot safe-down.
    Shutdown,
}

impl Mode {
    /// The mode byte.
    pub open spec fn byte(self) -> u8 {
        match self {
            Mode::Off => 0,
            Mode::Init => 1,
            Mode::Ready => 2,
            Mode::Run => 3,
            Mode::Shutdown => 4,
        }
    }

    /// The mode byte.
    pub fn as_byte(self) -> (b: u8)
        ensures
            b == self.byte(),
    {
        match self {
            Mode::Off => 0,
            Mode::Init => 1,
            Mode::Ready => 2,
            Mode::Run => 3,
            Mode::Shutdown => 4,
        }
    }
}

/// The levels sampled on a tick.
#[derive(Debug, Clone, Copy, PartialEq, Eq, Structural)]
pub struct ModeInputs {
    /// On requested.
    pub power_request: bool,
    /// Blocks OFF to INIT, and forces RUN to SHUTDOWN.
    pub fault_a: bool,
    /// The same, for another group of producers.
    pub fault_b: bool,
    /// Blocks OFF to INIT only.
    pub off_inhibit: bool,
}

impl Default for ModeInputs {
    fn default() -> (i: Self)
        ensures
            i == (ModeInputs {
                power_request: false,
                fault_a: false,
                fault_b: false,
                off_inhibit: false,
            }),
    {
        ModeInputs { power_request: false, fault_a: false, fault_b: false, off_inhibit: false }
    }
}

/// The bring-up that the firmware has to run on an INIT pass.
#[derive(Debug, Clone, Copy, PartialEq, Eq, Structural)]
pub struct InitAction {
    pub run_bringup: bool,
}

/// The safe-down that the firmware has to run on a SHUTDOWN pass.
#[derive(Debug, Clone, Copy, PartialEq, Eq, Structural)]
pub struct ShutdownAction {
    pub run_safedown: bool,
}

/// What a tick came to.
#[derive(Debug, Clone, Copy, PartialEq, Eq, Structural)]
pub struct TickOutcome {
    /// The mode after the tick.
    pub mode: Mode,
    /// Set when this tick was the INIT pass.
    pub init: Option<InitAction>,
    /// Set when this tick was the SHUTDOWN pass.
    pub shutdown: Option<ShutdownAction>,
}

/// The state of the machine: its mode, each motor's gate, and the power request.
pub struct Machine {
    pub mode: Mode,
    pub gates: Seq<bool>,
    pub power_request: bool,
}

/// The mode after a tick.
pub open spec fn next_mode(mode: Mode, i: ModeInputs) -> Mode {
    match mode {
        Mode::Off => if i.power_request && !i.fault_a && !i.fault_b && !i.off_inhibit {
            Mode::Init
        } else {
            Mode::Off
        },
        Mode::Init => Mode::Ready,
        Mode::Ready => Mode::Run,
        Mode::Run => if i.fault_a || i.fault_b || !i.power_request {
            Mode::Shutdown
        } else {
            Mode::Run
        },
        Mode::Shutdown => Mode::Off,
    }
}

/// The machine after a tick: the INIT pass opens every gate, the SHUTDOWN pass clears every gate
/// and the power request.
pub open spec fn machine_tick(m: Machine, i: ModeInputs) -> Machine {
    Machine {
        mode: next_mode(m.mode, i),
        gates: match m.mode {
            Mode::Init => Seq::new(m.gates.len(), |k: int| true),
            Mode::Shutdown => Seq::new(m.gates.len(), |k: int| false),
            _ => m.gates,
        },
        power_request: i.power_request && !(m.mode is Shutdown),
    }
}

/// What the firmware is told of a tick.
pub open spec fn outcome(mode: Mode, i: ModeInputs) -> TickOutcome {
    TickOutcome {
        mode: next_mode(mode, i),
        init: if mode is Init {
            Some(InitAction { run_bringup: true })
        } else {
            None
        },
        shutdown: if mode is Shutdown {
            Some(ShutdownAction { run_safedown: true })
        } else {
            None
        },
    }
}

/// The mode machine of `N` motors: one shared mode, one gate per motor.
#[derive(Debug, Clone, Copy, PartialEq, Eq)]
pub struct ModeMachine<const N: usize> {
    mode: Mode,
    moe: [MoeGate; N],
    power_request: bool,
}

impl<const N: usize> View for ModeMachine<N> {
    type V = Machine;

    closed spec fn view(&self) -> Machine {
        Machine {
            mode: self.mode,
            gates: Seq::new(N as nat, |k: int| self.moe@[k]@),
            power_request: self.power_request,
        }
    }
}

impl<const N: usize> ModeMachine<N> {
    /// A fresh machine in OFF with every gate clear and no power request.
    pub fn new() -> (m: Self)
        ensures
            m@ == (Machine {
                mode: Mode::Off,
                gates: Seq::new(N as nat, |k: int| false),
                power_request: false,
            }),
    {
        let m = ModeMachine {
            mode: Mode::Off,
            moe: vstd::array::array_fill_for_copy_types::<MoeGate, N>(MoeGate::new()),
            power_request: false,
        };
        assert(m@.gates =~= Seq::new(N as nat, |k: int| false));
        m
    }

    /// The current mode.
    pub fn mode(&self) -> (m: Mode)
        ensures
            m == self@.mode,
    {
        self.mode
    }

    /// The current mode byte.
    pub fn mode_byte(&self) -> (b: u8)
        ensures
            b == self@.mode.byte(),
    {
        self.mode.as_byte()
    }

    /// Whether the bridge of motor `i` may be active. A motor that does not exist never may.
    pub fn moe_allowed(&self, i: usize) -> (b: bool)
        ensures
            b == (i < N && self@.gates[i as int]),
    {
        if i < N {
            self.moe[i].allowed()
        } else {
            false
        }
    }

    /// Whether any bridge may be active.
    pub fn any_moe_allowed(&self) -> (b: bool)
        ensures
            b == self@.gates.contains(true),
    {
        let mut i: usize = 0;
        while i < N
            invariant
                i <= N,
                forall|k: int| 0 <= k < i ==> !self@.gates[k],
            decreases N - i,
        {
            if self.moe[i].allowed() {
                assert(self@.gates[i as int]);
                return true;
            }
            i += 1;
        }
        false
    }

    /// The power request, as far as no SHUTDOWN pass has cleared it.
    pub fn power_request(&self) -> (b: bool)
        ensures
            b == self@.power_request,
    {
        self.power_request
    }

    /// One 4 ms pass.
    pub fn tick(&mut self, inputs: &ModeInputs) -> (r: TickOutcome)
        ensures
            final(self)@ == machine_tick(old(self)@, *inputs),
            r == outcome(old(self)@.mode, *inputs),
    {
        self.power_request = inputs.power_request;
        let mut init = None;
        let mut shutdown = None;
        match self.mode {
            Mode::Off => {
                let blocked = inputs.fault_a || inputs.fault_b || inputs.off_inhibit;
                if !blocked && self.power_request {
                    self.mode = Mode::Init;
                }
            },
            Mode::Init => {
                self.set_all();
                init = Some(InitAction { run_bringup: true });
                self.mode = Mode::Ready;
            },
            Mode::Ready => {
                self.mode = Mode::Run;
            },
            Mode::Run => {
                if inputs.fault_a || inputs.fault_b || !self.power_request {
                    self.mode = Mode::Shutdown;
                }
            },
            Mode::Shutdown => {
                self.clear_all();
                shutdown = Some(ShutdownAction { run_safedown: true });
                self.mode = Mode::Off;
                self.power_request = false;
            },
        }
        assert(self@.gates =~= machine_tick(old(self)@, *inputs).gates);
        TickOutcome { mode: self.mode, init, shutdown }
    }

    /// Opens every gate.
    fn set_all(&mut self)
        ensures
            final(self)@.gates == Seq::new(N as nat, |k: int| true),
            final(self)@.mode == old(self)@.mode,
            final(self)@.power_request == old(self)@.power_request,
    {
        let mut i: usize = 0;
        while i < N
            invariant
                i <= N,
                self.mode == old(self).mode,
                self.power_request == old(self).power_request,
                forall|k: int| 0 <= k < i ==> (#[trigger] self.moe@[k])@,
            decreases N - i,
        {
            let mut g = self.moe[i];
            g.set_at_init();
            self.moe[i] = g;
            i += 1;
        }
        assert(self@.gates =~= Seq::new(N as nat, |k: int| true));
    }

    /// Clears every gate.
    fn clear_all(&mut self)
        ensures
            final(self)@.gates == Seq::new(N as nat, |k: int| false),
            final(self)@.mode == old(self)@.mode,
            final(self)@.power_request == old(self)@.power_request,
    {
        let mut i: usize = 0;
        while i < N
            invariant
                i <= N,
                self.mode == old(self).mode,
                self.power_request == old(self).power_request,
                forall|k: int| 0 <= k < i ==> !(#[trigger] self.moe@[k])@,
            decreases N - i,
        {
            let mut g = self.moe[i];
            g.clear();
            self.moe[i] = g;
            i += 1;
        }
        assert(self@.gates =~= Seq::new(N as nat, |k: int| false));
    }
}

impl<const N: usize> Default for ModeMachine<N> {
    fn default() -> (m: Self)
        ensures
            m@ == (Machine {
                mode: Mode::Off,
                gates: Seq::new(N as nat, |k: int| false),
                power_request: false,
            }),
    {
        ModeMachine::new()
    }
}

/// The gates follow the mode: open from the INIT pass to the SHUTDOWN pass, clear in OFF.
pub open spec fn gates_follow_mode(m: Machine) -> bool {
    forall|k: int|
        0 <= k < m.gates.len() ==> #[trigger] m.gates[k] == (m.mode is Ready || m.mode is Run
            || m.mode is Shutdown)
}

/// No gate is ever open across an OFF dwell: a fresh machine has its gates as its mode demands, and
/// every tick keeps it so.
pub proof fn lemma_gates_follow_mode(m: Machine, i: ModeInputs, n: nat)
    ensures
        gates_follow_mode(
            Machine {
                mode: Mode::Off,
                gates: Seq::new(n, |k: int| false),
                power_request: false,
            },
        ),
        gates_follow_mode(m) ==> gates_follow_mode(machine_tick(m, i)),
{
}

/// A gate opens on the INIT pass alone, and clears on the SHUTDOWN pass alone.
pub proof fn lemma_gate_edges(m: Machine, i: ModeInputs, k: int)
    requires
        0 <= k < m.gates.len(),
    ensures
        !m.gates[k] && machine_tick(m, i).gates[k] ==> m.mode is Init,
        m.gates[k] && !machine_tick(m, i).gates[k] ==> m.mode is Shutdown,
{
}

/// Leaving RUN goes through SHUTDOWN, on a fault or an off request and on nothing else.
pub proof fn lemma_run_leaves_through_shutdown(i: ModeInputs)
    ensures
        next_mode(Mode::Run, i) == Mode::Run || next_mode(Mode::Run, i) == Mode::Shutdown,
        next_mode(Mode::Run, i) == Mode::Shutdown <==> i.fault_a || i.fault_b || !i.power_request,
{
}

/// A clean power-on takes three ticks from OFF to RUN, whatever the levels are on the second and
/// third; a shutdown takes one tick to OFF, with every gate clear and the request cleared.
pub proof fn lemma_power_on_and_off(m: Machine, on: ModeInputs, b: ModeInputs, c: ModeInputs)
    requires
        m.mode is Off,
        on.power_request,
        !on.fault_a && !on.fault_b && !on.off_inhibit,
    ensures
        ({
            let run = machine_tick(machine_tick(machine_tick(m, on), b), c);
            &&& run.mode is Run
            &&& forall|k: int| 0 <= k < m.gates.len() ==> #[trigger] run.gates[k]
        }),
        ({
            let off = machine_tick(Machine { mode: Mode::Shutdown, ..m }, on);
            &&& off.mode is Off
            &&& !off.power_request
            &&& forall|k: int| 0 <= k < m.gates.len() ==> !#[trigger] off.gates[k]
        }),
{
}

/// OFF is left exactly on a power request that neither a fault nor an inhibit blocks, and for INIT;
/// INIT, READY and SHUTDOWN each take one pass, whatever the levels are.
pub proof fn lemma_other_modes_leave(i: ModeInputs)
    ensures
        next_mode(Mode::Off, i) == Mode::Init || next_mode(Mode::Off, i) == Mode::Off,
        next_mode(Mode::Off, i) == Mode::Init <==> i.power_request && !i.fault_a && !i.fault_b
            && !i.off_inhibit,
        next_mode(Mode::Init, i) == Mode::Ready,
        next_mode(Mode::Ready, i) == Mode::Run,
        next_mode(Mode::Shutdown, i) == Mode::Off,
{
}

/// What a tick is told matches what it did: the mode is the one it leaves the machine in, the
/// bring-up comes with the gates opening, the safe-down with their clearing, and neither without.
pub proof fn lemma_told_is_done(m: Machine, i: ModeInputs)
    ensures
        ({
            let n = machine_tick(m, i);
            let r = outcome(m.mode, i);
            &&& r.mode == n.mode
            &&& r.init is Some <==> m.mode == Mode::Init
            &&& r.shutdown is Some <==> m.mode == Mode::Shutdown
            &&& r.init matches Some(a) ==> a.run_bringup
            &&& r.shutdown matches Some(a) ==> a.run_safedown
            &&& n.gates.len() == m.gates.len()
            &&& r.init is Some ==> forall|k: int|
                0 <= k < m.gates.len() ==> #[trigger] n.gates[k]
            &&& r.shutdown is Some ==> forall|k: int|
                0 <= k < m.gates.len() ==> !#[trigger] n.gates[k]
            &&& r.init is None && r.shutdown is None ==> n.gates == m.gates
            &&& m.mode == Mode::Shutdown ==> !n.power_request
            &&& m.mode != Mode::Shutdown ==> n.power_request == i.power_request
        }),
{
}

/// The mode bytes are five different ones, from OFF up to SHUTDOWN.
pub proof fn lemma_mode_bytes(m: Mode)
    ensures
        m.byte() == 0 <==> m == Mode::Off,
        m.byte() == 1 <==> m == Mode::Init,
        m.byte() == 2 <==> m == Mode::Ready,
        m.byte() == 3 <==> m == Mode::Run,
        m.byte() == 4 <==> m == Mode::Shutdown,
{
}

} // verus!
