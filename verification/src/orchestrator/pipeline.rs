//! The 250 Hz control pass and the 16 ms input task, over already-sampled inputs.
//!
//! A control pass takes the attitude of this tick, if the sensor was read; ages the link words; runs
//! the fault latches; folds the levels and ticks the mode machine; and then asks the control layer
//! for the torque setpoint, one law after the other. What has to be enacted leaves as data.
//!
//! On a missing sample the attitude holds: it is not driven toward level. The loss fault is what
//! makes holding safe.

use crate::bytes;
use crate::counter;
use crate::inputs::debounce;
use crate::inputs::debounce::{Bank, LineBank};
use crate::inputs::pad;
use crate::inputs::pad::{Pad, PadBank, PAD_A_BIT, PAD_B_BIT};
use crate::inputs::throttle;
use crate::inputs::throttle::{Filter, ThrottleFilter};
use crate::linkctl::CyclicState;
use crate::orchestrator::dispatch;
use crate::orchestrator::dispatch::{
    BlockWords, ControlMode, ControlReply, ControlRequest, DispatchStage, Engagement, FsmInputs,
    Gains, ModeSelection, PidInputs, ShapingInputs, Situation, SpeedInputs, SubState, N_MOTORS,
    PITCH_RATE_AXIS,
};
use crate::orchestrator::events;
use crate::orchestrator::events::{Events, FaultEvents, Levels};
use crate::orchestrator::health;
use crate::orchestrator::health::{Health, ImuHealth, IMU_LOSS_THRESHOLD, IMU_PROBE_CADENCE};
use crate::orchestrator::inbox;
use crate::orchestrator::inbox::{Inbox, LinkInbox};
use crate::state::fault;
use crate::state::fault::FaultLatch;
use crate::state::mode;
use crate::state::mode::{
    InitAction, Machine, Mode, ModeInputs, ModeMachine, ShutdownAction, TickOutcome,
};
use vstd::prelude::*;

verus! {

/// The attitude filter's output on a tick on which the sensor was read, and the raw rates.
#[derive(Clone, Copy, Debug, PartialEq, Eq)]
pub struct AttitudeSample {
    /// Pitch, degrees in Q16.16.
    pub pitch_deg: i32,
    /// Roll, degrees in Q16.16.
    pub roll_deg: i32,
    /// Sign-applied gyro counts.
    pub gyro_raw: [i16; 3],
}

/// The control section: the mode in force, what the engagement machine left, and the gains that it
/// has at rest.
#[derive(Clone, Copy, Debug, PartialEq, Eq, Structural)]
pub struct ControlCtl {
    pub selection: ModeSelection,
    pub engagement: Engagement,
    pub rest_gains: Gains,
}

/// What the tasks own between passes.
pub struct OrchestratorState {
    /// The latest pitch, degrees in Q16.16.
    pub pitch_deg: i32,
    /// The latest roll, degrees in Q16.16.
    pub roll_deg: i32,
    /// The board has a sensor, and it answered at boot.
    pub imu_configured: bool,
    /// The configured sensor was read on this tick.
    pub imu_live: bool,
    /// The sensor's read health.
    pub imu_health: ImuHealth,
    /// The link words.
    pub inbox: LinkInbox,
    /// The fault latches.
    pub latches: [FaultLatch; N_MOTORS],
    /// The mode machine.
    pub mode: ModeMachine<N_MOTORS>,
    /// The power-button debouncer: one line.
    pub button: LineBank,
    /// The debounced power button.
    pub button_pressed: bool,
    /// The foot pads.
    pub pads: PadBank,
    /// The pad field.
    pub pad_field: u8,
    /// Both pads are engaged.
    pub rider_present: bool,
    /// The filter over the remote throttle word.
    pub throttle: ThrottleFilter,
    /// Its latest output.
    pub throttle_filtered: i16,
    /// Control passes.
    pub control_ticks: u32,
    /// Input passes.
    pub input_ticks: u32,
    /// Bring-ups handed out.
    pub enact_inits: u32,
    /// Safe-downs handed out.
    pub enact_shutdowns: u32,
    /// The control section.
    pub ctl: ControlCtl,
    /// The control block.
    pub block: BlockWords,
    /// The transition counters.
    pub events: FaultEvents,
}

/// The state of the tasks.
#[verifier::ext_equal]
pub struct Pipeline {
    pub pitch_deg: i32,
    pub roll_deg: i32,
    pub imu_configured: bool,
    pub imu_live: bool,
    pub imu_health: Health,
    pub inbox: Inbox,
    pub latches: Seq<FaultLatch>,
    pub mode: Machine,
    pub button: Bank,
    pub button_pressed: bool,
    pub pads: (Pad, Pad),
    pub pad_field: u8,
    pub rider_present: bool,
    pub throttle: Filter,
    pub throttle_filtered: i16,
    pub control_ticks: u32,
    pub input_ticks: u32,
    pub enact_inits: u32,
    pub enact_shutdowns: u32,
    pub ctl: ControlCtl,
    pub block: BlockWords,
    pub events: Events,
}

impl View for OrchestratorState {
    type V = Pipeline;

    open spec fn view(&self) -> Pipeline {
        Pipeline {
            pitch_deg: self.pitch_deg,
            roll_deg: self.roll_deg,
            imu_configured: self.imu_configured,
            imu_live: self.imu_live,
            imu_health: self.imu_health@,
            inbox: self.inbox@,
            latches: self.latches@,
            mode: self.mode@,
            button: self.button@,
            button_pressed: self.button_pressed,
            pads: self.pads@,
            pad_field: self.pad_field,
            rider_present: self.rider_present,
            throttle: self.throttle@,
            throttle_filtered: self.throttle_filtered,
            control_ticks: self.control_ticks,
            input_ticks: self.input_ticks,
            enact_inits: self.enact_inits,
            enact_shutdowns: self.enact_shutdowns,
            ctl: self.ctl,
            block: self.block,
            events: self.events@,
        }
    }
}

impl Pipeline {
    /// The power request: the button or the input mirror.
    pub open spec fn power_request(self) -> bool {
        self.button_pressed || self.inbox.remote_power()
    }
}

/// The state with the read health advanced and, on a tick with a sample, the attitude and its block
/// words taken over.
pub open spec fn sensed(p: Pipeline, sample: Option<AttitudeSample>) -> Pipeline {
    let q = Pipeline {
        imu_live: p.imu_configured && sample is Some,
        imu_health: health::health_step(p.imu_health, p.imu_configured, sample is Some),
        ..p
    };
    match sample {
        Some(s) => Pipeline {
            pitch_deg: s.pitch_deg,
            roll_deg: s.roll_deg,
            block: BlockWords {
                pitch_word: dispatch::centi(s.pitch_deg as int) as i16,
                roll_word: dispatch::centi(s.roll_deg as int) as i16,
                pitch_rate: s.gyro_raw@[1] as i32,
                ..p.block
            },
            ..q
        },
        None => q,
    }
}

/// A fault latch after its pass: it is live in RUN alone, and watches the engagement sub-state
/// against the wheel.
pub open spec fn latch_pass(p: Pipeline, i: int) -> FaultLatch {
    fault::latch_tick(
        FaultLatch {
            running_enable: if p.mode.mode is Run {
                1
            } else {
                0
            },
            a_substate: p.ctl.engagement.sub_state.byte() as i8,
            b_motion: p.block.wheel_speed@[i],
            ..p.latches[i]
        },
    )
}

/// The state with the link words aged and the latches run.
pub open spec fn supervised(p: Pipeline) -> Pipeline {
    Pipeline {
        inbox: inbox::aged(p.inbox),
        latches: Seq::new(p.latches.len(), |i: int| latch_pass(p, i)),
        ..p
    }
}

/// The gating levels of a supervised state.
pub open spec fn levels_of(p: Pipeline) -> Levels {
    Levels {
        comms_loss: p.inbox.comms_loss(),
        stop_all: p.inbox.stop_all,
        imu_loss: p.imu_health.loss,
        motor_fault: false,
        latch_a: p.latches[0].fault_latch != 0,
        latch_b: p.latches[1].fault_latch != 0,
        mode_fault: p.ctl.selection.mode_fault,
        power_request: p.power_request(),
    }
}

/// What the mode machine is fed. Nothing inhibits OFF yet.
pub open spec fn mode_inputs(l: Levels) -> ModeInputs {
    ModeInputs {
        power_request: l.power_request,
        fault_a: l.a(),
        fault_b: l.latch_b,
        off_inhibit: false,
    }
}

/// The unit of a motor whose latch was never touched.
pub open spec fn fresh_latch() -> FaultLatch {
    FaultLatch {
        running_enable: 0,
        ext_trip: 0,
        fault_code: 0,
        a_substate: 0,
        b_motion: 0,
        fault_counter: 0,
        fault_latch: 0,
    }
}

/// A supervised state with the mode machine ticked. A pass that lands in OFF stands for a power
/// cycle: it clears the stop latch and the fault latches.
pub open spec fn decided(p: Pipeline) -> Pipeline {
    let l = levels_of(p);
    let out = mode::outcome(p.mode.mode, mode_inputs(l));
    let off = out.mode is Off;
    Pipeline {
        mode: mode::machine_tick(p.mode, mode_inputs(l)),
        events: events::events_tick(p.events, l.packed()),
        inbox: if off {
            Inbox { stop_all: false, ..p.inbox }
        } else {
            p.inbox
        },
        latches: if off {
            Seq::new(p.latches.len(), |i: int| fresh_latch())
        } else {
            p.latches
        },
        enact_inits: if out.init is Some {
            counter::after32(p.enact_inits)
        } else {
            p.enact_inits
        },
        enact_shutdowns: if out.shutdown is Some {
            counter::after32(p.enact_shutdowns)
        } else {
            p.enact_shutdowns
        },
        ..p
    }
}

/// The state after everything that a pass decides before the control layer is asked.
pub open spec fn begun(p: Pipeline, sample: Option<AttitudeSample>) -> Pipeline {
    decided(supervised(sensed(p, sample)))
}

/// The pass that goes with it.
pub open spec fn pass_of(p: Pipeline, sample: Option<AttitudeSample>) -> ControlPass {
    let q = supervised(sensed(p, sample));
    ControlPass {
        outcome: mode::outcome(q.mode.mode, mode_inputs(levels_of(q))),
        comms_loss: q.inbox.comms_loss(),
        imu_loss: q.imu_health.loss,
        stage: dispatch::first_stage(p.ctl.selection.mode),
    }
}

/// What the control dispatch reads of the state.
pub open spec fn situation(p: Pipeline, run: bool) -> Situation {
    Situation {
        selection: p.ctl.selection,
        pitch_deg: p.pitch_deg,
        inbox: p.inbox,
        block: p.block,
        engagement: p.ctl.engagement,
        local_rider: p.rider_present,
        latched: p.latches[0].fault_latch != 0,
        run,
    }
}

/// A pass after an answer of the control layer, and the state with it. The engagement machine's
/// answer ends the pass: its setpoint is taken over and the pass is counted.
pub open spec fn advanced(c: ControlPass, p: Pipeline, reply: ControlReply) -> (
    ControlPass,
    Pipeline,
) {
    let (stage, e) = dispatch::answered(c.stage, p.block.role_right, reply);
    (
        ControlPass { stage, ..c },
        match e {
            Some(e) => Pipeline {
                ctl: ControlCtl { engagement: e, ..p.ctl },
                control_ticks: counter::after32(p.control_ticks),
                ..p
            },
            None => p,
        },
    )
}

/// The moe bits of a snapshot.
pub open spec fn gate_bits(m: Machine) -> u8 {
    if m.gates[0] && m.gates[1] {
        3
    } else if m.gates[0] {
        1
    } else if m.gates[1] {
        2
    } else {
        0
    }
}

impl OrchestratorState {
    /// One debounced line, a carry in range, one latch and one gate per motor.
    pub open spec fn wf(&self) -> bool {
        &&& self.button.wf()
        &&& self.throttle.wf()
        &&& self@.mode.gates.len() == N_MOTORS
    }

    /// A fresh state: OFF, nothing received, level, the mode selected for the request, and the
    /// engagement at rest with the gains that the control layer has there.
    pub fn new(requested: ControlMode, imu_configured: bool, rest_gains: Gains) -> (s: Self)
        ensures
            s.wf(),
            s@.mode == (Machine {
                mode: Mode::Off,
                gates: seq![false, false],
                power_request: false,
            }),
            s@.inbox == inbox::empty_inbox(),
            s@.imu_health == health::healthy_start(),
            s@.latches == seq![fresh_latch(), fresh_latch()],
            s@.button == (Bank {
                lines: Seq::new(debounce::MAX_LINES as nat, |i: int| debounce::idle_line()),
                count: 1,
            }),
            s@.pads == (pad::fresh_pad(), pad::fresh_pad()),
            s@.throttle == (Filter { baseline: 0, initialized: false }),
            s@.events == events::no_events(),
            s.pitch_deg == 0,
            s.roll_deg == 0,
            s.imu_configured == imu_configured,
            !s.imu_live,
            !s.button_pressed,
            s.pad_field == 0,
            !s.rider_present,
            s.throttle_filtered == 0,
            s.control_ticks == 0,
            s.input_ticks == 0,
            s.enact_inits == 0,
            s.enact_shutdowns == 0,
            s.ctl == (ControlCtl {
                selection: dispatch::selected(requested, imu_configured),
                engagement: dispatch::disengaged(rest_gains),
                rest_gains,
            }),
            s.block.pitch_word == 0,
            s.block.roll_word == 0,
            s.block.pitch_rate == 0,
            s.block.wheel_speed@ == seq![0i16, 0i16],
            s.block.battery == dispatch::BATTERY_PLACEHOLDER_CENTIVOLT,
            s.block.gating_field == 0,
            s.block.trim == 0,
            s.block.kd == 0,
            !s.block.orientation_nz,
            !s.block.role_right,
    {
        let s = OrchestratorState {
            pitch_deg: 0,
            roll_deg: 0,
            imu_configured,
            imu_live: false,
            imu_health: ImuHealth::new(),
            inbox: LinkInbox::new(),
            latches: [FaultLatch::new(), FaultLatch::new()],
            mode: ModeMachine::new(),
            button: LineBank::new(1),
            button_pressed: false,
            pads: PadBank::new(),
            pad_field: 0,
            rider_present: false,
            throttle: ThrottleFilter::new(),
            throttle_filtered: 0,
            control_ticks: 0,
            input_ticks: 0,
            enact_inits: 0,
            enact_shutdowns: 0,
            ctl: ControlCtl {
                selection: ModeSelection::new(requested, imu_configured),
                engagement: Engagement::at_rest(rest_gains),
                rest_gains,
            },
            block: BlockWords::new(),
            events: FaultEvents::new(),
        };
        assert(s@.mode.gates =~= seq![false, false]);
        assert(s@.latches =~= seq![fresh_latch(), fresh_latch()]);
        s
    }

    /// The power request: the debounced button or the input mirror, either level holds it.
    pub fn power_request(&self) -> (b: bool)
        ensures
            b == self@.power_request(),
    {
        self.button_pressed || self.inbox.remote_power_request()
    }

    /// Whether the sensor should be read on this tick: always, but on the probe cadence while the
    /// retry breaker is open.
    pub fn imu_read_due(&self, tick: u32) -> (b: bool)
        ensures
            b == (self@.imu_health.fail_streak < IMU_LOSS_THRESHOLD || tick % IMU_PROBE_CADENCE
                == 0),
            b <==> self@.imu_health.fail_streak < 5 || tick % 250 == 0,
    {
        !self.imu_health.backoff() || tick % IMU_PROBE_CADENCE == 0
    }

    /// The snapshot that is published after a pass.
    pub fn obs(&self) -> (o: Obs)
        requires
            self.wf(),
        ensures
            o == (Obs {
                control_ticks: self.control_ticks,
                input_ticks: self.input_ticks,
                mode_byte: self@.mode.mode.byte(),
                moe_bits: gate_bits(self@.mode),
                pitch_milli_deg: ((self.pitch_deg * 1000) / 0x1_0000) as i32,
                roll_milli_deg: ((self.roll_deg * 1000) / 0x1_0000) as i32,
                imu_configured: self.imu_configured,
                imu_live: self.imu_live,
                imu_loss: self@.imu_health.loss,
                comms_loss: self@.inbox.comms_loss(),
                cyclic_age: self@.inbox.cyclic_age,
                drive_age: self@.inbox.drive_age,
                enact_inits: self.enact_inits,
                enact_shutdowns: self.enact_shutdowns,
                torque_setpoint: self.ctl.engagement.torque_setpoint,
                sub_state: self.ctl.engagement.sub_state.byte(),
                control_mode: self.ctl.selection.mode.byte(),
                mode_fault: self.ctl.selection.mode_fault,
            }),
    {
        let mut moe_bits: u8 = 0;
        if self.mode.moe_allowed(0) {
            moe_bits = moe_bits + 1;
        }
        if self.mode.moe_allowed(1) {
            moe_bits = moe_bits + 2;
        }
        Obs {
            control_ticks: self.control_ticks,
            input_ticks: self.input_ticks,
            mode_byte: self.mode.mode_byte(),
            moe_bits,
            pitch_milli_deg: dispatch::out_to_milli(self.pitch_deg),
            roll_milli_deg: dispatch::out_to_milli(self.roll_deg),
            imu_configured: self.imu_configured,
            imu_live: self.imu_live,
            imu_loss: self.imu_health.loss(),
            comms_loss: self.inbox.comms_loss(),
            cyclic_age: self.inbox.cyclic_age(),
            drive_age: self.inbox.drive_age(),
            enact_inits: self.enact_inits,
            enact_shutdowns: self.enact_shutdowns,
            torque_setpoint: self.ctl.engagement.torque_setpoint,
            sub_state: self.ctl.engagement.sub_state.as_byte(),
            control_mode: self.ctl.selection.mode.as_byte(),
            mode_fault: self.ctl.selection.mode_fault,
        }
    }
}

/// The snapshot of the pipeline.
#[derive(Clone, Copy, Debug, PartialEq, Eq, Structural)]
pub struct Obs {
    pub control_ticks: u32,
    pub input_ticks: u32,
    pub mode_byte: u8,
    /// Bit `i`: motor `i` may be active.
    pub moe_bits: u8,
    pub pitch_milli_deg: i32,
    pub roll_milli_deg: i32,
    pub imu_configured: bool,
    pub imu_live: bool,
    /// Distinct from `imu_live`: a single miss is no loss.
    pub imu_loss: bool,
    pub comms_loss: bool,
    pub cyclic_age: u32,
    pub drive_age: u32,
    pub enact_inits: u32,
    pub enact_shutdowns: u32,
    pub torque_setpoint: i16,
    pub sub_state: u8,
    pub control_mode: u8,
    pub mode_fault: bool,
}

/// What a finished pass decided.
#[derive(Clone, Copy, Debug, PartialEq, Eq)]
pub struct ControlOutput {
    pub mode_byte: u8,
    pub moe: [bool; N_MOTORS],
    /// Set on the pass on which the bring-up has to run.
    pub init: Option<InitAction>,
    /// Set on the pass on which the safe-down has to run.
    pub shutdown: Option<ShutdownAction>,
    pub comms_loss: bool,
    pub imu_loss: bool,
    pub torque_setpoint: i16,
    pub sub_state: u8,
}

/// A control pass under way: what it decided so far, and what it asks next.
#[derive(Clone, Copy, Debug, PartialEq, Eq, Structural)]
pub struct ControlPass {
    pub outcome: TickOutcome,
    pub comms_loss: bool,
    pub imu_loss: bool,
    pub stage: DispatchStage,
}

/// Starts a 250 Hz pass: everything up to the control dispatch. `sample` is `None` where there is no
/// sensor or its read failed.
pub fn control_task(state: &mut OrchestratorState, sample: Option<&AttitudeSample>) -> (c:
    ControlPass)
    requires
        old(state).wf(),
    ensures
        final(state).wf(),
        final(state)@ == begun(
            old(state)@,
            match sample {
                Some(s) => Some(*s),
                None => None,
            },
        ),
        c == pass_of(
            old(state)@,
            match sample {
                Some(s) => Some(*s),
                None => None,
            },
        ),
{
    let ghost given: Option<AttitudeSample> = match sample {
        Some(s) => Some(*s),
        None => None,
    };
    sense(state, sample);
    assert(state@ == sensed(old(state)@, given));
    let ghost p1 = state@;
    supervise(state);
    assert(state@ == supervised(p1));
    let comms_loss = state.inbox.comms_loss();
    let imu_loss = state.imu_health.loss();
    let outcome = decide(state);
    ControlPass { outcome, comms_loss, imu_loss, stage: DispatchStage::first(state.ctl.selection.mode) }
}

/// The read health and the attitude.
fn sense(state: &mut OrchestratorState, sample: Option<&AttitudeSample>)
    requires
        old(state).wf(),
    ensures
        final(state).wf(),
        final(state)@ == sensed(
            old(state)@,
            match sample {
                Some(s) => Some(*s),
                None => None,
            },
        ),
{
    state.imu_live = state.imu_configured && sample.is_some();
    state.imu_health.update(state.imu_configured, sample.is_some());
    if let Some(s) = sample {
        state.pitch_deg = s.pitch_deg;
        state.roll_deg = s.roll_deg;
        state.block.pitch_word = dispatch::out_to_centi(s.pitch_deg);
        state.block.roll_word = dispatch::out_to_centi(s.roll_deg);
        state.block.pitch_rate = s.gyro_raw[PITCH_RATE_AXIS] as i32;
    }
}

/// The ages of the link words, and the fault latches.
fn supervise(state: &mut OrchestratorState)
    requires
        old(state).wf(),
    ensures
        final(state).wf(),
        final(state)@ == supervised(old(state)@),
{
    state.inbox.tick_ages();
    let a_substate: i8 = state.ctl.engagement.sub_state.as_byte() as i8;
    let running_enable: u8 = match state.mode.mode() {
        Mode::Run => 1,
        _ => 0,
    };
    let mut i: usize = 0;
    while i < N_MOTORS
        invariant
            i <= N_MOTORS,
            state.wf(),
            a_substate == old(state)@.ctl.engagement.sub_state.byte(),
            running_enable == if old(state)@.mode.mode is Run {
                1u8
            } else {
                0
            },
            (Pipeline { latches: old(state)@.latches, inbox: old(state)@.inbox, ..state@ }) == old(
                state,
            )@,
            state@.inbox == inbox::aged(old(state)@.inbox),
            forall|k: int|
                0 <= k < i ==> #[trigger] state.latches@[k] == latch_pass(old(state)@, k),
            forall|k: int| i <= k < N_MOTORS ==> state.latches@[k] == old(state).latches@[k],
        decreases N_MOTORS - i,
    {
        let mut latch = state.latches[i];
        latch.running_enable = running_enable;
        latch.a_substate = a_substate;
        latch.b_motion = state.block.wheel_speed[i];
        latch.tick();
        state.latches[i] = latch;
        i += 1;
    }
    assert(state@ =~= supervised(old(state)@));
}

/// The gating levels, the mode machine, and what it leaves to enact.
fn decide(state: &mut OrchestratorState) -> (outcome: TickOutcome)
    requires
        old(state).wf(),
    ensures
        final(state).wf(),
        final(state)@ == decided(old(state)@),
        outcome == mode::outcome(old(state)@.mode.mode, mode_inputs(levels_of(old(state)@))),
{
    let levels = Levels {
        comms_loss: state.inbox.comms_loss(),
        stop_all: state.inbox.stop_all(),
        imu_loss: state.imu_health.loss(),
        motor_fault: false,
        latch_a: state.latches[0].is_latched(),
        latch_b: state.latches[1].is_latched(),
        mode_fault: state.ctl.selection.mode_fault,
        power_request: state.power_request(),
    };
    state.events.tick(levels.mask());
    let inputs = ModeInputs {
        power_request: levels.power_request,
        fault_a: levels.fault_a(),
        fault_b: levels.fault_b(),
        off_inhibit: false,
    };
    let outcome = state.mode.tick(&inputs);
    if let Mode::Off = outcome.mode {
        state.inbox.clear_stop_all();
        state.latches = [FaultLatch::new(), FaultLatch::new()];
    }
    if outcome.init.is_some() {
        state.enact_inits = counter::inc32(state.enact_inits);
    }
    if outcome.shutdown.is_some() {
        state.enact_shutdowns = counter::inc32(state.enact_shutdowns);
    }
    assert(state@ =~= decided(old(state)@));
    outcome
}

impl ControlPass {
    /// What the pass asks next.
    pub fn request(&self, state: &OrchestratorState) -> (r: ControlRequest)
        requires
            state.wf(),
        ensures
            r == dispatch::request_of(situation(state@, self.outcome.mode is Run), self.stage),
            self.stage matches DispatchStage::Regulate { correction, lean } ==> r matches
                ControlRequest::Regulate(w) && w.pp == correction && w.off == lean,
            self.stage matches DispatchStage::Engage { reference } ==> r matches
                ControlRequest::Engage { inputs, .. } && inputs.smoothed_ref == reference
                && inputs.power_enable == (self.outcome.mode is Run),
    {
        let run = match self.outcome.mode {
            Mode::Run => true,
            _ => false,
        };
        match self.stage {
            DispatchStage::SpeedLoop => ControlRequest::SpeedLoop(speed_words(state, run)),
            DispatchStage::Shape { .. } => ControlRequest::Shape(shaping_words(state)),
            DispatchStage::Regulate { correction, lean } => ControlRequest::Regulate(
                pid_words(state, correction, lean),
            ),
            DispatchStage::Condition => {
                let (speed, steer) = dispatch::effective_drive(&state.inbox);
                ControlRequest::Condition { speed, steer }
            },
            DispatchStage::Engage { reference } => ControlRequest::Engage {
                inputs: match state.ctl.selection.mode {
                    ControlMode::Balance => balance_words(state, run, reference),
                    ControlMode::Throttle => throttle_words(state, run, reference),
                },
                rider: dispatch::rider_level(state.rider_present, &state.inbox),
            },
            DispatchStage::Finished => ControlRequest::Finished,
        }
    }

    /// Takes an answer. The engagement machine's ends the pass.
    pub fn reply(&mut self, state: &mut OrchestratorState, reply: ControlReply)
        requires
            old(state).wf(),
        ensures
            final(state).wf(),
            (*final(self), final(state)@) == advanced(*old(self), old(state)@, reply),
    {
        let mut stage = self.stage;
        let engaged = stage.answer(state.block.role_right, reply);
        self.stage = stage;
        if let Some(e) = engaged {
            state.ctl.engagement = e;
            state.control_ticks = counter::inc32(state.control_ticks);
        }
    }

    /// What the pass decided. The setpoint is the engagement machine's once the pass is finished.
    pub fn output(&self, state: &OrchestratorState) -> (o: ControlOutput)
        requires
            state.wf(),
        ensures
            o.mode_byte == self.outcome.mode.byte(),
            o.moe@ == state@.mode.gates,
            o.init == self.outcome.init,
            o.shutdown == self.outcome.shutdown,
            o.comms_loss == self.comms_loss,
            o.imu_loss == self.imu_loss,
            o.torque_setpoint == state.ctl.engagement.torque_setpoint,
            o.sub_state == state.ctl.engagement.sub_state.byte(),
    {
        let o = ControlOutput {
            mode_byte: self.outcome.mode.as_byte(),
            moe: [state.mode.moe_allowed(0), state.mode.moe_allowed(1)],
            init: self.outcome.init,
            shutdown: self.outcome.shutdown,
            comms_loss: self.comms_loss,
            imu_loss: self.imu_loss,
            torque_setpoint: state.ctl.engagement.torque_setpoint,
            sub_state: state.ctl.engagement.sub_state.as_byte(),
        };
        assert(o.moe@ =~= state@.mode.gates);
        o
    }
}

fn speed_words(state: &OrchestratorState, run: bool) -> (w: SpeedInputs)
    requires
        state.wf(),
    ensures
        w == dispatch::speed_inputs(situation(state@, run)),
{
    let peer_wheel: i16 = dispatch::wheel_of_peer(&state.inbox);
    let engaged = match state.ctl.engagement.sub_state {
        SubState::Run => true,
        _ => false,
    };
    SpeedInputs {
        blend_input: dispatch::fix_from_out(state.pitch_deg),
        trim: state.block.trim,
        gate: false,
        s1: state.block.wheel_speed[0],
        s2: peer_wheel,
        window: 0,
        wheel_a: state.block.wheel_speed[0],
        wheel_b: peer_wheel,
        dir_step: 0,
        dir_out_pos: 0,
        dir_out_neg: 0,
        run_active: run && engaged,
    }
}

fn shaping_words(state: &OrchestratorState) -> (w: ShapingInputs)
    requires
        state.wf(),
    ensures
        forall|run: bool| w == #[trigger] dispatch::shaping_inputs(situation(state@, run)),
{
    let (_, steer) = dispatch::effective_drive(&state.inbox);
    ShapingInputs {
        roll_a: state.block.roll_word,
        roll_b: match state.inbox.peer() {
            Some(p) => p.roll,
            None => state.block.roll_word,
        },
        steer,
        role_right: state.block.role_right,
    }
}

fn pid_words(state: &OrchestratorState, correction: i64, lean: i32) -> (w: PidInputs)
    requires
        state.wf(),
    ensures
        forall|run: bool|
            w == #[trigger] dispatch::pid_inputs(situation(state@, run), correction, lean),
{
    let gains = state.ctl.engagement.gains;
    PidInputs {
        bv: state.block.pitch_rate,
        bk: gains.bk,
        pp: correction,
        kp: gains.kp,
        pr: gains.pr,
        kd: state.block.kd,
        off: lean,
        scale: dispatch::battery_scale(&state.inbox, state.block.battery),
    }
}

/// The engagement words with the balance gates live: the rider leaving is the step-off.
fn balance_words(state: &OrchestratorState, run: bool, reference: i32) -> (w: FsmInputs)
    requires
        state.wf(),
        state.ctl.selection.mode is Balance,
    ensures
        w == dispatch::fsm_inputs(situation(state@, run), reference),
{
    let rider = dispatch::rider_level(state.rider_present, &state.inbox);
    FsmInputs {
        orientation_nz: state.block.orientation_nz,
        upright_ref: dispatch::fix_from_out(state.pitch_deg),
        pre_gate_clear: true,
        smoothed_ref: reference,
        gating_field: state.block.gating_field,
        rider_present: rider,
        over_current: state.latches[0].is_latched() || state.inbox.peer_lockdown(),
        stall: false,
        comms_loss: state.inbox.comms_loss(),
        tilt: false,
        enable_bytes_clear: true,
        power_enable: run,
        stop_byte: state.inbox.peer_lockdown(),
        winddown_enables_clear: !rider,
        promote_condition: false,
        ref_9c: state.block.pitch_rate,
        ref_34: state.block.wheel_speed[0],
        ref_36: dispatch::wheel_of_peer(&state.inbox),
        feedback_fb: 0,
    }
}

/// The engagement words with the balance gates off.
fn throttle_words(state: &OrchestratorState, run: bool, reference: i32) -> (w: FsmInputs)
    requires
        state.wf(),
        state.ctl.selection.mode is Throttle,
    ensures
        w == dispatch::fsm_inputs(situation(state@, run), reference),
{
    FsmInputs {
        orientation_nz: state.block.orientation_nz,
        upright_ref: 0,
        pre_gate_clear: true,
        smoothed_ref: reference,
        gating_field: state.block.gating_field,
        rider_present: true,
        over_current: state.latches[0].is_latched() || state.inbox.peer_lockdown(),
        stall: false,
        comms_loss: state.inbox.comms_loss(),
        tilt: false,
        enable_bytes_clear: true,
        power_enable: run,
        stop_byte: state.inbox.peer_lockdown(),
        winddown_enables_clear: false,
        promote_condition: false,
        ref_9c: state.block.pitch_rate,
        ref_34: state.block.wheel_speed[0],
        ref_36: dispatch::wheel_of_peer(&state.inbox),
        feedback_fb: 0,
    }
}

/// Switches the control mode, which takes a disarmed board. On success what the engagement machine
/// left is reset; the control layer has to reset its own records with it.
pub fn switch_control_mode(state: &mut OrchestratorState, requested: ControlMode) -> (applied: bool)
    requires
        old(state).wf(),
    ensures
        final(state).wf(),
        applied == !old(state)@.mode.gates.contains(true),
        final(state)@ == if applied {
            Pipeline {
                ctl: ControlCtl {
                    selection: dispatch::selected(requested, old(state)@.imu_configured),
                    engagement: dispatch::disengaged(old(state)@.ctl.rest_gains),
                    ..old(state)@.ctl
                },
                ..old(state)@
            }
        } else {
            old(state)@
        },
{
    if state.mode.any_moe_allowed() {
        return false;
    }
    state.ctl = ControlCtl {
        selection: ModeSelection::new(requested, state.imu_configured),
        engagement: Engagement::at_rest(state.ctl.rest_gains),
        rest_gains: state.ctl.rest_gains,
    };
    true
}

/// The board's own cyclic state: the block words as they are. The rider flag is that of the local
/// pads: a mirrored level must not feed back on itself.
pub open spec fn own_cyclic(p: Pipeline) -> CyclicState {
    CyclicState {
        pitch: p.block.pitch_word,
        roll: p.block.roll_word,
        wheel_speed: p.block.wheel_speed@[0],
        battery: bytes::pattern16(p.block.battery as int) as u16,
        mode: p.mode.mode.byte(),
        fault: 0,
        flags: if p.rider_present {
            1
        } else {
            0
        },
    }
}

/// The cyclic state to emit after a pass: on every second one, and only once the board has an
/// address.
pub fn cyclic_tx(state: &OrchestratorState, addressed: bool) -> (c: Option<CyclicState>)
    ensures
        c == if addressed && state.control_ticks % 2 == 0 {
            Some(own_cyclic(state@))
        } else {
            None
        },
        c is Some <==> addressed && state.control_ticks % 2 == 0,
        c is Some ==> {
            &&& c->0.pitch == state.block.pitch_word
            &&& c->0.roll == state.block.roll_word
            &&& c->0.wheel_speed == state.block.wheel_speed@[0]
            &&& bytes::signed16(c->0.battery as int) == state.block.battery
            &&& c->0.mode == match state@.mode.mode {
                Mode::Off => 0u8,
                Mode::Init => 1,
                Mode::Ready => 2,
                Mode::Run => 3,
                Mode::Shutdown => 4,
            }
            &&& c->0.fault == 0
            &&& c->0.flags == if state.rider_present {
                1u8
            } else {
                0
            }
        },
{
    if !addressed || state.control_ticks % 2 != 0 {
        return None;
    }
    Some(
        CyclicState {
            pitch: state.block.pitch_word,
            roll: state.block.roll_word,
            wheel_speed: state.block.wheel_speed[0],
            battery: bytes::pattern(state.block.battery),
            mode: state.mode.mode_byte(),
            fault: 0,
            flags: if state.rider_present {
                CyclicState::FLAG_RIDER
            } else {
                0
            },
        },
    )
}

/// The sampled levels of the input task. A pin that is not configured samples as `false`.
#[derive(Clone, Copy, Debug, PartialEq, Eq, Structural)]
pub struct InputSample {
    /// The power button's line reads asserted.
    pub button_asserted: bool,
    /// Foot on pad A.
    pub pad_a_high: bool,
    /// Foot on pad B.
    pub pad_b_high: bool,
}

impl Default for InputSample {
    fn default() -> (s: Self)
        ensures
            s == (InputSample { button_asserted: false, pad_a_high: false, pad_b_high: false }),
    {
        InputSample { button_asserted: false, pad_a_high: false, pad_b_high: false }
    }
}

/// The state after an input pass. The throttle filter steps only once a remote word exists, so that
/// it captures a real sample.
pub open spec fn input_passed(p: Pipeline, s: InputSample) -> Pipeline {
    let button = debounce::bank_step(
        p.button,
        if s.button_asserted {
            1
        } else {
            0
        },
    );
    let pads = (pad::pad_step(p.pads.0, s.pad_a_high), pad::pad_step(p.pads.1, s.pad_b_high));
    let filter = match p.inbox.remote {
        Some(i) => throttle::filter_step(
            p.throttle,
            bytes::pattern16(i.throttle as int) as u16,
        ),
        None => p.throttle,
    };
    Pipeline {
        button,
        button_pressed: button.pressed(0),
        pads,
        pad_field: pad::field_of(pads.0.on, pads.1.on),
        rider_present: pads.0.on && pads.1.on,
        throttle: filter,
        throttle_filtered: if p.inbox.remote is Some {
            throttle::output(filter) as i16
        } else {
            p.throttle_filtered
        },
        input_ticks: counter::after32(p.input_ticks),
        ..p
    }
}

/// One 16 ms input pass.
pub fn input_task(state: &mut OrchestratorState, sample: &InputSample)
    requires
        old(state).wf(),
    ensures
        final(state).wf(),
        final(state)@ == input_passed(old(state)@, *sample),
        old(state)@.inbox.remote matches Some(i) ==> {
            &&& final(state)@.throttle == throttle::filter_step(
                old(state)@.throttle,
                bytes::pattern16(i.throttle as int) as u16,
            )
            &&& final(state).throttle_filtered == final(state)@.throttle.baseline / 0x1_0000_0000
                + 200
        },
        old(state)@.inbox.remote is None ==> final(state)@.throttle == old(state)@.throttle
            && final(state).throttle_filtered == old(state).throttle_filtered,
{
    let bits: u8 = if sample.button_asserted {
        1
    } else {
        0
    };
    state.button.update(bits);
    state.button_pressed = state.button.pressed(0);
    state.pad_field = state.pads.update(sample.pad_a_high, sample.pad_b_high);
    state.rider_present = state.pad_field == PAD_A_BIT + PAD_B_BIT;
    if let Some(word) = state.inbox.remote_throttle() {
        state.throttle_filtered = state.throttle.step(bytes::pattern(word));
    }
    state.input_ticks = counter::inc32(state.input_ticks);
}

/// A failed read holds the attitude and its block words.
pub proof fn lemma_missed_read_holds(p: Pipeline)
    ensures
        begun(p, None).pitch_deg == p.pitch_deg,
        begun(p, None).roll_deg == p.roll_deg,
        begun(p, None).block == p.block,
        !begun(p, None).imu_live,
{
}

/// A fault in RUN ends the run on the same pass, whatever its producer; so does a power request that
/// falls. Nothing else does.
pub proof fn lemma_run_ends(p: Pipeline, sample: Option<AttitudeSample>)
    requires
        p.mode.mode is Run,
    ensures
        ({
            let l = levels_of(supervised(sensed(p, sample)));
            begun(p, sample).mode.mode == if l.a() || l.latch_b || !l.power_request {
                Mode::Shutdown
            } else {
                Mode::Run
            }
        }),
{
}

/// The stop latch holds until a pass lands in OFF, and that pass clears it and the fault latches.
pub proof fn lemma_stop_holds_until_off(p: Pipeline, sample: Option<AttitudeSample>)
    requires
        p.latches.len() == N_MOTORS,
    ensures
        begun(p, sample).inbox.stop_all == (p.inbox.stop_all && !(begun(
            p,
            sample,
        ).mode.mode is Off)),
        begun(p, sample).mode.mode is Off ==> begun(p, sample).latches[0] == fresh_latch() && begun(
            p,
            sample,
        ).latches[1] == fresh_latch(),
{
}

/// While the stop latch is set, OFF is not left.
pub proof fn lemma_stop_blocks_off(p: Pipeline, sample: Option<AttitudeSample>)
    requires
        p.inbox.stop_all,
        p.mode.mode is Off,
    ensures
        begun(p, sample).mode.mode is Off,
{
}

/// The torque setpoint has one writer: nothing before the engagement machine's answer changes what
/// it left, and neither does an input pass.
pub proof fn lemma_sole_writer(
    p: Pipeline,
    sample: Option<AttitudeSample>,
    c: ControlPass,
    reply: ControlReply,
    s: InputSample,
)
    ensures
        begun(p, sample).ctl == p.ctl,
        input_passed(p, s).ctl == p.ctl,
        !(reply is Engaged) ==> advanced(c, p, reply).1 == p,
        !(c.stage is Engage) ==> advanced(c, p, reply).1 == p,
{
}

/// The counters see what the mode machine was fed: the aggregates that it decided on are those of
/// the levels that were counted.
pub proof fn lemma_counted_is_decided(p: Pipeline, sample: Option<AttitudeSample>)
    ensures
        ({
            let l = levels_of(supervised(sensed(p, sample)));
            &&& begun(p, sample).events.prev == l.packed()
            &&& begun(p, sample).mode == mode::machine_tick(p.mode, mode_inputs(l))
        }),
{
}

/// A board without a sensor never loses one, and a loss is not cleared by passing through OFF.
pub proof fn lemma_loss_is_the_sensors(p: Pipeline, sample: Option<AttitudeSample>)
    ensures
        !p.imu_configured ==> !begun(p, sample).imu_health.loss,
        begun(p, sample).imu_health == health::health_step(
            p.imu_health,
            p.imu_configured,
            sample is Some,
        ),
{
}

/// A pass reaches its end in order: the answers to what it asks finish it, and leave what the
/// engagement machine answered.
pub proof fn lemma_pass_finishes(
    c: ControlPass,
    p: Pipeline,
    correction: i64,
    lean: i32,
    reference: i32,
    left: i32,
    right: i32,
    e: Engagement,
)
    ensures
        c.stage == DispatchStage::SpeedLoop ==> ({
            let a = advanced(c, p, ControlReply::Correction(correction));
            let b = advanced(a.0, a.1, ControlReply::Lean(lean));
            let d = advanced(b.0, b.1, ControlReply::Smoothed(reference));
            let f = advanced(d.0, d.1, ControlReply::Engaged(e));
            &&& f.0.stage == DispatchStage::Finished
            &&& f.1.ctl.engagement == e
        }),
        c.stage == DispatchStage::Condition ==> ({
            let a = advanced(c, p, ControlReply::References { left, right });
            let f = advanced(a.0, a.1, ControlReply::Engaged(e));
            &&& a.0.stage == DispatchStage::Engage {
                reference: if p.block.role_right {
                    right
                } else {
                    left
                },
            }
            &&& f.0.stage == DispatchStage::Finished
            &&& f.1.ctl.engagement == e
        }),
{
}

// ---- what a pass is for ----

/// The words of the control laws, one by one. The speed loop gets the pitch and the wheel speeds of
/// both boards, the shaper the rolls of both, the regulator what the two have answered, the rate and
/// the live gains, and the engagement machine the reference.
pub proof fn lemma_balance_words(p: Pipeline, run: bool, correction: i64, lean: i32)
    ensures
        dispatch::request_of(situation(p, run), DispatchStage::SpeedLoop) matches
            ControlRequest::SpeedLoop(w) && {
            &&& w.blend_input == p.pitch_deg * 0x1_0000
            &&& w.trim == p.block.trim
            &&& w.s1 == p.block.wheel_speed@[0]
            &&& w.wheel_a == p.block.wheel_speed@[0]
            &&& p.inbox.peer matches Some(c) ==> w.s2 == c.wheel_speed && w.wheel_b == c.wheel_speed
            &&& p.inbox.peer is None ==> w.s2 == 0 && w.wheel_b == 0
            &&& w.run_active <==> run && p.ctl.engagement.sub_state == SubState::Run
            &&& !w.gate
            &&& w.window == 0
            &&& w.dir_step == 0
            &&& w.dir_out_pos == 0
            &&& w.dir_out_neg == 0
        },
        dispatch::request_of(situation(p, run), DispatchStage::Shape { correction }) matches
            ControlRequest::Shape(w) && {
            &&& w.roll_a == p.block.roll_word
            &&& p.inbox.peer matches Some(c) ==> w.roll_b == c.roll
            &&& p.inbox.peer is None ==> w.roll_b == p.block.roll_word
            &&& w.role_right == p.block.role_right
            &&& p.inbox.drive is Some && p.inbox.drive->0.kind is Throttle && p.inbox.drive_age <= 50
                ==> w.steer == p.inbox.drive->0.steer
            &&& p.inbox.drive is None || p.inbox.drive->0.kind is Neutral || p.inbox.drive_age > 50
                ==> w.steer == 0
        },
        dispatch::request_of(
            situation(p, run),
            DispatchStage::Regulate { correction, lean },
        ) matches ControlRequest::Regulate(w) && {
            &&& w.pp == correction
            &&& w.off == lean
            &&& w.bv == p.block.pitch_rate
            &&& w.bk == p.ctl.engagement.gains.bk
            &&& w.kp == p.ctl.engagement.gains.kp
            &&& w.pr == p.ctl.engagement.gains.pr
            &&& w.kd == p.block.kd
            &&& p.inbox.peer matches Some(c) ==> bytes::pattern16(w.scale as int) == c.battery
            &&& p.inbox.peer is None ==> w.scale == p.block.battery
        },
{
}

/// The words of the throttle conditioner: the latest drive command while it is a live one and no
/// older than its timeout, neutral otherwise.
pub proof fn lemma_throttle_words(p: Pipeline, run: bool)
    ensures
        dispatch::request_of(situation(p, run), DispatchStage::Condition) matches
            ControlRequest::Condition { speed, steer } && {
            &&& p.inbox.drive is Some && p.inbox.drive->0.kind is Throttle && p.inbox.drive_age <= 50
                ==> speed == p.inbox.drive->0.value && steer == p.inbox.drive->0.steer
            &&& p.inbox.drive is None || p.inbox.drive->0.kind is Neutral || p.inbox.drive_age > 50
                ==> speed == 0 && steer == 0
        },
{
}

/// The words of the engagement machine, one by one. The reference is the one that the pass has come
/// to; power is enabled in RUN alone; a latched fault or the peer's lockdown is an over-current, and
/// the lockdown a stop besides. A rider is one on the local pads, in the mirror or at the peer; in
/// throttle mode nobody has to be there, and nobody can step off.
pub proof fn lemma_engagement_words(p: Pipeline, run: bool, reference: i32)
    ensures
        dispatch::request_of(situation(p, run), DispatchStage::Engage { reference }) matches
            ControlRequest::Engage { inputs: w, rider } && {
            let lockdown = p.inbox.peer is Some && p.inbox.peer->0.flags >= 0x80;
            let silent = p.inbox.peer is Some && p.inbox.cyclic_age > 25;
            let balance = p.ctl.selection.mode == ControlMode::Balance;
            &&& rider <==> p.rider_present || (p.inbox.remote is Some && p.inbox.remote->0.rider % 2
                == 1) || (p.inbox.peer is Some && p.inbox.peer->0.flags % 2 == 1)
            &&& w.smoothed_ref == reference
            &&& w.power_enable == run
            &&& w.over_current == (p.latches[0].fault_latch != 0 || lockdown)
            &&& w.stop_byte == lockdown
            &&& w.comms_loss == silent
            &&& w.rider_present == (rider || !balance)
            &&& w.winddown_enables_clear == (balance && !rider)
            &&& balance ==> w.upright_ref == p.pitch_deg * 0x1_0000
            &&& !balance ==> w.upright_ref == 0
            &&& w.orientation_nz == p.block.orientation_nz
            &&& w.gating_field == p.block.gating_field
            &&& w.ref_9c == p.block.pitch_rate
            &&& w.ref_34 == p.block.wheel_speed@[0]
            &&& p.inbox.peer matches Some(c) ==> w.ref_36 == c.wheel_speed
            &&& p.inbox.peer is None ==> w.ref_36 == 0
            &&& w.pre_gate_clear
            &&& w.enable_bytes_clear
            &&& !w.stall
            &&& !w.tilt
            &&& !w.promote_condition
            &&& w.feedback_fb == 0
        },
{
}

/// A balance pass, from question to question: what one law answers is what a later one is asked
/// with, and what the engagement machine answers is the setpoint.
pub proof fn lemma_balance_pass(
    p: Pipeline,
    sample: Option<AttitudeSample>,
    correction: i64,
    lean: i32,
    reference: i32,
    e: Engagement,
)
    requires
        p.ctl.selection.mode == ControlMode::Balance,
    ensures
        ({
            let q = begun(p, sample);
            let c = pass_of(p, sample);
            let run = c.outcome.mode is Run;
            let s1 = advanced(c, q, ControlReply::Correction(correction));
            let s2 = advanced(s1.0, s1.1, ControlReply::Lean(lean));
            let s3 = advanced(s2.0, s2.1, ControlReply::Smoothed(reference));
            let s4 = advanced(s3.0, s3.1, ControlReply::Engaged(e));
            &&& dispatch::request_of(situation(q, run), c.stage) is SpeedLoop
            &&& dispatch::request_of(situation(s1.1, run), s1.0.stage) is Shape
            &&& dispatch::request_of(situation(s2.1, run), s2.0.stage) matches
                ControlRequest::Regulate(w) && w.pp == correction && w.off == lean
            &&& dispatch::request_of(situation(s3.1, run), s3.0.stage) matches
                ControlRequest::Engage { inputs, .. } && inputs.smoothed_ref == reference
            &&& dispatch::request_of(situation(s4.1, run), s4.0.stage) is Finished
            &&& s3.1 == q
            &&& s4.1.ctl.engagement.torque_setpoint == e.torque_setpoint
            &&& s4.1.ctl.engagement.sub_state == e.sub_state
            &&& s4.1.ctl.engagement.gains == e.gains
            &&& s4.1 == (Pipeline { ctl: s4.1.ctl, control_ticks: s4.1.control_ticks, ..q })
            &&& q.control_ticks < u32::MAX ==> s4.1.control_ticks == q.control_ticks + 1
            &&& q.control_ticks == u32::MAX ==> s4.1.control_ticks == 0
            &&& s4.0.outcome == c.outcome
        }),
{
}

/// A throttle pass: the engagement machine is asked with the reference of the side that the board is
/// on.
pub proof fn lemma_throttle_pass(
    p: Pipeline,
    sample: Option<AttitudeSample>,
    left: i32,
    right: i32,
    e: Engagement,
)
    requires
        p.ctl.selection.mode == ControlMode::Throttle,
    ensures
        ({
            let q = begun(p, sample);
            let c = pass_of(p, sample);
            let run = c.outcome.mode is Run;
            let s1 = advanced(c, q, ControlReply::References { left, right });
            let s2 = advanced(s1.0, s1.1, ControlReply::Engaged(e));
            &&& dispatch::request_of(situation(q, run), c.stage) is Condition
            &&& dispatch::request_of(situation(s1.1, run), s1.0.stage) matches
                ControlRequest::Engage { inputs, .. } && inputs.smoothed_ref == (
            if p.block.role_right {
                right
            } else {
                left
            })
            &&& dispatch::request_of(situation(s2.1, run), s2.0.stage) is Finished
            &&& s1.1 == q
            &&& s2.1.ctl.engagement == e
            &&& s2.1 == (Pipeline { ctl: s2.1.ctl, control_ticks: s2.1.control_ticks, ..q })
            &&& s2.1.ctl.selection == p.ctl.selection
            &&& s2.1.ctl.rest_gains == p.ctl.rest_gains
        }),
{
}

/// An answer to another question than the one that was asked changes nothing.
pub proof fn lemma_stray_answer(c: ControlPass, p: Pipeline, reply: ControlReply, run: bool)
    ensures
        ({
            let asked = dispatch::request_of(situation(p, run), c.stage);
            let fits = match asked {
                ControlRequest::SpeedLoop(_) => reply is Correction,
                ControlRequest::Shape(_) => reply is Lean,
                ControlRequest::Regulate(_) => reply is Smoothed,
                ControlRequest::Condition { .. } => reply is References,
                ControlRequest::Engage { .. } => reply is Engaged,
                ControlRequest::Finished => false,
            };
            &&& !fits ==> advanced(c, p, reply) == (c, p)
            &&& fits ==> advanced(c, p, reply).0.stage != c.stage
        }),
{
}

/// A pass with a sample takes it over: the angles, the rate about the pitch axis, and the block
/// words in centidegrees, rounded down and held within a word. Nothing else of the block changes.
pub proof fn lemma_sample_taken(p: Pipeline, s: AttitudeSample)
    ensures
        ({
            let q = begun(p, Some(s));
            &&& q.pitch_deg == s.pitch_deg
            &&& q.roll_deg == s.roll_deg
            &&& q.block.pitch_rate == s.gyro_raw@[1]
            &&& is_centi(q.block.pitch_word as int, s.pitch_deg as int)
            &&& is_centi(q.block.roll_word as int, s.roll_deg as int)
            &&& q.imu_live == p.imu_configured
            &&& q.block == (BlockWords {
                pitch_word: q.block.pitch_word,
                roll_word: q.block.roll_word,
                pitch_rate: q.block.pitch_rate,
                ..p.block
            })
        }),
{
    lemma_is_centi(s.pitch_deg as int);
    lemma_is_centi(s.roll_deg as int);
}

/// `c` is the angle `deg`, in degrees with 16 fractional bits, in whole centidegrees: it is no more
/// than the angle and less than one short of it, but for angles beyond a word.
pub open spec fn is_centi(c: int, deg: int) -> bool {
    &&& -0x8000 <= c <= 0x7FFF
    &&& -0x8000 < c ==> c * 0x1_0000 <= deg * 100
    &&& c < 0x7FFF ==> deg * 100 < (c + 1) * 0x1_0000
}

proof fn lemma_is_centi(deg: int)
    ensures
        is_centi(dispatch::centi(deg), deg),
{
}

/// What the peer is told after a pass with a sample is that sample: its pitch as pitch, its roll as
/// roll; the rest are the wheel speed of the first motor, the battery, the mode, and whether the
/// local pads have a rider.
pub proof fn lemma_peer_is_told_the_sample(p: Pipeline, s: AttitudeSample)
    ensures
        ({
            let q = begun(p, Some(s));
            let c = own_cyclic(q);
            &&& is_centi(c.pitch as int, s.pitch_deg as int)
            &&& is_centi(c.roll as int, s.roll_deg as int)
            &&& c.pitch == q.block.pitch_word
            &&& c.roll == q.block.roll_word
            &&& c.wheel_speed == p.block.wheel_speed@[0]
            &&& bytes::signed16(c.battery as int) == p.block.battery
            &&& c.mode == q.mode.mode.byte()
            &&& c.fault == 0
            &&& c.flags == 1 <==> p.rider_present
            &&& c.flags == 0 <==> !p.rider_present
        }),
{
    lemma_sample_taken(p, s);
    bytes::lemma_word_round_trip(p.block.battery);
}

/// The latches of a pass. Each motor's own latch is run, on its own wheel and its own inputs: live
/// in RUN alone, where an over-current code or an external trip fires it at once and the code is
/// consumed; outside RUN it is as it was, until a pass lands in OFF.
pub proof fn lemma_latches_run(p: Pipeline, sample: Option<AttitudeSample>, i: int)
    requires
        p.latches.len() == N_MOTORS,
        0 <= i < N_MOTORS,
    ensures
        ({
            let q = begun(p, sample);
            let was = p.latches[i];
            let is = q.latches[i];
            &&& q.latches.len() == N_MOTORS
            &&& p.mode.mode is Run ==> {
                &&& is.running_enable == 1
                &&& is.b_motion == p.block.wheel_speed@[i]
                &&& is.a_substate == p.ctl.engagement.sub_state.byte()
                &&& is.ext_trip == was.ext_trip
                &&& is.fault_code == 0
                &&& was.fault_code == 0x11 || was.ext_trip != 0 || was.fault_latch != 0
                    ==> is.fault_latch != 0
                &&& is.fault_latch != 0 ==> was.fault_code == 0x11 || was.ext_trip != 0
                    || was.fault_latch != 0 || is.fault_counter >= fault::LATCH_THRESHOLD
                &&& is.fault_counter == 0 || is.fault_counter == was.fault_counter + 1
                    || is.fault_counter == fault::LATCH_THRESHOLD
            }
            &&& !(p.mode.mode is Run) && !(q.mode.mode is Off) ==> {
                &&& is.running_enable == 0
                &&& is.fault_latch == was.fault_latch
                &&& is.fault_code == was.fault_code
                &&& is.fault_counter == was.fault_counter
                &&& is.ext_trip == was.ext_trip
            }
        }),
{
}

/// One motor's latch does not depend on the other's: passes that agree on the motor, its wheel, the
/// mode and the engagement leave it the same latch.
pub proof fn lemma_latches_apart(
    p: Pipeline,
    r: Pipeline,
    sample: Option<AttitudeSample>,
    other: Option<AttitudeSample>,
    i: int,
)
    requires
        p.latches.len() == N_MOTORS,
        r.latches.len() == N_MOTORS,
        0 <= i < N_MOTORS,
        p.mode.mode == r.mode.mode,
        p.ctl.engagement.sub_state == r.ctl.engagement.sub_state,
        p.block.wheel_speed@[i] == r.block.wheel_speed@[i],
        p.latches[i] == r.latches[i],
        begun(p, sample).mode.mode is Off == begun(r, other).mode.mode is Off,
    ensures
        begun(p, sample).latches[i] == begun(r, other).latches[i],
{
}

/// In RUN a pass goes on exactly while nothing is wrong: neither motor's latch is set after it, the
/// peer, if there is one, is not silent, nothing has asked for a stop, the sensor is not lost, and
/// the button or the mirror asks for power. Anything else ends in SHUTDOWN on this very pass.
pub proof fn lemma_run_goes_on(p: Pipeline, sample: Option<AttitudeSample>)
    requires
        p.latches.len() == N_MOTORS,
        p.mode.mode == Mode::Run,
    ensures
        ({
            let q = begun(p, sample);
            let well = {
                &&& q.latches[0].fault_latch == 0
                &&& q.latches[1].fault_latch == 0
                &&& q.inbox.peer is None || q.inbox.cyclic_age <= 25
                &&& !q.inbox.stop_all
                &&& !q.imu_health.loss
                &&& p.button_pressed || (p.inbox.remote is Some && p.inbox.remote->0.buttons % 2
                    == 1)
            };
            &&& q.mode.mode == Mode::Run <==> well
            &&& q.mode.mode == Mode::Shutdown <==> !well
            &&& pass_of(p, sample).outcome.mode == q.mode.mode
            &&& q.mode.gates == p.mode.gates
        }),
{
}

/// A fault of either motor in RUN shuts down: an over-current code or an external trip of any motor
/// ends the run on the same pass, and the pass after that is in OFF with every gate clear.
pub proof fn lemma_motor_fault_shuts_down(
    p: Pipeline,
    sample: Option<AttitudeSample>,
    after: Option<AttitudeSample>,
    i: int,
)
    requires
        p.latches.len() == N_MOTORS,
        p.mode.gates.len() == N_MOTORS,
        p.mode.mode == Mode::Run,
        0 <= i < N_MOTORS,
        p.latches[i].fault_code == 0x11 || p.latches[i].ext_trip != 0 || p.latches[i].fault_latch
            != 0,
    ensures
        begun(p, sample).mode.mode == Mode::Shutdown,
        ({
            let q = begun(begun(p, sample), after);
            &&& q.mode.mode == Mode::Off
            &&& !q.mode.gates[0]
            &&& !q.mode.gates[1]
            &&& !q.mode.power_request
            &&& q.latches[0].fault_latch == 0
            &&& q.latches[1].fault_latch == 0
        }),
{
    lemma_latches_run(p, sample, i);
    lemma_run_goes_on(p, sample);
}

/// OFF is left exactly when power is asked for and nothing is wrong. The other modes take their one
/// pass: INIT opens every gate and is told to bring up, READY goes to RUN, SHUTDOWN clears every
/// gate and is told to make safe.
pub proof fn lemma_other_modes(p: Pipeline, sample: Option<AttitudeSample>)
    requires
        p.latches.len() == N_MOTORS,
        p.mode.gates.len() == N_MOTORS,
    ensures
        ({
            let q = begun(p, sample);
            let c = pass_of(p, sample);
            let well = {
                &&& p.latches[0].fault_latch == 0
                &&& p.latches[1].fault_latch == 0
                &&& q.inbox.peer is None || q.inbox.cyclic_age <= 25
                &&& !p.inbox.stop_all
                &&& !q.imu_health.loss
                &&& p.button_pressed || (p.inbox.remote is Some && p.inbox.remote->0.buttons % 2
                    == 1)
            };
            &&& c.outcome.mode == q.mode.mode
            &&& c.outcome.init is Some <==> p.mode.mode == Mode::Init
            &&& c.outcome.shutdown is Some <==> p.mode.mode == Mode::Shutdown
            &&& c.outcome.init matches Some(a) ==> a.run_bringup
            &&& c.outcome.shutdown matches Some(a) ==> a.run_safedown
            &&& p.mode.mode == Mode::Off ==> q.mode.mode == (if well {
                Mode::Init
            } else {
                Mode::Off
            })
            &&& p.mode.mode == Mode::Init ==> q.mode.mode == Mode::Ready && q.mode.gates[0]
                && q.mode.gates[1]
            &&& p.mode.mode == Mode::Ready ==> q.mode.mode == Mode::Run
            &&& p.mode.mode == Mode::Shutdown ==> q.mode.mode == Mode::Off && !q.mode.gates[0]
                && !q.mode.gates[1]
            &&& p.mode.mode == Mode::Off || p.mode.mode == Mode::Ready ==> q.mode.gates
                == p.mode.gates
            &&& p.mode.mode == Mode::Init && p.enact_inits < u32::MAX ==> q.enact_inits
                == p.enact_inits + 1
            &&& p.mode.mode != Mode::Init ==> q.enact_inits == p.enact_inits
            &&& p.mode.mode == Mode::Shutdown && p.enact_shutdowns < u32::MAX ==> q.enact_shutdowns
                == p.enact_shutdowns + 1
            &&& p.mode.mode != Mode::Shutdown ==> q.enact_shutdowns == p.enact_shutdowns
        }),
{
}

/// The levels of a pass, bit by bit: each is that of its own producer. The latch bits are the
/// motors' own.
pub proof fn lemma_levels_of_a_pass(p: Pipeline, sample: Option<AttitudeSample>)
    requires
        p.latches.len() == N_MOTORS,
    ensures
        ({
            let q = begun(p, sample);
            let levels = q.events.prev;
            let latched = if p.mode.mode == Mode::Run {
                q.latches
            } else {
                p.latches
            };
            let silent = q.inbox.peer is Some && q.inbox.cyclic_age > 25;
            &&& bytes::bit(levels, 0) == silent
            &&& bytes::bit(levels, 1) == p.inbox.stop_all
            &&& bytes::bit(levels, 2) == q.imu_health.loss
            &&& !bytes::bit(levels, 3)
            &&& bytes::bit(levels, 4) == (latched[0].fault_latch != 0)
            &&& bytes::bit(levels, 5) == (latched[1].fault_latch != 0)
            &&& bytes::bit(levels, 6) == p.ctl.selection.mode_fault
            &&& bytes::bit(levels, 7) == (p.button_pressed || (p.inbox.remote is Some
                && p.inbox.remote->0.buttons % 2 == 1))
            &&& pass_of(p, sample).comms_loss == silent
            &&& pass_of(p, sample).imu_loss == q.imu_health.loss
        }),
{
    events::lemma_packed(levels_of(supervised(sensed(p, sample))));
}

/// A pass ages what was received, by one tick, and leaves the words themselves, the inputs and the
/// counters of other tasks alone.
pub proof fn lemma_pass_ages(p: Pipeline, sample: Option<AttitudeSample>)
    ensures
        ({
            let q = begun(p, sample);
            &&& q.inbox.peer == p.inbox.peer
            &&& q.inbox.drive == p.inbox.drive
            &&& q.inbox.remote == p.inbox.remote
            &&& p.inbox.peer is Some && p.inbox.cyclic_age < u32::MAX ==> q.inbox.cyclic_age
                == p.inbox.cyclic_age + 1
            &&& p.inbox.peer is None ==> q.inbox.cyclic_age == p.inbox.cyclic_age
            &&& p.inbox.drive is Some && p.inbox.drive_age < u32::MAX ==> q.inbox.drive_age
                == p.inbox.drive_age + 1
            &&& p.inbox.drive is None ==> q.inbox.drive_age == p.inbox.drive_age
            &&& q.imu_configured == p.imu_configured
            &&& q.button == p.button
            &&& q.button_pressed == p.button_pressed
            &&& q.pads == p.pads
            &&& q.pad_field == p.pad_field
            &&& q.rider_present == p.rider_present
            &&& q.throttle == p.throttle
            &&& q.throttle_filtered == p.throttle_filtered
            &&& q.input_ticks == p.input_ticks
            &&& q.control_ticks == p.control_ticks
            &&& q.mode.mode == Mode::Shutdown || q.mode.mode == Mode::Run || q.mode.mode
                == Mode::Ready || q.mode.mode == Mode::Init ==> q.inbox.stop_all == p.inbox.stop_all
            &&& q.mode.mode == Mode::Off ==> !q.inbox.stop_all
        }),
{
}

// ---- what input passes are for ----

/// The state after a run of input passes, with nothing received between them.
pub open spec fn inputs_run(p: Pipeline, h: Seq<InputSample>) -> Pipeline
    decreases h.len(),
{
    if h.len() == 0 {
        p
    } else {
        input_passed(inputs_run(p, h.drop_last()), h.last())
    }
}

/// Every input pass with a remote word steps the filter once, with that word, whether it is the
/// first or not; a pass without one leaves it alone. The output is the whole part of the carry, 200
/// up. Nothing but the inputs is touched.
pub proof fn lemma_every_word_steps(p: Pipeline, s: InputSample)
    requires
        0 <= p.throttle.baseline <= throttle::SCALED_MAX * 0x1_0000_0000,
    ensures
        ({
            let q = input_passed(p, s);
            &&& p.inbox.remote matches Some(i) ==> {
                let word = throttle::scaled(bytes::pattern16(i.throttle as int) as u16);
                let goal = word * 0x1_0000_0000;
                &&& q.throttle.initialized
                &&& !p.throttle.initialized ==> q.throttle.baseline == goal && q.throttle_filtered
                    == word + 200
                &&& p.throttle.initialized ==> {
                    &&& p.throttle.baseline < goal - 3333 ==> p.throttle.baseline
                        < q.throttle.baseline <= goal
                    &&& goal - 3333 <= p.throttle.baseline <= goal ==> p.throttle.baseline
                        <= q.throttle.baseline <= goal
                    &&& p.throttle.baseline > goal ==> goal <= q.throttle.baseline
                        < p.throttle.baseline
                }
                &&& (q.throttle_filtered - 200) * 0x1_0000_0000 <= q.throttle.baseline
                &&& q.throttle.baseline < (q.throttle_filtered - 199) * 0x1_0000_0000
                &&& 0 <= q.throttle.baseline <= throttle::SCALED_MAX * 0x1_0000_0000
            }
            &&& p.inbox.remote is None ==> q.throttle == p.throttle && q.throttle_filtered
                == p.throttle_filtered
            &&& q.inbox == p.inbox
            &&& q.mode == p.mode
            &&& q.latches == p.latches
            &&& q.ctl == p.ctl
            &&& q.block == p.block
            &&& q.events == p.events
            &&& q.imu_health == p.imu_health
            &&& q.pitch_deg == p.pitch_deg
            &&& q.roll_deg == p.roll_deg
            &&& q.control_ticks == p.control_ticks
            &&& q.enact_inits == p.enact_inits
            &&& q.enact_shutdowns == p.enact_shutdowns
            &&& p.input_ticks < u32::MAX ==> q.input_ticks == p.input_ticks + 1
        }),
{
    if let Some(i) = p.inbox.remote {
        let raw = bytes::pattern16(i.throttle as int) as u16;
        throttle::lemma_scaled(raw, raw);
        if p.throttle.initialized {
            throttle::lemma_held_sample_pulls(p.throttle, raw);
        } else {
            throttle::lemma_first_sample(p.throttle, raw);
        }
    }
}

/// A held remote word is followed: over a run of input passes the carry climbs, or falls, by at
/// least one step a pass until it is at the word, to within a millionth of a unit, and stays there.
pub proof fn lemma_held_word_is_followed(p: Pipeline, h: Seq<InputSample>)
    requires
        0 <= p.throttle.baseline <= throttle::SCALED_MAX * 0x1_0000_0000,
        p.throttle.initialized,
        p.inbox.remote is Some,
    ensures
        ({
            let q = inputs_run(p, h);
            let word = throttle::scaled(
                bytes::pattern16(p.inbox.remote->0.throttle as int) as u16,
            );
            let goal = word * 0x1_0000_0000;
            let start = p.throttle.baseline;
            &&& q.throttle.initialized
            &&& q.inbox == p.inbox
            &&& 0 <= q.throttle.baseline <= throttle::SCALED_MAX * 0x1_0000_0000
            &&& start <= goal ==> vstd::math::min(start + h.len(), goal - 3333)
                <= q.throttle.baseline <= goal
            &&& start >= goal ==> goal <= q.throttle.baseline <= vstd::math::max(
                start - h.len(),
                goal,
            )
            &&& h.len() > 0 ==> (q.throttle_filtered - 200) * 0x1_0000_0000 <= q.throttle.baseline
                < (q.throttle_filtered - 199) * 0x1_0000_0000
        }),
    decreases h.len(),
{
    let raw = bytes::pattern16(p.inbox.remote->0.throttle as int) as u16;
    throttle::lemma_scaled(raw, raw);
    if h.len() > 0 {
        lemma_held_word_is_followed(p, h.drop_last());
        lemma_every_word_steps(inputs_run(p, h.drop_last()), h.last());
    }
}

/// The buttons and the pads over a run of input passes: the power button is pressed exactly when
/// its line was asserted on the last two; a pad is on exactly when it was high on one of the last
/// two, each pad on its own; and there is a rider exactly when both are.
pub proof fn lemma_inputs_debounced(p: Pipeline, h: Seq<InputSample>)
    requires
        p.button.count == 1,
        p.button.lines.len() >= 1,
        p.button.lines[0] == debounce::idle_line(),
        p.pads == (pad::fresh_pad(), pad::fresh_pad()),
        h.len() >= 1,
    ensures
        ({
            let q = inputs_run(p, h);
            let n = h.len();
            let a = h[n - 1].pad_a_high || (n >= 2 && h[n - 2].pad_a_high);
            let b = h[n - 1].pad_b_high || (n >= 2 && h[n - 2].pad_b_high);
            &&& q.button_pressed <==> n >= 2 && h[n - 1].button_asserted && h[n
                - 2].button_asserted
            &&& q.rider_present <==> a && b
            &&& q.pad_field == (if a {
                1int
            } else {
                0
            }) + (if b {
                2int
            } else {
                0
            })
            &&& p.input_ticks + n <= u32::MAX ==> q.input_ticks == p.input_ticks + n
        }),
{
    lemma_lines_follow(p, h);
    let presses = h.map_values(|s: InputSample| s.button_asserted);
    let feet_a = h.map_values(|s: InputSample| s.pad_a_high);
    let feet_b = h.map_values(|s: InputSample| s.pad_b_high);
    debounce::lemma_two_to_press_one_to_release(presses);
    pad::lemma_one_to_engage_two_to_release(feet_a);
    pad::lemma_one_to_engage_two_to_release(feet_b);
}

proof fn lemma_lines_follow(p: Pipeline, h: Seq<InputSample>)
    requires
        p.button.count == 1,
        p.button.lines.len() >= 1,
        p.button.lines[0] == debounce::idle_line(),
        p.pads == (pad::fresh_pad(), pad::fresh_pad()),
    ensures
        ({
            let q = inputs_run(p, h);
            &&& q.button.count == 1
            &&& q.button.lines.len() == p.button.lines.len()
            &&& q.button.lines[0] == debounce::line_run(
                h.map_values(|s: InputSample| s.button_asserted),
            )
            &&& q.pads.0 == pad::pad_run(h.map_values(|s: InputSample| s.pad_a_high))
            &&& q.pads.1 == pad::pad_run(h.map_values(|s: InputSample| s.pad_b_high))
            &&& p.input_ticks + h.len() <= u32::MAX ==> q.input_ticks == p.input_ticks + h.len()
        }),
    decreases h.len(),
{
    if h.len() > 0 {
        let f = |s: InputSample| s.button_asserted;
        let a = |s: InputSample| s.pad_a_high;
        let b = |s: InputSample| s.pad_b_high;
        lemma_lines_follow(p, h.drop_last());
        assert(h.map_values(f).drop_last() =~= h.drop_last().map_values(f));
        assert(h.map_values(a).drop_last() =~= h.drop_last().map_values(a));
        assert(h.map_values(b).drop_last() =~= h.drop_last().map_values(b));
        assert((0u8 >> 0u8) & 1 == 0) by (bit_vector);
        assert((1u8 >> 0u8) & 1 == 1) by (bit_vector);
    }
}

/// The bits of a snapshot: bit `i` says whether motor `i` may be active.
pub proof fn lemma_gate_bits(m: Machine)
    requires
        m.gates.len() == N_MOTORS,
    ensures
        gate_bits(m) as int == (if m.gates[0] { 1int } else { 0 }) + if m.gates[1] { 2int } else { 0 },
{
}

/// The power request is the button's or the mirror's, and either is enough.
pub proof fn lemma_power_request(p: Pipeline)
    ensures
        p.button_pressed ==> p.power_request(),
        p.inbox.remote is Some && p.inbox.remote->0.buttons % 2 == 1 ==> p.power_request(),
        p.power_request() ==> p.button_pressed || (p.inbox.remote is Some
            && p.inbox.remote->0.buttons % 2 == 1),
{
}

} // verus!
