//! The control dispatch: what the control laws are asked, in what order, and with what words.
//!
//! The laws themselves (speed loop, pitch shaper, balance regulator, throttle conditioner,
//! engagement machine) are the control layer's. A pass asks them one after the other and takes
//! their answers: balance goes speed loop, shaper, regulator, engagement; throttle goes conditioner,
//! engagement. The engagement machine is the only writer of the torque setpoint.
//!
//! Angles are degrees in Q16.16, and other fractions are Q32.32 numbers; both are carried by their
//! bits.

use crate::bytes;
use crate::linkctl::DriveKind;
use crate::orchestrator::inbox::{Inbox, LinkInbox};
use vstd::prelude::*;

verus! {

/// The number of motors: one gate and one fault latch each. A board with one motor never enacts
/// the second.
pub const N_MOTORS: usize = 2;

/// The axis of the pitch rate: rotation about Y.
pub const PITCH_RATE_AXIS: usize = 1;

/// The battery word of a board that measures none, in centivolts: the nominal pack, above the
/// regulator's knee. It must not be 0, the regulator divides by it.
pub const BATTERY_PLACEHOLDER_CENTIVOLT: i16 = 3600;

/// Which law drives the motors.
#[derive(Clone, Copy, Debug, PartialEq, Eq, Structural)]
pub enum ControlMode {
    Throttle,
    Balance,
}

impl ControlMode {
    /// The mode byte.
    pub open spec fn byte(self) -> u8 {
        match self {
            ControlMode::Throttle => 0,
            ControlMode::Balance => 1,
        }
    }

    /// The mode byte.
    pub fn as_byte(self) -> (b: u8)
        ensures
            b == self.byte(),
    {
        match self {
            ControlMode::Throttle => 0,
            ControlMode::Balance => 1,
        }
    }

    /// The mode of a mode byte, if it names one.
    pub open spec fn of_byte(b: u8) -> Option<ControlMode> {
        if b == 0 {
            Some(ControlMode::Throttle)
        } else if b == 1 {
            Some(ControlMode::Balance)
        } else {
            None
        }
    }

    /// The mode of a mode byte, if it names one.
    pub fn from_byte(b: u8) -> (m: Option<ControlMode>)
        ensures
            m == ControlMode::of_byte(b),
    {
        match b {
            0 => Some(ControlMode::Throttle),
            1 => Some(ControlMode::Balance),
            _ => None,
        }
    }
}

/// A mode comes back from its byte, and a byte that names a mode is that mode's byte.
pub proof fn lemma_mode_byte_round_trip(m: ControlMode, b: u8)
    ensures
        ControlMode::of_byte(m.byte()) == Some(m),
        ControlMode::of_byte(b) == Some(m) ==> m.byte() == b,
{
}

/// The mode in force, and whether the requested one was demoted.
#[derive(Clone, Copy, Debug, PartialEq, Eq, Structural)]
pub struct ModeSelection {
    pub mode: ControlMode,
    pub mode_fault: bool,
}

/// The selection for a requested mode: balance needs a sensor, and is demoted without one.
pub open spec fn selected(requested: ControlMode, imu_configured: bool) -> ModeSelection {
    if requested is Balance && !imu_configured {
        ModeSelection { mode: ControlMode::Throttle, mode_fault: true }
    } else {
        ModeSelection { mode: requested, mode_fault: false }
    }
}

impl ModeSelection {
    /// The selection for a requested mode.
    pub fn new(requested: ControlMode, imu_configured: bool) -> (s: Self)
        ensures
            s == selected(requested, imu_configured),
    {
        match requested {
            ControlMode::Balance => if imu_configured {
                ModeSelection { mode: ControlMode::Balance, mode_fault: false }
            } else {
                ModeSelection { mode: ControlMode::Throttle, mode_fault: true }
            },
            ControlMode::Throttle => ModeSelection {
                mode: ControlMode::Throttle,
                mode_fault: false,
            },
        }
    }
}

/// The sub-state of the engagement machine.
#[derive(Clone, Copy, Debug, PartialEq, Eq, Structural)]
pub enum SubState {
    Idle,
    Arming,
    WindDown,
    Run,
}

impl SubState {
    /// The sub-state byte.
    pub open spec fn byte(self) -> u8 {
        match self {
            SubState::Idle => 0,
            SubState::Arming => 1,
            SubState::WindDown => 2,
            SubState::Run => 3,
        }
    }

    /// The sub-state byte.
    pub fn as_byte(self) -> (b: u8)
        ensures
            b == self.byte(),
    {
        match self {
            SubState::Idle => 0,
            SubState::Arming => 1,
            SubState::WindDown => 2,
            SubState::Run => 3,
        }
    }
}

/// The live gains of the balance regulator.
#[derive(Clone, Copy, Debug, PartialEq, Eq, Structural)]
pub struct Gains {
    pub bk: i32,
    pub kp: i32,
    pub pr: i32,
}

/// What the engagement machine left: the setpoint, its sub-state, and the gains that the regulator
/// uses from the next pass on.
#[derive(Clone, Copy, Debug, PartialEq, Eq, Structural)]
pub struct Engagement {
    pub torque_setpoint: i16,
    pub sub_state: SubState,
    pub gains: Gains,
}

/// The engagement at rest, with the gains that the control layer gives it there.
pub open spec fn disengaged(gains: Gains) -> Engagement {
    Engagement { torque_setpoint: 0, sub_state: SubState::Idle, gains }
}

impl Engagement {
    /// The engagement at rest.
    pub fn at_rest(gains: Gains) -> (e: Self)
        ensures
            e == disengaged(gains),
    {
        Engagement { torque_setpoint: 0, sub_state: SubState::Idle, gains }
    }
}

/// The words of the control block.
#[derive(Clone, Copy, Debug, PartialEq, Eq)]
pub struct BlockWords {
    /// Pitch, centidegrees.
    pub pitch_word: i16,
    /// Roll, centidegrees.
    pub roll_word: i16,
    /// Gyro counts on [`PITCH_RATE_AXIS`].
    pub pitch_rate: i32,
    /// Wheel speed per motor.
    pub wheel_speed: [i16; N_MOTORS],
    /// Battery, centivolts.
    pub battery: i16,
    /// The engagement gate.
    pub gating_field: i16,
    /// The trim of the speed loop.
    pub trim: i16,
    /// The derivative gain of the regulator.
    pub kd: i64,
    /// The board is mounted the other way round.
    pub orientation_nz: bool,
    /// The board is the right one.
    pub role_right: bool,
}

impl BlockWords {
    /// The words at boot.
    pub fn new() -> (b: Self)
        ensures
            b.pitch_word == 0,
            b.roll_word == 0,
            b.pitch_rate == 0,
            b.wheel_speed@ == seq![0i16, 0i16],
            b.battery == BATTERY_PLACEHOLDER_CENTIVOLT,
            b.gating_field == 0,
            b.trim == 0,
            b.kd == 0,
            !b.orientation_nz,
            !b.role_right,
    {
        let b = BlockWords {
            pitch_word: 0,
            roll_word: 0,
            pitch_rate: 0,
            wheel_speed: [0;N_MOTORS],
            battery: BATTERY_PLACEHOLDER_CENTIVOLT,
            gating_field: 0,
            trim: 0,
            kd: 0,
            orientation_nz: false,
            role_right: false,
        };
        assert(b.wheel_speed@ =~= seq![0i16, 0i16]);
        b
    }
}

/// What the dispatch reads.
pub struct Situation {
    pub selection: ModeSelection,
    pub pitch_deg: i32,
    pub inbox: Inbox,
    pub block: BlockWords,
    pub engagement: Engagement,
    /// Both local pads are engaged.
    pub local_rider: bool,
    /// Motor 0's latch has fired.
    pub latched: bool,
    /// The mode machine is in RUN.
    pub run: bool,
}

/// The words for the speed loop.
#[derive(Clone, Copy, Debug, PartialEq, Eq, Structural)]
pub struct SpeedInputs {
    pub blend_input: i64,
    pub trim: i16,
    pub gate: bool,
    pub s1: i16,
    pub s2: i16,
    pub window: i16,
    pub wheel_a: i16,
    pub wheel_b: i16,
    pub dir_step: i64,
    pub dir_out_pos: i64,
    pub dir_out_neg: i64,
    pub run_active: bool,
}

/// The words for the pitch shaper.
#[derive(Clone, Copy, Debug, PartialEq, Eq, Structural)]
pub struct ShapingInputs {
    pub roll_a: i16,
    pub roll_b: i16,
    pub steer: i16,
    pub role_right: bool,
}

/// The words for the balance regulator.
#[derive(Clone, Copy, Debug, PartialEq, Eq, Structural)]
pub struct PidInputs {
    pub bv: i32,
    pub bk: i32,
    pub pp: i64,
    pub kp: i32,
    pub pr: i32,
    pub kd: i64,
    pub off: i32,
    pub scale: i16,
}

/// The words for the engagement machine.
#[derive(Clone, Copy, Debug, PartialEq, Eq, Structural)]
pub struct FsmInputs {
    pub orientation_nz: bool,
    pub upright_ref: i64,
    pub pre_gate_clear: bool,
    pub smoothed_ref: i32,
    pub gating_field: i16,
    pub rider_present: bool,
    pub over_current: bool,
    pub stall: bool,
    pub comms_loss: bool,
    pub tilt: bool,
    pub enable_bytes_clear: bool,
    pub power_enable: bool,
    pub stop_byte: bool,
    pub winddown_enables_clear: bool,
    pub promote_condition: bool,
    pub ref_9c: i32,
    pub ref_34: i16,
    pub ref_36: i16,
    pub feedback_fb: i32,
}

/// The drive command in effect: the latest one while it is fresh and its words are live, neutral
/// otherwise.
pub open spec fn drive_in_effect(b: Inbox) -> (i16, i16) {
    if b.drive is Some && b.drive->0.kind is Throttle && !b.drive_stale() {
        (b.drive->0.value, b.drive->0.steer)
    } else {
        (0, 0)
    }
}

/// The rider level: the local pads, the input mirror, or the peer.
pub open spec fn rider(local: bool, b: Inbox) -> bool {
    local || b.remote_rider() || b.peer_rider()
}

/// The wheel speed of the peer; 0 without one.
pub open spec fn peer_wheel(b: Inbox) -> i16 {
    match b.peer {
        Some(p) => p.wheel_speed,
        None => 0,
    }
}

/// The scale word of the regulator: the peer's battery where there is a peer, else the local word.
pub open spec fn scale(b: Inbox, local: i16) -> int {
    match b.peer {
        Some(p) => bytes::signed16(p.battery as int),
        None => local as int,
    }
}

/// The speed loop's words. Gate, window and direction have no producer yet.
pub open spec fn speed_inputs(s: Situation) -> SpeedInputs {
    SpeedInputs {
        blend_input: (s.pitch_deg * 0x1_0000) as i64,
        trim: s.block.trim,
        gate: false,
        s1: s.block.wheel_speed@[0],
        s2: peer_wheel(s.inbox),
        window: 0,
        wheel_a: s.block.wheel_speed@[0],
        wheel_b: peer_wheel(s.inbox),
        dir_step: 0,
        dir_out_pos: 0,
        dir_out_neg: 0,
        run_active: s.run && s.engagement.sub_state is Run,
    }
}

/// The shaper's words. Without a peer, the local roll stands in for its mirror.
pub open spec fn shaping_inputs(s: Situation) -> ShapingInputs {
    ShapingInputs {
        roll_a: s.block.roll_word,
        roll_b: match s.inbox.peer {
            Some(p) => p.roll,
            None => s.block.roll_word,
        },
        steer: drive_in_effect(s.inbox).1,
        role_right: s.block.role_right,
    }
}

/// The regulator's words, with the speed loop's correction and the shaped lean.
pub open spec fn pid_inputs(s: Situation, correction: i64, lean: i32) -> PidInputs {
    PidInputs {
        bv: s.block.pitch_rate,
        bk: s.engagement.gains.bk,
        pp: correction,
        kp: s.engagement.gains.kp,
        pr: s.engagement.gains.pr,
        kd: s.block.kd,
        off: lean,
        scale: scale(s.inbox, s.block.battery) as i16,
    }
}

/// The engagement machine's words. In throttle mode the upright, rider and step-off gates are off.
/// A latched fault and the peer's lockdown stop at once. The bytes without a producer yet permit.
pub open spec fn fsm_inputs(s: Situation, reference: i32) -> FsmInputs {
    let balance = s.selection.mode is Balance;
    let r = rider(s.local_rider, s.inbox);
    FsmInputs {
        orientation_nz: s.block.orientation_nz,
        upright_ref: if balance {
            (s.pitch_deg * 0x1_0000) as i64
        } else {
            0
        },
        pre_gate_clear: true,
        smoothed_ref: reference,
        gating_field: s.block.gating_field,
        rider_present: !balance || r,
        over_current: s.latched || s.inbox.peer_lockdown(),
        stall: false,
        comms_loss: s.inbox.comms_loss(),
        tilt: false,
        enable_bytes_clear: true,
        power_enable: s.run,
        stop_byte: s.inbox.peer_lockdown(),
        winddown_enables_clear: balance && !r,
        promote_condition: false,
        ref_9c: s.block.pitch_rate,
        ref_34: s.block.wheel_speed@[0],
        ref_36: peer_wheel(s.inbox),
        feedback_fb: 0,
    }
}

/// What a pass asks of the control layer next.
#[derive(Clone, Copy, Debug, PartialEq, Eq, Structural)]
pub enum ControlRequest {
    /// Run the speed loop; answer with its correction.
    SpeedLoop(SpeedInputs),
    /// Shape the pitch target; answer with the lean.
    Shape(ShapingInputs),
    /// Run the balance regulator; answer with the smoothed reference.
    Regulate(PidInputs),
    /// Condition a throttle command; answer with the references.
    Condition {
        speed: i16,
        steer: i16,
    },
    /// Step the engagement machine with the profile of this rider level; answer with what it left.
    Engage {
        inputs: FsmInputs,
        rider: bool,
    },
    /// The pass is over.
    Finished,
}

/// An answer of the control layer.
#[derive(Clone, Copy, Debug, PartialEq, Eq, Structural)]
pub enum ControlReply {
    Correction(i64),
    Lean(i32),
    Smoothed(i32),
    References {
        left: i32,
        right: i32,
    },
    Engaged(Engagement),
}

/// How far a pass has come.
#[derive(Clone, Copy, Debug, PartialEq, Eq, Structural)]
pub enum DispatchStage {
    SpeedLoop,
    Shape {
        correction: i64,
    },
    Regulate {
        correction: i64,
        lean: i32,
    },
    Condition,
    Engage {
        reference: i32,
    },
    Finished,
}

/// The first stage of a pass.
pub open spec fn first_stage(mode: ControlMode) -> DispatchStage {
    match mode {
        ControlMode::Balance => DispatchStage::SpeedLoop,
        ControlMode::Throttle => DispatchStage::Condition,
    }
}

/// What a stage asks.
pub open spec fn request_of(s: Situation, stage: DispatchStage) -> ControlRequest {
    match stage {
        DispatchStage::SpeedLoop => ControlRequest::SpeedLoop(speed_inputs(s)),
        DispatchStage::Shape { correction } => ControlRequest::Shape(shaping_inputs(s)),
        DispatchStage::Regulate { correction, lean } => ControlRequest::Regulate(
            pid_inputs(s, correction, lean),
        ),
        DispatchStage::Condition => ControlRequest::Condition {
            speed: drive_in_effect(s.inbox).0,
            steer: drive_in_effect(s.inbox).1,
        },
        DispatchStage::Engage { reference } => ControlRequest::Engage {
            inputs: fsm_inputs(s, reference),
            rider: rider(s.local_rider, s.inbox),
        },
        DispatchStage::Finished => ControlRequest::Finished,
    }
}

/// The stage after an answer, and what the engagement machine left, if it answered. An answer to
/// another question changes nothing.
pub open spec fn answered(stage: DispatchStage, role_right: bool, reply: ControlReply) -> (
    DispatchStage,
    Option<Engagement>,
) {
    match (stage, reply) {
        (DispatchStage::SpeedLoop, ControlReply::Correction(correction)) => (
            DispatchStage::Shape { correction },
            None,
        ),
        (DispatchStage::Shape { correction }, ControlReply::Lean(lean)) => (
            DispatchStage::Regulate { correction, lean },
            None,
        ),
        (DispatchStage::Regulate { correction, lean }, ControlReply::Smoothed(reference)) => (
            DispatchStage::Engage { reference },
            None,
        ),
        (DispatchStage::Condition, ControlReply::References { left, right }) => (
            DispatchStage::Engage {
                reference: if role_right {
                    right
                } else {
                    left
                },
            },
            None,
        ),
        (DispatchStage::Engage { reference }, ControlReply::Engaged(e)) => (
            DispatchStage::Finished,
            Some(e),
        ),
        _ => (stage, None),
    }
}

impl DispatchStage {
    /// The first stage of a pass.
    pub fn first(mode: ControlMode) -> (s: Self)
        ensures
            s == first_stage(mode),
    {
        match mode {
            ControlMode::Balance => DispatchStage::SpeedLoop,
            ControlMode::Throttle => DispatchStage::Condition,
        }
    }

    /// Moves on with an answer.
    pub fn answer(&mut self, role_right: bool, reply: ControlReply) -> (e: Option<Engagement>)
        ensures
            (*final(self), e) == answered(*old(self), role_right, reply),
    {
        match (*self, reply) {
            (DispatchStage::SpeedLoop, ControlReply::Correction(correction)) => {
                *self = DispatchStage::Shape { correction };
                None
            },
            (DispatchStage::Shape { correction }, ControlReply::Lean(lean)) => {
                *self = DispatchStage::Regulate { correction, lean };
                None
            },
            (DispatchStage::Regulate { .. }, ControlReply::Smoothed(reference)) => {
                *self = DispatchStage::Engage { reference };
                None
            },
            (DispatchStage::Condition, ControlReply::References { left, right }) => {
                let reference: i32 = if role_right {
                    right
                } else {
                    left
                };
                *self = DispatchStage::Engage { reference };
                None
            },
            (DispatchStage::Engage { .. }, ControlReply::Engaged(e)) => {
                *self = DispatchStage::Finished;
                Some(e)
            },
            _ => None,
        }
    }
}

/// The drive command in effect.
pub fn effective_drive(inbox: &LinkInbox) -> (d: (i16, i16))
    ensures
        d == drive_in_effect(inbox@),
{
    match inbox.drive() {
        Some(d) => {
            let live = match d.kind {
                DriveKind::Throttle => true,
                DriveKind::Neutral => false,
            };
            if live && !inbox.drive_stale() {
                (d.value, d.steer)
            } else {
                (0, 0)
            }
        },
        None => (0, 0),
    }
}

/// The rider level.
pub fn rider_level(local: bool, inbox: &LinkInbox) -> (r: bool)
    ensures
        r == rider(local, inbox@),
{
    let peer = match inbox.peer() {
        Some(p) => p.rider_present(),
        None => false,
    };
    local || inbox.remote_rider_present() || peer
}

/// The wheel speed of the peer.
pub(crate) fn wheel_of_peer(inbox: &LinkInbox) -> (w: i16)
    ensures
        w == peer_wheel(inbox@),
{
    match inbox.peer() {
        Some(p) => p.wheel_speed,
        None => 0,
    }
}

/// The scale word of the regulator.
pub fn battery_scale(inbox: &LinkInbox, local: i16) -> (w: i16)
    ensures
        w == scale(inbox@, local),
{
    match inbox.peer() {
        Some(p) => bytes::signed(p.battery),
        None => local,
    }
}

/// Degrees to centidegrees, rounded down and saturating.
pub open spec fn centi(deg: int) -> int {
    let c = (deg * 100) / 0x1_0000;
    if c < i16::MIN {
        i16::MIN as int
    } else if c > i16::MAX {
        i16::MAX as int
    } else {
        c
    }
}

/// Degrees to centidegrees, rounded down and saturating.
pub fn out_to_centi(deg: i32) -> (c: i16)
    ensures
        c == centi(deg as int),
{
    let c: i64 = floor16(deg as i64 * 100);
    if c < i16::MIN as i64 {
        i16::MIN
    } else if c > i16::MAX as i64 {
        i16::MAX
    } else {
        c as i16
    }
}

/// Degrees to millidegrees, rounded down. The scaled angle would not fit Q16.16 beyond 32 degrees,
/// so it is scaled in 64 bits.
pub fn out_to_milli(deg: i32) -> (m: i32)
    ensures
        m == (deg * 1000) / 0x1_0000,
{
    floor16(deg as i64 * 1000) as i32
}

/// The whole part of a number with 16 fractional bits, rounded down.
fn floor16(x: i64) -> (q: i64)
    ensures
        q == x as int / 0x1_0000,
{
    assert(x >> 16 == x / 0x1_0000) by (bit_vector);
    x >> 16
}

/// Degrees in Q16.16 widened to Q32.32.
pub fn fix_from_out(deg: i32) -> (q: i64)
    ensures
        q == deg * 0x1_0000,
{
    deg as i64 * 0x1_0000
}

/// The mode in force: balance where it is asked for and there is a sensor, throttle otherwise; it
/// counts as demoted exactly where balance was asked for in vain.
pub proof fn lemma_selected(requested: ControlMode, imu_configured: bool)
    ensures
        ({
            let s = selected(requested, imu_configured);
            &&& s.mode == ControlMode::Balance <==> requested == ControlMode::Balance
                && imu_configured
            &&& s.mode_fault <==> requested == ControlMode::Balance && !imu_configured
        }),
{
}

/// At rest nothing is driven: no torque, idle, and the gains that belong to it.
pub proof fn lemma_at_rest(gains: Gains)
    ensures
        disengaged(gains).torque_setpoint == 0,
        disengaged(gains).sub_state == SubState::Idle,
        disengaged(gains).gains == gains,
{
}

/// The sub-state and mode bytes are all different.
pub proof fn lemma_control_bytes(s: SubState, m: ControlMode)
    ensures
        s.byte() == 0 <==> s == SubState::Idle,
        s.byte() == 1 <==> s == SubState::Arming,
        s.byte() == 2 <==> s == SubState::WindDown,
        s.byte() == 3 <==> s == SubState::Run,
        m.byte() == 0 <==> m == ControlMode::Throttle,
        m.byte() == 1 <==> m == ControlMode::Balance,
{
}

/// The drive in effect is the command itself while it is live and fresh, and neutral otherwise; the
/// first word is the speed, the second the steer.
pub proof fn lemma_drive_in_effect(b: Inbox)
    ensures
        b.drive is Some && b.drive->0.kind is Throttle && b.drive_age <= 50 ==> drive_in_effect(b).0
            == b.drive->0.value && drive_in_effect(b).1 == b.drive->0.steer,
        b.drive is None || b.drive->0.kind is Neutral || b.drive_age > 50 ==> drive_in_effect(b)
            == (0i16, 0i16),
{
}

/// Every source of a rider counts: the local pads, the mirror, the peer. Without any there is none.
pub proof fn lemma_rider(local: bool, b: Inbox)
    ensures
        local ==> rider(local, b),
        b.remote is Some && b.remote->0.rider % 2 == 1 ==> rider(local, b),
        b.peer is Some && b.peer->0.flags % 2 == 1 ==> rider(local, b),
        !local && (b.remote is None || b.remote->0.rider % 2 == 0) && (b.peer is None
            || b.peer->0.flags % 2 == 0) ==> !rider(local, b),
{
}

/// What is asked in turn: balance goes speed loop, shaper, regulator, engagement; throttle goes
/// conditioner, engagement; then a pass is over. Each answer is kept until it is used.
pub proof fn lemma_stages_in_turn(
    role_right: bool,
    correction: i64,
    lean: i32,
    reference: i32,
    left: i32,
    right: i32,
    e: Engagement,
)
    ensures
        first_stage(ControlMode::Balance) == DispatchStage::SpeedLoop,
        first_stage(ControlMode::Throttle) == DispatchStage::Condition,
        answered(DispatchStage::SpeedLoop, role_right, ControlReply::Correction(correction)) == (
            (DispatchStage::Shape { correction }),
            None::<Engagement>,
        ),
        answered((DispatchStage::Shape { correction }), role_right, ControlReply::Lean(lean)) == (
            (DispatchStage::Regulate { correction, lean }),
            None::<Engagement>,
        ),
        answered(
            (DispatchStage::Regulate { correction, lean }),
            role_right,
            ControlReply::Smoothed(reference),
        ) == ((DispatchStage::Engage { reference }), None::<Engagement>),
        answered(DispatchStage::Condition, false, (ControlReply::References { left, right })) == (
            (DispatchStage::Engage { reference: left }),
            None::<Engagement>,
        ),
        answered(DispatchStage::Condition, true, (ControlReply::References { left, right })) == (
            (DispatchStage::Engage { reference: right }),
            None::<Engagement>,
        ),
        answered((DispatchStage::Engage { reference }), role_right, ControlReply::Engaged(e)) == (
            DispatchStage::Finished,
            Some(e),
        ),
{
}

} // verus!
