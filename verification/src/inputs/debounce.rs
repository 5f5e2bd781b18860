//! Discrete-line debounce.
//!
//! A press needs the line asserted on two consecutive calls; a release takes one. The pressed flag
//! is a level. Each line is active-low: the caller hands over `asserted`, the line reading logic 0.

use crate::bytes;
use vstd::prelude::*;

verus! {

/// The most lines that a bank holds: one bit each of the flags byte.
pub const MAX_LINES: usize = 8;

/// The debounce phase of one line.
#[derive(Clone, Copy, Debug, PartialEq, Eq, Structural)]
pub enum DebouncePhase {
    /// Released.
    Idle,
    /// Asserted once, not yet pressed.
    Candidate,
    /// Confirmed.
    Held,
}

impl Default for DebouncePhase {
    fn default() -> (p: Self)
        ensures
            p == DebouncePhase::Idle,
    {
        DebouncePhase::Idle
    }
}

/// The state of one line.
#[verifier::ext_equal]
pub struct Line {
    pub phase: DebouncePhase,
    pub pressed: bool,
}

/// A line that has seen nothing yet.
pub open spec fn idle_line() -> Line {
    Line { phase: DebouncePhase::Idle, pressed: false }
}

/// A line after one call.
pub open spec fn line_step(l: Line, asserted: bool) -> Line {
    match l.phase {
        DebouncePhase::Idle => if asserted {
            Line { phase: DebouncePhase::Candidate, ..l }
        } else {
            Line { pressed: false, ..l }
        },
        DebouncePhase::Candidate => if asserted {
            Line { phase: DebouncePhase::Held, pressed: true }
        } else {
            Line { phase: DebouncePhase::Idle, ..l }
        },
        DebouncePhase::Held => if asserted {
            l
        } else {
            idle_line()
        },
    }
}

/// One debounced line.
#[derive(Clone, Copy, Debug)]
pub struct DebounceLine {
    phase: DebouncePhase,
    stable_pressed: bool,
}

impl View for DebounceLine {
    type V = Line;

    closed spec fn view(&self) -> Line {
        Line { phase: self.phase, pressed: self.stable_pressed }
    }
}

impl DebounceLine {
    /// A fresh line: idle, not pressed.
    pub fn new() -> (l: Self)
        ensures
            l@ == idle_line(),
    {
        DebounceLine { phase: DebouncePhase::Idle, stable_pressed: false }
    }

    /// Advances the line one call and returns the pressed level.
    pub fn update(&mut self, asserted: bool) -> (b: bool)
        ensures
            final(self)@ == line_step(old(self)@, asserted),
            b == final(self)@.pressed,
    {
        match self.phase {
            DebouncePhase::Idle => {
                if asserted {
                    self.phase = DebouncePhase::Candidate;
                } else {
                    self.stable_pressed = false;
                }
            },
            DebouncePhase::Candidate => {
                if asserted {
                    self.stable_pressed = true;
                    self.phase = DebouncePhase::Held;
                } else {
                    self.phase = DebouncePhase::Idle;
                }
            },
            DebouncePhase::Held => {
                if !asserted {
                    self.phase = DebouncePhase::Idle;
                    self.stable_pressed = false;
                }
            },
        }
        self.stable_pressed
    }

    /// The pressed level.
    pub fn pressed(&self) -> (b: bool)
        ensures
            b == self@.pressed,
    {
        self.stable_pressed
    }

    /// The phase.
    pub fn phase(&self) -> (p: DebouncePhase)
        ensures
            p == self@.phase,
    {
        self.phase
    }
}

impl Default for DebounceLine {
    fn default() -> (l: Self)
        ensures
            l@ == idle_line(),
    {
        DebounceLine::new()
    }
}

/// The state of a bank: room for [`MAX_LINES`] lines, of which the first `count` are in use.
#[verifier::ext_equal]
pub struct Bank {
    pub lines: Seq<Line>,
    pub count: nat,
}

impl Bank {
    /// Line `i` is in use and pressed.
    pub open spec fn pressed(self, i: int) -> bool {
        0 <= i < self.count && self.lines[i].pressed
    }
}

/// The bank after one call: every line in use takes its bit, the others stay as they are.
pub open spec fn bank_step(b: Bank, asserted_bits: u8) -> Bank {
    Bank {
        lines: Seq::new(
            b.lines.len(),
            |i: int|
                if i < b.count {
                    line_step(b.lines[i], bytes::bit(asserted_bits, i))
                } else {
                    b.lines[i]
                },
        ),
        count: b.count,
    }
}

/// A bank of debounced lines.
#[derive(Clone, Copy, Debug)]
pub struct LineBank {
    lines: [DebounceLine; MAX_LINES],
    count: usize,
}

impl View for LineBank {
    type V = Bank;

    closed spec fn view(&self) -> Bank {
        Bank {
            lines: Seq::new(MAX_LINES as nat, |i: int| self.lines@[i]@),
            count: self.count as nat,
        }
    }
}

impl LineBank {
    /// No more lines are in use than there is room for.
    pub open spec fn wf(&self) -> bool {
        self@.count <= MAX_LINES && self@.lines.len() == MAX_LINES
    }

    /// A bank of `count` lines, at most [`MAX_LINES`], all idle.
    pub fn new(count: usize) -> (b: Self)
        ensures
            b.wf(),
            b@ == (Bank {
                lines: Seq::new(MAX_LINES as nat, |i: int| idle_line()),
                count: if count > MAX_LINES {
                    MAX_LINES as nat
                } else {
                    count as nat
                },
            }),
    {
        let count = if count > MAX_LINES {
            MAX_LINES
        } else {
            count
        };
        let b = LineBank { lines: [DebounceLine::new();MAX_LINES], count };
        assert(b@.lines =~= Seq::new(MAX_LINES as nat, |i: int| idle_line()));
        b
    }

    /// The number of lines in use.
    pub fn count(&self) -> (n: usize)
        ensures
            n == self@.count,
    {
        self.count
    }

    /// Advances every line in use one call. Bit `i` set means that line `i` is asserted; bits of
    /// lines that are not in use are ignored.
    pub fn update(&mut self, asserted_bits: u8)
        requires
            old(self).wf(),
        ensures
            final(self).wf(),
            final(self)@ == bank_step(old(self)@, asserted_bits),
    {
        let mut i: usize = 0;
        while i < self.count
            invariant
                old(self).wf(),
                self.count == old(self).count,
                i <= self.count <= MAX_LINES,
                forall|k: int|
                    0 <= k < i ==> (#[trigger] self.lines@[k])@ == line_step(
                        old(self).lines@[k]@,
                        bytes::bit(asserted_bits, k),
                    ),
                forall|k: int| i <= k < MAX_LINES ==> self.lines@[k] == old(self).lines@[k],
            decreases self.count - i,
        {
            let asserted = (asserted_bits >> (i as u8)) & 1 != 0;
            let mut line = self.lines[i];
            line.update(asserted);
            self.lines[i] = line;
            i += 1;
        }
        assert(self@ =~= bank_step(old(self)@, asserted_bits));
    }

    /// Line `i`. A line that is not in use is idle.
    pub fn line(&self, i: usize) -> (l: &DebounceLine)
        requires
            i < MAX_LINES,
        ensures
            l@ == self@.lines[i as int],
    {
        &self.lines[i]
    }

    /// Whether line `i` is pressed. A line that is not in use never is.
    pub fn pressed(&self, i: usize) -> (b: bool)
        requires
            self.wf(),
        ensures
            b == self@.pressed(i as int),
    {
        if i < self.count {
            self.lines[i].pressed()
        } else {
            false
        }
    }

    /// The flags byte: bit `i` set = line `i` idle, clear = pressed. The bit of a line that is not
    /// in use is set.
    pub fn flags_byte(&self) -> (b: u8)
        requires
            self.wf(),
        ensures
            forall|i: int| 0 <= i < 8 ==> #[trigger] bytes::bit(b, i) == !self@.pressed(i),
    {
        let mut b: u8 = 0;
        let mut i: u8 = 0;
        assert forall|k: int| 0 <= k < 8 implies !#[trigger] bytes::bit(0u8, k) by {
            let j = k as u8;
            assert((0u8 >> j) & 1 == 0) by (bit_vector)
                requires
                    j < 8,
            ;
        }
        while i < 8
            invariant
                self.wf(),
                i <= 8,
                forall|k: int| 0 <= k < i ==> #[trigger] bytes::bit(b, k) == !self@.pressed(k),
                forall|k: int| i <= k < 8 ==> !#[trigger] bytes::bit(b, k),
            decreases 8 - i,
        {
            let line: usize = i as usize;
            if !self.pressed(line) {
                let ghost before = b;
                b = b | (1u8 << i);
                assert forall|k: int| 0 <= k < 8 implies #[trigger] bytes::bit(b, k) == (k == i || bytes::bit(
                    before,
                    k,
                )) by {
                    let j = k as u8;
                    assert(((before | (1u8 << i)) >> j) & 1 != 0 <==> (j == i || (before >> j) & 1
                        != 0)) by (bit_vector)
                        requires
                            i < 8,
                            j < 8,
                    ;
                }
            }
            i += 1;
        }
        b
    }
}

/// A line after a history of samples, oldest first.
pub open spec fn line_run(h: Seq<bool>) -> Line
    decreases h.len(),
{
    if h.len() == 0 {
        idle_line()
    } else {
        line_step(line_run(h.drop_last()), h.last())
    }
}

/// Two calls to press, one to release: a line is pressed exactly when its last two samples were
/// both asserted, and it is held exactly then.
pub proof fn lemma_two_to_press_one_to_release(h: Seq<bool>)
    ensures
        line_run(h).pressed == (h.len() >= 2 && h[h.len() - 1] && h[h.len() - 2]),
        line_run(h).phase is Held == line_run(h).pressed,
        line_run(h).phase is Idle == (h.len() == 0 || !h.last()),
    decreases h.len(),
{
    if h.len() > 0 {
        lemma_two_to_press_one_to_release(h.drop_last());
    }
}

/// The lines of a bank go their own ways: what becomes of a line depends on its own bit alone, and
/// a line that is not in use stays as it is.
pub proof fn lemma_lines_apart(b: Bank, x: u8, y: u8, i: int)
    requires
        0 <= i < b.lines.len(),
    ensures
        bank_step(b, x).count == b.count,
        bank_step(b, x).lines.len() == b.lines.len(),
        i < b.count ==> bank_step(b, x).lines[i] == line_step(b.lines[i], bytes::bit(x, i)),
        i >= b.count ==> bank_step(b, x).lines[i] == b.lines[i],
        bytes::bit(x, i) == bytes::bit(y, i) ==> bank_step(b, x).lines[i] == bank_step(
            b,
            y,
        ).lines[i],
{
}

} // verus!
