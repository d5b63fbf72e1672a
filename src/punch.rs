//! Decisions of the hole-punch handshake, as a state machine.
//!
//! The caller performs each step that `step` names and reports, after a
//! receive, the length of the datagram that arrived (or `None` on a timeout)
//! to `advance`. Both peers run the same machine.
use vstd::prelude::*;

verus! {

/// Punch attempts start on multiples of this many wall-clock milliseconds.
pub const PUNCH_SLOT_MS: u64 = 500;

/// Probes that the burst strategy sends.
pub const BURST_PROBES: u32 = 40;

/// Time that each burst probe takes, sending included.
pub const PROBE_INTERVAL_MS: u64 = 50;

#[derive(Clone, Copy, Debug, PartialEq, Eq, Structural)]
pub enum PunchStrategy {
    /// A burst of probes on a shared slot boundary, then confirmations.
    Burst,
    /// One probe per slot, answered in lock step.
    Timed,
}

/// The switches that alter the core's behaviour, read once by the caller.
#[derive(Clone, Copy, Debug, PartialEq, Eq, Structural)]
pub struct Config {
    pub punch_strategy: PunchStrategy,
    /// Leave out the advisory lines on lost packets.
    pub hide_drops: bool,
    /// The sender keeps streaming past the end of its input.
    pub stream_mode: bool,
}

impl Config {
    pub fn from_switches(timed_punch: bool, hide_drops: bool, stream_mode: bool) -> (r: Config)
        ensures
            r.punch_strategy == (if timed_punch { PunchStrategy::Timed } else { PunchStrategy::Burst }),
            r.hide_drops == hide_drops,
            r.stream_mode == stream_mode,
    {
        let punch_strategy = if timed_punch {
            PunchStrategy::Timed
        } else {
            PunchStrategy::Burst
        };
        Config { punch_strategy, hide_drops, stream_mode }
    }
}

/// Milliseconds from `now` to the next slot boundary (a whole slot when `now`
/// lies on one).
pub fn until_slot(now: u64) -> (r: u64)
    ensures
        r == PUNCH_SLOT_MS - now % PUNCH_SLOT_MS,
        1 <= r <= PUNCH_SLOT_MS,
        (now + r) % PUNCH_SLOT_MS as int == 0,
{
    let r = PUNCH_SLOT_MS - now % PUNCH_SLOT_MS;
    assert((now + r) % 500 == 0) by (nonlinear_arith)
        requires
            r == 500 - now % 500,
    ;
    r
}

/// The rest of a probe's interval that began at `started`, at time `now`;
/// zero once it is over (or if the clock went back).
pub fn probe_pause(started: u64, now: u64) -> (r: u64)
    ensures
        r == (if started <= now && now - started < PROBE_INTERVAL_MS {
            PROBE_INTERVAL_MS - (now - started)
        } else {
            0
        }),
{
    if started <= now && now - started < PROBE_INTERVAL_MS {
        PROBE_INTERVAL_MS - (now - started)
    } else {
        0
    }
}

/// Where the handshake stands.
#[derive(Clone, Copy, Debug, PartialEq, Eq, Structural)]
pub enum PunchPhase {
    /// Burst: waiting for the slot boundary.
    AwaitSlot,
    /// Burst: this many probes sent.
    Probing(u32),
    /// Burst: reading away the peer's probes.
    DrainProbes,
    /// Burst: about to send the first confirmation.
    ConfirmFirst,
    /// Burst: about to send the second confirmation.
    ConfirmSecond,
    /// Burst: waiting for the peer's confirmation.
    AwaitConfirm,
    /// Burst: reading away further confirmations.
    DrainConfirms,
    /// Timed: waiting for the slot boundary.
    TimedSlot,
    /// Timed: about to send the slot's probe.
    TimedProbe,
    /// Timed: waiting for the peer's probe.
    TimedAwaitProbe,
    /// Timed: about to confirm.
    TimedConfirm,
    /// Timed: waiting for the peer's confirmation.
    TimedAwaitConfirm,
    /// The path is open.
    Done,
}

/// What the caller does next.
#[derive(Clone, Copy, Debug, PartialEq, Eq, Structural)]
pub enum PunchStep {
    /// Sleep this many milliseconds.
    Sleep(u64),
    /// Send a single zero byte, then sleep out `PROBE_INTERVAL_MS` from the
    /// step's start (see `probe_pause`). A failed send is ignored.
    Probe,
    /// Send a single zero byte. A failed send is ignored.
    Ping,
    /// Send two zero bytes. A failed send ends the handshake in failure.
    Confirm,
    /// Receive one datagram of at most two bytes, and report its length.
    Receive,
    /// Nothing: the handshake is over.
    Finish,
}

pub open spec fn punch_step(phase: PunchPhase, now: u64) -> PunchStep {
    match phase {
        PunchPhase::AwaitSlot | PunchPhase::TimedSlot => PunchStep::Sleep(
            (PUNCH_SLOT_MS - now % PUNCH_SLOT_MS) as u64,
        ),
        PunchPhase::Probing(_) => PunchStep::Probe,
        PunchPhase::TimedProbe => PunchStep::Ping,
        PunchPhase::ConfirmFirst | PunchPhase::ConfirmSecond | PunchPhase::TimedConfirm => PunchStep::Confirm,
        PunchPhase::Done => PunchStep::Finish,
        _ => PunchStep::Receive,
    }
}

/// The phase after the current step, given the length of what a receive got.
pub open spec fn punch_next(phase: PunchPhase, got: Option<usize>) -> PunchPhase {
    match phase {
        PunchPhase::AwaitSlot => PunchPhase::Probing(0),
        PunchPhase::Probing(i) => if i + 1 < BURST_PROBES {
            PunchPhase::Probing((i + 1) as u32)
        } else {
            PunchPhase::DrainProbes
        },
        PunchPhase::DrainProbes => if got == Some(1usize) {
            PunchPhase::DrainProbes
        } else {
            PunchPhase::ConfirmFirst
        },
        PunchPhase::ConfirmFirst => PunchPhase::ConfirmSecond,
        PunchPhase::ConfirmSecond => PunchPhase::AwaitConfirm,
        PunchPhase::AwaitConfirm => if got == Some(2usize) {
            PunchPhase::DrainConfirms
        } else {
            PunchPhase::AwaitConfirm
        },
        PunchPhase::DrainConfirms => if got == Some(2usize) {
            PunchPhase::DrainConfirms
        } else {
            PunchPhase::Done
        },
        PunchPhase::TimedSlot => PunchPhase::TimedProbe,
        PunchPhase::TimedProbe => PunchPhase::TimedAwaitProbe,
        PunchPhase::TimedAwaitProbe => if got == Some(1usize) {
            PunchPhase::TimedConfirm
        } else {
            PunchPhase::TimedSlot
        },
        PunchPhase::TimedConfirm => PunchPhase::TimedAwaitConfirm,
        PunchPhase::TimedAwaitConfirm => if got == Some(2usize) {
            PunchPhase::Done
        } else {
            PunchPhase::TimedSlot
        },
        PunchPhase::Done => PunchPhase::Done,
    }
}

/// The phase after `n` steps in which nothing is received.
pub open spec fn quiet_run(phase: PunchPhase, n: nat) -> PunchPhase
    decreases n,
{
    if n == 0 {
        phase
    } else {
        quiet_run(punch_next(phase, None), (n - 1) as nat)
    }
}

proof fn lemma_probing_run(i: nat, j: nat)
    requires
        i + j <= BURST_PROBES,
        i < BURST_PROBES,
    ensures
        quiet_run(PunchPhase::Probing(i as u32), j) == (if i + j < BURST_PROBES {
            PunchPhase::Probing((i + j) as u32)
        } else {
            PunchPhase::DrainProbes
        }),
    decreases j,
{
    if j > 0 {
        if i + 1 < BURST_PROBES {
            lemma_probing_run(i + 1, (j - 1) as nat);
        } else {
            assert(quiet_run(PunchPhase::DrainProbes, 0) == PunchPhase::DrainProbes);
        }
    }
}

/// After the slot boundary the burst strategy sends exactly `BURST_PROBES`
/// probes, one per step, and only then starts to listen.
pub proof fn lemma_burst_probe_count(k: nat)
    requires
        k <= BURST_PROBES,
    ensures
        quiet_run(PunchPhase::AwaitSlot, k + 1) == (if k < BURST_PROBES {
            PunchPhase::Probing(k as u32)
        } else {
            PunchPhase::DrainProbes
        }),
        k < BURST_PROBES ==> punch_step(quiet_run(PunchPhase::AwaitSlot, k + 1), 0) == PunchStep::Probe,
        punch_step(quiet_run(PunchPhase::AwaitSlot, (BURST_PROBES + 1) as nat), 0) == PunchStep::Receive,
{
    assert(quiet_run(PunchPhase::AwaitSlot, k + 1) == quiet_run(PunchPhase::Probing(0), k));
    lemma_probing_run(0, k);
    assert(quiet_run(PunchPhase::AwaitSlot, (BURST_PROBES + 1) as nat) == quiet_run(PunchPhase::Probing(0), BURST_PROBES as nat));
    lemma_probing_run(0, BURST_PROBES as nat);
}

/// The hole-punch handshake in progress.
pub struct Puncher {
    pub phase: PunchPhase,
}

impl Puncher {
    pub fn new(strategy: PunchStrategy) -> (r: Puncher)
        ensures
            r.phase == (match strategy {
                PunchStrategy::Burst => PunchPhase::AwaitSlot,
                PunchStrategy::Timed => PunchPhase::TimedSlot,
            }),
    {
        match strategy {
            PunchStrategy::Burst => Puncher { phase: PunchPhase::AwaitSlot },
            PunchStrategy::Timed => Puncher { phase: PunchPhase::TimedSlot },
        }
    }

    /// The step to perform at time `now`.
    pub fn step(&self, now: u64) -> (r: PunchStep)
        ensures
            r == punch_step(self.phase, now),
    {
        match self.phase {
            PunchPhase::AwaitSlot | PunchPhase::TimedSlot => PunchStep::Sleep(until_slot(now)),
            PunchPhase::Probing(_) => PunchStep::Probe,
            PunchPhase::TimedProbe => PunchStep::Ping,
            PunchPhase::ConfirmFirst | PunchPhase::ConfirmSecond | PunchPhase::TimedConfirm => PunchStep::Confirm,
            PunchPhase::Done => PunchStep::Finish,
            _ => PunchStep::Receive,
        }
    }

    /// Moves past the step just performed; `got` is what a receive got.
    pub fn advance(&mut self, got: Option<usize>)
        ensures
            final(self).phase == punch_next(old(self).phase, got),
    {
        let next = match self.phase {
            PunchPhase::AwaitSlot => PunchPhase::Probing(0),
            PunchPhase::Probing(i) => if i < BURST_PROBES - 1 {
                PunchPhase::Probing(i + 1)
            } else {
                PunchPhase::DrainProbes
            },
            PunchPhase::DrainProbes => if got == Some(1usize) {
                PunchPhase::DrainProbes
            } else {
                PunchPhase::ConfirmFirst
            },
            PunchPhase::ConfirmFirst => PunchPhase::ConfirmSecond,
            PunchPhase::ConfirmSecond => PunchPhase::AwaitConfirm,
            PunchPhase::AwaitConfirm => if got == Some(2usize) {
                PunchPhase::DrainConfirms
            } else {
                PunchPhase::AwaitConfirm
            },
            PunchPhase::DrainConfirms => if got == Some(2usize) {
                PunchPhase::DrainConfirms
            } else {
                PunchPhase::Done
            },
            PunchPhase::TimedSlot => PunchPhase::TimedProbe,
            PunchPhase::TimedProbe => PunchPhase::TimedAwaitProbe,
            PunchPhase::TimedAwaitProbe => if got == Some(1usize) {
                PunchPhase::TimedConfirm
            } else {
                PunchPhase::TimedSlot
            },
            PunchPhase::TimedConfirm => PunchPhase::TimedAwaitConfirm,
            PunchPhase::TimedAwaitConfirm => if got == Some(2usize) {
                PunchPhase::Done
            } else {
                PunchPhase::TimedSlot
            },
            PunchPhase::Done => PunchPhase::Done,
        };
        self.phase = next;
    }

    pub fn is_done(&self) -> (r: bool)
        ensures
            r == (self.phase == PunchPhase::Done),
    {
        match self.phase {
            PunchPhase::Done => true,
            _ => false,
        }
    }
}

} // verus!
