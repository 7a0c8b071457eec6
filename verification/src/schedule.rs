//! The pacing of scan cycles: one cycle, a pause, and then either the next
//! cycle or the end.
//!
//! The scheduler only decides what comes next. Its caller carries each
//! directive out to the end before it asks for the next one, so that a cycle
//! never starts while the one before is still running.

use vstd::prelude::*;

verus! {

/// The pause between two cycles, in milliseconds, unless configured otherwise.
pub const DEFAULT_POLL_DELAY_MS: u64 = 2000;

/// What the caller is to do next.
#[derive(Clone, Copy, Debug, PartialEq, Eq, Structural)]
pub enum Directive {
    /// Run one scan cycle to its end.
    RunCycle,
    /// Pause for this many milliseconds.
    Sleep(u64),
    /// Stop: no further cycle is run.
    Stop,
}

/// Where the scheduler stands.
#[derive(Clone, Copy, Debug, PartialEq, Eq, Structural)]
pub enum Phase {
    /// No cycle has been asked for yet.
    Ready,
    /// A cycle has been asked for; the pause after it has not.
    Cycled,
    /// The pause after a cycle has been asked for.
    Slept,
    /// The end has been reached.
    Stopped,
}

/// The directive that is given in `phase`.
pub open spec fn directive_in(phase: Phase, repeat: bool, interval_ms: u64) -> Directive {
    match phase {
        Phase::Ready => Directive::RunCycle,
        Phase::Cycled => Directive::Sleep(interval_ms),
        Phase::Slept => if repeat {
            Directive::RunCycle
        } else {
            Directive::Stop
        },
        Phase::Stopped => Directive::Stop,
    }
}

/// The phase that follows `phase`.
pub open spec fn phase_after(phase: Phase, repeat: bool) -> Phase {
    match phase {
        Phase::Ready => Phase::Cycled,
        Phase::Cycled => Phase::Slept,
        Phase::Slept => if repeat {
            Phase::Cycled
        } else {
            Phase::Stopped
        },
        Phase::Stopped => Phase::Stopped,
    }
}

/// The phase that a new scheduler has reached after `steps` directives.
pub open spec fn phase_at(repeat: bool, steps: nat) -> Phase
    decreases steps,
{
    if steps == 0 {
        Phase::Ready
    } else {
        phase_after(phase_at(repeat, (steps - 1) as nat), repeat)
    }
}

/// The directive that a new scheduler gives after `steps` earlier ones.
pub open spec fn directive_at(repeat: bool, interval_ms: u64, steps: nat) -> Directive {
    directive_in(phase_at(repeat, steps), repeat, interval_ms)
}

/// The driver of repeated scan cycles.
pub struct Scheduler {
    repeat: bool,
    interval_ms: u64,
    phase: Phase,
}

impl Scheduler {
    /// Whether a further cycle follows each pause.
    pub closed spec fn repeat(&self) -> bool {
        self.repeat
    }

    /// The pause after each cycle, in milliseconds.
    pub closed spec fn interval_ms(&self) -> u64 {
        self.interval_ms
    }

    /// Where the scheduler stands.
    pub closed spec fn phase(&self) -> Phase {
        self.phase
    }

    /// A scheduler that has given no directive yet. With `repeat` it runs
    /// cycle after cycle without end; without, it runs exactly one.
    pub fn new(repeat: bool, interval_ms: u64) -> (scheduler: Scheduler)
        ensures
            scheduler.repeat() == repeat,
            scheduler.interval_ms() == interval_ms,
            scheduler.phase() == Phase::Ready,
    {
        Scheduler { repeat, interval_ms, phase: Phase::Ready }
    }

    /// The next directive. The first one asks for a cycle; after a cycle
    /// comes the pause; after the pause comes the next cycle if the scheduler
    /// repeats, and the end if it does not; after the end comes the end.
    pub fn next(&mut self) -> (directive: Directive)
        ensures
            directive == directive_in(old(self).phase(), old(self).repeat(), old(self).interval_ms()),
            final(self).phase() == phase_after(old(self).phase(), old(self).repeat()),
            final(self).repeat() == old(self).repeat(),
            final(self).interval_ms() == old(self).interval_ms(),
    {
        match self.phase {
            Phase::Ready => {
                self.phase = Phase::Cycled;
                Directive::RunCycle
            },
            Phase::Cycled => {
                self.phase = Phase::Slept;
                Directive::Sleep(self.interval_ms)
            },
            Phase::Slept => {
                if self.repeat {
                    self.phase = Phase::Cycled;
                    Directive::RunCycle
                } else {
                    self.phase = Phase::Stopped;
                    Directive::Stop
                }
            },
            Phase::Stopped => Directive::Stop,
        }
    }

    /// Tells whether the end has been reached.
    pub fn is_stopped(&self) -> (stopped: bool)
        ensures
            stopped == (self.phase() == Phase::Stopped),
    {
        match self.phase {
            Phase::Stopped => true,
            _ => false,
        }
    }
}

/// The whole schedule of a new scheduler. A repeating one alternates
/// without end between a cycle and a pause, starting with a cycle. One that
/// does not repeat gives one cycle, one pause, and from then on the end.
pub proof fn lemma_schedule(repeat: bool, interval_ms: u64, steps: nat)
    ensures
        directive_at(repeat, interval_ms, steps) == if steps % 2 == 0 && (repeat || steps == 0) {
            Directive::RunCycle
        } else if steps % 2 == 1 && (repeat || steps == 1) {
            Directive::Sleep(interval_ms)
        } else {
            Directive::Stop
        },
        phase_at(repeat, steps) == if steps == 0 {
            Phase::Ready
        } else if steps % 2 == 1 && (repeat || steps == 1) {
            Phase::Cycled
        } else if repeat || steps == 2 {
            Phase::Slept
        } else {
            Phase::Stopped
        },
    decreases steps,
{
    if steps > 0 {
        lemma_schedule(repeat, interval_ms, (steps - 1) as nat);
    }
}

} // verus!
