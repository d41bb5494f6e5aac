//! The pre-agreed HoneyBadger round lifecycle. Parties and consumers
//! call the same phase sequence; there is no separate control-plane
//! coordinator. Round order is enforced locally:
//!
//! ```text
//! Idle -> Preprocessing -> Ready -> Input -> Computing -> Output -> Finished
//! ```
//!
//! The machine here owns every round decision; the host performs the
//! protocol work of each phase and reports how it went (and whether the
//! trace point recording a transition accepted it: a fault injected at a
//! trace label takes the same path a genuine failure does).

use vstd::prelude::*;

verus! {

/// Protocol round a party session is in.
#[derive(Clone, Copy, Debug, PartialEq, Eq, Structural)]
pub enum Round {
    /// Session opened; message loop running; no preprocessing yet.
    Idle,
    /// Offline preprocessing in flight.
    Preprocessing,
    /// Preprocessing complete; ready for client input.
    Ready,
    /// Mask shares sent; waiting on / holding client input shares.
    Input,
    /// Online computation in flight or complete with result shares.
    Computing,
    /// Result shares sent to a consumer.
    Output,
    /// Session finished; no further phases.
    Finished,
}

impl Round {
    /// The round's name as diagnostics print it.
    pub fn name(&self) -> (name: &'static str)
        ensures
            name@ == round_name(*self),
    {
        proof {
            reveal_strlit("idle");
            reveal_strlit("preprocessing");
            reveal_strlit("ready");
            reveal_strlit("input");
            reveal_strlit("computing");
            reveal_strlit("output");
            reveal_strlit("finished");
        }
        match self {
            Round::Idle => "idle",
            Round::Preprocessing => "preprocessing",
            Round::Ready => "ready",
            Round::Input => "input",
            Round::Computing => "computing",
            Round::Output => "output",
            Round::Finished => "finished",
        }
    }
}

/// The name of a round.
pub open spec fn round_name(round: Round) -> Seq<char> {
    match round {
        Round::Idle => "idle"@,
        Round::Preprocessing => "preprocessing"@,
        Round::Ready => "ready"@,
        Round::Input => "input"@,
        Round::Computing => "computing"@,
        Round::Output => "output"@,
        Round::Finished => "finished"@,
    }
}

/// One phase of the lifecycle.
#[derive(Clone, Copy, Debug, PartialEq, Eq, Structural)]
pub enum Phase {
    /// Offline preprocessing.
    Preprocess,
    /// Input collection from the declared clients.
    Collect,
    /// Online computation (a multiplication or a whole program).
    Compute,
    /// Result delivery to a consumer.
    Output,
}

/// The round a phase may begin in.
pub open spec fn required(phase: Phase) -> Round {
    match phase {
        Phase::Preprocess => Round::Idle,
        Phase::Collect => Round::Ready,
        Phase::Compute => Round::Input,
        Phase::Output => Round::Computing,
    }
}

/// The round a phase runs in.
pub open spec fn entered(phase: Phase) -> Round {
    match phase {
        Phase::Preprocess => Round::Preprocessing,
        Phase::Collect => Round::Input,
        Phase::Compute => Round::Computing,
        Phase::Output => Round::Output,
    }
}

/// The round a phase lands on when it succeeds.
pub open spec fn landing(phase: Phase) -> Round {
    match phase {
        Phase::Preprocess => Round::Ready,
        Phase::Collect => Round::Input,
        Phase::Compute => Round::Computing,
        Phase::Output => Round::Finished,
    }
}

/// Why a phase could not proceed.
#[derive(Clone, Copy, Debug, PartialEq, Eq, Structural)]
pub enum RoundError {
    /// The caller invoked a phase out of order.
    WrongRound {
        /// Round the session is in.
        current: Round,
        /// Round the phase requires.
        required: Round,
    },
    /// The trace point recording a transition refused it.
    TraceFault,
    /// The phase's protocol work failed.
    Failed,
}

/// The round machine of one session.
#[derive(Clone, Copy, Debug)]
pub struct RoundMachine {
    round: Round,
}

impl View for RoundMachine {
    type V = Round;

    closed spec fn view(&self) -> Round {
        self.round
    }
}

impl RoundMachine {
    /// A freshly opened session, in [`Round::Idle`].
    pub fn new() -> (machine: Self)
        ensures
            machine@ == Round::Idle,
    {
        RoundMachine { round: Round::Idle }
    }

    /// Current round.
    pub fn round(&self) -> (round: Round)
        ensures
            round == self@,
    {
        self.round
    }

    /// Refuse a phase that may not begin in the current round.
    pub fn require(&self, required: Round) -> (checked: Result<(), RoundError>)
        ensures
            self@ == required ==> checked is Ok,
            self@ != required ==> checked == Err::<(), RoundError>(
                RoundError::WrongRound { current: self@, required },
            ),
    {
        if self.round == required {
            return Ok(());
        }
        Err(RoundError::WrongRound { current: self.round, required })
    }

    /// Begin `phase`: it must be in its required round, and the trace
    /// point of the forward transition must accept it (`traced`); only
    /// then does the session enter the phase's round. A refusal leaves
    /// the round untouched.
    pub fn begin(&mut self, phase: Phase, traced: bool) -> (began: Result<(), RoundError>)
        ensures
            old(self)@ != required(phase) ==> began == Err::<(), RoundError>(
                RoundError::WrongRound { current: old(self)@, required: required(phase) },
            ) && final(self)@ == old(self)@,
            old(self)@ == required(phase) && !traced ==> began == Err::<(), RoundError>(
                RoundError::TraceFault,
            ) && final(self)@ == old(self)@,
            old(self)@ == required(phase) && traced ==> began is Ok && final(self)@ == entered(phase),
    {
        let needed = match phase {
            Phase::Preprocess => Round::Idle,
            Phase::Collect => Round::Ready,
            Phase::Compute => Round::Input,
            Phase::Output => Round::Computing,
        };
        self.require(needed)?;
        if !traced {
            return Err(RoundError::TraceFault);
        }
        self.round = match phase {
            Phase::Preprocess => Round::Preprocessing,
            Phase::Collect => Round::Input,
            Phase::Compute => Round::Computing,
            Phase::Output => Round::Output,
        };
        Ok(())
    }

    /// Settle a phase that was begun: its protocol work went `worked`,
    /// and the trace point of its success edge accepted it (`traced`).
    /// Success lands on the phase's landing round; a failure (of the
    /// work, or of the trace point) rewinds to the round the phase began
    /// in.
    pub fn settle(&mut self, phase: Phase, worked: bool, traced: bool) -> (settled: Result<(), RoundError>)
        requires
            old(self)@ == entered(phase),
        ensures
            worked && traced ==> settled is Ok && final(self)@ == landing(phase),
            !worked ==> settled == Err::<(), RoundError>(RoundError::Failed) && final(self)@
                == required(phase),
            worked && !traced ==> settled == Err::<(), RoundError>(RoundError::TraceFault)
                && final(self)@ == required(phase),
    {
        if !worked {
            self.round = match phase {
                Phase::Preprocess => Round::Idle,
                Phase::Collect => Round::Ready,
                Phase::Compute => Round::Input,
                Phase::Output => Round::Computing,
            };
            return Err(RoundError::Failed);
        }
        if !traced {
            self.round = match phase {
                Phase::Preprocess => Round::Idle,
                Phase::Collect => Round::Ready,
                Phase::Compute => Round::Input,
                Phase::Output => Round::Computing,
            };
            return Err(RoundError::TraceFault);
        }
        self.round = match phase {
            Phase::Preprocess => Round::Ready,
            Phase::Collect => Round::Input,
            Phase::Compute => Round::Computing,
            Phase::Output => Round::Finished,
        };
        Ok(())
    }
}

/// The position of a round in the lifecycle order.
pub open spec fn order(round: Round) -> nat {
    match round {
        Round::Idle => 0,
        Round::Preprocessing => 1,
        Round::Ready => 2,
        Round::Input => 3,
        Round::Computing => 4,
        Round::Output => 5,
        Round::Finished => 6,
    }
}

/// Round order: a phase begins only from its required round, runs in the
/// round right after it, and on success lands at or past that round,
/// never behind where it began; a failed phase rewinds to exactly where
/// it began. `Finished` admits no phase.
pub proof fn lemma_round_order(phase: Phase)
    ensures
        order(entered(phase)) == order(required(phase)) + 1,
        order(landing(phase)) >= order(entered(phase)),
        required(phase) != Round::Finished,
        phase == Phase::Output ==> landing(phase) == Round::Finished,
{
}

/// The phases in lifecycle order carry a session from `Idle` to
/// `Finished`: each lands on the round the next requires.
pub proof fn lemma_lifecycle_chains()
    ensures
        required(Phase::Preprocess) == Round::Idle,
        landing(Phase::Preprocess) == required(Phase::Collect),
        landing(Phase::Collect) == required(Phase::Compute),
        landing(Phase::Compute) == required(Phase::Output),
        landing(Phase::Output) == Round::Finished,
{
}

} // verus!
