//! The interactive strategy: the solver and a tester talk to each other, and
//! the tester decides.
//!
//! The two processes and the relays between them live outside. What is
//! decided here is what each of their events means.

use vstd::prelude::*;
use crate::outcome::{ExitStatus, Outcome, OutcomeView};

verus! {

/// How far an interaction has come.
#[derive(Clone, Debug, PartialEq, Eq)]
pub enum Phase {
    /// Both processes run.
    Running,
    /// The solver has exited with code zero; the tester still runs.
    SolverDone,
    /// The interaction is over, with this verdict.
    Done(Outcome),
}

/// The mathematical value of a [`Phase`].
pub enum PhaseView {
    Running,
    SolverDone,
    Done(OutcomeView),
}

impl View for Phase {
    type V = PhaseView;

    open spec fn view(&self) -> PhaseView {
        match self {
            Phase::Running => PhaseView::Running,
            Phase::SolverDone => PhaseView::SolverDone,
            Phase::Done(outcome) => PhaseView::Done(outcome@),
        }
    }
}

/// What can happen to an interaction.
#[derive(Clone, Debug, PartialEq, Eq)]
pub enum Signal {
    /// The tester has ended by itself; `diagnostic` is what it had to say.
    TesterExited { status: ExitStatus, diagnostic: Vec<u8> },
    /// The solver has ended by itself.
    SolverExited { status: ExitStatus },
    /// The time limit has passed, `elapsed` milliseconds after the start.
    Deadline { elapsed: u64 },
}

/// The mathematical value of a [`Signal`].
pub enum SignalView {
    TesterExited { status: ExitStatus, diagnostic: Seq<u8> },
    SolverExited { status: ExitStatus },
    Deadline { elapsed: u64 },
}

impl View for Signal {
    type V = SignalView;

    open spec fn view(&self) -> SignalView {
        match self {
            Signal::TesterExited { status, diagnostic } => SignalView::TesterExited {
                status: *status,
                diagnostic: diagnostic@,
            },
            Signal::SolverExited { status } => SignalView::SolverExited { status: *status },
            Signal::Deadline { elapsed } => SignalView::Deadline { elapsed: *elapsed },
        }
    }
}

/// Which processes the caller has to end, together with the relays between
/// them.
#[derive(Clone, Copy, Debug, PartialEq, Eq, Structural)]
pub enum Teardown {
    /// None: the interaction goes on, or nothing is left to end.
    Nothing,
    /// The solver.
    Solver,
    /// The tester.
    Tester,
    /// The solver and the tester.
    Both,
}

impl PhaseView {
    /// Whether the solver runs in this phase.
    pub open spec fn solver_runs(self) -> bool {
        self is Running
    }

    /// Whether the tester runs in this phase.
    pub open spec fn tester_runs(self) -> bool {
        self is Running || self is SolverDone
    }
}

impl Teardown {
    /// Whether the solver is to be ended.
    pub open spec fn ends_solver(self) -> bool {
        self == Teardown::Solver || self == Teardown::Both
    }

    /// Whether the tester is to be ended.
    pub open spec fn ends_tester(self) -> bool {
        self == Teardown::Tester || self == Teardown::Both
    }
}

/// The verdict of a tester that has ended by itself: accepted if it exited
/// with code zero, else rejected with what the tester had to say.
pub open spec fn tester_verdict(status: ExitStatus, diagnostic: Seq<u8>) -> OutcomeView {
    if status.is_success() {
        OutcomeView::Accepted
    } else {
        OutcomeView::Rejected { tester_status: status, diagnostic }
    }
}

/// What `signal` means in `phase`: the phase after it, and what has to be
/// ended.
///
/// The tester's exit ends the interaction with the tester's verdict. The
/// solver's exit with a code other than zero ends it with a run-time error,
/// whatever the tester does; its exit with code zero leaves the verdict to
/// the tester. The deadline ends it with the time limit exceeded. Whatever
/// still runs when the interaction ends is to be ended. Once the interaction
/// is over nothing changes its verdict.
pub open spec fn interact(phase: PhaseView, signal: SignalView) -> (PhaseView, Teardown) {
    match phase {
        PhaseView::Done(_) => (phase, Teardown::Nothing),
        PhaseView::Running => match signal {
            SignalView::TesterExited { status, diagnostic } => (
                PhaseView::Done(tester_verdict(status, diagnostic)),
                Teardown::Solver,
            ),
            SignalView::SolverExited { status } => if status.is_success() {
                (PhaseView::SolverDone, Teardown::Nothing)
            } else {
                (
                    PhaseView::Done(OutcomeView::RuntimeError { exit_status: status }),
                    Teardown::Tester,
                )
            },
            SignalView::Deadline { elapsed } => (
                PhaseView::Done(OutcomeView::TimeLimitExceeded { elapsed }),
                Teardown::Both,
            ),
        },
        PhaseView::SolverDone => match signal {
            SignalView::TesterExited { status, diagnostic } => (
                PhaseView::Done(tester_verdict(status, diagnostic)),
                Teardown::Nothing,
            ),
            SignalView::SolverExited { .. } => (phase, Teardown::Nothing),
            SignalView::Deadline { elapsed } => (
                PhaseView::Done(OutcomeView::TimeLimitExceeded { elapsed }),
                Teardown::Tester,
            ),
        },
    }
}

/// The phase after each of `signals` in turn.
pub open spec fn interact_all(phase: PhaseView, signals: Seq<SignalView>) -> PhaseView
    decreases signals.len(),
{
    if signals.len() == 0 {
        phase
    } else {
        interact_all(interact(phase, signals[0]).0, signals.skip(1))
    }
}

/// The verdict of a tester that has ended by itself.
fn verdict_of_tester(status: ExitStatus, diagnostic: Vec<u8>) -> (r: Outcome)
    ensures
        r@ == tester_verdict(status, diagnostic@),
{
    if status.success() {
        Outcome::Accepted
    } else {
        Outcome::Rejected { tester_status: status, diagnostic }
    }
}

/// Takes `signal` in `phase`: the phase after it, and what the caller has to
/// end.
pub fn step(phase: Phase, signal: Signal) -> (r: (Phase, Teardown))
    ensures
        (r.0@, r.1) == interact(phase@, signal@),
{
    match phase {
        Phase::Done(outcome) => (Phase::Done(outcome), Teardown::Nothing),
        Phase::Running => match signal {
            Signal::TesterExited { status, diagnostic } => (
                Phase::Done(verdict_of_tester(status, diagnostic)),
                Teardown::Solver,
            ),
            Signal::SolverExited { status } => {
                if status.success() {
                    (Phase::SolverDone, Teardown::Nothing)
                } else {
                    (Phase::Done(Outcome::RuntimeError { exit_status: status }), Teardown::Tester)
                }
            },
            Signal::Deadline { elapsed } => (
                Phase::Done(Outcome::TimeLimitExceeded { elapsed }),
                Teardown::Both,
            ),
        },
        Phase::SolverDone => match signal {
            Signal::TesterExited { status, diagnostic } => (
                Phase::Done(verdict_of_tester(status, diagnostic)),
                Teardown::Nothing,
            ),
            Signal::SolverExited { .. } => (Phase::SolverDone, Teardown::Nothing),
            Signal::Deadline { elapsed } => (
                Phase::Done(Outcome::TimeLimitExceeded { elapsed }),
                Teardown::Tester,
            ),
        },
    }
}

/// The verdict of an interaction that is over.
pub fn verdict(phase: &Phase) -> (r: Option<Outcome>)
    ensures
        match phase@ {
            PhaseView::Done(outcome) => r is Some && r->0@ == outcome,
            _ => r is None,
        },
{
    match phase {
        Phase::Done(outcome) => Some(outcome.duplicate()),
        _ => None,
    }
}

/// A verdict is final: once the interaction is over, no signal changes it,
/// and none asks for anything to be ended.
pub proof fn law_verdict_is_final(phase: PhaseView, signals: Seq<SignalView>)
    requires
        phase is Done,
    ensures
        interact_all(phase, signals) == phase,
        forall|i: int| 0 <= i < signals.len() ==> interact(phase, #[trigger] signals[i]) == (
            phase,
            Teardown::Nothing,
        ),
    decreases signals.len(),
{
    if signals.len() > 0 {
        law_verdict_is_final(phase, signals.skip(1));
    }
}

/// An interaction is accepted by the tester alone: it ends accepted exactly
/// when the tester exits with code zero while the interaction is going on.
pub proof fn law_only_the_tester_accepts(phase: PhaseView, signal: SignalView)
    requires
        !(phase is Done),
    ensures
        interact(phase, signal).0 == PhaseView::Done(OutcomeView::Accepted) <==> signal
            is TesterExited && signal->TesterExited_status.is_success(),
{
}

/// One exit decides: the tester's, when the tester ends by itself; the
/// solver's, when the solver fails while both run. The verdict then carries
/// that status.
pub proof fn law_one_exit_decides(phase: PhaseView, signal: SignalView)
    requires
        !(phase is Done),
        interact(phase, signal).0 is Done,
    ensures
        match signal {
            SignalView::TesterExited { status, diagnostic } => interact(phase, signal).0
                == PhaseView::Done(tester_verdict(status, diagnostic)),
            SignalView::SolverExited { status } => phase is Running && !status.is_success()
                && interact(phase, signal).0 == PhaseView::Done(
                OutcomeView::RuntimeError { exit_status: status },
            ),
            SignalView::Deadline { elapsed } => interact(phase, signal).0 == PhaseView::Done(
                OutcomeView::TimeLimitExceeded { elapsed },
            ),
        },
{
}

/// No process outlives the interaction: when it ends, each process that ran
/// before has either just ended by itself or is to be ended, and nothing is
/// ended that does not run.
pub proof fn law_no_process_is_left(phase: PhaseView, signal: SignalView)
    requires
        !(phase is Done),
    ensures
        interact(phase, signal).0 is Done ==> {
            &&& phase.solver_runs() ==> signal is SolverExited || interact(
                phase,
                signal,
            ).1.ends_solver()
            &&& phase.tester_runs() ==> signal is TesterExited || interact(
                phase,
                signal,
            ).1.ends_tester()
        },
        interact(phase, signal).1.ends_solver() ==> phase.solver_runs() && interact(
            phase,
            signal,
        ).0 is Done,
        interact(phase, signal).1.ends_tester() ==> phase.tester_runs() && interact(
            phase,
            signal,
        ).0 is Done,
{
}

} // verus!
