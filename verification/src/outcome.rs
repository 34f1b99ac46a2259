//! The verdict of one test case.

use vstd::prelude::*;

verus! {

/// How a child process ended.
#[derive(Clone, Copy, Debug, PartialEq, Eq, Structural)]
pub enum ExitStatus {
    /// It exited with this code.
    Code(i32),
    /// It was ended by a signal and left no code.
    Signal,
    /// It could not be started, or its pipes failed.
    Unavailable,
}

impl ExitStatus {
    /// Whether the process exited with code zero.
    pub open spec fn is_success(self) -> bool {
        self == ExitStatus::Code(0)
    }

    /// Whether the process exited with code zero.
    pub fn success(&self) -> (r: bool)
        ensures
            r == self.is_success(),
    {
        match self {
            ExitStatus::Code(code) => *code == 0,
            _ => false,
        }
    }
}

/// The terminal verdict of one case.
#[derive(Clone, Debug, PartialEq, Eq)]
pub enum Outcome {
    /// The solver exited with code zero and its output matched.
    Accepted,
    /// The solver exited with code zero and its output did not match.
    WrongAnswer { actual: Vec<u8>, expected: Vec<u8> },
    /// The tester of an interactive case exited with a code other than zero.
    Rejected { tester_status: ExitStatus, diagnostic: Vec<u8> },
    /// The solver did not exit with code zero.
    RuntimeError { exit_status: ExitStatus },
    /// The case ran longer than its time limit, in milliseconds.
    TimeLimitExceeded { elapsed: u64 },
    /// The run was interrupted while the case was in flight.
    Interrupted,
}

/// The mathematical value of an [`Outcome`].
pub enum OutcomeView {
    Accepted,
    WrongAnswer { actual: Seq<u8>, expected: Seq<u8> },
    Rejected { tester_status: ExitStatus, diagnostic: Seq<u8> },
    RuntimeError { exit_status: ExitStatus },
    TimeLimitExceeded { elapsed: u64 },
    Interrupted,
}

impl OutcomeView {
    /// Every verdict but `Accepted` is a failure.
    pub open spec fn is_failure(self) -> bool {
        !(self is Accepted)
    }

    /// The terminal colour of the verdict's status word.
    pub open spec fn color(self) -> u8 {
        match self {
            OutcomeView::Accepted => 10,
            OutcomeView::TimeLimitExceeded { .. } => 9,
            OutcomeView::Interrupted => 13,
            _ => 11,
        }
    }
}

impl View for Outcome {
    type V = OutcomeView;

    open spec fn view(&self) -> OutcomeView {
        match self {
            Outcome::Accepted => OutcomeView::Accepted,
            Outcome::WrongAnswer { actual, expected } => OutcomeView::WrongAnswer {
                actual: actual@,
                expected: expected@,
            },
            Outcome::Rejected { tester_status, diagnostic } => OutcomeView::Rejected {
                tester_status: *tester_status,
                diagnostic: diagnostic@,
            },
            Outcome::RuntimeError { exit_status } => OutcomeView::RuntimeError {
                exit_status: *exit_status,
            },
            Outcome::TimeLimitExceeded { elapsed } => OutcomeView::TimeLimitExceeded {
                elapsed: *elapsed,
            },
            Outcome::Interrupted => OutcomeView::Interrupted,
        }
    }
}

impl Outcome {
    /// Whether the case counts as failed.
    pub fn failure(&self) -> (r: bool)
        ensures
            r == self@.is_failure(),
    {
        match self {
            Outcome::Accepted => false,
            _ => true,
        }
    }

    /// The terminal colour of the status word.
    pub fn color(&self) -> (r: u8)
        ensures
            r == self@.color(),
    {
        match self {
            Outcome::Accepted => 10,
            Outcome::TimeLimitExceeded { .. } => 9,
            Outcome::Interrupted => 13,
            _ => 11,
        }
    }

    /// A copy with the same value.
    pub fn duplicate(&self) -> (r: Outcome)
        ensures
            r@ == self@,
    {
        match self {
            Outcome::Accepted => Outcome::Accepted,
            Outcome::WrongAnswer { actual, expected } => Outcome::WrongAnswer {
                actual: actual.clone(),
                expected: expected.clone(),
            },
            Outcome::Rejected { tester_status, diagnostic } => Outcome::Rejected {
                tester_status: *tester_status,
                diagnostic: diagnostic.clone(),
            },
            Outcome::RuntimeError { exit_status } => Outcome::RuntimeError {
                exit_status: *exit_status,
            },
            Outcome::TimeLimitExceeded { elapsed } => Outcome::TimeLimitExceeded {
                elapsed: *elapsed,
            },
            Outcome::Interrupted => Outcome::Interrupted,
        }
    }
}

} // verus!
