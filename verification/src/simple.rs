//! The simple strategy: the solver gets the input of the case, and what it
//! prints is compared with the expected output.

use vstd::prelude::*;
use crate::errors::JudgeError;
use crate::outcome::{ExitStatus, Outcome, OutcomeView};
use crate::testsuite::{JudgingCommand, TestCase};
use crate::text::{agrees, crlf_to_lf, normalize_line_endings, texts_match, Matching};

verus! {

/// What was seen of the solver in one run.
#[derive(Clone, Debug, PartialEq, Eq)]
pub enum Observation {
    /// The solver ended by itself after `elapsed` milliseconds, having
    /// printed `stdout`.
    Exited { status: ExitStatus, stdout: Vec<u8>, elapsed: u64 },
    /// The time limit passed and the solver was ended, `elapsed`
    /// milliseconds after it had started.
    TimedOut { elapsed: u64 },
}

/// The mathematical value of an [`Observation`].
pub enum ObservationView {
    Exited { status: ExitStatus, stdout: Seq<u8>, elapsed: u64 },
    TimedOut { elapsed: u64 },
}

impl View for Observation {
    type V = ObservationView;

    open spec fn view(&self) -> ObservationView {
        match self {
            Observation::Exited { status, stdout, elapsed } => ObservationView::Exited {
                status: *status,
                stdout: stdout@,
                elapsed: *elapsed,
            },
            Observation::TimedOut { elapsed } => ObservationView::TimedOut { elapsed: *elapsed },
        }
    }
}

/// The verdict on printed text alone: accepted if it counts as `expected`
/// under `matching`, else a wrong answer that carries both texts.
pub open spec fn compared(matching: Matching, expected: Seq<u8>, actual: Seq<u8>) -> OutcomeView {
    if texts_match(matching, expected, actual) {
        OutcomeView::Accepted
    } else {
        OutcomeView::WrongAnswer { actual, expected }
    }
}

/// The verdict of the simple strategy.
///
/// A run that was ended at the time limit, or that took longer than it,
/// exceeds the limit. Otherwise a solver that did not exit with code zero has
/// failed at run time, whatever it printed. Otherwise what it printed
/// decides, after its line endings have been normalised if `normalize` is
/// set.
pub open spec fn simple_outcome(
    expected: Seq<u8>,
    timelimit: Option<u64>,
    matching: Matching,
    normalize: bool,
    observation: ObservationView,
) -> OutcomeView {
    match observation {
        ObservationView::TimedOut { elapsed } => OutcomeView::TimeLimitExceeded { elapsed },
        ObservationView::Exited { status, stdout, elapsed } => {
            if timelimit is Some && elapsed > timelimit->0 {
                OutcomeView::TimeLimitExceeded { elapsed }
            } else if !status.is_success() {
                OutcomeView::RuntimeError { exit_status: status }
            } else if normalize {
                compared(matching, expected, crlf_to_lf(stdout))
            } else {
                compared(matching, expected, stdout)
            }
        },
    }
}

/// Compares `actual` with `expected`.
fn compare(matching: Matching, expected: &Vec<u8>, actual: Vec<u8>) -> (r: Outcome)
    ensures
        r@ == compared(matching, expected@, actual@),
{
    if agrees(matching, expected, &actual) {
        Outcome::Accepted
    } else {
        Outcome::WrongAnswer { actual, expected: expected.clone() }
    }
}

/// Judges a simple case from what was seen of the solver.
///
/// The verdict is that of [`simple_outcome`]. An interactive case is
/// refused.
pub fn judge(case: &TestCase, solver: &JudgingCommand, observation: Observation) -> (r: Result<
    Outcome,
    JudgeError,
>)
    ensures
        match *case {
            TestCase::Simple { expected_output, timelimit, matching, .. } => r is Ok && r->Ok_0@
                == simple_outcome(
                expected_output@,
                timelimit,
                matching,
                solver.normalize_line_endings,
                observation@,
            ),
            TestCase::Interactive { .. } => r == Err::<Outcome, JudgeError>(
                JudgeError::ExpectedSimple,
            ),
        },
{
    match case {
        TestCase::Simple { expected_output, timelimit, matching, .. } => {
            match observation {
                Observation::TimedOut { elapsed } => Ok(Outcome::TimeLimitExceeded { elapsed }),
                Observation::Exited { status, stdout, elapsed } => {
                    let late = match timelimit {
                        Some(limit) => elapsed > *limit,
                        None => false,
                    };
                    if late {
                        Ok(Outcome::TimeLimitExceeded { elapsed })
                    } else if !status.success() {
                        Ok(Outcome::RuntimeError { exit_status: status })
                    } else if solver.normalize_line_endings {
                        Ok(compare(*matching, expected_output, normalize_line_endings(&stdout)))
                    } else {
                        Ok(compare(*matching, expected_output, stdout))
                    }
                },
            }
        },
        TestCase::Interactive { .. } => Err(JudgeError::ExpectedSimple),
    }
}

/// Judges a simple case from output that is already there: no process takes
/// part, so the output alone decides. An interactive case is refused.
pub fn accepts(case: &TestCase, output: &Vec<u8>) -> (r: Result<Outcome, JudgeError>)
    ensures
        match *case {
            TestCase::Simple { expected_output, matching, .. } => r is Ok && r->Ok_0@ == compared(
                matching,
                expected_output@,
                output@,
            ),
            TestCase::Interactive { .. } => r == Err::<Outcome, JudgeError>(
                JudgeError::ExpectedSimple,
            ),
        },
{
    match case {
        TestCase::Simple { expected_output, matching, .. } => Ok(
            compare(*matching, expected_output, output.clone()),
        ),
        TestCase::Interactive { .. } => Err(JudgeError::ExpectedSimple),
    }
}

} // verus!
