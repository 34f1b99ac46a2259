//! What the judge answers about a suite without running anything.

use vstd::prelude::*;
use crate::errors::JudgeError;
use crate::outcome::Outcome;
use crate::simple::compared;
use crate::testsuite::TestCase;

verus! {

/// The number of cases.
pub fn num_cases(cases: &Vec<TestCase>) -> (n: usize)
    ensures
        n == cases@.len(),
{
    cases.len()
}

/// The time limit of the case at `nth` in milliseconds, if it has one.
pub fn timelimit_millis(cases: &Vec<TestCase>, nth: usize) -> (r: Result<Option<u64>, JudgeError>)
    ensures
        nth < cases@.len() ==> r == Ok::<Option<u64>, JudgeError>(
            cases@[nth as int].spec_timelimit(),
        ),
        nth >= cases@.len() ==> r == Err::<Option<u64>, JudgeError>(
            JudgeError::IndexOutOfBounds { len: cases.len(), index: nth },
        ),
{
    if nth < cases.len() {
        Ok(cases[nth].timelimit())
    } else {
        Err(JudgeError::IndexOutOfBounds { len: cases.len(), index: nth })
    }
}

/// What the solver reads in the case at `nth`: nothing if it is interactive.
pub fn input(cases: &Vec<TestCase>, nth: usize) -> (r: Result<Vec<u8>, JudgeError>)
    ensures
        nth < cases@.len() ==> r is Ok && r->Ok_0@ == cases@[nth as int].spec_input(),
        nth >= cases@.len() ==> r == Err::<Vec<u8>, JudgeError>(
            JudgeError::IndexOutOfBounds { len: cases.len(), index: nth },
        ),
{
    if nth < cases.len() {
        match &cases[nth] {
            TestCase::Simple { input, .. } => Ok(input.clone()),
            TestCase::Interactive { .. } => Ok(Vec::new()),
        }
    } else {
        Err(JudgeError::IndexOutOfBounds { len: cases.len(), index: nth })
    }
}

/// Judges the simple case at `nth` from output that is already there: no
/// process takes part, so the output alone decides.
pub fn accepts(cases: &Vec<TestCase>, nth: usize, output: &Vec<u8>) -> (r: Result<
    Outcome,
    JudgeError,
>)
    ensures
        nth >= cases@.len() ==> r == Err::<Outcome, JudgeError>(
            JudgeError::IndexOutOfBounds { len: cases.len(), index: nth },
        ),
        nth < cases@.len() ==> match cases@[nth as int] {
            TestCase::Simple { expected_output, matching, .. } => r is Ok && r->Ok_0@ == compared(
                matching,
                expected_output@,
                output@,
            ),
            TestCase::Interactive { .. } => r == Err::<Outcome, JudgeError>(
                JudgeError::ExpectedSimple,
            ),
        },
{
    if nth < cases.len() {
        crate::simple::accepts(&cases[nth], output)
    } else {
        Err(JudgeError::IndexOutOfBounds { len: cases.len(), index: nth })
    }
}

} // verus!
