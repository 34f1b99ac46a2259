//! The ways in which judging fails.

use vstd::prelude::*;
use crate::outcome::ExitStatus;
use crate::setup::Step;

verus! {

/// Why a request to the judge was not carried out, or how a run failed.
#[derive(Clone, Copy, Debug, PartialEq, Eq, Structural)]
pub enum JudgeError {
    /// There is no case at `index`: the suite has `len` cases.
    IndexOutOfBounds { len: usize, index: usize },
    /// The case is interactive where a simple one is needed.
    ExpectedSimple,
    /// `failures` of the `total` cases did not pass.
    TestFailed { failures: usize, total: usize },
    /// The run ended before every case had reported.
    Interrupted,
    /// A command that prepares the run did not exit with code zero: no case
    /// has been started.
    SetupFailed { step: Step, status: ExitStatus },
}

} // verus!
