//! Test cases and the commands that run them.

use vstd::prelude::*;
use crate::text::Matching;

verus! {

/// A process that is ready to be run: nothing in it is left to resolve.
#[derive(Clone, Debug, PartialEq, Eq)]
pub struct JudgingCommand {
    pub program: String,
    pub args: Vec<String>,
    pub working_dir: String,
    pub env: Vec<(String, String)>,
    /// Whether carriage returns before line feeds are dropped from what the
    /// process prints before it is compared.
    pub normalize_line_endings: bool,
}

/// One unit of testing.
#[derive(Clone, Debug, PartialEq, Eq)]
pub enum TestCase {
    /// The solver gets `input` and has to print `expected_output`.
    Simple {
        name: String,
        input: Vec<u8>,
        expected_output: Vec<u8>,
        /// In milliseconds.
        timelimit: Option<u64>,
        matching: Matching,
    },
    /// The solver talks to a tester, which decides.
    Interactive {
        name: String,
        tester_command: JudgingCommand,
        /// In milliseconds.
        timelimit: Option<u64>,
    },
}

impl TestCase {
    /// The name under which the case is shown.
    pub open spec fn spec_name(&self) -> Seq<char> {
        match self {
            TestCase::Simple { name, .. } => name@,
            TestCase::Interactive { name, .. } => name@,
        }
    }

    /// The time limit in milliseconds, if the case has one.
    pub open spec fn spec_timelimit(&self) -> Option<u64> {
        match self {
            TestCase::Simple { timelimit, .. } => *timelimit,
            TestCase::Interactive { timelimit, .. } => *timelimit,
        }
    }

    /// What the solver reads: nothing for an interactive case.
    pub open spec fn spec_input(&self) -> Seq<u8> {
        match self {
            TestCase::Simple { input, .. } => input@,
            TestCase::Interactive { .. } => Seq::empty(),
        }
    }

    /// The name under which the case is shown.
    pub fn name(&self) -> (r: String)
        ensures
            r@ == self.spec_name(),
    {
        match self {
            TestCase::Simple { name, .. } => name.clone(),
            TestCase::Interactive { name, .. } => name.clone(),
        }
    }

    /// The time limit in milliseconds, if the case has one. A case without
    /// one runs until its processes end by themselves.
    pub fn timelimit(&self) -> (r: Option<u64>)
        ensures
            r == self.spec_timelimit(),
    {
        match self {
            TestCase::Simple { timelimit, .. } => *timelimit,
            TestCase::Interactive { timelimit, .. } => *timelimit,
        }
    }
}

/// The names of `cases`, in their order.
pub open spec fn names_of(cases: Seq<TestCase>) -> Seq<Seq<char>> {
    Seq::new(cases.len(), |i: int| cases[i].spec_name())
}

} // verus!
