//! What has to be done before the first case runs.

use vstd::prelude::*;
use crate::errors::JudgeError;
use crate::outcome::ExitStatus;

verus! {

/// A command that prepares a run.
#[derive(Clone, Copy, Debug, PartialEq, Eq, Structural)]
pub enum Step {
    /// The transpilation of the tester at this place among the testers that
    /// are transpiled.
    TranspileTester(usize),
    /// The compilation of the tester at this place among the testers that
    /// are compiled.
    CompileTester(usize),
    /// The transpilation of the solver.
    TranspileSolver,
    /// The compilation of the solver.
    CompileSolver,
}

/// The steps before a run, in their order: the testers are transpiled, then
/// the testers are compiled, then the solver is transpiled, then it is
/// compiled.
pub open spec fn plan_of(
    tester_transpilations: nat,
    tester_compilations: nat,
    solver_transpilation: bool,
    solver_compilation: bool,
) -> Seq<Step> {
    Seq::new(tester_transpilations, |i: int| Step::TranspileTester(i as usize)) + Seq::new(
        tester_compilations,
        |i: int| Step::CompileTester(i as usize),
    ) + (if solver_transpilation {
        seq![Step::TranspileSolver]
    } else {
        Seq::empty()
    }) + (if solver_compilation {
        seq![Step::CompileSolver]
    } else {
        Seq::empty()
    })
}

/// Lists the steps before a run, in their order.
pub fn plan(
    tester_transpilations: usize,
    tester_compilations: usize,
    solver_transpilation: bool,
    solver_compilation: bool,
) -> (steps: Vec<Step>)
    ensures
        steps@ == plan_of(
            tester_transpilations as nat,
            tester_compilations as nat,
            solver_transpilation,
            solver_compilation,
        ),
{
    let mut steps: Vec<Step> = Vec::new();
    let mut i: usize = 0;
    while i < tester_transpilations
        invariant
            i <= tester_transpilations,
            steps@ == Seq::new(i as nat, |k: int| Step::TranspileTester(k as usize)),
        decreases tester_transpilations - i,
    {
        steps.push(Step::TranspileTester(i));
        i = i + 1;
        assert(steps@ =~= Seq::new(i as nat, |k: int| Step::TranspileTester(k as usize)));
    }
    let ghost transpiled = steps@;
    let mut j: usize = 0;
    assert(steps@ =~= transpiled + Seq::new(0, |k: int| Step::CompileTester(k as usize)));
    while j < tester_compilations
        invariant
            j <= tester_compilations,
            steps@ == transpiled + Seq::new(j as nat, |k: int| Step::CompileTester(k as usize)),
        decreases tester_compilations - j,
    {
        steps.push(Step::CompileTester(j));
        j = j + 1;
        assert(steps@ =~= transpiled + Seq::new(
            j as nat,
            |k: int| Step::CompileTester(k as usize),
        ));
    }
    if solver_transpilation {
        steps.push(Step::TranspileSolver);
    }
    if solver_compilation {
        steps.push(Step::CompileSolver);
    }
    assert(steps@ =~= plan_of(
        tester_transpilations as nat,
        tester_compilations as nat,
        solver_transpilation,
        solver_compilation,
    ));
    steps
}

/// Whether a run may go on after `step` has ended with `status`: it may if
/// the command exited with code zero; else the run fails before any case has
/// started.
pub fn check(step: Step, status: ExitStatus) -> (r: Result<(), JudgeError>)
    ensures
        status.is_success() ==> r == Ok::<(), JudgeError>(()),
        !status.is_success() ==> r == Err::<(), JudgeError>(
            JudgeError::SetupFailed { step, status },
        ),
{
    if status.success() {
        Ok(())
    } else {
        Err(JudgeError::SetupFailed { step, status })
    }
}

} // verus!
