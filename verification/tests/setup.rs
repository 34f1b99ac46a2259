use snowchains::cargo::{cases_path, root_step, target_path, Search};
use snowchains::errors::JudgeError;
use snowchains::outcome::ExitStatus;
use snowchains::render::print_error;
use snowchains::setup::{check, plan, Step};

fn text(bytes: Vec<u8>) -> String {
    String::from_utf8(bytes).unwrap()
}

#[test]
fn cases_lie_below_the_root() {
    assert_eq!(cases_path("/home/me/project", "a"), "/home/me/project/a");
    assert_eq!(cases_path("/home/me/project/", "a"), "/home/me/project/a");
    assert_eq!(cases_path("", "a"), "a");
    assert_eq!(cases_path("/", "a"), "/a");
    assert_eq!(cases_path("project", "/elsewhere/a"), "/elsewhere/a");
    assert_eq!(cases_path("project", ""), "project/");
    assert_eq!(cases_path("プロジェクト", "問題"), "プロジェクト/問題");
}

#[test]
fn solvers_lie_below_the_release_directory() {
    assert_eq!(target_path("/home/me/project", "a"), "/home/me/project/target/release/a");
    assert_eq!(target_path("project/", "a"), "project/target/release/a");
    assert_eq!(target_path("", "a"), "target/release/a");
    assert_eq!(target_path("project", "/usr/bin/a"), "/usr/bin/a");
}

#[test]
fn testers_are_prepared_before_the_solver() {
    assert_eq!(
        plan(2, 1, true, true),
        vec![
            Step::TranspileTester(0),
            Step::TranspileTester(1),
            Step::CompileTester(0),
            Step::TranspileSolver,
            Step::CompileSolver,
        ]
    );
    assert_eq!(plan(0, 0, false, true), vec![Step::CompileSolver]);
    assert_eq!(plan(0, 2, true, false), vec![
        Step::CompileTester(0),
        Step::CompileTester(1),
        Step::TranspileSolver,
    ]);
    assert_eq!(plan(0, 0, false, false), vec![]);
}

#[test]
fn a_step_that_fails_ends_the_run_before_it_begins() {
    assert_eq!(check(Step::CompileSolver, ExitStatus::Code(0)), Ok(()));
    assert_eq!(
        check(Step::CompileSolver, ExitStatus::Code(1)),
        Err(JudgeError::SetupFailed { step: Step::CompileSolver, status: ExitStatus::Code(1) })
    );
    assert_eq!(
        check(Step::TranspileTester(3), ExitStatus::Signal),
        Err(JudgeError::SetupFailed {
            step: Step::TranspileTester(3),
            status: ExitStatus::Signal
        })
    );
    assert_eq!(
        check(Step::TranspileSolver, ExitStatus::Unavailable),
        Err(JudgeError::SetupFailed {
            step: Step::TranspileSolver,
            status: ExitStatus::Unavailable
        })
    );
}

#[test]
fn each_failure_is_said_in_one_line() {
    assert_eq!(
        text(print_error(&JudgeError::IndexOutOfBounds { len: 3, index: 7 })),
        "Index out of bounds: the suite has 3 tests but the index is 7\n"
    );
    assert_eq!(
        text(print_error(&JudgeError::IndexOutOfBounds { len: 1, index: 1 })),
        "Index out of bounds: the suite has 1 test but the index is 1\n"
    );
    assert_eq!(text(print_error(&JudgeError::ExpectedSimple)), "Expected a simple test\n");
    assert_eq!(
        text(print_error(&JudgeError::TestFailed { failures: 1, total: 3 })),
        "1/3 test failed\n"
    );
    assert_eq!(
        text(print_error(&JudgeError::TestFailed { failures: 12, total: 30 })),
        "12/30 tests failed\n"
    );
    assert_eq!(text(print_error(&JudgeError::Interrupted)), "Interrupted\n");
    assert_eq!(
        text(print_error(&JudgeError::SetupFailed {
            step: Step::CompileSolver,
            status: ExitStatus::Code(2)
        })),
        "The compilation ended abnormally: code 2\n"
    );
    assert_eq!(
        text(print_error(&JudgeError::SetupFailed {
            step: Step::TranspileTester(0),
            status: ExitStatus::Signal
        })),
        "The transpilation of a tester ended abnormally: signal\n"
    );
    assert_eq!(
        text(print_error(&JudgeError::SetupFailed {
            step: Step::CompileTester(1),
            status: ExitStatus::Unavailable
        })),
        "The compilation of a tester ended abnormally: unavailable\n"
    );
    assert_eq!(
        text(print_error(&JudgeError::SetupFailed {
            step: Step::TranspileSolver,
            status: ExitStatus::Code(-1)
        })),
        "The transpilation ended abnormally: code -1\n"
    );
}

#[test]
fn the_search_for_the_root_goes_up_until_it_finds_a_manifest() {
    assert_eq!(root_step(true, true), Search::Found);
    assert_eq!(root_step(true, false), Search::Found);
    assert_eq!(root_step(false, true), Search::Ascend);
    assert_eq!(root_step(false, false), Search::NotFound);
}
