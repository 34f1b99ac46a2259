use snowchains::errors::JudgeError;
use snowchains::judging::{accepts, input, num_cases, timelimit_millis};
use snowchains::outcome::{ExitStatus, Outcome};
use snowchains::simple::{judge, Observation};
use snowchains::testsuite::{JudgingCommand, TestCase};
use snowchains::text::{agrees, normalize_line_endings, Matching};

fn solver(normalize_line_endings: bool) -> JudgingCommand {
    JudgingCommand {
        program: "./a.out".to_owned(),
        args: vec![],
        working_dir: ".".to_owned(),
        env: vec![],
        normalize_line_endings,
    }
}

fn simple(input: &str, expected: &str, timelimit: Option<u64>, matching: Matching) -> TestCase {
    TestCase::Simple {
        name: "sample".to_owned(),
        input: input.as_bytes().to_vec(),
        expected_output: expected.as_bytes().to_vec(),
        timelimit,
        matching,
    }
}

fn interactive() -> TestCase {
    TestCase::Interactive {
        name: "dialogue".to_owned(),
        tester_command: solver(false),
        timelimit: Some(2000),
    }
}

fn exited(code: i32, stdout: &str, elapsed: u64) -> Observation {
    Observation::Exited {
        status: ExitStatus::Code(code),
        stdout: stdout.as_bytes().to_vec(),
        elapsed,
    }
}

#[test]
fn an_echo_of_the_expected_output_is_accepted() {
    let case = simple("3\n", "3\n", None, Matching::Lines);
    assert_eq!(judge(&case, &solver(false), exited(0, "3\n", 5)), Ok(Outcome::Accepted));
}

#[test]
fn another_output_is_a_wrong_answer_with_both_texts() {
    let case = simple("3\n", "4\n", None, Matching::Lines);
    assert_eq!(
        judge(&case, &solver(false), exited(0, "3\n", 5)),
        Ok(Outcome::WrongAnswer { actual: b"3\n".to_vec(), expected: b"4\n".to_vec() })
    );
}

#[test]
fn an_exit_code_other_than_zero_is_a_runtime_error_whatever_was_expected() {
    for expected in ["", "3\n", "anything"] {
        let case = simple("3\n", expected, None, Matching::Lines);
        assert_eq!(
            judge(&case, &solver(false), exited(1, "", 5)),
            Ok(Outcome::RuntimeError { exit_status: ExitStatus::Code(1) })
        );
    }
    let case = simple("3\n", "3\n", None, Matching::Lines);
    assert_eq!(
        judge(&case, &solver(false), exited(1, "3\n", 5)),
        Ok(Outcome::RuntimeError { exit_status: ExitStatus::Code(1) })
    );
}

#[test]
fn a_solver_that_was_ended_at_the_limit_exceeds_it() {
    let case = simple("3\n", "3\n", Some(100), Matching::Lines);
    assert_eq!(
        judge(&case, &solver(false), Observation::TimedOut { elapsed: 101 }),
        Ok(Outcome::TimeLimitExceeded { elapsed: 101 })
    );
}

#[test]
fn a_solver_that_took_longer_than_the_limit_exceeds_it() {
    let case = simple("3\n", "3\n", Some(100), Matching::Lines);
    assert_eq!(
        judge(&case, &solver(false), exited(0, "3\n", 101)),
        Ok(Outcome::TimeLimitExceeded { elapsed: 101 })
    );
    assert_eq!(judge(&case, &solver(false), exited(0, "3\n", 100)), Ok(Outcome::Accepted));
    assert_eq!(
        judge(&case, &solver(false), exited(1, "", 250)),
        Ok(Outcome::TimeLimitExceeded { elapsed: 250 })
    );
}

#[test]
fn without_a_limit_no_time_is_too_long() {
    let case = simple("3\n", "3\n", None, Matching::Lines);
    assert_eq!(judge(&case, &solver(false), exited(0, "3\n", u64::MAX)), Ok(Outcome::Accepted));
}

#[test]
fn a_solver_that_could_not_run_is_a_runtime_error() {
    let case = simple("3\n", "3\n", None, Matching::Lines);
    let observation =
        Observation::Exited { status: ExitStatus::Unavailable, stdout: vec![], elapsed: 0 };
    assert_eq!(
        judge(&case, &solver(false), observation),
        Ok(Outcome::RuntimeError { exit_status: ExitStatus::Unavailable })
    );
    let observation =
        Observation::Exited { status: ExitStatus::Signal, stdout: b"3\n".to_vec(), elapsed: 0 };
    assert_eq!(
        judge(&case, &solver(false), observation),
        Ok(Outcome::RuntimeError { exit_status: ExitStatus::Signal })
    );
}

#[test]
fn one_line_feed_at_the_end_makes_no_difference() {
    let case = simple("", "1 2\n3\n", None, Matching::Lines);
    assert_eq!(judge(&case, &solver(false), exited(0, "1 2\n3", 0)), Ok(Outcome::Accepted));
    let case = simple("", "1 2\n3", None, Matching::Lines);
    assert_eq!(judge(&case, &solver(false), exited(0, "1 2\n3\n", 0)), Ok(Outcome::Accepted));
    assert!(agrees(Matching::Lines, &b"".to_vec(), &b"\n".to_vec()));
    assert!(!agrees(Matching::Lines, &b"3\n".to_vec(), &b"3\n\n".to_vec()));
    assert!(!agrees(Matching::Lines, &b"3\n".to_vec(), &b"3 \n".to_vec()));
    assert!(!agrees(Matching::Lines, &b"1\n2\n".to_vec(), &b"2\n1\n".to_vec()));
    assert!(!agrees(Matching::Lines, &b"12".to_vec(), &b"1".to_vec()));
}

#[test]
fn exact_matching_takes_no_difference() {
    assert!(agrees(Matching::Exact, &b"3\n".to_vec(), &b"3\n".to_vec()));
    assert!(!agrees(Matching::Exact, &b"3\n".to_vec(), &b"3".to_vec()));
    assert!(agrees(Matching::Exact, &b"".to_vec(), &b"".to_vec()));
    let case = simple("", "3\n", None, Matching::Exact);
    assert_eq!(
        judge(&case, &solver(false), exited(0, "3", 0)),
        Ok(Outcome::WrongAnswer { actual: b"3".to_vec(), expected: b"3\n".to_vec() })
    );
}

#[test]
fn line_endings_are_normalised_where_the_command_says_so() {
    let case = simple("", "1\n2\n", None, Matching::Lines);
    assert_eq!(judge(&case, &solver(true), exited(0, "1\r\n2\r\n", 0)), Ok(Outcome::Accepted));
    assert_eq!(
        judge(&case, &solver(false), exited(0, "1\r\n2\r\n", 0)),
        Ok(Outcome::WrongAnswer {
            actual: b"1\r\n2\r\n".to_vec(),
            expected: b"1\n2\n".to_vec()
        })
    );
    assert_eq!(
        judge(&case, &solver(true), exited(0, "1\r\n3\r\n", 0)),
        Ok(Outcome::WrongAnswer { actual: b"1\n3\n".to_vec(), expected: b"1\n2\n".to_vec() })
    );
}

#[test]
fn only_a_carriage_return_before_a_line_feed_is_dropped() {
    assert_eq!(normalize_line_endings(&b"a\r\nb\rc\r\r\n\r".to_vec()), b"a\nb\rc\r\n\r".to_vec());
    assert_eq!(normalize_line_endings(&b"".to_vec()), b"".to_vec());
    assert_eq!(normalize_line_endings(&b"\r\n".to_vec()), b"\n".to_vec());
    assert_eq!(normalize_line_endings(&b"\n\r".to_vec()), b"\n\r".to_vec());
}

#[test]
fn the_simple_strategy_refuses_an_interactive_case() {
    assert_eq!(
        judge(&interactive(), &solver(false), exited(0, "", 0)),
        Err(JudgeError::ExpectedSimple)
    );
}

#[test]
fn output_that_is_already_there_is_judged_without_a_process() {
    let cases = vec![
        simple("3\n", "3\n", None, Matching::Lines),
        simple("3\n", "4\n", Some(100), Matching::Lines),
        interactive(),
    ];
    assert_eq!(accepts(&cases, 0, &b"3".to_vec()), Ok(Outcome::Accepted));
    assert_eq!(
        accepts(&cases, 1, &b"3\n".to_vec()),
        Ok(Outcome::WrongAnswer { actual: b"3\n".to_vec(), expected: b"4\n".to_vec() })
    );
    assert_eq!(accepts(&cases, 2, &b"3\n".to_vec()), Err(JudgeError::ExpectedSimple));
    assert_eq!(
        accepts(&cases, 3, &b"3\n".to_vec()),
        Err(JudgeError::IndexOutOfBounds { len: 3, index: 3 })
    );
}

#[test]
fn lookups_fail_out_of_bounds_and_nowhere_else() {
    let cases = vec![
        simple("3\n", "3\n", None, Matching::Lines),
        simple("5\n", "4\n", Some(100), Matching::Lines),
        interactive(),
    ];
    assert_eq!(num_cases(&cases), 3);
    assert_eq!(num_cases(&vec![]), 0);
    assert_eq!(timelimit_millis(&cases, 0), Ok(None));
    assert_eq!(timelimit_millis(&cases, 1), Ok(Some(100)));
    assert_eq!(timelimit_millis(&cases, 2), Ok(Some(2000)));
    assert_eq!(
        timelimit_millis(&cases, 3),
        Err(JudgeError::IndexOutOfBounds { len: 3, index: 3 })
    );
    assert_eq!(input(&cases, 0), Ok(b"3\n".to_vec()));
    assert_eq!(input(&cases, 1), Ok(b"5\n".to_vec()));
    assert_eq!(input(&cases, 2), Ok(vec![]));
    assert_eq!(input(&cases, 4), Err(JudgeError::IndexOutOfBounds { len: 3, index: 4 }));
    assert_eq!(input(&vec![], 0), Err(JudgeError::IndexOutOfBounds { len: 0, index: 0 }));
    assert_eq!(cases[1].name(), "sample");
    assert_eq!(cases[2].timelimit(), Some(2000));
}
