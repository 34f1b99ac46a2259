use snowchains::errors::JudgeError;
use snowchains::outcome::{ExitStatus, Outcome};
use snowchains::schedule::Action;
use snowchains::scheduler::{judge, CaseResult, Event, JudgeReport, Scheduler};
use snowchains::testsuite::{JudgingCommand, TestCase};
use snowchains::text::Matching;

fn case(name: &str) -> TestCase {
    TestCase::Simple {
        name: name.to_owned(),
        input: b"1\n".to_vec(),
        expected_output: b"1\n".to_vec(),
        timelimit: None,
        matching: Matching::Lines,
    }
}

fn suite(n: usize) -> Vec<TestCase> {
    (0..n).map(|i| case(&format!("case{}", i))).collect()
}

fn finished(index: usize, outcome: Outcome) -> Event {
    Event::Finished { index, outcome }
}

fn wrong() -> Outcome {
    Outcome::WrongAnswer { actual: b"3\n".to_vec(), expected: b"4\n".to_vec() }
}

fn indices(report: &JudgeReport) -> Vec<usize> {
    report.outcomes.iter().map(|r| r.index).collect()
}

#[test]
fn an_empty_suite_is_complete_at_once() {
    let scheduler = Scheduler::new(vec![], 3);
    assert_eq!(scheduler.total(), 0);
    assert_eq!(scheduler.dispatched(), 0);
    assert!(scheduler.is_complete());
    let report = scheduler.report();
    assert_eq!(report.total, 0);
    assert_eq!(report.failures, 0);
    assert!(report.outcomes.is_empty());
    assert!(!report.interrupted);
    assert_eq!(report.verdict(), Ok(()));
}

#[test]
fn the_first_batch_fills_the_slots() {
    assert_eq!(Scheduler::new(suite(5), 2).dispatched(), 2);
    assert_eq!(Scheduler::new(suite(5), 1).dispatched(), 1);
    assert_eq!(Scheduler::new(suite(2), 2).dispatched(), 2);
}

#[test]
fn with_as_many_jobs_as_cases_every_case_starts_at_once() {
    let mut scheduler = Scheduler::new(suite(4), 4);
    assert_eq!(scheduler.dispatched(), 4);
    assert_eq!(scheduler.in_flight(), 4);
    assert_eq!(scheduler.step(finished(2, Outcome::Accepted)), Action::Wait);
    assert_eq!(scheduler.step(finished(0, Outcome::Accepted)), Action::Wait);
    assert_eq!(scheduler.step(finished(3, Outcome::Accepted)), Action::Wait);
    assert_eq!(scheduler.step(finished(1, Outcome::Accepted)), Action::Complete);
    assert_eq!(Scheduler::new(suite(3), 100).dispatched(), 3);
}

#[test]
fn with_one_job_cases_run_one_after_the_other() {
    let mut scheduler = Scheduler::new(suite(3), 1);
    assert_eq!(scheduler.dispatched(), 1);
    // The second case has not been started: its report does not belong to the run.
    assert_eq!(scheduler.step(finished(1, Outcome::Accepted)), Action::Ignore);
    assert_eq!(scheduler.finished(), 0);
    assert_eq!(scheduler.step(finished(0, Outcome::Accepted)), Action::Dispatch(1));
    assert_eq!(scheduler.in_flight(), 1);
    assert_eq!(scheduler.step(finished(2, Outcome::Accepted)), Action::Ignore);
    assert_eq!(scheduler.step(finished(1, Outcome::Accepted)), Action::Dispatch(2));
    assert_eq!(scheduler.step(finished(2, Outcome::Accepted)), Action::Complete);
    assert!(scheduler.is_complete());
}

#[test]
fn a_free_slot_is_refilled_in_the_order_of_the_suite() {
    let mut scheduler = Scheduler::new(suite(5), 2);
    assert_eq!(scheduler.step(finished(1, Outcome::Accepted)), Action::Dispatch(2));
    assert_eq!(scheduler.in_flight(), 2);
    assert_eq!(scheduler.step(finished(2, wrong())), Action::Dispatch(3));
    assert_eq!(scheduler.step(finished(3, Outcome::Accepted)), Action::Dispatch(4));
    assert_eq!(scheduler.dispatched(), 5);
    assert_eq!(scheduler.step(finished(0, Outcome::Accepted)), Action::Wait);
    assert_eq!(scheduler.in_flight(), 1);
    assert_eq!(scheduler.finished(), 4);
    assert_eq!(scheduler.failures(), 1);
    assert_eq!(scheduler.step(finished(4, Outcome::Accepted)), Action::Complete);
    assert_eq!(scheduler.in_flight(), 0);
}

#[test]
fn no_outcome_is_taken_twice() {
    let mut scheduler = Scheduler::new(suite(2), 2);
    assert_eq!(scheduler.step(finished(0, Outcome::Accepted)), Action::Wait);
    assert_eq!(scheduler.step(finished(0, wrong())), Action::Ignore);
    assert_eq!(scheduler.finished(), 1);
    assert_eq!(scheduler.failures(), 0);
    assert_eq!(scheduler.step(finished(7, wrong())), Action::Ignore);
    let report = scheduler.report();
    assert_eq!(report.outcomes.len(), 1);
    assert_eq!(report.outcomes[0].outcome, Outcome::Accepted);
}

#[test]
fn the_report_follows_the_suite_not_the_clock() {
    let slow_first = vec![
        finished(1, wrong()),
        finished(2, Outcome::Accepted),
        finished(0, Outcome::TimeLimitExceeded { elapsed: 2000 }),
    ];
    let report = judge(suite(3), 3, slow_first);
    assert_eq!(indices(&report), vec![0, 1, 2]);
    assert_eq!(
        report.outcomes,
        vec![
            CaseResult {
                index: 0,
                name: "case0".to_owned(),
                outcome: Outcome::TimeLimitExceeded { elapsed: 2000 },
            },
            CaseResult { index: 1, name: "case1".to_owned(), outcome: wrong() },
            CaseResult { index: 2, name: "case2".to_owned(), outcome: Outcome::Accepted },
        ]
    );
    assert_eq!(report.total, 3);
    assert_eq!(report.failures, 2);
    assert!(!report.interrupted);
    assert_eq!(report.verdict(), Err(JudgeError::TestFailed { failures: 2, total: 3 }));
}

#[test]
fn two_orders_of_the_same_reports_give_the_same_report() {
    let one = vec![
        finished(0, Outcome::Accepted),
        finished(1, wrong()),
        finished(2, Outcome::Accepted),
        finished(3, Outcome::Accepted),
    ];
    let other = vec![
        finished(1, wrong()),
        finished(0, Outcome::Accepted),
        finished(3, Outcome::Accepted),
        finished(2, Outcome::Accepted),
    ];
    assert_eq!(judge(suite(4), 2, one), judge(suite(4), 2, other));
}

#[test]
fn a_run_without_interrupt_reports_every_case() {
    for n in 0..6 {
        for jobs in 1..8 {
            let events = (0..n).map(|i| finished(i, Outcome::Accepted)).collect();
            let report = judge(suite(n), jobs, events);
            assert_eq!(report.outcomes.len(), n);
            assert_eq!(indices(&report), (0..n).collect::<Vec<_>>());
            assert!(!report.interrupted);
            assert_eq!(report.verdict(), Ok(()));
        }
    }
}

#[test]
fn an_interrupt_ends_the_run() {
    let mut scheduler = Scheduler::new(suite(5), 2);
    assert_eq!(scheduler.step(finished(1, Outcome::Accepted)), Action::Dispatch(2));
    assert_eq!(scheduler.step(Event::Interrupt), Action::Abort);
    assert!(scheduler.is_interrupted());
    // What comes in after the interrupt is not taken, and nothing is started.
    assert_eq!(scheduler.step(finished(0, Outcome::Accepted)), Action::Ignore);
    assert_eq!(scheduler.step(finished(2, wrong())), Action::Ignore);
    assert_eq!(scheduler.step(Event::Interrupt), Action::Ignore);
    assert_eq!(scheduler.dispatched(), 3);
    assert_eq!(scheduler.finished(), 1);
    let report = scheduler.report();
    assert_eq!(report.total, 5);
    assert_eq!(indices(&report), vec![1]);
    assert!(report.outcomes.len() < 5);
    assert!(report.interrupted);
    assert_eq!(report.failures, 0);
    assert_eq!(report.verdict(), Err(JudgeError::Interrupted));
}

#[test]
fn cases_in_flight_at_an_interrupt_are_marked_and_the_rest_is_absent() {
    let mut scheduler = Scheduler::new(suite(5), 2);
    scheduler.step(finished(1, wrong()));
    scheduler.step(Event::Interrupt);
    let started = scheduler.run_result();
    assert_eq!(
        started,
        vec![
            CaseResult { index: 0, name: "case0".to_owned(), outcome: Outcome::Interrupted },
            CaseResult { index: 1, name: "case1".to_owned(), outcome: wrong() },
            CaseResult { index: 2, name: "case2".to_owned(), outcome: Outcome::Interrupted },
        ]
    );
}

#[test]
fn an_interrupt_after_the_last_report_changes_nothing() {
    let events = vec![
        finished(0, Outcome::Accepted),
        finished(1, Outcome::Accepted),
        Event::Interrupt,
    ];
    let report = judge(suite(2), 1, events);
    assert_eq!(report.outcomes.len(), 2);
    assert!(!report.interrupted);
    assert_eq!(report.verdict(), Ok(()));
}

#[test]
fn judge_stops_taking_reports_at_an_interrupt() {
    let events = vec![
        finished(0, Outcome::RuntimeError { exit_status: ExitStatus::Code(1) }),
        Event::Interrupt,
        finished(1, Outcome::Accepted),
        finished(2, Outcome::Accepted),
    ];
    let report = judge(suite(3), 3, events);
    assert_eq!(indices(&report), vec![0]);
    assert_eq!(report.failures, 1);
    assert!(report.interrupted);
    assert_eq!(report.verdict(), Err(JudgeError::Interrupted));
}

#[test]
fn a_run_that_is_cut_short_is_not_complete() {
    let report = judge(suite(3), 2, vec![finished(0, Outcome::Accepted)]);
    assert_eq!(report.outcomes.len(), 1);
    assert!(report.interrupted);
}

#[test]
fn each_case_keeps_its_name_and_its_place() {
    let tester = JudgingCommand {
        program: "python3".to_owned(),
        args: vec!["tester.py".to_owned()],
        working_dir: ".".to_owned(),
        env: vec![("LANG".to_owned(), "C".to_owned())],
        normalize_line_endings: false,
    };
    let cases = vec![
        case("first"),
        TestCase::Interactive {
            name: "second".to_owned(),
            tester_command: tester.clone(),
            timelimit: Some(500),
        },
        case("third"),
    ];
    let scheduler = Scheduler::new(cases.clone(), 2);
    assert_eq!(scheduler.total(), 3);
    assert_eq!(scheduler.jobs(), 2);
    for (i, expected) in ["first", "second", "third"].iter().enumerate() {
        assert_eq!(scheduler.name(i).map(|s| s.as_str()), Some(*expected));
        assert_eq!(scheduler.case(i), Some(&cases[i]));
    }
    assert_eq!(scheduler.name(3), None);
    assert_eq!(scheduler.case(3), None);
}
