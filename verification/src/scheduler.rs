//! The scheduler: it decides which case starts when, takes the outcomes as
//! they come in, and puts them back into the order of the suite.
//!
//! The scheduler starts nothing by itself. The caller starts the cases that
//! it names, runs them, and hands each outcome back as an [`Event`].

use vstd::prelude::*;
use itertools::Itertools;
use crate::errors::JudgeError;
use crate::outcome::{Outcome, OutcomeView};
use crate::schedule::{
    lemma_count_bounds, lemma_count_update, lemma_initial_wf, lemma_next_wf,
    lemma_results, report_of, results, started, Action, CaseResultView, EventView,
    JudgeReportView, Run,
};
use crate::testsuite::{names_of, TestCase};

verus! {

/// What reaches the scheduler from outside.
#[derive(Clone, Debug, PartialEq, Eq)]
pub enum Event {
    /// The case at `index` has ended with `outcome`.
    Finished { index: usize, outcome: Outcome },
    /// The user has asked for the run to end.
    Interrupt,
}

impl View for Event {
    type V = EventView;

    open spec fn view(&self) -> EventView {
        match self {
            Event::Finished { index, outcome } => EventView::Finished {
                index: *index,
                outcome: outcome@,
            },
            Event::Interrupt => EventView::Interrupt,
        }
    }
}

/// The events of `events`, each by its value.
pub open spec fn events_view(events: Seq<Event>) -> Seq<EventView> {
    Seq::new(events.len(), |i: int| events[i]@)
}

/// A case of a report: its place in the suite, its name and its outcome.
#[derive(Clone, Debug, PartialEq, Eq)]
pub struct CaseResult {
    pub index: usize,
    pub name: String,
    pub outcome: Outcome,
}

impl View for CaseResult {
    type V = CaseResultView;

    open spec fn view(&self) -> CaseResultView {
        CaseResultView { index: self.index as nat, name: self.name@, outcome: self.outcome@ }
    }
}

/// The entries of `outcomes`, each by its value.
pub open spec fn results_view(outcomes: Seq<CaseResult>) -> Seq<CaseResultView> {
    Seq::new(outcomes.len(), |i: int| outcomes[i]@)
}

/// What a run reports when it ends.
#[derive(Clone, Debug, PartialEq, Eq)]
pub struct JudgeReport {
    /// The number of cases in the suite.
    pub total: usize,
    /// The number of outcomes that are failures.
    pub failures: usize,
    /// The outcomes that came in, in the order of the suite.
    pub outcomes: Vec<CaseResult>,
    /// Whether the run ended before every case had reported.
    pub interrupted: bool,
}

impl View for JudgeReport {
    type V = JudgeReportView;

    open spec fn view(&self) -> JudgeReportView {
        JudgeReportView {
            total: self.total as nat,
            failures: self.failures as nat,
            outcomes: results_view(self.outcomes@),
            interrupted: self.interrupted,
        }
    }
}

impl JudgeReport {
    /// Whether the run as a whole has passed: an interrupted run has not, nor
    /// one with a failure.
    pub open spec fn spec_verdict(self) -> Result<(), JudgeError> {
        if self.interrupted {
            Err(JudgeError::Interrupted)
        } else if self.failures > 0 {
            Err(JudgeError::TestFailed { failures: self.failures, total: self.total })
        } else {
            Ok(())
        }
    }

    /// Whether the run as a whole has passed, and how it has not.
    pub fn verdict(&self) -> (r: Result<(), JudgeError>)
        ensures
            r == self.spec_verdict(),
    {
        if self.interrupted {
            Err(JudgeError::Interrupted)
        } else if self.failures > 0 {
            Err(JudgeError::TestFailed { failures: self.failures, total: self.total })
        } else {
            Ok(())
        }
    }
}

/// The value of a slot: the outcome that it holds, if any.
pub open spec fn slot_view(slot: Option<Outcome>) -> Option<OutcomeView> {
    match slot {
        Some(outcome) => Some(outcome@),
        None => None,
    }
}

/// The values of `slots`.
pub open spec fn recorded_of(slots: Seq<Option<Outcome>>) -> Seq<Option<OutcomeView>> {
    Seq::new(slots.len(), |i: int| slot_view(slots[i]))
}

/// Pairs each name with the case at the same place. This is
/// `Itertools::zip_eq` of the two vectors, collected: it walks both in step
/// and yields the pairs in order, and it panics if one ends before the other,
/// which the equal lengths exclude.
#[verifier::external_body]
fn zip_eq(names: Vec<String>, cases: Vec<TestCase>) -> (pairs: Vec<(String, TestCase)>)
    requires
        names@.len() == cases@.len(),
    ensures
        pairs@.len() == names@.len(),
        forall|i: int|
            0 <= i < pairs@.len() ==> (#[trigger] pairs@[i]).0 == names@[i] && pairs@[i].1
                == cases@[i],
{
    names.into_iter().zip_eq(cases).collect()
}

/// The state of a run.
pub struct Scheduler {
    entries: Vec<(String, TestCase)>,
    jobs: usize,
    dispatched: usize,
    slots: Vec<Option<Outcome>>,
    finished: usize,
    failures: usize,
    interrupted: bool,
}

impl View for Scheduler {
    type V = Run;

    closed spec fn view(&self) -> Run {
        Run {
            total: self.entries@.len(),
            jobs: self.jobs as nat,
            dispatched: self.dispatched as nat,
            recorded: recorded_of(self.slots@),
            interrupted: self.interrupted,
        }
    }
}

impl Scheduler {
    /// The cases of the run, in the order of the suite.
    pub closed spec fn cases(&self) -> Seq<TestCase> {
        Seq::new(self.entries@.len(), |i: int| self.entries@[i].1)
    }

    /// The names of the cases, in the order of the suite.
    pub closed spec fn names(&self) -> Seq<Seq<char>> {
        Seq::new(self.entries@.len(), |i: int| self.entries@[i].0@)
    }

    /// The state is one that a run can be in, and the counters agree with
    /// it.
    pub closed spec fn wf(&self) -> bool {
        &&& self@.wf()
        &&& self.slots@.len() == self.entries@.len()
        &&& self.finished == self@.finished()
        &&& self.failures == self@.failures()
    }

    /// A scheduler that is well formed stands for a run that is well formed:
    /// what is proved of runs holds of every scheduler. Its counters are
    /// those of the run, and it holds a name for each case.
    pub proof fn lemma_run_is_well_formed(&self)
        requires
            self.wf(),
        ensures
            self@.wf(),
            self@.total == self.cases().len(),
            self.names().len() == self.cases().len(),
            self@.finished() <= self@.dispatched <= self@.total,
            self@.failures() <= self@.finished(),
    {
        lemma_count_bounds(self@.recorded);
    }

    /// Begins a run of `cases` with at most `jobs` of them running at a time.
    /// The caller starts the first `min(jobs, cases.len())` cases at once.
    pub fn new(cases: Vec<TestCase>, jobs: usize) -> (r: Scheduler)
        requires
            jobs >= 1,
        ensures
            r.wf(),
            r@ == Run::initial(cases@.len(), jobs as nat),
            r.cases() == cases@,
            r.names() == names_of(cases@),
    {
        let total = cases.len();
        let mut names: Vec<String> = Vec::new();
        let mut slots: Vec<Option<Outcome>> = Vec::new();
        let mut i: usize = 0;
        while i < total
            invariant
                i <= total,
                total == cases@.len(),
                names@.len() == i,
                slots@.len() == i,
                forall|k: int| 0 <= k < i ==> (#[trigger] names@[k])@ == cases@[k].spec_name(),
                forall|k: int| 0 <= k < i ==> (#[trigger] slots@[k]) is None,
            decreases total - i,
        {
            names.push(cases[i].name());
            slots.push(None);
            i = i + 1;
        }
        let entries = zip_eq(names, cases);
        let dispatched = if jobs < total {
            jobs
        } else {
            total
        };
        let r = Scheduler {
            entries,
            jobs,
            dispatched,
            slots,
            finished: 0,
            failures: 0,
            interrupted: false,
        };
        proof {
            lemma_initial_wf(total as nat, jobs as nat);
            assert(r@.recorded =~= Run::initial(total as nat, jobs as nat).recorded);
            assert(r.cases() =~= cases@);
            assert(r.names() =~= names_of(cases@));
        }
        r
    }

    /// Takes `event` and says what the caller has to do next.
    ///
    /// A report is taken if its case is running and no interrupt has come. It
    /// frees a slot, and if a case is left to start, the answer names it: the
    /// slots stay full until the suite is exhausted. An interrupt is taken
    /// while some case has yet to report; from then on nothing is taken.
    pub fn step(&mut self, event: Event) -> (action: Action)
        requires
            old(self).wf(),
        ensures
            final(self).wf(),
            final(self)@ == old(self)@.next(event@),
            action == old(self)@.action(event@),
            final(self).cases() == old(self).cases(),
            final(self).names() == old(self).names(),
    {
        let total = self.entries.len();
        proof {
            lemma_next_wf(self@, event@);
            lemma_count_bounds(self@.recorded);
        }
        match event {
            Event::Interrupt => {
                if self.interrupted || self.finished == total {
                    Action::Ignore
                } else {
                    self.interrupted = true;
                    Action::Abort
                }
            },
            Event::Finished { index, outcome } => {
                if self.interrupted || index >= self.dispatched || self.slots[index].is_some() {
                    Action::Ignore
                } else {
                    let failed = outcome.failure();
                    proof {
                        lemma_count_update(self@.recorded, index as int, outcome@);
                        assert(recorded_of(self.slots@.update(index as int, Some(outcome)))
                            =~= self@.recorded.update(index as int, Some(outcome@)));
                    }
                    self.slots.set(index, Some(outcome));
                    self.finished = self.finished + 1;
                    if failed {
                        self.failures = self.failures + 1;
                    }
                    if self.dispatched < total {
                        let started = self.dispatched;
                        self.dispatched = self.dispatched + 1;
                        Action::Dispatch(started)
                    } else if self.finished == total {
                        Action::Complete
                    } else {
                        Action::Wait
                    }
                }
            },
        }
    }

    /// The number of cases in the suite.
    pub fn total(&self) -> (r: usize)
        requires
            self.wf(),
        ensures
            r == self@.total,
    {
        self.entries.len()
    }

    /// The number of cases that may run at a time.
    pub fn jobs(&self) -> (r: usize)
        ensures
            r == self@.jobs,
    {
        self.jobs
    }

    /// The number of cases that have been started: the cases before this
    /// index, and no others.
    pub fn dispatched(&self) -> (r: usize)
        ensures
            r == self@.dispatched,
    {
        self.dispatched
    }

    /// The number of cases that have reported.
    pub fn finished(&self) -> (r: usize)
        requires
            self.wf(),
        ensures
            r == self@.finished(),
    {
        self.finished
    }

    /// The number of cases that have reported a failure.
    pub fn failures(&self) -> (r: usize)
        requires
            self.wf(),
        ensures
            r == self@.failures(),
    {
        self.failures
    }

    /// The number of cases that run: never more than there are jobs.
    pub fn in_flight(&self) -> (r: usize)
        requires
            self.wf(),
        ensures
            r == self@.in_flight(),
            r <= self@.jobs,
    {
        self.dispatched - self.finished
    }

    /// Whether an interrupt has been taken.
    pub fn is_interrupted(&self) -> (r: bool)
        ensures
            r == self@.interrupted,
    {
        self.interrupted
    }

    /// Whether every case has reported.
    pub fn is_complete(&self) -> (r: bool)
        requires
            self.wf(),
        ensures
            r == self@.is_complete(),
    {
        self.finished == self.entries.len()
    }

    /// The case at `index`, if the suite has one there.
    pub fn case(&self, index: usize) -> (r: Option<&TestCase>)
        ensures
            index < self.cases().len() ==> r is Some && *r->0 == self.cases()[index as int],
            index >= self.cases().len() ==> r is None,
    {
        if index < self.entries.len() {
            Some(&self.entries[index].1)
        } else {
            None
        }
    }

    /// The name of the case at `index`, if the suite has one there.
    pub fn name(&self, index: usize) -> (r: Option<&String>)
        ensures
            index < self.names().len() ==> r is Some && r->0@ == self.names()[index as int],
            index >= self.names().len() ==> r is None,
    {
        if index < self.entries.len() {
            Some(&self.entries[index].0)
        } else {
            None
        }
    }

    /// Every case that has been started, in the order of the suite: with its
    /// outcome if it has reported, and as interrupted if it has not. A case
    /// that was never started is not among them.
    pub fn run_result(&self) -> (r: Vec<CaseResult>)
        requires
            self.wf(),
        ensures
            results_view(r@) == started(self.names(), self@),
    {
        let mut out: Vec<CaseResult> = Vec::new();
        let mut i: usize = 0;
        assert(results_view(out@) =~= started(self.names(), self@).take(0));
        while i < self.dispatched
            invariant
                i <= self.dispatched,
                self.wf(),
                results_view(out@) == started(self.names(), self@).take(i as int),
            decreases self.dispatched - i,
        {
            let outcome = match &self.slots[i] {
                Some(outcome) => outcome.duplicate(),
                None => Outcome::Interrupted,
            };
            let entry = CaseResult { index: i, name: self.entries[i].0.clone(), outcome };
            let ghost before = results_view(out@);
            assert(self@.recorded[i as int] == slot_view(self.slots@[i as int]));
            assert(entry@ == started(self.names(), self@)[i as int]);
            out.push(entry);
            assert(results_view(out@) =~= before.push(entry@));
            i = i + 1;
            assert(results_view(out@) =~= started(self.names(), self@).take(i as int));
        }
        assert(started(self.names(), self@).take(i as int) == started(self.names(), self@));
        out
    }

    /// The report of the run as it stands: the outcomes that have come in, in
    /// the order of the suite and each under the name of its case, however
    /// the reports were ordered in time.
    pub fn report(&self) -> (r: JudgeReport)
        requires
            self.wf(),
        ensures
            r@ == report_of(self.names(), self@),
            r@.outcomes.len() <= self@.total,
            r@.interrupted <==> r@.outcomes.len() < self@.total,
            forall|a: int| 0 <= a < r.outcomes@.len() ==> (#[trigger] r.outcomes@[a]).index < r.total,
            forall|a: int, b: int|
                0 <= a < b < r.outcomes@.len() ==> (#[trigger] r.outcomes@[a]).index < (
                #[trigger] r.outcomes@[b]).index,
    {
        let total = self.slots.len();
        let mut outcomes: Vec<CaseResult> = Vec::new();
        let mut i: usize = 0;
        while i < total
            invariant
                i <= total,
                total == self.slots@.len(),
                self.slots@.len() == self.entries@.len(),
                results_view(outcomes@) == results(self.names(), self@.recorded.take(i as int)),
            decreases total - i,
        {
            let ghost before = results_view(outcomes@);
            assert(self@.recorded.take(i + 1).drop_last() == self@.recorded.take(i as int));
            match &self.slots[i] {
                Some(outcome) => {
                    let entry = CaseResult {
                        index: i,
                        name: self.entries[i].0.clone(),
                        outcome: outcome.duplicate(),
                    };
                    outcomes.push(entry);
                    assert(results_view(outcomes@) =~= before.push(entry@));
                },
                None => {},
            }
            i = i + 1;
        }
        proof {
            assert(self@.recorded.take(total as int) == self@.recorded);
            lemma_results(self.names(), self@.recorded);
            lemma_count_bounds(self@.recorded);
            assert forall|a: int, b: int| 0 <= a < b < outcomes@.len() implies (
            #[trigger] outcomes@[a]).index < (#[trigger] outcomes@[b]).index by {
                assert(results_view(outcomes@)[a].index < results_view(outcomes@)[b].index);
            }
            assert forall|a: int| 0 <= a < outcomes@.len() implies (#[trigger] outcomes@[a]).index
                < total by {
                assert(results_view(outcomes@)[a].index < self@.recorded.len());
            }
        }
        JudgeReport {
            total,
            failures: self.failures,
            outcomes,
            interrupted: self.finished < total,
        }
    }
}

/// Judges a suite from the events of its run: what the scheduler makes of
/// `events`, taken one after the other from the start of a run of `cases`
/// with at most `jobs` of them running at a time.
///
/// The report holds the outcome of every case whose report belonged to the
/// run, in the order of the suite: never more than there are cases, and one
/// for each case unless the run ended early.
pub fn judge(cases: Vec<TestCase>, jobs: usize, events: Vec<Event>) -> (report: JudgeReport)
    requires
        jobs >= 1,
    ensures
        report@ == report_of(
            names_of(cases@),
            Run::initial(cases@.len(), jobs as nat).run_all(events_view(events@)),
        ),
        report@.total == cases@.len(),
        report@.outcomes.len() <= cases@.len(),
        !report@.interrupted <==> report@.outcomes.len() == cases@.len(),
        forall|a: int|
            0 <= a < report.outcomes@.len() ==> (#[trigger] report.outcomes@[a]).index
                < report.total,
        forall|a: int, b: int|
            0 <= a < b < report.outcomes@.len() ==> (#[trigger] report.outcomes@[a]).index < (
            #[trigger] report.outcomes@[b]).index,
{
    let ghost start = Run::initial(cases@.len(), jobs as nat);
    let ghost all = events_view(events@);
    let mut scheduler = Scheduler::new(cases, jobs);
    let mut i: usize = 0;
    assert(all.skip(0) == all);
    while i < events.len()
        invariant
            i <= events.len(),
            scheduler.wf(),
            all == events_view(events@),
            scheduler@.run_all(all.skip(i as int)) == start.run_all(all),
            scheduler@.total == start.total,
            scheduler.names() == names_of(cases@),
        decreases events.len() - i,
    {
        let event = match &events[i] {
            Event::Finished { index, outcome } => Event::Finished {
                index: *index,
                outcome: outcome.duplicate(),
            },
            Event::Interrupt => Event::Interrupt,
        };
        proof {
            assert(event@ == all[i as int]);
            assert(all.skip(i as int)[0] == all[i as int]);
            assert(all.skip(i as int).skip(1) == all.skip(i + 1));
            lemma_next_wf(scheduler@, event@);
        }
        scheduler.step(event);
        i = i + 1;
    }
    assert(all.skip(i as int).len() == 0);
    scheduler.report()
}

} // verus!
