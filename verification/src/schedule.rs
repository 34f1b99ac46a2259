//! The mathematical model of a run: which cases have been started, which
//! have reported, and what each event does to that.

use vstd::prelude::*;
use crate::outcome::OutcomeView;

verus! {

/// What reaches the scheduler from outside.
pub enum EventView {
    /// The case at `index` has ended with `outcome`.
    Finished { index: usize, outcome: OutcomeView },
    /// The user has asked for the run to end.
    Interrupt,
}

/// What the caller has to do after an event.
#[derive(Clone, Copy, Debug, PartialEq, Eq, Structural)]
pub enum Action {
    /// Start the case at this index: a slot has become free.
    Dispatch(usize),
    /// Nothing is left to start; some cases are still running.
    Wait,
    /// Every case has reported.
    Complete,
    /// End every running case at once and report what has come in.
    Abort,
    /// The event does not belong to the run and has changed nothing.
    Ignore,
}

/// The state of a run over `total` cases with at most `jobs` of them running
/// at a time.
pub struct Run {
    pub total: nat,
    pub jobs: nat,
    /// The cases before this index have been started, and no others.
    pub dispatched: nat,
    /// By index, the outcome of each case that has reported.
    pub recorded: Seq<Option<OutcomeView>>,
    pub interrupted: bool,
}

/// The number of cases in `slots` that have reported.
pub open spec fn count_recorded(slots: Seq<Option<OutcomeView>>) -> nat
    decreases slots.len(),
{
    if slots.len() == 0 {
        0
    } else {
        count_recorded(slots.drop_last()) + if slots.last() is Some {
            1nat
        } else {
            0nat
        }
    }
}

/// Whether `slot` holds an outcome that is a failure.
pub open spec fn is_failed(slot: Option<OutcomeView>) -> bool {
    match slot {
        Some(outcome) => outcome.is_failure(),
        None => false,
    }
}

/// The number of cases in `slots` that have reported a failure.
pub open spec fn count_failed(slots: Seq<Option<OutcomeView>>) -> nat
    decreases slots.len(),
{
    if slots.len() == 0 {
        0
    } else {
        count_failed(slots.drop_last()) + if is_failed(slots.last()) {
            1nat
        } else {
            0nat
        }
    }
}

/// Whether no case at `from` or after it has reported.
pub open spec fn none_from(slots: Seq<Option<OutcomeView>>, from: int) -> bool {
    forall|i: int| from <= i < slots.len() ==> slots[i] is None
}

impl Run {
    /// The number of cases that have reported.
    pub open spec fn finished(self) -> nat {
        count_recorded(self.recorded)
    }

    /// The number of cases that have reported a failure.
    pub open spec fn failures(self) -> nat {
        count_failed(self.recorded)
    }

    /// The number of cases that have been started and have not reported.
    pub open spec fn in_flight(self) -> int {
        self.dispatched - self.finished()
    }

    /// Whether every case has reported.
    pub open spec fn is_complete(self) -> bool {
        self.finished() == self.total
    }

    /// Whether the case at `index` has been started and has not reported.
    pub open spec fn is_running(self, index: int) -> bool {
        0 <= index < self.dispatched && index < self.recorded.len() && self.recorded[index] is None
    }

    /// What holds of every state of a run: cases are started in their order,
    /// only started cases report, at most `jobs` run at a time, and until an
    /// interrupt no slot stays free while a case waits.
    pub open spec fn wf(self) -> bool {
        &&& self.jobs >= 1
        &&& self.recorded.len() == self.total
        &&& self.dispatched <= self.total
        &&& none_from(self.recorded, self.dispatched as int)
        &&& 0 <= self.in_flight() <= self.jobs
        &&& !self.interrupted ==> self.dispatched == self.total || self.in_flight() == self.jobs
    }

    /// The state in which a run starts: as many cases as there are slots have
    /// been started, and none has reported.
    pub open spec fn initial(total: nat, jobs: nat) -> Run {
        Run {
            total,
            jobs,
            dispatched: if jobs < total {
                jobs
            } else {
                total
            },
            recorded: Seq::new(total, |i: int| None::<OutcomeView>),
            interrupted: false,
        }
    }

    /// Whether `event` belongs to the run in this state. A report belongs to
    /// it if its case is running and no interrupt has come; an interrupt, if
    /// some case has yet to report and none has come before.
    pub open spec fn accepts(self, event: EventView) -> bool {
        match event {
            EventView::Finished { index, .. } => !self.interrupted && self.is_running(index as int),
            EventView::Interrupt => !self.interrupted && !self.is_complete(),
        }
    }

    /// The state after `event`.
    pub open spec fn next(self, event: EventView) -> Run {
        if !self.accepts(event) {
            self
        } else {
            match event {
                EventView::Finished { index, outcome } => Run {
                    dispatched: if self.dispatched < self.total {
                        self.dispatched + 1
                    } else {
                        self.dispatched
                    },
                    recorded: self.recorded.update(index as int, Some(outcome)),
                    ..self
                },
                EventView::Interrupt => Run { interrupted: true, ..self },
            }
        }
    }

    /// What the caller has to do after `event`.
    pub open spec fn action(self, event: EventView) -> Action {
        if !self.accepts(event) {
            Action::Ignore
        } else {
            match event {
                EventView::Finished { .. } => if self.dispatched < self.total {
                    Action::Dispatch(self.dispatched as usize)
                } else if self.finished() + 1 == self.total {
                    Action::Complete
                } else {
                    Action::Wait
                },
                EventView::Interrupt => Action::Abort,
            }
        }
    }

    /// The state after each of `events` in turn.
    pub open spec fn run_all(self, events: Seq<EventView>) -> Run
        decreases events.len(),
    {
        if events.len() == 0 {
            self
        } else {
            self.next(events[0]).run_all(events.skip(1))
        }
    }

    /// Whether each of `events` in turn is a report that belongs to the run.
    pub open spec fn all_reports_accepted(self, events: Seq<EventView>) -> bool
        decreases events.len(),
    {
        if events.len() == 0 {
            true
        } else {
            &&& events[0] is Finished
            &&& self.accepts(events[0])
            &&& self.next(events[0]).all_reports_accepted(events.skip(1))
        }
    }
}

/// A case of a report: its place in the suite, its name and its outcome.
pub struct CaseResultView {
    pub index: nat,
    pub name: Seq<char>,
    pub outcome: OutcomeView,
}

/// The cases of `recorded` that have reported, in the order of the suite.
pub open spec fn results(names: Seq<Seq<char>>, recorded: Seq<Option<OutcomeView>>) -> Seq<
    CaseResultView,
>
    decreases recorded.len(),
{
    if recorded.len() == 0 {
        Seq::empty()
    } else {
        let before = results(names, recorded.drop_last());
        match recorded.last() {
            Some(outcome) => before.push(
                CaseResultView {
                    index: (recorded.len() - 1) as nat,
                    name: names[recorded.len() - 1],
                    outcome,
                },
            ),
            None => before,
        }
    }
}

/// Every case of `run` that has been started, in the order of the suite: with
/// its outcome if it has reported, and as interrupted if it has not.
pub open spec fn started(names: Seq<Seq<char>>, run: Run) -> Seq<CaseResultView> {
    Seq::new(
        run.dispatched,
        |i: int|
            CaseResultView {
                index: i as nat,
                name: names[i],
                outcome: match run.recorded[i] {
                    Some(outcome) => outcome,
                    None => OutcomeView::Interrupted,
                },
            },
    )
}

/// What a run reports when it ends.
pub struct JudgeReportView {
    pub total: nat,
    pub failures: nat,
    pub outcomes: Seq<CaseResultView>,
    /// Whether the run ended before every case had reported.
    pub interrupted: bool,
}

/// The report of `run` over cases with these names.
pub open spec fn report_of(names: Seq<Seq<char>>, run: Run) -> JudgeReportView {
    JudgeReportView {
        total: run.total,
        failures: run.failures(),
        outcomes: results(names, run.recorded),
        interrupted: !run.is_complete(),
    }
}

/// No more cases have reported than there are, and no more have failed than
/// have reported.
pub proof fn lemma_count_bounds(slots: Seq<Option<OutcomeView>>)
    ensures
        count_failed(slots) <= count_recorded(slots) <= slots.len(),
    decreases slots.len(),
{
    if slots.len() > 0 {
        lemma_count_bounds(slots.drop_last());
    }
}

/// Cases that have not reported do not count.
pub proof fn lemma_count_take(slots: Seq<Option<OutcomeView>>, from: int)
    requires
        0 <= from <= slots.len(),
        none_from(slots, from),
    ensures
        count_recorded(slots) == count_recorded(slots.take(from)),
    decreases slots.len(),
{
    if slots.len() == from {
        assert(slots.take(from) == slots);
    } else {
        assert(slots.last() is None);
        assert(slots.drop_last().take(from) == slots.take(from));
        lemma_count_take(slots.drop_last(), from);
    }
}

/// Where as many cases have reported as there are, each has; where fewer
/// have, some case has not.
pub proof fn lemma_count_full(slots: Seq<Option<OutcomeView>>)
    ensures
        count_recorded(slots) == slots.len() <==> forall|i: int|
            0 <= i < slots.len() ==> slots[i] is Some,
    decreases slots.len(),
{
    if slots.len() > 0 {
        let front = slots.drop_last();
        lemma_count_full(front);
        lemma_count_bounds(front);
        if count_recorded(slots) == slots.len() {
            assert forall|i: int| 0 <= i < slots.len() implies slots[i] is Some by {
                if i < front.len() {
                    assert(front[i] is Some);
                }
            }
        } else if slots.last() is Some {
            let i = choose|i: int| 0 <= i < front.len() && !(front[i] is Some);
            assert(!(slots[i] is Some));
        }
    }
}

/// A report of a case that had not reported adds one to the count, and one
/// to the failures if it is a failure.
pub proof fn lemma_count_update(slots: Seq<Option<OutcomeView>>, index: int, outcome: OutcomeView)
    requires
        0 <= index < slots.len(),
        slots[index] is None,
    ensures
        count_recorded(slots.update(index, Some(outcome))) == count_recorded(slots) + 1,
        count_failed(slots.update(index, Some(outcome))) == count_failed(slots) + if outcome.is_failure() {
            1nat
        } else {
            0nat
        },
    decreases slots.len(),
{
    let after = slots.update(index, Some(outcome));
    if index == slots.len() - 1 {
        assert(after.drop_last() == slots.drop_last());
    } else {
        assert(after.drop_last() == slots.drop_last().update(index, Some(outcome)));
        lemma_count_update(slots.drop_last(), index, outcome);
    }
}

/// A report holds one entry for each case that has reported, and they stand
/// in the order of the suite, each under its own name and with its own
/// outcome.
pub proof fn lemma_results(names: Seq<Seq<char>>, recorded: Seq<Option<OutcomeView>>)
    ensures
        results(names, recorded).len() == count_recorded(recorded),
        forall|a: int|
            0 <= a < results(names, recorded).len() ==> {
                let entry = #[trigger] results(names, recorded)[a];
                &&& entry.index < recorded.len()
                &&& recorded[entry.index as int] == Some(entry.outcome)
                &&& entry.name == names[entry.index as int]
            },
        forall|a: int, b: int|
            0 <= a < b < results(names, recorded).len() ==> (#[trigger] results(
                names,
                recorded,
            )[a]).index < (#[trigger] results(names, recorded)[b]).index,
        forall|i: int|
            0 <= i < recorded.len() && recorded[i] is Some ==> exists|a: int|
                0 <= a < results(names, recorded).len() && (#[trigger] results(
                    names,
                    recorded,
                )[a]).index == i,
    decreases recorded.len(),
{
    if recorded.len() > 0 {
        let front = recorded.drop_last();
        let before = results(names, front);
        let all = results(names, recorded);
        lemma_results(names, front);
        assert forall|i: int| 0 <= i < recorded.len() && recorded[i] is Some implies exists|a: int|
            0 <= a < all.len() && (#[trigger] all[a]).index == i by {
            if i < front.len() {
                assert(front[i] is Some);
                let a = choose|a: int| 0 <= a < before.len() && (#[trigger] before[a]).index == i;
                assert(all[a].index == i);
            } else {
                assert(all[all.len() - 1].index == i);
            }
        }
        assert forall|a: int| 0 <= a < all.len() implies {
            let entry = #[trigger] all[a];
            &&& entry.index < recorded.len()
            &&& recorded[entry.index as int] == Some(entry.outcome)
            &&& entry.name == names[entry.index as int]
        } by {
            if a < before.len() {
                let entry = before[a];
                assert(front[entry.index as int] == Some(entry.outcome));
            }
        }
        assert forall|a: int, b: int| 0 <= a < b < all.len() implies (#[trigger] all[a]).index < (
        #[trigger] all[b]).index by {
            if b < before.len() {
                assert(before[a].index < before[b].index);
            } else {
                assert(before[a].index < front.len());
            }
        }
    }
}

/// A run starts in a state that is well formed.
pub proof fn lemma_initial_wf(total: nat, jobs: nat)
    requires
        jobs >= 1,
    ensures
        Run::initial(total, jobs).wf(),
        Run::initial(total, jobs).finished() == 0,
        Run::initial(total, jobs).failures() == 0,
{
    let run = Run::initial(total, jobs);
    lemma_count_take(run.recorded, 0);
    assert(run.recorded.take(0).len() == 0);
    lemma_count_bounds(run.recorded);
}

/// Every event leaves a well-formed run well formed: so at no time do more
/// than `jobs` cases run, and cases are started in the order of the suite.
/// An accepted report adds one to the cases that have reported.
pub proof fn lemma_next_wf(run: Run, event: EventView)
    requires
        run.wf(),
    ensures
        run.next(event).wf(),
        run.next(event).total == run.total,
        run.next(event).jobs == run.jobs,
        run.accepts(event) && event is Finished ==> run.next(event).finished() == run.finished()
            + 1,
        !(run.accepts(event) && event is Finished) ==> run.next(event).recorded
            == run.recorded,
{
    if run.accepts(event) {
        match event {
            EventView::Finished { index, outcome } => {
                lemma_count_update(run.recorded, index as int, outcome);
                lemma_count_take(run.recorded, run.dispatched as int);
                let upto = run.recorded.take(run.dispatched as int);
                lemma_count_full(upto);
                lemma_count_bounds(upto);
                assert(!(upto[index as int] is Some));
                assert(run.in_flight() >= 1);
            },
            EventView::Interrupt => {},
        }
    }
}

/// Every state that a run reaches is well formed.
pub proof fn law_run_stays_well_formed(run: Run, events: Seq<EventView>)
    requires
        run.wf(),
    ensures
        run.run_all(events).wf(),
        run.run_all(events).total == run.total,
        run.run_all(events).jobs == run.jobs,
    decreases events.len(),
{
    if events.len() > 0 {
        lemma_next_wf(run, events[0]);
        law_run_stays_well_formed(run.next(events[0]), events.skip(1));
    }
}

/// A report never holds more outcomes than there are cases, and it holds one
/// for each case exactly when the run is complete.
pub proof fn law_report_length(names: Seq<Seq<char>>, run: Run)
    requires
        run.wf(),
    ensures
        report_of(names, run).outcomes.len() <= run.total,
        report_of(names, run).outcomes.len() == run.total <==> !report_of(names, run).interrupted,
        report_of(names, run).failures <= report_of(names, run).outcomes.len(),
{
    lemma_results(names, run.recorded);
    lemma_count_bounds(run.recorded);
}

/// Without an interrupt, once every case that was still to report has done
/// so, the run is complete, whatever the order of the reports.
pub proof fn law_complete_without_interrupt(run: Run, events: Seq<EventView>)
    requires
        run.wf(),
        !run.interrupted,
        run.all_reports_accepted(events),
        events.len() + run.finished() == run.total,
    ensures
        run.run_all(events).is_complete(),
        !run.run_all(events).interrupted,
    decreases events.len(),
{
    if events.len() > 0 {
        lemma_next_wf(run, events[0]);
        law_complete_without_interrupt(run.next(events[0]), events.skip(1));
    }
}

/// Two cases that are both running may report in either order: the state
/// after both reports is the same, and so is the report.
pub proof fn law_completion_order_is_irrelevant(
    run: Run,
    first: usize,
    first_outcome: OutcomeView,
    second: usize,
    second_outcome: OutcomeView,
)
    requires
        run.wf(),
        first != second,
        run.accepts(EventView::Finished { index: first, outcome: first_outcome }),
        run.accepts(EventView::Finished { index: second, outcome: second_outcome }),
    ensures
        run.next(EventView::Finished { index: first, outcome: first_outcome }).next(
            EventView::Finished { index: second, outcome: second_outcome },
        ) == run.next(EventView::Finished { index: second, outcome: second_outcome }).next(
            EventView::Finished { index: first, outcome: first_outcome },
        ),
{
    let a = EventView::Finished { index: first, outcome: first_outcome };
    let b = EventView::Finished { index: second, outcome: second_outcome };
    assert(run.next(a).accepts(b));
    assert(run.next(b).accepts(a));
    assert(run.next(a).next(b).recorded =~= run.next(b).next(a).recorded);
}

/// With one job, a case is started only when every case before it has
/// reported.
pub proof fn law_one_job_is_sequential(run: Run, event: EventView)
    requires
        run.wf(),
        run.jobs == 1,
        run.action(event) is Dispatch,
    ensures
        run.action(event) == Action::Dispatch(run.dispatched as usize),
        forall|i: int| 0 <= i < run.dispatched ==> run.next(event).recorded[i] is Some,
{
    let after = run.next(event);
    lemma_next_wf(run, event);
    let upto = after.recorded.take(run.dispatched as int);
    assert(none_from(after.recorded, run.dispatched as int));
    lemma_count_take(after.recorded, run.dispatched as int);
    lemma_count_full(upto);
    assert forall|i: int| 0 <= i < run.dispatched implies after.recorded[i] is Some by {
        assert(upto[i] is Some);
    }
}

/// With as many jobs as cases, or more, every case is started at once.
pub proof fn law_enough_jobs_start_every_case(total: nat, jobs: nat)
    requires
        jobs >= total,
    ensures
        Run::initial(total, jobs).dispatched == total,
{
}

/// With fewer jobs than cases, as many cases are started at once as there
/// are jobs.
pub proof fn law_first_batch(total: nat, jobs: nat)
    requires
        jobs <= total,
    ensures
        Run::initial(total, jobs).dispatched == jobs,
{
}

/// After an interrupt nothing changes any more: no later report is taken,
/// and no case is started.
pub proof fn law_interrupt_freezes(run: Run, events: Seq<EventView>)
    requires
        run.interrupted,
    ensures
        run.run_all(events) == run,
        forall|i: int| 0 <= i < events.len() ==> run.action(#[trigger] events[i]) == Action::Ignore,
    decreases events.len(),
{
    if events.len() > 0 {
        law_interrupt_freezes(run, events.skip(1));
        assert(run.next(events[0]) == run);
    }
}

/// An interrupt that comes while some case has yet to report leaves a report
/// of fewer outcomes than there are cases: those that had come in before it,
/// and none of the others.
pub proof fn law_interrupted_report_is_short(
    names: Seq<Seq<char>>,
    run: Run,
    events: Seq<EventView>,
)
    requires
        run.wf(),
        run.accepts(EventView::Interrupt),
    ensures
        run.action(EventView::Interrupt) == Action::Abort,
        run.next(EventView::Interrupt).run_all(events).recorded == run.recorded,
        report_of(names, run.next(EventView::Interrupt).run_all(events)).outcomes.len()
            < run.total,
        report_of(names, run.next(EventView::Interrupt).run_all(events)).interrupted,
{
    let stopped = run.next(EventView::Interrupt);
    law_interrupt_freezes(stopped, events);
    lemma_results(names, run.recorded);
    lemma_count_bounds(run.recorded);
}

/// Until an interrupt, a run that is not complete has a case running: the
/// run cannot come to a halt with cases left over.
pub proof fn law_run_never_stalls(run: Run)
    requires
        run.wf(),
        !run.interrupted,
        !run.is_complete(),
    ensures
        run.in_flight() >= 1,
        exists|i: int| run.is_running(i),
{
    lemma_count_bounds(run.recorded);
    lemma_count_take(run.recorded, run.dispatched as int);
    let upto = run.recorded.take(run.dispatched as int);
    lemma_count_full(upto);
    let i = choose|i: int| 0 <= i < upto.len() && !(upto[i] is Some);
    assert(run.is_running(i));
}

/// Cases are started in the order of the suite, and a slot that a report
/// frees is filled at once: the case that is started is the first that has
/// not been started yet, and as many cases run after the report as before
/// it.
pub proof fn law_dispatch_in_order(run: Run, event: EventView)
    requires
        run.wf(),
        run.action(event) is Dispatch,
    ensures
        run.action(event) == Action::Dispatch(run.dispatched as usize),
        run.next(event).dispatched == run.dispatched + 1,
        run.next(event).in_flight() == run.in_flight(),
{
    lemma_next_wf(run, event);
}

/// While cases are left to start, every report that is taken starts one; a
/// run waits or completes only when the whole suite has been started.
pub proof fn law_slots_stay_full(run: Run, event: EventView)
    requires
        run.wf(),
        event is Finished,
        run.accepts(event),
    ensures
        run.dispatched < run.total <==> run.action(event) is Dispatch,
        run.action(event) == Action::Complete <==> run.next(event).is_complete(),
{
    lemma_next_wf(run, event);
    lemma_count_take(run.recorded, run.dispatched as int);
    lemma_count_bounds(run.recorded.take(run.dispatched as int));
}

/// An outcome is final: once a case has reported, nothing that happens
/// later changes what it has reported.
pub proof fn law_outcome_is_final(run: Run, events: Seq<EventView>, index: int)
    requires
        0 <= index < run.recorded.len(),
        run.recorded[index] is Some,
    ensures
        0 <= index < run.run_all(events).recorded.len(),
        run.run_all(events).recorded[index] == run.recorded[index],
    decreases events.len(),
{
    if events.len() > 0 {
        law_outcome_is_final(run.next(events[0]), events.skip(1), index);
    }
}

/// Whether some report among `events` is of the case at `index`.
pub open spec fn reports_on(events: Seq<EventView>, index: int) -> bool {
    exists|k: int|
        0 <= k < events.len() && (#[trigger] events[k]) is Finished
            && events[k]->Finished_index == index
}

/// What a run of reports that all belong to it leaves behind: each case that
/// reports has the outcome that it reported, every other case is as it was,
/// and as many more cases have been started as reports came in, as far as
/// the suite goes.
pub proof fn lemma_run_of_reports(run: Run, events: Seq<EventView>)
    requires
        run.wf(),
        run.all_reports_accepted(events),
    ensures
        run.run_all(events).wf(),
        run.run_all(events).total == run.total,
        run.run_all(events).jobs == run.jobs,
        run.run_all(events).interrupted == run.interrupted,
        run.run_all(events).dispatched == if run.dispatched + events.len() < run.total {
            run.dispatched + events.len()
        } else {
            run.total
        },
        forall|k: int|
            0 <= k < events.len() ==> (#[trigger] events[k]) is Finished && run.run_all(
                events,
            ).recorded[events[k]->Finished_index as int] == Some(events[k]->Finished_outcome),
        forall|i: int|
            0 <= i < run.total && !reports_on(events, i) ==> run.run_all(events).recorded[i]
                == run.recorded[i],
    decreases events.len(),
{
    if events.len() > 0 {
        let first = events[0];
        let rest = events.skip(1);
        let after = run.next(first);
        lemma_next_wf(run, first);
        lemma_run_of_reports(after, rest);
        assert forall|k: int| 0 <= k < events.len() implies (#[trigger] events[k]) is Finished
            && run.run_all(events).recorded[events[k]->Finished_index as int] == Some(
            events[k]->Finished_outcome,
        ) by {
            if k == 0 {
                law_outcome_is_final(after, rest, first->Finished_index as int);
            } else {
                assert(rest[k - 1] == events[k]);
            }
        }
        assert forall|i: int| 0 <= i < run.total && !reports_on(events, i) implies run.run_all(
            events,
        ).recorded[i] == run.recorded[i] by {
            assert(first->Finished_index != i);
            if reports_on(rest, i) {
                let k = choose|k: int|
                    0 <= k < rest.len() && (#[trigger] rest[k]) is Finished
                        && rest[k]->Finished_index == i;
                assert(events[k + 1] == rest[k]);
            }
        }
    }
}

/// The order in which the cases report makes no difference: two runs from
/// the same state that take the same reports, in whatever order, end in the
/// same state, and so in the same report.
pub proof fn law_report_is_independent_of_completion_order(
    names: Seq<Seq<char>>,
    run: Run,
    one: Seq<EventView>,
    other: Seq<EventView>,
)
    requires
        run.wf(),
        run.all_reports_accepted(one),
        run.all_reports_accepted(other),
        one.to_multiset() == other.to_multiset(),
    ensures
        run.run_all(one) == run.run_all(other),
        report_of(names, run.run_all(one)) == report_of(names, run.run_all(other)),
{
    let a = run.run_all(one);
    let b = run.run_all(other);
    lemma_run_of_reports(run, one);
    lemma_run_of_reports(run, other);
    one.to_multiset_ensures();
    other.to_multiset_ensures();
    assert forall|i: int| 0 <= i < run.total implies a.recorded[i] == b.recorded[i] by {
        if reports_on(one, i) {
            let k = choose|k: int|
                0 <= k < one.len() && (#[trigger] one[k]) is Finished && one[k]->Finished_index
                    == i;
            assert(one.contains(one[k]));
            assert(one.to_multiset().count(one[k]) > 0);
            assert(other.to_multiset().count(one[k]) > 0);
            assert(other.contains(one[k]));
            let m = choose|m: int| 0 <= m < other.len() && other[m] == one[k];
            assert(b.recorded[other[m]->Finished_index as int] == Some(
                other[m]->Finished_outcome,
            ));
        } else if reports_on(other, i) {
            let m = choose|m: int|
                0 <= m < other.len() && (#[trigger] other[m]) is Finished
                    && other[m]->Finished_index == i;
            assert(other.contains(other[m]));
            assert(other.to_multiset().count(other[m]) > 0);
            assert(one.to_multiset().count(other[m]) > 0);
            assert(one.contains(other[m]));
            let k = choose|k: int| 0 <= k < one.len() && one[k] == other[m];
            assert(one[k] is Finished && one[k]->Finished_index == i);
        }
    }
    assert(a.recorded =~= b.recorded);
}

/// Whether the cases of `run` have run one after the other: every case but
/// the last that was started has reported.
pub open spec fn sequential(run: Run) -> bool {
    forall|i: int| 0 <= i && i + 1 < run.dispatched ==> run.recorded[i] is Some
}

/// With one job the cases run strictly one after the other, from the start
/// of a run and whatever happens in it: at no time has a case been started
/// while a case before it had yet to report.
pub proof fn law_one_job_runs_in_order(total: nat, events: Seq<EventView>)
    ensures
        sequential(Run::initial(total, 1).run_all(events)),
{
    lemma_initial_wf(total, 1);
    lemma_sequential_is_kept(Run::initial(total, 1), events);
}

/// A run with one job that has been sequential stays so.
proof fn lemma_sequential_is_kept(run: Run, events: Seq<EventView>)
    requires
        run.wf(),
        run.jobs == 1,
        sequential(run),
    ensures
        sequential(run.run_all(events)),
    decreases events.len(),
{
    if events.len() > 0 {
        let after = run.next(events[0]);
        lemma_next_wf(run, events[0]);
        if run.action(events[0]) is Dispatch {
            law_one_job_is_sequential(run, events[0]);
        }
        lemma_sequential_is_kept(after, events.skip(1));
    }
}

} // verus!
