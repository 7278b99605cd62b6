//! What has been told once a manager is settled: every case that was
//! wanted last has had its outcome, and every job that was cancelled has
//! had its end told as cancelled or as an error.

use crate::job::{react, react_to_cancel, ActionView, JobEventView, JobView};
use crate::lifecycle::accounts::flight_tickets;
use crate::lifecycle::order::{
    first_of, lemma_cancel_gone, lemma_cancel_job, lemma_first_of, lemma_job_event, lemma_job_of,
    lemma_kept, lemma_react_ends, lemma_report_stores, lemma_run, lemma_set_cases, lemma_start,
};
use crate::lifecycle::outcomes::{
    lemma_outcome_fits, lemma_settled_outcomes, lemma_step_flights, outcome_at,
};
use crate::lifecycle::starts::{
    job_with, jobs_among, lemma_among_same, lemma_cancel_job_paired, lemma_finish_paired,
};
use crate::lifecycle::steady::lemma_run_steady;
use crate::model::{case_ids, flight_ids, is_wanted, tickets, EffectView, ManagerView, StepView};
use crate::test::TestCaseView;
use vstd::prelude::*;

verus! {

/// Whether the effect tells the outcome of a case of the identity `id`:
/// that it is completed, or that it is over with an error.
pub open spec fn tells_outcome(effect: EffectView, id: Seq<char>) -> bool {
    effect matches EffectView::Notify(n) && n.test_case.id() == id && (n.status is Completed
        || n.status is Error)
}

/// Whether one of the effects tells the outcome of a case of the identity `id`.
pub open spec fn outcome_told(effects: Seq<EffectView>, id: Seq<char>) -> bool {
    exists|e: int| 0 <= e < effects.len() && tells_outcome(#[trigger] effects[e], id)
}

/// What is told stays told when more effects come before or behind.
pub proof fn lemma_told_within(first: Seq<EffectView>, last: Seq<EffectView>, id: Seq<char>)
    requires
        outcome_told(first, id) || outcome_told(last, id),
    ensures
        outcome_told(first + last, id),
{
    let all = first + last;
    if outcome_told(first, id) {
        let e = choose|e: int| 0 <= e < first.len() && tells_outcome(#[trigger] first[e], id);
        assert(all[e] == first[e]);
    } else {
        let e = choose|e: int| 0 <= e < last.len() && tells_outcome(#[trigger] last[e], id);
        assert(all[first.len() + e] == last[e]);
    }
}

/// A run goes on from what it has told: the effects of its first steps
/// are the first of its effects.
pub proof fn lemma_run_goes_on(s: ManagerView, steps: Seq<StepView>, m: int, n: int)
    requires
        0 <= m <= n <= steps.len(),
    ensures
        s.run(steps, m).1.len() <= s.run(steps, n).1.len(),
        forall|e: int|
            0 <= e < s.run(steps, m).1.len() ==> #[trigger] s.run(steps, n).1[e] == s.run(
                steps,
                m,
            ).1[e],
    decreases n - m,
{
    if m < n {
        lemma_run_goes_on(s, steps, m, n - 1);
        let (then, first) = s.run(steps, n - 1);
        let last = then.step(steps[n - 1]).1;
        assert(s.run(steps, n).1 == first + last);
    }
}

/// Reports leave the in-flight map as it is.
pub proof fn lemma_reports_keep_flights(s: ManagerView, steps: Seq<StepView>, m: int, n: int)
    requires
        s.inv(),
        0 <= m <= n <= steps.len(),
        forall|j: int| m <= j < n ==> (#[trigger] steps[j]) is Report,
    ensures
        s.run(steps, n).0.in_flight == s.run(steps, m).0.in_flight,
    decreases n - m,
{
    if m < n {
        lemma_reports_keep_flights(s, steps, m, n - 1);
        lemma_run(s, steps, n - 1);
        let then = s.run(steps, n - 1).0;
        match steps[n - 1] {
            StepView::Report { ticket, event } => {
                lemma_job_event(then, ticket, event);
            },
            StepView::Want { .. } => {},
        }
    }
}

/// What is in flight stays in flight while new cases are taken up.
pub proof fn lemma_take_up_new_keeps(
    base: ManagerView,
    known: Seq<Seq<char>>,
    cases: Seq<TestCaseView>,
    n: int,
    id: Seq<char>,
)
    requires
        0 <= n <= cases.len(),
        flight_ids(base.in_flight).contains(id),
    ensures
        flight_ids(base.take_up_new(known, cases, n).0.in_flight).contains(id),
    decreases n,
{
    if n > 0 {
        lemma_take_up_new_keeps(base, known, cases, n - 1, id);
        let then = base.take_up_new(known, cases, n - 1).0;
        let end = base.take_up_new(known, cases, n).0;
        let a = choose|a: int| 0 <= a < then.in_flight.len() && flight_ids(then.in_flight)[a] == id;
        if ManagerView::is_new(known, cases, n - 1) && then.cache_lookup(cases[n - 1]) is None {
            assert(end.in_flight[a] == then.in_flight[a]);
        }
        assert(flight_ids(end.in_flight)[a] == id);
    }
}

/// A new case that is taken up is in flight afterwards, or is told as
/// completed at once.
pub proof fn lemma_take_up_new_tells(
    base: ManagerView,
    known: Seq<Seq<char>>,
    cases: Seq<TestCaseView>,
    n: int,
    f: int,
)
    requires
        0 <= f < n <= cases.len(),
        ManagerView::is_new(known, cases, f),
    ensures
        flight_ids(base.take_up_new(known, cases, n).0.in_flight).contains(cases[f].id())
            || outcome_told(base.take_up_new(known, cases, n).1, cases[f].id()),
    decreases n,
{
    let id = cases[f].id();
    let (then, first) = base.take_up_new(known, cases, n - 1);
    let (end, all) = base.take_up_new(known, cases, n);
    if f == n - 1 {
        let last = then.take_up(cases[f]).1;
        match then.cache_lookup(cases[f]) {
            Some(result) => {
                assert(tells_outcome(last[0], id));
                lemma_told_within(first, last, id);
            },
            None => {
                let a = then.in_flight.len() as int;
                assert(flight_ids(end.in_flight)[a] == id);
            },
        }
    } else {
        lemma_take_up_new_tells(base, known, cases, n - 1, f);
        if flight_ids(then.in_flight).contains(id) {
            let a = choose|a: int|
                0 <= a < then.in_flight.len() && flight_ids(then.in_flight)[a] == id;
            if ManagerView::is_new(known, cases, n - 1) && then.cache_lookup(cases[n - 1])
                is None {
                assert(end.in_flight[a] == then.in_flight[a]);
            }
            assert(flight_ids(end.in_flight)[a] == id);
        } else if ManagerView::is_new(known, cases, n - 1) {
            lemma_told_within(first, then.take_up(cases[n - 1]).1, id);
        }
    }
}

/// After a change of the wanted set every wanted case is in flight, or the
/// change has told, from a result seen before, that a case of its identity
/// is completed.
pub proof fn lemma_set_cases_tells(s: ManagerView, cases: Seq<TestCaseView>, k: int)
    requires
        s.inv(),
        0 <= k < cases.len(),
    ensures
        flight_ids(s.set_cases(cases).0.in_flight).contains(cases[k].id()) || outcome_told(
            s.set_cases(cases).1,
            cases[k].id(),
        ),
{
    let id = cases[k].id();
    let wanted = case_ids(cases);
    let known = flight_ids(s.in_flight);
    let n = s.in_flight.len() as int;
    let marked = ManagerView { pools: s.withdraw_gone(s.in_flight, wanted, n), ..s };
    let (then, cancelled) = marked.cancel_gone(s.in_flight, wanted, n);
    lemma_cancel_gone(marked, s.in_flight, wanted, n);
    let kept = ManagerView { in_flight: s.in_flight.filter(is_wanted(wanted)), ..then };
    let (end, started) = kept.take_up_new(known, cases, cases.len() as int);
    assert(wanted[k] == id);
    if known.contains(id) {
        lemma_kept(s.in_flight, wanted);
        let b = choose|b: int| 0 <= b < known.len() && known[b] == id;
        assert(s.in_flight.contains(s.in_flight[b]));
        assert(kept.in_flight.contains(s.in_flight[b]));
        let a = choose|a: int| 0 <= a < kept.in_flight.len() && kept.in_flight[a] == s.in_flight[b];
        assert(flight_ids(kept.in_flight)[a] == id);
        lemma_take_up_new_keeps(kept, known, cases, cases.len() as int, id);
    } else {
        lemma_first_of(wanted, id, k);
        let f = first_of(wanted, id, k);
        assert(cases[f].id() == id);
        assert(ManagerView::is_new(known, cases, f));
        lemma_take_up_new_tells(kept, known, cases, cases.len() as int, f);
        if outcome_told(started, id) {
            lemma_told_within(cancelled, started, id);
        }
    }
}

/// Once a manager that began with no job and nothing in flight is settled,
/// every case that was wanted last has had its outcome: the effects of the
/// run tell of a case of its identity that it is completed, from its own
/// job or from a result seen before, or that it is over with an error.
///
/// The wanted set was changed last at step `m`, to `cases`; what follows are
/// reports.
pub proof fn lemma_settled_wanted(
    s: ManagerView,
    steps: Seq<StepView>,
    m: int,
    cases: Seq<TestCaseView>,
    k: int,
)
    requires
        s.steady(),
        s.jobs.len() == 0,
        s.in_flight.len() == 0,
        0 <= m < steps.len(),
        steps[m] == (StepView::Want { cases }),
        !s.run(steps, m).0.exhausted(cases.len()),
        forall|j: int| m < j < steps.len() ==> (#[trigger] steps[j]) is Report,
        s.run(steps, steps.len() as int).0.settled(),
        0 <= k < cases.len(),
    ensures
        outcome_told(s.run(steps, steps.len() as int).1, cases[k].id()),
{
    let id = cases[k].id();
    let n = steps.len() as int;
    let (mid, before) = s.run(steps, m);
    let (wanting, told) = s.run(steps, m + 1);
    let (end, effects) = s.run(steps, n);
    lemma_run(s, steps, m);
    lemma_set_cases_tells(mid, cases, k);
    assert(told == before + mid.set_cases(cases).1);
    lemma_run_goes_on(s, steps, m + 1, n);
    if outcome_told(mid.set_cases(cases).1, id) {
        lemma_told_within(before, mid.set_cases(cases).1, id);
        let e = choose|e: int| 0 <= e < told.len() && tells_outcome(#[trigger] told[e], id);
        assert(effects[e] == told[e]);
    } else {
        lemma_reports_keep_flights(s, steps, m + 1, n);
        let a = choose|a: int|
            0 <= a < wanting.in_flight.len() && flight_ids(wanting.in_flight)[a] == id;
        lemma_settled_outcomes(s, steps, a);
        let ticket = end.in_flight[a].1;
        let e = choose|e: int|
            (#[trigger] outcome_at(effects, e, ticket)) matches Some((case, status)) && case.id()
                == id && (status is Completed || status is Error);
        assert(tells_outcome(effects[e], id));
    }
}

/// Whether the effects tell the end of the job with `ticket`, a job of
/// `case`, as cancelled or as an error.
pub open spec fn cancelled_told(effects: Seq<EffectView>, ticket: u64, case: TestCaseView) -> bool {
    exists|k: int|
        (#[trigger] outcome_at(effects, k, ticket)) matches Some((c, status)) && c == case && (
        status is Canceled || status is Error)
}

/// Whether the job with `ticket`, a job of `case`, is in flight no more
/// and not over, or the effects tell its end as cancelled or as an error.
pub open spec fn cancelling(
    s: ManagerView,
    effects: Seq<EffectView>,
    ticket: u64,
    case: TestCaseView,
) -> bool {
    ||| job_with(s.jobs, ticket, case) && !flight_tickets(s.in_flight).contains(ticket)
    ||| cancelled_told(effects, ticket, case)
}

/// An end that is told stays told when more effects come before or behind.
pub proof fn lemma_cancelled_told_within(
    first: Seq<EffectView>,
    last: Seq<EffectView>,
    ticket: u64,
    case: TestCaseView,
)
    requires
        cancelled_told(first, ticket, case) || cancelled_told(last, ticket, case),
    ensures
        cancelled_told(first + last, ticket, case),
{
    let all = first + last;
    if cancelled_told(first, ticket, case) {
        let k = choose|k: int|
            (#[trigger] outcome_at(first, k, ticket)) matches Some((c, status)) && c == case && (
            status is Canceled || status is Error);
        assert(all[k] == first[k]);
        assert(all[k + 1] == first[k + 1]);
        assert(outcome_at(all, k, ticket) == outcome_at(first, k, ticket));
    } else {
        let k = choose|k: int|
            (#[trigger] outcome_at(last, k, ticket)) matches Some((c, status)) && c == case && (
            status is Canceled || status is Error);
        let at = first.len() + k;
        assert(all[at] == last[k]);
        assert(all[at + 1] == last[k + 1]);
        assert(outcome_at(all, at, ticket) == outcome_at(last, k, ticket));
    }
}

/// A job that is among the jobs after a step, which are among those before
/// it, is the job that it was: it has the case that it had.
pub proof fn lemma_same_job(
    before: Seq<JobView>,
    after: Seq<JobView>,
    ticket: u64,
    case: TestCaseView,
)
    requires
        tickets(before).no_duplicates(),
        job_with(before, ticket, case),
        jobs_among(after, before),
        tickets(after).contains(ticket),
    ensures
        job_with(after, ticket, case),
{
    let a = choose|a: int| 0 <= a < tickets(after).len() && tickets(after)[a] == ticket;
    assert(after[a].ticket == ticket);
    assert(job_with(after, ticket, after[a].test_case));
    assert(job_with(before, ticket, after[a].test_case));
    let i = choose|i: int|
        0 <= i < before.len() && (#[trigger] before[i]).ticket == ticket && before[i].test_case
            == case;
    let j = choose|j: int|
        0 <= j < before.len() && (#[trigger] before[j]).ticket == ticket && before[j].test_case
            == after[a].test_case;
    assert(tickets(before)[i] == tickets(before)[j]);
}

/// A report from the outside leaves no job that was not there.
pub proof fn lemma_job_event_among(s: ManagerView, ticket: u64, event: JobEventView)
    ensures
        jobs_among(s.job_event(ticket, event).0.jobs, s.jobs),
{
    lemma_job_of(s, ticket);
    match s.job_of(ticket) {
        Some(i) => {
            let after = s.jobs[i].after(event);
            let moved = ManagerView { jobs: s.jobs.update(i, after), ..s };
            lemma_among_same(moved.jobs, s.jobs);
            match react(s.jobs[i].phase, s.jobs[i].cancelled, event).1 {
                ActionView::Finish(status) => {
                    lemma_react_ends(s.jobs[i].phase, s.jobs[i].cancelled, event);
                    lemma_finish_paired(moved, i, status);
                },
                ActionView::Acquire => {
                    let (pools, handle) = moved.pools.get(
                        after.ticket,
                        after.test_case.test.needs_resources,
                    );
                    let asked = ManagerView { pools, ..moved };
                    match handle {
                        Some(h) => {
                            lemma_start(asked, h);
                            let end = asked.start(h).0;
                            assert forall|j: int| 0 <= j < end.jobs.len() implies (
                            #[trigger] end.jobs[j]).ticket == asked.jobs[j].ticket by {
                                assert(tickets(end.jobs)[j] == tickets(asked.jobs)[j]);
                            }
                            lemma_among_same(end.jobs, moved.jobs);
                        },
                        None => {},
                    }
                },
                _ => {},
            }
        },
        None => {},
    }
}

/// A cancellation leaves every job as it is or tells its end as cancelled.
pub proof fn lemma_cancel_job_cancels(s: ManagerView, about: u64, ticket: u64, case: TestCaseView)
    requires
        s.inv(),
        job_with(s.jobs, ticket, case),
    ensures
        job_with(s.cancel_job(about).0.jobs, ticket, case) || cancelled_told(
            s.cancel_job(about).1,
            ticket,
            case,
        ),
{
    let (end, effects) = s.cancel_job(about);
    lemma_job_of(s, about);
    lemma_cancel_job(s, about);
    lemma_cancel_job_paired(s, about);
    let at = choose|at: int|
        0 <= at < s.jobs.len() && (#[trigger] s.jobs[at]).ticket == ticket && s.jobs[at].test_case
            == case;
    assert(tickets(s.jobs)[at] == ticket);
    if about != ticket {
        assert(s.live(ticket));
        lemma_same_job(s.jobs, end.jobs, ticket, case);
    } else {
        match s.job_of(about) {
            Some(i) => {
                assert(tickets(s.jobs)[i] == tickets(s.jobs)[at]);
                let moved = ManagerView { jobs: s.jobs.update(i, s.jobs[i].after_cancel()), ..s };
                match react_to_cancel(s.jobs[i].phase).1 {
                    ActionView::Finish(status) => {
                        assert(outcome_at(effects, 0, ticket) == Some((case, status)));
                    },
                    _ => {
                        assert(end.jobs[i].ticket == ticket && end.jobs[i].test_case == case);
                    },
                }
            },
            None => {},
        }
    }
}

/// While the jobs of what is wanted no more are cancelled, every job
/// stays as it is or has its end told as cancelled.
pub proof fn lemma_cancel_gone_cancels(
    s: ManagerView,
    entries: Seq<(Seq<char>, u64)>,
    wanted: Seq<Seq<char>>,
    i: int,
    ticket: u64,
    case: TestCaseView,
)
    requires
        s.inv(),
        0 <= i <= entries.len(),
        job_with(s.jobs, ticket, case),
    ensures
        job_with(s.cancel_gone(entries, wanted, i).0.jobs, ticket, case) || cancelled_told(
            s.cancel_gone(entries, wanted, i).1,
            ticket,
            case,
        ),
    decreases i,
{
    if i > 0 {
        lemma_cancel_gone_cancels(s, entries, wanted, i - 1, ticket, case);
        lemma_cancel_gone(s, entries, wanted, i - 1);
        let (then, first) = s.cancel_gone(entries, wanted, i - 1);
        if !wanted.contains(entries[i - 1].0) {
            let last = then.cancel_job(entries[i - 1].1).1;
            if cancelled_told(first, ticket, case) {
                lemma_cancelled_told_within(first, last, ticket, case);
            } else {
                lemma_cancel_job_cancels(then, entries[i - 1].1, ticket, case);
                if cancelled_told(last, ticket, case) {
                    lemma_cancelled_told_within(first, last, ticket, case);
                }
            }
        }
    }
}

/// A job stays as it is while new cases are taken up.
pub proof fn lemma_take_up_new_with(
    base: ManagerView,
    known: Seq<Seq<char>>,
    cases: Seq<TestCaseView>,
    n: int,
    ticket: u64,
    case: TestCaseView,
)
    requires
        0 <= n <= cases.len(),
        job_with(base.jobs, ticket, case),
    ensures
        job_with(base.take_up_new(known, cases, n).0.jobs, ticket, case),
    decreases n,
{
    if n > 0 {
        lemma_take_up_new_with(base, known, cases, n - 1, ticket, case);
        let then = base.take_up_new(known, cases, n - 1).0;
        let end = base.take_up_new(known, cases, n).0;
        let at = choose|at: int|
            0 <= at < then.jobs.len() && (#[trigger] then.jobs[at]).ticket == ticket
                && then.jobs[at].test_case == case;
        if ManagerView::is_new(known, cases, n - 1) && then.cache_lookup(cases[n - 1]) is None {
            assert(end.jobs[at] == then.jobs[at]);
        }
        assert(end.jobs[at].ticket == ticket && end.jobs[at].test_case == case);
    }
}

/// A change of the wanted set that does not want the case of a job leaves
/// the job in flight no more, or tells its end as cancelled.
pub proof fn lemma_set_cases_cancelled(
    s: ManagerView,
    cases: Seq<TestCaseView>,
    ticket: u64,
    case: TestCaseView,
)
    requires
        s.steady(),
        !s.exhausted(cases.len()),
        job_with(s.jobs, ticket, case),
        forall|e: int|
            0 <= e < s.in_flight.len() && (#[trigger] s.in_flight[e]).1 == ticket ==> !case_ids(
                cases,
            ).contains(s.in_flight[e].0),
    ensures
        cancelling(s.set_cases(cases).0, s.set_cases(cases).1, ticket, case),
{
    let wanted = case_ids(cases);
    let known = flight_ids(s.in_flight);
    let n = s.in_flight.len() as int;
    let marked = ManagerView { pools: s.withdraw_gone(s.in_flight, wanted, n), ..s };
    let (then, cancelled) = marked.cancel_gone(s.in_flight, wanted, n);
    lemma_cancel_gone_cancels(marked, s.in_flight, wanted, n, ticket, case);
    let kept = ManagerView { in_flight: s.in_flight.filter(is_wanted(wanted)), ..then };
    let (end, started) = kept.take_up_new(known, cases, cases.len() as int);
    if cancelled_told(cancelled, ticket, case) {
        lemma_cancelled_told_within(cancelled, started, ticket, case);
    } else {
        lemma_take_up_new_with(kept, known, cases, cases.len() as int, ticket, case);
        if flight_tickets(end.in_flight).contains(ticket) {
            let a = choose|a: int|
                0 <= a < end.in_flight.len() && flight_tickets(end.in_flight)[a] == ticket;
            let entry = end.in_flight[a];
            lemma_step_flights(s, StepView::Want { cases });
            lemma_set_cases(s, cases);
            assert(s.step(StepView::Want { cases }).0.in_flight[a] == entry);
            let at = choose|at: int|
                0 <= at < s.jobs.len() && (#[trigger] s.jobs[at]).ticket == ticket
                    && s.jobs[at].test_case == case;
            assert(tickets(s.jobs)[at] == ticket);
            assert(s.in_flight.contains(entry));
            let b = choose|b: int| 0 <= b < s.in_flight.len() && s.in_flight[b] == entry;
            assert(!wanted.contains(s.in_flight[b].0));
            assert(flight_ids(end.in_flight)[a] == entry.0);
            assert(flight_ids(end.in_flight).contains(entry.0));
            assert(false);
        }
    }
}

/// A job that is in flight no more and not over stays so by a step, or
/// the step tells its end as cancelled or as an error.
pub proof fn lemma_step_cancelled(s: ManagerView, step: StepView, ticket: u64, case: TestCaseView)
    requires
        s.steady(),
        job_with(s.jobs, ticket, case),
        !flight_tickets(s.in_flight).contains(ticket),
    ensures
        cancelling(s.step(step).0, s.step(step).1, ticket, case),
{
    let (end, effects) = s.step(step);
    let at = choose|at: int|
        0 <= at < s.jobs.len() && (#[trigger] s.jobs[at]).ticket == ticket && s.jobs[at].test_case
            == case;
    assert(tickets(s.jobs)[at] == ticket);
    match step {
        StepView::Report { ticket: about, event } => {
            lemma_job_event(s, about, event);
            lemma_job_event_among(s, about, event);
            lemma_job_of(s, about);
            if about != ticket {
                assert(s.live(ticket));
                lemma_same_job(s.jobs, end.jobs, ticket, case);
            } else {
                lemma_report_stores(s, ticket, event);
                lemma_outcome_fits(s, ticket, event);
                let i = s.job_of(ticket)->0;
                assert(tickets(s.jobs)[i] == tickets(s.jobs)[at]);
                match react(s.jobs[i].phase, s.jobs[i].cancelled, event).1 {
                    ActionView::Finish(status) => {
                        assert(outcome_at(effects, 0, ticket) == Some((case, status)));
                    },
                    _ => {
                        lemma_same_job(s.jobs, end.jobs, ticket, case);
                    },
                }
            }
        },
        StepView::Want { cases } => {
            if !s.exhausted(cases.len()) {
                assert forall|e: int|
                    0 <= e < s.in_flight.len() && (#[trigger] s.in_flight[e]).1
                        == ticket implies !case_ids(cases).contains(s.in_flight[e].0) by {
                    assert(flight_tickets(s.in_flight)[e] == ticket);
                }
                lemma_set_cases_cancelled(s, cases, ticket, case);
            }
        },
    }
}

/// What holds of one step holds of a run: a job that is in flight no more
/// stays so until its end is told as cancelled or as an error.
pub proof fn lemma_run_cancelled(
    s: ManagerView,
    steps: Seq<StepView>,
    m: int,
    n: int,
    ticket: u64,
    case: TestCaseView,
)
    requires
        s.steady(),
        0 <= m <= n <= steps.len(),
        cancelling(s.run(steps, m).0, s.run(steps, m).1, ticket, case),
    ensures
        cancelling(s.run(steps, n).0, s.run(steps, n).1, ticket, case),
    decreases n - m,
{
    if m < n {
        lemma_run_cancelled(s, steps, m, n - 1, ticket, case);
        lemma_run_steady(s, steps, n - 1);
        let (then, first) = s.run(steps, n - 1);
        let last = then.step(steps[n - 1]).1;
        if cancelled_told(first, ticket, case) {
            lemma_cancelled_told_within(first, last, ticket, case);
        } else {
            lemma_step_cancelled(then, steps[n - 1], ticket, case);
            if cancelled_told(last, ticket, case) {
                lemma_cancelled_told_within(first, last, ticket, case);
            }
        }
    }
}

/// A job whose case leaves the wanted set while it is in flight and not
/// over is cancelled: once it is over, the effects of the run have told its
/// end, of a case of the identity under which it was in flight, as
/// cancelled or as an error.
///
/// The wanted set is changed at step `m`, to `cases`; the job is the one of
/// entry `e` of the in-flight map before that step, and it is over after
/// the first `n` steps.
pub proof fn lemma_cancelled_outcome(
    s: ManagerView,
    steps: Seq<StepView>,
    m: int,
    cases: Seq<TestCaseView>,
    e: int,
    n: int,
)
    requires
        s.steady(),
        0 <= m < n <= steps.len(),
        steps[m] == (StepView::Want { cases }),
        !s.run(steps, m).0.exhausted(cases.len()),
        0 <= e < s.run(steps, m).0.in_flight.len(),
        !case_ids(cases).contains(s.run(steps, m).0.in_flight[e].0),
        s.run(steps, m).0.live(s.run(steps, m).0.in_flight[e].1),
        !s.run(steps, n).0.live(s.run(steps, m).0.in_flight[e].1),
    ensures
        exists|k: int|
            (#[trigger] outcome_at(s.run(steps, n).1, k, s.run(steps, m).0.in_flight[e].1))
                matches Some((case, status)) && case.id() == s.run(steps, m).0.in_flight[e].0 && (
            status is Canceled || status is Error),
{
    let (mid, before) = s.run(steps, m);
    let (id, ticket) = mid.in_flight[e];
    lemma_run_steady(s, steps, m);
    lemma_job_of(mid, ticket);
    let i = mid.job_of(ticket)->0;
    let case = mid.jobs[i].test_case;
    assert(mid.jobs[i].ticket == ticket);
    assert(case.id() == id);
    assert(job_with(mid.jobs, ticket, case));
    assert forall|a: int|
        0 <= a < mid.in_flight.len() && (#[trigger] mid.in_flight[a]).1 == ticket implies !case_ids(
        cases,
    ).contains(mid.in_flight[a].0) by {
        assert(flight_tickets(mid.in_flight)[a] == flight_tickets(mid.in_flight)[e]);
    }
    lemma_set_cases_cancelled(mid, cases, ticket, case);
    let told = mid.set_cases(cases).1;
    assert(s.run(steps, m + 1).1 == before + told);
    if cancelled_told(told, ticket, case) {
        lemma_cancelled_told_within(before, told, ticket, case);
    }
    lemma_run_cancelled(s, steps, m + 1, n, ticket, case);
    let (end, effects) = s.run(steps, n);
    if job_with(end.jobs, ticket, case) {
        let at = choose|at: int|
            0 <= at < end.jobs.len() && (#[trigger] end.jobs[at]).ticket == ticket
                && end.jobs[at].test_case == case;
        assert(tickets(end.jobs)[at] == ticket);
    }
    let k = choose|k: int|
        (#[trigger] outcome_at(effects, k, ticket)) matches Some((c, status)) && c == case && (
        status is Canceled || status is Error);
    assert(outcome_at(effects, k, ticket) matches Some((c, status)) && c.id() == id && (
    status is Canceled || status is Error));
}

} // verus!
