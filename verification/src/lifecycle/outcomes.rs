//! How jobs end: as completed or as an error while their case is wanted,
//! as cancelled or as an error once it is wanted no more.

use crate::job::{react, ActionView, JobEventView};
use crate::lifecycle::accounts::{doomed, flight_tickets};
use crate::lifecycle::order::{
    lemma_cancel_gone, lemma_cancel_job, lemma_job_event, lemma_job_of, lemma_kept,
    lemma_new_is_free, lemma_report_stores, lemma_run, lemma_spawn, lemma_step, lemma_take_up_new,
    lemma_without_gone,
};
use crate::lifecycle::sound::fits;
use crate::lifecycle::steady::lemma_run_steady;
use crate::model::{
    case_ids, flight_ids, is_wanted, result_of, tickets, EffectView, ManagerView, StepView,
};
use crate::test::{StatusView, TestCaseView};
use vstd::prelude::*;

verus! {

/// The outcome of a job fits what is wanted. A job whose case is still
/// wanted, which is one that is in flight, ends as completed or as an error,
/// never as cancelled; a job whose case is wanted no more ends as cancelled
/// or as an error, never as completed.
pub proof fn lemma_outcome_fits(s: ManagerView, ticket: u64, event: JobEventView)
    requires
        s.steady(),
    ensures
        match s.job_of(ticket) {
            Some(i) => match react(s.jobs[i].phase, s.jobs[i].cancelled, event).1 {
                ActionView::Finish(status) => if flight_tickets(s.in_flight).contains(ticket) {
                    status is Completed || status is Error
                } else {
                    status is Canceled || status is Error
                },
                _ => true,
            },
            None => true,
        },
{
    lemma_job_of(s, ticket);
    match s.job_of(ticket) {
        Some(i) => {
            assert(fits(s.jobs[i]));
        },
        None => {},
    }
}

/// What the effects tell of the end of the job with `ticket` at place `k`:
/// its case and its status, where the effect at `k` tells that a job is
/// over and the next one that it was this job.
pub open spec fn outcome_at(effects: Seq<EffectView>, k: int, ticket: u64) -> Option<
    (TestCaseView, StatusView),
> {
    if 0 <= k && k + 1 < effects.len() {
        match effects[k] {
            EffectView::Notify(n) => if n.status.terminal() && effects[k + 1] == (
            EffectView::Finish { job: ticket, result: result_of(n.status) }) {
                Some((n.test_case, n.status))
            } else {
                None
            },
            _ => None,
        }
    } else {
        None
    }
}

/// A job that still has its place in the in-flight map when it ends by a
/// report ends as completed or as an error, and the effects tell it of the
/// case under whose identity it is in flight.
pub proof fn lemma_report_outcome(s: ManagerView, ticket: u64, event: JobEventView, e: int)
    requires
        s.steady(),
        0 <= e < s.in_flight.len(),
        s.live(s.in_flight[e].1),
        !s.job_event(ticket, event).0.live(s.in_flight[e].1),
    ensures
        ticket == s.in_flight[e].1,
        outcome_at(s.job_event(ticket, event).1, 0, ticket) matches Some((case, status))
            && case.id() == s.in_flight[e].0 && (status is Completed || status is Error),
{
    let t = s.in_flight[e].1;
    lemma_job_event(s, ticket, event);
    assert(ticket == t);
    lemma_report_stores(s, ticket, event);
    lemma_outcome_fits(s, ticket, event);
    lemma_job_of(s, ticket);
    let i = s.job_of(ticket)->0;
    assert(flight_tickets(s.in_flight)[e] == ticket);
    assert(s.in_flight[e].1 == s.jobs[i].ticket);
    match react(s.jobs[i].phase, s.jobs[i].cancelled, event).1 {
        ActionView::Finish(status) => {},
        _ => {
            assert(tickets(s.job_event(ticket, event).0.jobs).contains(ticket));
        },
    }
}

/// While the jobs of what is wanted no more are cancelled, a job ends only
/// if it is doomed.
pub proof fn lemma_cancel_gone_ends(
    s: ManagerView,
    entries: Seq<(Seq<char>, u64)>,
    wanted: Seq<Seq<char>>,
    i: int,
    ticket: u64,
)
    requires
        s.inv(),
        0 <= i <= entries.len(),
        s.live(ticket),
        !s.cancel_gone(entries, wanted, i).0.live(ticket),
    ensures
        doomed(entries, wanted, i).contains(ticket),
    decreases i,
{
    if i > 0 {
        lemma_cancel_gone(s, entries, wanted, i - 1);
        let then = s.cancel_gone(entries, wanted, i - 1).0;
        if !then.live(ticket) {
            lemma_cancel_gone_ends(s, entries, wanted, i - 1, ticket);
            let e = choose|e: int|
                0 <= e < i - 1 && !wanted.contains((#[trigger] entries[e]).0) && entries[e].1
                    == ticket;
            assert(0 <= e < i);
        } else {
            assert(!wanted.contains(entries[i - 1].0));
            lemma_cancel_job(then, entries[i - 1].1);
            assert(entries[i - 1].1 == ticket);
            assert(0 <= i - 1 < i && !wanted.contains(entries[i - 1].0));
        }
    }
}

/// Taking up new cases ends no job, and what it puts in flight is new and
/// live: every entry of the in-flight map afterwards was there before, or
/// has a ticket that was given out meanwhile to a job that is not over.
pub proof fn lemma_take_up_new_flights(
    base: ManagerView,
    known: Seq<Seq<char>>,
    cases: Seq<TestCaseView>,
    k: int,
)
    requires
        base.inv(),
        0 <= k <= cases.len(),
        base.next_ticket + k <= u64::MAX,
        forall|id: Seq<char>| flight_ids(base.in_flight).contains(id) ==> known.contains(id),
    ensures
        forall|t: u64| base.live(t) ==> base.take_up_new(known, cases, k).0.live(t),
        forall|e: int|
            0 <= e < base.take_up_new(known, cases, k).0.in_flight.len() ==> {
                let entry = #[trigger] base.take_up_new(known, cases, k).0.in_flight[e];
                base.in_flight.contains(entry) || (base.next_ticket <= entry.1
                    && base.take_up_new(known, cases, k).0.live(entry.1))
            },
    decreases k,
{
    if k > 0 {
        lemma_take_up_new_flights(base, known, cases, k - 1);
        lemma_take_up_new(base, known, cases, k - 1);
        let then = base.take_up_new(known, cases, k - 1).0;
        let end = base.take_up_new(known, cases, k).0;
        let case = cases[k - 1];
        if ManagerView::is_new(known, cases, k - 1) && then.cache_lookup(case) is None {
            lemma_new_is_free(base, known, cases, k);
            lemma_spawn(then, case);
            assert(end == then.spawn(case).0);
            assert forall|e: int| 0 <= e < end.in_flight.len() implies {
                let entry = #[trigger] end.in_flight[e];
                base.in_flight.contains(entry) || (base.next_ticket <= entry.1 && end.live(
                    entry.1,
                ))
            } by {
                if e < then.in_flight.len() {
                    assert(end.in_flight[e] == then.in_flight[e]);
                }
            }
        }
    }
}

/// A job that a change of the wanted set ends is in flight no more.
pub proof fn lemma_set_cases_ends(s: ManagerView, cases: Seq<TestCaseView>, ticket: u64)
    requires
        s.steady(),
        !s.exhausted(cases.len()),
        s.live(ticket),
        !s.set_cases(cases).0.live(ticket),
    ensures
        !flight_tickets(s.set_cases(cases).0.in_flight).contains(ticket),
{
    let wanted = case_ids(cases);
    let known = flight_ids(s.in_flight);
    let n = s.in_flight.len() as int;
    let marked = ManagerView { pools: s.withdraw_gone(s.in_flight, wanted, n), ..s };
    lemma_cancel_gone(marked, s.in_flight, wanted, n);
    let then = marked.cancel_gone(s.in_flight, wanted, n).0;
    let kept = ManagerView { in_flight: s.in_flight.filter(is_wanted(wanted)), ..then };
    lemma_kept(s.in_flight, wanted);
    lemma_without_gone(then, wanted);
    lemma_take_up_new_flights(kept, known, cases, cases.len() as int);
    let end = kept.take_up_new(known, cases, cases.len() as int).0;
    assert(!kept.live(ticket));
    lemma_cancel_gone_ends(marked, s.in_flight, wanted, n, ticket);
    let d = choose|d: int|
        0 <= d < n && !wanted.contains((#[trigger] s.in_flight[d]).0) && s.in_flight[d].1 == ticket;
    assert(ticket < s.next_ticket);
    if flight_tickets(end.in_flight).contains(ticket) {
        let a = choose|a: int|
            0 <= a < end.in_flight.len() && flight_tickets(end.in_flight)[a] == ticket;
        let entry = end.in_flight[a];
        assert(kept.in_flight.contains(entry));
        assert(s.in_flight.contains(entry) && wanted.contains(entry.0));
        let b = choose|b: int| 0 <= b < n && s.in_flight[b] == entry;
        assert(flight_tickets(s.in_flight)[b] == ticket);
        assert(flight_tickets(s.in_flight)[d] == ticket);
    }
}

/// What a step puts in flight is new and live: every entry of the in-flight
/// map after the step was there before, or has a ticket that the step gave
/// out to a job that is not over after it.
pub proof fn lemma_step_flights(s: ManagerView, step: StepView)
    requires
        s.steady(),
    ensures
        forall|e: int|
            0 <= e < s.step(step).0.in_flight.len() ==> {
                let entry = #[trigger] s.step(step).0.in_flight[e];
                s.in_flight.contains(entry) || (s.next_ticket <= entry.1 && s.step(step).0.live(
                    entry.1,
                ))
            },
{
    let end = s.step(step).0;
    match step {
        StepView::Report { ticket, event } => {
            lemma_job_event(s, ticket, event);
            assert forall|e: int| 0 <= e < end.in_flight.len() implies s.in_flight.contains(
                #[trigger] end.in_flight[e],
            ) by {
                assert(s.in_flight[e] == end.in_flight[e]);
            }
        },
        StepView::Want { cases } => {
            if s.exhausted(cases.len()) {
                assert forall|e: int| 0 <= e < end.in_flight.len() implies s.in_flight.contains(
                    #[trigger] end.in_flight[e],
                ) by {
                    assert(s.in_flight[e] == end.in_flight[e]);
                }
            } else {
                let wanted = case_ids(cases);
                let known = flight_ids(s.in_flight);
                let m = s.in_flight.len() as int;
                let marked = ManagerView { pools: s.withdraw_gone(s.in_flight, wanted, m), ..s };
                lemma_cancel_gone(marked, s.in_flight, wanted, m);
                let gone = marked.cancel_gone(s.in_flight, wanted, m).0;
                let kept = ManagerView { in_flight: s.in_flight.filter(is_wanted(wanted)), ..gone };
                lemma_kept(s.in_flight, wanted);
                lemma_without_gone(gone, wanted);
                lemma_take_up_new_flights(kept, known, cases, cases.len() as int);
                assert forall|e: int| 0 <= e < end.in_flight.len() implies {
                    let entry = #[trigger] end.in_flight[e];
                    s.in_flight.contains(entry) || (s.next_ticket <= entry.1 && end.live(entry.1))
                } by {
                    let entry = end.in_flight[e];
                    if kept.in_flight.contains(entry) {
                        assert(s.in_flight.contains(entry));
                    }
                }
            }
        },
    }
}

/// What is in flight no more stays so: an entry of the in-flight map after
/// a run was there before the run, or has a ticket that was given out during
/// it. So a job that was cancelled, whose case had left the wanted set, is
/// never in flight again, though its case may be, with another job.
pub proof fn lemma_run_flights(s: ManagerView, steps: Seq<StepView>, n: int)
    requires
        s.steady(),
        0 <= n <= steps.len(),
    ensures
        forall|e: int|
            0 <= e < s.run(steps, n).0.in_flight.len() ==> {
                let entry = #[trigger] s.run(steps, n).0.in_flight[e];
                s.in_flight.contains(entry) || s.next_ticket <= entry.1
            },
    decreases n,
{
    if n > 0 {
        lemma_run_flights(s, steps, n - 1);
        lemma_run_steady(s, steps, n - 1);
        lemma_run(s, steps, n - 1);
        let then = s.run(steps, n - 1).0;
        let end = s.run(steps, n).0;
        lemma_step_flights(then, steps[n - 1]);
        assert forall|e: int| 0 <= e < end.in_flight.len() implies {
            let entry = #[trigger] end.in_flight[e];
            s.in_flight.contains(entry) || s.next_ticket <= entry.1
        } by {
            let entry = end.in_flight[e];
            if then.in_flight.contains(entry) {
                let b = choose|b: int| 0 <= b < then.in_flight.len() && then.in_flight[b] == entry;
                assert(s.in_flight.contains(then.in_flight[b]) || s.next_ticket
                    <= then.in_flight[b].1);
            }
        }
    } else {
        assert forall|e: int| 0 <= e < s.in_flight.len() implies s.in_flight.contains(
            #[trigger] s.in_flight[e],
        ) by {}
    }
}

/// Every identity that is in flight when its job is over has had its
/// outcome: somewhere in the run the effects tell the end of that job, of a
/// case of this identity, as completed or as an error.
///
/// This holds of the jobs that were live at the start of the run or were
/// spawned during it. With the two facts that after a change of the wanted
/// set the identities in flight are the wanted ones that no result seen
/// before stood for, and that a report leaves the in-flight map alone, it
/// says what has happened once the manager is settled: each wanted case has
/// its result from an earlier run or from its own job, and none was cancelled.
pub proof fn lemma_run_outcomes(s: ManagerView, steps: Seq<StepView>, n: int, e: int)
    requires
        s.steady(),
        0 <= n <= steps.len(),
        0 <= e < s.run(steps, n).0.in_flight.len(),
        !s.run(steps, n).0.live(s.run(steps, n).0.in_flight[e].1),
        s.live(s.run(steps, n).0.in_flight[e].1) || s.next_ticket <= s.run(
            steps,
            n,
        ).0.in_flight[e].1,
    ensures
        exists|k: int|
            (#[trigger] outcome_at(s.run(steps, n).1, k, s.run(steps, n).0.in_flight[e].1))
                matches Some((case, status)) && case.id() == s.run(steps, n).0.in_flight[e].0 && (
            status is Completed || status is Error),
    decreases n,
{
    let (end, effects) = s.run(steps, n);
    let entry = end.in_flight[e];
    let ticket = entry.1;
    if n == 0 {
        assert(s.in_flight[e].1 < s.next_ticket);
        assert(false);
    } else {
        let (then, first) = s.run(steps, n - 1);
        let step = steps[n - 1];
        let (after, last) = then.step(step);
        lemma_run_steady(s, steps, n - 1);
        lemma_run(s, steps, n - 1);
        lemma_step(then, step);
        assert(effects == first + last);
        // The entry was in flight before the step: what a step puts in flight is live after it.
        lemma_step_flights(then, step);
        assert(then.in_flight.contains(entry));
        let before = choose|b: int| 0 <= b < then.in_flight.len() && then.in_flight[b] == entry;
        assert(0 <= before < then.in_flight.len() && then.in_flight[before] == entry);
        if then.live(ticket) {
            // The job ended by this step, which then is a report of it.
            match step {
                StepView::Report { ticket: about, event } => {
                    lemma_report_outcome(then, about, event, before);
                    let (case, status) = outcome_at(last, 0, ticket)->0;
                    let k = first.len() as int;
                    assert(effects[k] == last[0]);
                    assert(effects[k + 1] == last[1]);
                    assert(outcome_at(effects, k, ticket) == Some((case, status)));
                },
                StepView::Want { cases } => {
                    lemma_set_cases_ends(then, cases, ticket);
                    assert(flight_tickets(end.in_flight)[e] == ticket);
                    assert(false);
                },
            }
        } else {
            // The job was over before: its outcome is among the effects up to then.
            assert(s.live(ticket) || s.next_ticket <= ticket);
            lemma_run_outcomes(s, steps, n - 1, before);
            let k = choose|k: int|
                (#[trigger] outcome_at(first, k, ticket)) matches Some((case, status)) && case.id()
                    == entry.0 && (status is Completed || status is Error);
            assert(effects[k] == first[k]);
            assert(effects[k + 1] == first[k + 1]);
            assert(outcome_at(effects, k, ticket) == outcome_at(first, k, ticket));
        }
    }
}

/// Once a manager that began with no job and nothing in flight is settled,
/// every identity in flight has had its outcome: the effects of the run
/// tell the end of its job, of a case of this identity, as completed or as
/// an error. None of them was cancelled.
pub proof fn lemma_settled_outcomes(s: ManagerView, steps: Seq<StepView>, e: int)
    requires
        s.steady(),
        s.jobs.len() == 0,
        s.in_flight.len() == 0,
        s.run(steps, steps.len() as int).0.settled(),
        0 <= e < s.run(steps, steps.len() as int).0.in_flight.len(),
    ensures
        exists|k: int|
            (#[trigger] outcome_at(
                s.run(steps, steps.len() as int).1,
                k,
                s.run(steps, steps.len() as int).0.in_flight[e].1,
            )) matches Some((case, status)) && case.id() == s.run(
                steps,
                steps.len() as int,
            ).0.in_flight[e].0 && (status is Completed || status is Error),
{
    let n = steps.len() as int;
    let end = s.run(steps, n).0;
    lemma_run_flights(s, steps, n);
    let entry = end.in_flight[e];
    assert(!s.in_flight.contains(entry));
    assert(tickets(end.jobs) =~= Seq::<u64>::empty());
    lemma_run_outcomes(s, steps, n, e);
}

} // verus!
