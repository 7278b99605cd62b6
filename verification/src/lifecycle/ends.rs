//! The end of every job is told exactly once.

use crate::job::{react, react_to_cancel, ActionView, JobEventView, JobView};
use crate::lifecycle::order::{
    lemma_cancel_gone, lemma_cancel_job, lemma_finish, lemma_job_event, lemma_job_of,
    lemma_new_is_free, lemma_react_ends, lemma_report_stores, lemma_run, lemma_spawn, lemma_step,
    lemma_take_up_new, lemma_without_gone,
};
use crate::model::{
    case_ids, flight_ids, is_wanted, notify, result_key, result_of, tickets, EffectView,
    ManagerView, StepView,
};
use crate::pool::ResourcesView;
use crate::test::{StatusView, TestCaseView};
use vstd::prelude::*;

verus! {

/// The ticket of the job that the effect says is over, if it says so.
pub open spec fn finished(effect: EffectView) -> Option<u64> {
    match effect {
        EffectView::Finish { job, .. } => Some(job),
        _ => None,
    }
}

/// The tickets of the jobs that the effects say are over, in order.
pub open spec fn finished_in(effects: Seq<EffectView>) -> Seq<u64>
    decreases effects.len(),
{
    if effects.len() == 0 {
        Seq::empty()
    } else {
        match finished(effects.last()) {
            Some(ticket) => finished_in(effects.drop_last()).push(ticket),
            None => finished_in(effects.drop_last()),
        }
    }
}

/// The jobs that effects say are over, one lot after the other, are those
/// of the first lot and then those of the second.
pub proof fn lemma_finished_in_both(first: Seq<EffectView>, last: Seq<EffectView>)
    ensures
        finished_in(first + last) == finished_in(first) + finished_in(last),
    decreases last.len(),
{
    if last.len() == 0 {
        assert(first + last =~= first);
        assert(finished_in(first) + finished_in(last) =~= finished_in(first));
    } else {
        lemma_finished_in_both(first, last.drop_last());
        assert((first + last).drop_last() =~= first + last.drop_last());
        assert((first + last).last() == last.last());
        match finished(last.last()) {
            Some(ticket) => {
                assert(finished_in(first + last) =~= finished_in(first) + finished_in(last));
            },
            None => {},
        }
    }
}

/// One effect says of its job that it is over, or of none.
pub proof fn lemma_finished_in_one(effect: EffectView)
    ensures
        finished_in(seq![effect]) == match finished(effect) {
            Some(ticket) => seq![ticket],
            None => Seq::<u64>::empty(),
        },
{
    let one = seq![effect];
    assert(one.drop_last() =~= Seq::<EffectView>::empty());
    assert(one.last() == effect);
    assert(finished_in(one.drop_last()) =~= Seq::<u64>::empty());
    match finished(effect) {
        Some(ticket) => {
            assert(finished_in(one) =~= seq![ticket]);
        },
        None => {},
    }
}

/// Effects of which none says that a job is over.
pub open spec fn none_finished(effects: Seq<EffectView>) -> bool {
    forall|k: int| 0 <= k < effects.len() ==> finished(#[trigger] effects[k]) is None
}

/// Where no effect says that a job is over, no job is said to be over.
pub proof fn lemma_none_finished(effects: Seq<EffectView>)
    requires
        none_finished(effects),
    ensures
        finished_in(effects) == Seq::<u64>::empty(),
    decreases effects.len(),
{
    if effects.len() > 0 {
        assert(finished(effects[effects.len() - 1]) is None);
        assert forall|k: int| 0 <= k < effects.drop_last().len() implies finished(
            #[trigger] effects.drop_last()[k],
        ) is None by {
            assert(effects.drop_last()[k] == effects[k]);
        }
        lemma_none_finished(effects.drop_last());
    }
}

/// Starting jobs says of no job that it is over.
pub proof fn lemma_start_all_ends(s: ManagerView, handles: Seq<ResourcesView>, n: int)
    requires
        0 <= n <= handles.len(),
    ensures
        none_finished(s.start_all(handles, n).1),
    decreases n,
{
    if n > 0 {
        lemma_start_all_ends(s, handles, n - 1);
        let (then, first) = s.start_all(handles, n - 1);
        let last = then.start(handles[n - 1]).1;
        assert forall|k: int| 0 <= k < (first + last).len() implies finished(
            #[trigger] (first + last)[k],
        ) is None by {
            if k < first.len() {
                assert((first + last)[k] == first[k]);
            } else {
                assert((first + last)[k] == last[k - first.len()]);
            }
        }
    }
}

/// The end of a job says of this job, and of no other, that it is over.
pub proof fn lemma_finish_ends(s: ManagerView, i: int, status: StatusView)
    requires
        0 <= i < s.jobs.len(),
    ensures
        finished_in(s.finish(i, status).1) == seq![s.jobs[i].ticket],
{
    let job = s.jobs[i];
    let (pools, granted) = s.pools.leave(job.ticket);
    let results = match status {
        StatusView::Completed(result) => s.results.insert(result_key(job.test_case), result),
        _ => s.results,
    };
    let left = ManagerView { jobs: s.jobs.remove(i), pools, results, ..s };
    let started = left.start_all(granted, granted.len() as int).1;
    lemma_start_all_ends(left, granted, granted.len() as int);
    lemma_none_finished(started);
    let head = seq![
        notify(job.test_case, status),
        EffectView::Finish { job: job.ticket, result: result_of(status) },
    ];
    let told = notify(job.test_case, status);
    let over = EffectView::Finish { job: job.ticket, result: result_of(status) };
    lemma_finished_in_both(head, started);
    lemma_finished_in_one(told);
    lemma_finished_in_one(over);
    lemma_finished_in_both(seq![told], seq![over]);
    assert(head =~= seq![told] + seq![over]);
    assert(finished_in(head) =~= seq![job.ticket]);
    assert(finished_in(head) + finished_in(started) =~= seq![job.ticket]);
}

/// What a supervisor asks for says of its job that it is over if it asks
/// for its end, and of no job else.
pub proof fn lemma_act_ends(s: ManagerView, i: int, job: JobView, action: ActionView)
    requires
        0 <= i < s.jobs.len(),
        job.ticket == s.jobs[i].ticket,
    ensures
        finished_in(s.act(i, job, action).1) == if action is Finish {
            seq![job.ticket]
        } else {
            Seq::<u64>::empty()
        },
{
    let moved = ManagerView { jobs: s.jobs.update(i, job), ..s };
    match action {
        ActionView::Finish(status) => {
            lemma_finish_ends(moved, i, status);
        },
        _ => {
            lemma_none_finished(s.act(i, job, action).1);
        },
    }
}

/// Whether the effects of a step tell the ends of the jobs that the step
/// ended, each once, and of no other job.
pub open spec fn ends_told(s: ManagerView, end: ManagerView, effects: Seq<EffectView>) -> bool {
    &&& finished_in(effects).no_duplicates()
    &&& forall|t: u64| finished_in(effects).contains(t) <==> s.live(t) && !end.live(t)
}

/// A report tells the end of the job that it ends, once, and of no other.
pub proof fn lemma_job_event_ends(s: ManagerView, ticket: u64, event: JobEventView)
    requires
        s.inv(),
    ensures
        ends_told(s, s.job_event(ticket, event).0, s.job_event(ticket, event).1),
{
    lemma_job_of(s, ticket);
    lemma_job_event(s, ticket, event);
    lemma_report_stores(s, ticket, event);
    let (end, effects) = s.job_event(ticket, event);
    match s.job_of(ticket) {
        Some(i) => {
            let action = react(s.jobs[i].phase, s.jobs[i].cancelled, event).1;
            lemma_act_ends(s, i, s.jobs[i].after(event), action);
            if action is Finish {
                assert(finished_in(effects)[0] == ticket);
                assert forall|t: u64| finished_in(effects).contains(t) <==> s.live(t)
                    && !end.live(t) by {
                    if finished_in(effects).contains(t) {
                        let a = choose|a: int|
                            0 <= a < finished_in(effects).len() && finished_in(effects)[a] == t;
                    }
                }
            } else {
                assert(tickets(end.jobs) == tickets(s.jobs));
            }
        },
        None => {},
    }
}

/// A cancellation tells the end of the job that it ends, once, and of no other.
pub proof fn lemma_cancel_job_ends(s: ManagerView, ticket: u64)
    requires
        s.inv(),
    ensures
        ends_told(s, s.cancel_job(ticket).0, s.cancel_job(ticket).1),
{
    lemma_job_of(s, ticket);
    lemma_cancel_job(s, ticket);
    let (end, effects) = s.cancel_job(ticket);
    match s.job_of(ticket) {
        Some(i) => {
            let after = s.jobs[i].after_cancel();
            let action = react_to_cancel(s.jobs[i].phase).1;
            lemma_act_ends(s, i, after, action);
            let moved = ManagerView { jobs: s.jobs.update(i, after), ..s };
            assert(tickets(moved.jobs) =~= tickets(s.jobs));
            match action {
                ActionView::Finish(status) => {
                    lemma_react_ends(s.jobs[i].phase, s.jobs[i].cancelled, JobEventView::Launched);
                    lemma_finish(moved, i, status);
                    assert(finished_in(effects)[0] == ticket);
                    assert forall|t: u64| finished_in(effects).contains(t) <==> s.live(t)
                        && !end.live(t) by {
                        if finished_in(effects).contains(t) {
                            let a = choose|a: int|
                                0 <= a < finished_in(effects).len() && finished_in(effects)[a]
                                    == t;
                        }
                    }
                },
                _ => {
                    assert(tickets(end.jobs) =~= tickets(s.jobs));
                },
            }
        },
        None => {},
    }
}

/// Two steps that tell the ends of the jobs that they end, one after the
/// other, tell the ends of the jobs that they end together, if a job that
/// is over after the first is over after the second, and a job that is not
/// over before the second was not over at the start.
pub proof fn lemma_ends_told_then(
    s: ManagerView,
    then: ManagerView,
    first: Seq<EffectView>,
    end: ManagerView,
    last: Seq<EffectView>,
)
    requires
        ends_told(s, then, first),
        ends_told(then, end, last),
        forall|t: u64| end.live(t) && s.live(t) ==> then.live(t),
        forall|t: u64| then.live(t) && !end.live(t) ==> s.live(t),
    ensures
        ends_told(s, end, first + last),
{
    lemma_finished_in_both(first, last);
    let a = finished_in(first);
    let b = finished_in(last);
    let all = finished_in(first + last);
    assert forall|x: int, y: int| 0 <= x < all.len() && 0 <= y < all.len() && x != y implies all[x]
        != all[y] by {
        if x < a.len() && y < a.len() {
            assert(all[x] == a[x] && all[y] == a[y]);
        } else if x >= a.len() && y >= a.len() {
            assert(all[x] == b[x - a.len()] && all[y] == b[y - a.len()]);
        } else if x < a.len() {
            assert(all[x] == a[x] && all[y] == b[y - a.len()]);
            assert(a.contains(a[x]));
            assert(b.contains(b[y - a.len()]));
            assert(!then.live(a[x]) && then.live(b[y - a.len()]));
        } else {
            assert(all[y] == a[y] && all[x] == b[x - a.len()]);
            assert(a.contains(a[y]));
            assert(b.contains(b[x - a.len()]));
            assert(!then.live(a[y]) && then.live(b[x - a.len()]));
        }
    }
    assert forall|t: u64| all.contains(t) <==> s.live(t) && !end.live(t) by {
        if all.contains(t) {
            let x = choose|x: int| 0 <= x < all.len() && all[x] == t;
            if x < a.len() {
                assert(a[x] == t);
                assert(a.contains(t));
            } else {
                assert(b[x - a.len()] == t);
                assert(b.contains(t));
            }
        }
        if s.live(t) && !end.live(t) {
            if then.live(t) {
                assert(b.contains(t));
                let y = choose|y: int| 0 <= y < b.len() && b[y] == t;
                assert(all[a.len() + y] == t);
            } else {
                assert(a.contains(t));
                let x = choose|x: int| 0 <= x < a.len() && a[x] == t;
                assert(all[x] == t);
            }
        }
    }
}

/// Cancelling the jobs of what is wanted no more tells the ends of the jobs
/// that it ends, each once, and of no other.
pub proof fn lemma_cancel_gone_ends_told(
    s: ManagerView,
    entries: Seq<(Seq<char>, u64)>,
    wanted: Seq<Seq<char>>,
    i: int,
)
    requires
        s.inv(),
        0 <= i <= entries.len(),
    ensures
        ends_told(s, s.cancel_gone(entries, wanted, i).0, s.cancel_gone(entries, wanted, i).1),
    decreases i,
{
    if i > 0 {
        lemma_cancel_gone_ends_told(s, entries, wanted, i - 1);
        lemma_cancel_gone(s, entries, wanted, i - 1);
        let (then, first) = s.cancel_gone(entries, wanted, i - 1);
        if !wanted.contains(entries[i - 1].0) {
            let ticket = entries[i - 1].1;
            lemma_cancel_job_ends(then, ticket);
            lemma_cancel_job(then, ticket);
            let (end, last) = then.cancel_job(ticket);
            lemma_ends_told_then(s, then, first, end, last);
        }
    } else {
        assert(finished_in(Seq::<EffectView>::empty()) =~= Seq::<u64>::empty());
    }
}

/// Taking up new cases ends no job and says of none that it is over; and
/// every ticket that it gives out is that of a job that is not over.
pub proof fn lemma_take_up_new_ends(
    base: ManagerView,
    known: Seq<Seq<char>>,
    cases: Seq<TestCaseView>,
    k: int,
)
    requires
        base.inv(),
        0 <= k <= cases.len(),
        base.next_ticket + k <= u64::MAX,
        forall|id: Seq<char>| flight_ids(base.in_flight).contains(id) ==> known.contains(id),
    ensures
        none_finished(base.take_up_new(known, cases, k).1),
        forall|t: u64| base.live(t) ==> base.take_up_new(known, cases, k).0.live(t),
        forall|t: u64|
            base.next_ticket <= t < base.take_up_new(known, cases, k).0.next_ticket
                ==> base.take_up_new(known, cases, k).0.live(t),
    decreases k,
{
    if k > 0 {
        lemma_take_up_new_ends(base, known, cases, k - 1);
        lemma_take_up_new(base, known, cases, k - 1);
        let (then, first) = base.take_up_new(known, cases, k - 1);
        let case = cases[k - 1];
        if ManagerView::is_new(known, cases, k - 1) {
            let (end, last) = then.take_up(case);
            if then.cache_lookup(case) is None {
                lemma_new_is_free(base, known, cases, k);
                lemma_spawn(then, case);
                lemma_spawn_ends(then, case);
                assert(end == then.spawn(case).0);
                assert forall|t: u64| base.next_ticket <= t < end.next_ticket implies end.live(
                    t,
                ) by {
                    if t < then.next_ticket {
                        assert(then.live(t));
                    }
                }
            }
            assert forall|j: int| 0 <= j < (first + last).len() implies finished(
                #[trigger] (first + last)[j],
            ) is None by {
                if j < first.len() {
                    assert((first + last)[j] == first[j]);
                } else {
                    assert((first + last)[j] == last[j - first.len()]);
                }
            }
        }
    }
}

/// A job that is spawned says of no job that it is over.
pub proof fn lemma_spawn_ends(s: ManagerView, case: TestCaseView)
    ensures
        none_finished(s.spawn(case).1),
{
}

/// A change of the wanted set tells the ends of the jobs that it ends, each
/// once, and of no other; and every ticket that it gives out is that of a
/// job that is not over after it.
pub proof fn lemma_set_cases_ends_told(s: ManagerView, cases: Seq<TestCaseView>)
    requires
        s.inv(),
        !s.exhausted(cases.len()),
    ensures
        ends_told(s, s.set_cases(cases).0, s.set_cases(cases).1),
        forall|t: u64|
            s.next_ticket <= t < s.set_cases(cases).0.next_ticket ==> s.set_cases(cases).0.live(t),
{
    let wanted = case_ids(cases);
    let known = flight_ids(s.in_flight);
    let n = s.in_flight.len() as int;
    let marked = ManagerView { pools: s.withdraw_gone(s.in_flight, wanted, n), ..s };
    lemma_cancel_gone(marked, s.in_flight, wanted, n);
    lemma_cancel_gone_ends_told(marked, s.in_flight, wanted, n);
    let (then, cancelled) = marked.cancel_gone(s.in_flight, wanted, n);
    let kept = ManagerView { in_flight: s.in_flight.filter(is_wanted(wanted)), ..then };
    lemma_without_gone(then, wanted);
    lemma_take_up_new_ends(kept, known, cases, cases.len() as int);
    lemma_take_up_new(kept, known, cases, cases.len() as int);
    let (end, started) = kept.take_up_new(known, cases, cases.len() as int);
    lemma_none_finished(started);
    lemma_finished_in_both(cancelled, started);
    assert(finished_in(cancelled) + finished_in(started) =~= finished_in(cancelled));
    assert forall|t: u64| finished_in(cancelled).contains(t) <==> s.live(t) && !end.live(t) by {
        assert(marked.live(t) == s.live(t));
        assert(kept.live(t) == then.live(t));
        if s.live(t) && end.live(t) {
            // A job that was live before has a ticket below those that were given out.
            let a = choose|a: int| 0 <= a < tickets(s.jobs).len() && tickets(s.jobs)[a] == t;
            assert(tickets(s.jobs)[a] < s.next_ticket);
        }
    }
}

/// Every step tells the ends of the jobs that it ends, each once, and of
/// no other; and every ticket that it gives out is that of a job that is
/// not over after it.
pub proof fn lemma_step_ends_told(s: ManagerView, step: StepView)
    requires
        s.inv(),
    ensures
        ends_told(s, s.step(step).0, s.step(step).1),
        forall|t: u64|
            s.next_ticket <= t < s.step(step).0.next_ticket ==> s.step(step).0.live(t),
{
    match step {
        StepView::Report { ticket, event } => {
            lemma_job_event_ends(s, ticket, event);
            lemma_job_event(s, ticket, event);
        },
        StepView::Want { cases } => {
            if s.exhausted(cases.len()) {
                assert(finished_in(Seq::<EffectView>::empty()) =~= Seq::<u64>::empty());
            } else {
                lemma_set_cases_ends_told(s, cases);
            }
        },
    }
}

/// The end of every job is told exactly once.
///
/// Over a whole run, the effects say of a job that it is over if and only
/// if the job was live at the start, or was spawned during the run, and is
/// over at the end; and they say so once. With `lemma_report_stores`, by
/// which the effect before that one tells the status with which the job
/// ended: each job that was spawned has one notification of its end, and no
/// job has two.
pub proof fn lemma_run_ends_told(s: ManagerView, steps: Seq<StepView>, n: int)
    requires
        s.inv(),
        0 <= n <= steps.len(),
    ensures
        finished_in(s.run(steps, n).1).no_duplicates(),
        forall|t: u64|
            finished_in(s.run(steps, n).1).contains(t) <==> (s.live(t) || s.next_ticket <= t
                < s.run(steps, n).0.next_ticket) && !s.run(steps, n).0.live(t),
    decreases n,
{
    if n == 0 {
        assert(finished_in(Seq::<EffectView>::empty()) =~= Seq::<u64>::empty());
    } else {
        lemma_run_ends_told(s, steps, n - 1);
        lemma_run(s, steps, n - 1);
        let (then, first) = s.run(steps, n - 1);
        let step = steps[n - 1];
        let (end, last) = then.step(step);
        lemma_step(then, step);
        lemma_step_ends_told(then, step);
        lemma_finished_in_both(first, last);
        let a = finished_in(first);
        let b = finished_in(last);
        let all = finished_in(first + last);
        assert forall|t: u64| then.live(t) implies t < then.next_ticket by {
            let i = choose|i: int| 0 <= i < tickets(then.jobs).len() && tickets(then.jobs)[i] == t;
            assert(tickets(then.jobs)[i] < then.next_ticket);
        }
        assert forall|t: u64| s.live(t) implies t < s.next_ticket by {
            let i = choose|i: int| 0 <= i < tickets(s.jobs).len() && tickets(s.jobs)[i] == t;
            assert(tickets(s.jobs)[i] < s.next_ticket);
        }
        assert forall|x: int, y: int|
            0 <= x < all.len() && 0 <= y < all.len() && x != y implies all[x] != all[y] by {
            if x < a.len() && y < a.len() {
                assert(all[x] == a[x] && all[y] == a[y]);
            } else if x >= a.len() && y >= a.len() {
                assert(all[x] == b[x - a.len()] && all[y] == b[y - a.len()]);
            } else if x < a.len() {
                assert(all[x] == a[x] && all[y] == b[y - a.len()]);
                assert(a.contains(a[x]));
                assert(b.contains(b[y - a.len()]));
                assert(!then.live(a[x]) && then.live(b[y - a.len()]));
            } else {
                assert(all[y] == a[y] && all[x] == b[x - a.len()]);
                assert(a.contains(a[y]));
                assert(b.contains(b[x - a.len()]));
                assert(!then.live(a[y]) && then.live(b[x - a.len()]));
            }
        }
        assert forall|t: u64|
            all.contains(t) <==> (s.live(t) || s.next_ticket <= t < end.next_ticket) && !end.live(
                t,
            ) by {
            if all.contains(t) {
                let x = choose|x: int| 0 <= x < all.len() && all[x] == t;
                if x < a.len() {
                    assert(a[x] == t);
                    assert(a.contains(t));
                } else {
                    assert(b[x - a.len()] == t);
                    assert(b.contains(t));
                }
            }
            if a.contains(t) {
                // A job that was over before the step is over after it.
                assert(!then.live(t));
                assert(s.live(t) || s.next_ticket <= t < then.next_ticket);
                assert(s.next_ticket <= then.next_ticket);
                assert(t < then.next_ticket);
                assert(!end.live(t));
            }
            if b.contains(t) {
                assert(then.live(t) && !end.live(t));
                assert(s.live(t) || s.next_ticket <= t < then.next_ticket);
            }
            if (s.live(t) || s.next_ticket <= t < end.next_ticket) && !end.live(t) {
                if then.live(t) {
                    assert(b.contains(t));
                    let y = choose|y: int| 0 <= y < b.len() && b[y] == t;
                    assert(all[a.len() + y] == t);
                } else {
                    // A ticket that the step gave out is that of a job that is not over after it.
                    assert(t < then.next_ticket);
                    assert(a.contains(t));
                    let x = choose|x: int| 0 <= x < a.len() && a[x] == t;
                    assert(all[x] == t);
                }
            }
        }
    }
}

} // verus!
