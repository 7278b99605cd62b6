//! Jobs that are cancelled before they have their resources are never started.

use crate::job::{react_to_cancel, ActionView};
use crate::lifecycle::order::{
    launched, launches_within, lemma_act, lemma_cancel_gone, lemma_cancel_job, lemma_job_of,
    lemma_kept, lemma_remove_distinct, lemma_start_all, lemma_take_up_new, lemma_without_gone,
};
use crate::lifecycle::sound::{
    empty_handed, granted_to, lemma_cancel_gone_sound, lemma_phase_at, lemma_phase_without,
    lemma_same_phases, lemma_start_all_jobs, lemma_withdraw_sound,
};
use crate::model::{
    case_ids, flight_ids, is_wanted, notify, result_key, result_of, tickets, EffectView,
    ManagerView,
};
use crate::lending::{lemma_forget, lemma_schedule};
use crate::pool::ResourcesView;
use crate::test::{StatusView, TestCaseView};
use vstd::prelude::*;

verus! {

/// A job that is cancelled before it has its resources, whether it has
/// asked for them or not, is over at once, as cancelled, and the
/// cancellation starts no process for it.
pub proof fn lemma_cancel_while_waiting(s: ManagerView, ticket: u64)
    requires
        s.inv(),
        s.job_of(ticket) matches Some(i) && empty_handed(Some(s.jobs[i].phase)),
    ensures
        !s.cancel_job(ticket).0.live(ticket),
        s.cancel_job(ticket).1.len() >= 1,
        s.cancel_job(ticket).1[0] == notify(
            s.jobs[s.job_of(ticket)->0].test_case,
            StatusView::Canceled,
        ),
        forall|k: int|
            0 <= k < s.cancel_job(ticket).1.len() ==> launched(#[trigger] s.cancel_job(ticket).1[k])
                != Some(ticket),
{
    lemma_job_of(s, ticket);
    let i = s.job_of(ticket)->0;
    lemma_act(s, i, s.jobs[i].after_cancel(), react_to_cancel(s.jobs[i].phase).1);
    let (end, effects) = s.cancel_job(ticket);
    assert forall|k: int| 0 <= k < effects.len() implies launched(#[trigger] effects[k]) != Some(
        ticket,
    ) by {
        if launched(effects[k]) == Some(ticket) {
            assert(tickets(end.jobs).contains(ticket));
        }
    }
}

/// Only a job that was granted its resources is started.
pub proof fn lemma_start_all_launches(s: ManagerView, handles: Seq<ResourcesView>, n: int)
    requires
        0 <= n <= handles.len(),
    ensures
        launches_within(s.start_all(handles, n).1, granted_to(handles)),
    decreases n,
{
    if n > 0 {
        lemma_start_all_launches(s, handles, n - 1);
        let (then, first) = s.start_all(handles, n - 1);
        let h = handles[n - 1];
        lemma_job_of(then, h.ticket);
        let last = then.start(h).1;
        assert(granted_to(handles)[n - 1] == h.ticket);
        assert forall|k: int| 0 <= k < (first + last).len() implies (launched(
            #[trigger] (first + last)[k],
        ) matches Some(t) ==> granted_to(handles).contains(t)) by {
            if k < first.len() {
                assert((first + last)[k] == first[k]);
            } else {
                assert((first + last)[k] == last[k - first.len()]);
            }
        }
    }
}

/// What a step does to a job that neither waits in the queue nor is the
/// one that the step is about: nothing. It is not started, it stays in its
/// phase, and it does not come to wait in the queue.
pub open spec fn untouched(
    s: ManagerView,
    end: ManagerView,
    effects: Seq<EffectView>,
    about: u64,
) -> bool {
    &&& forall|t: u64| end.pools.waits(t) ==> s.pools.waits(t)
    &&& forall|k: int|
        0 <= k < effects.len() ==> (launched(#[trigger] effects[k]) matches Some(t)
            ==> s.pools.waits(t))
    &&& forall|t: u64| t != about && !s.pools.waits(t) ==> end.phase_of(t) == s.phase_of(t)
}

/// The end of a job touches no job but those that waited in the queue.
pub proof fn lemma_finish_untouched(s: ManagerView, i: int, status: StatusView)
    requires
        s.inv(),
        0 <= i < s.jobs.len(),
    ensures
        untouched(s, s.finish(i, status).0, s.finish(i, status).1, s.jobs[i].ticket),
{
    let job = s.jobs[i];
    let ticket = job.ticket;
    let withdrawn = s.pools.forget(ticket);
    let released = withdrawn.release(ticket);
    let (served, handles) = released.schedule();
    let results = match status {
        StatusView::Completed(result) => s.results.insert(result_key(job.test_case), result),
        _ => s.results,
    };
    let left = ManagerView { jobs: s.jobs.remove(i), pools: served, results, ..s };
    let n = handles.len() as int;
    let (end, started) = left.start_all(handles, n);
    let effects = s.finish(i, status).1;
    lemma_forget(s.pools.waiters, ticket);
    lemma_schedule(released);
    assert(tickets(left.jobs) =~= tickets(s.jobs).remove(i));
    lemma_remove_distinct(tickets(s.jobs), i);
    lemma_start_all(left, handles, n);
    lemma_start_all_jobs(left, handles, n);
    lemma_start_all_launches(left, handles, n);
    assert(handles.take(n) =~= handles);
    assert forall|t: u64| released.waits(t) implies s.pools.waits(t) by {
        let w = choose|w: int| 0 <= w < released.waiters.len() && released.waiters[w].ticket == t;
        assert(released.waiters.contains(released.waiters[w]));
        let b = choose|b: int| 0 <= b < s.pools.waiters.len() && s.pools.waiters[b] == released.waiters[w];
    }
    assert forall|t: u64| granted_to(handles).contains(t) implies released.waits(t) by {
        let k = choose|k: int| 0 <= k < handles.len() && granted_to(handles)[k] == t;
        assert(handles[k].ticket == released.waiters[k].ticket);
    }
    assert forall|t: u64| end.pools.waits(t) implies s.pools.waits(t) by {
        let w = choose|w: int| 0 <= w < served.waiters.len() && served.waiters[w].ticket == t;
        assert(served.waiters[w] == released.waiters[w + n]);
        assert(released.waits(t));
    }
    let head = seq![
        notify(job.test_case, status),
        EffectView::Finish { job: job.ticket, result: result_of(status) },
    ];
    assert(effects == head + started);
    assert forall|k: int| 0 <= k < effects.len() implies (launched(#[trigger] effects[k])
        matches Some(t) ==> s.pools.waits(t)) by {
        if k >= 2 {
            assert(effects[k] == started[k - 2]);
            if let Some(t) = launched(started[k - 2]) {
                assert(granted_to(handles).contains(t));
                assert(released.waits(t));
            }
        } else {
            assert(effects[k] == head[k]);
        }
    }
    assert forall|t: u64| t != ticket && !s.pools.waits(t) implies end.phase_of(t) == s.phase_of(
        t,
    ) by {
        lemma_phase_without(s, i, t);
        lemma_same_phases(left, ManagerView { jobs: s.jobs.remove(i), ..s }, t);
        lemma_job_of(left, t);
        assert(!granted_to(handles).contains(t)) by {
            if granted_to(handles).contains(t) {
                assert(released.waits(t));
            }
        }
        match left.job_of(t) {
            Some(j) => {
                assert(end.jobs[j].ticket == t);
                assert(end.jobs[j].phase == left.jobs[j].phase);
                lemma_phase_at(end, j);
                lemma_phase_at(left, j);
            },
            None => {
                lemma_job_of(end, t);
            },
        }
    }
}

/// A cancellation touches no job but the one that is cancelled and those
/// that waited in the queue.
pub proof fn lemma_cancel_job_untouched(s: ManagerView, ticket: u64)
    requires
        s.inv(),
    ensures
        untouched(s, s.cancel_job(ticket).0, s.cancel_job(ticket).1, ticket),
{
    lemma_job_of(s, ticket);
    match s.job_of(ticket) {
        Some(i) => {
            let after = s.jobs[i].after_cancel();
            let moved = ManagerView { jobs: s.jobs.update(i, after), ..s };
            assert(tickets(moved.jobs) =~= tickets(s.jobs));
            assert forall|t: u64| t != ticket implies moved.phase_of(t) == s.phase_of(t) by {
                lemma_job_of(s, t);
            }
            match react_to_cancel(s.jobs[i].phase).1 {
                ActionView::Finish(status) => {
                    lemma_finish_untouched(moved, i, status);
                },
                _ => {},
            }
        },
        None => {},
    }
}

/// Jobs that are cancelled together never start one another: a job that
/// has not its resources yet when its case leaves the wanted set is over
/// after the change, and the change starts no process for it, whatever the
/// jobs that are cancelled with it give back.
pub proof fn lemma_cancelled_batch(s: ManagerView, cases: Seq<TestCaseView>, e: int)
    requires
        s.sound(),
        !s.exhausted(cases.len()),
        0 <= e < s.in_flight.len(),
        !case_ids(cases).contains(s.in_flight[e].0),
        empty_handed(s.phase_of(s.in_flight[e].1)),
    ensures
        !s.set_cases(cases).0.live(s.in_flight[e].1),
        forall|k: int|
            0 <= k < s.set_cases(cases).1.len() ==> launched(#[trigger] s.set_cases(cases).1[k])
                != Some(s.in_flight[e].1),
{
    let wanted = case_ids(cases);
    let known = flight_ids(s.in_flight);
    let n = s.in_flight.len() as int;
    let ticket = s.in_flight[e].1;
    let marked = ManagerView { pools: s.withdraw_gone(s.in_flight, wanted, n), ..s };
    lemma_withdraw_sound(s, s.in_flight, wanted, n);
    assert(!marked.pools.waits(ticket)) by {
        if marked.pools.waits(ticket) {
            assert(0 <= e < n && !wanted.contains(s.in_flight[e].0) && s.in_flight[e].1 == ticket);
        }
    }
    assert(marked.phase_of(ticket) == s.phase_of(ticket));
    lemma_cancel_gone_batch(marked, s.in_flight, wanted, n, ticket);
    lemma_cancel_gone(marked, s.in_flight, wanted, n);
    let (then, cancelled) = marked.cancel_gone(s.in_flight, wanted, n);
    let kept = ManagerView { in_flight: s.in_flight.filter(is_wanted(wanted)), ..then };
    lemma_kept(s.in_flight, wanted);
    lemma_without_gone(then, wanted);
    lemma_take_up_new(kept, known, cases, cases.len() as int);
    let started = kept.take_up_new(known, cases, cases.len() as int).1;
    assert(!kept.live(ticket));
    assert(ticket < kept.next_ticket) by {
        assert(s.in_flight[e].1 < s.next_ticket);
    }
    let effects = s.set_cases(cases).1;
    assert(effects == cancelled + started);
    assert forall|k: int| 0 <= k < effects.len() implies launched(#[trigger] effects[k]) != Some(
        ticket,
    ) by {
        if k < cancelled.len() {
            assert(effects[k] == cancelled[k]);
        } else {
            assert(effects[k] == started[k - cancelled.len()]);
        }
    }
}

/// While the jobs of what is wanted no more are cancelled, one of them
/// that waits and whose request was withdrawn is not started; and it is
/// over once its turn has come.
pub proof fn lemma_cancel_gone_batch(
    s: ManagerView,
    entries: Seq<(Seq<char>, u64)>,
    wanted: Seq<Seq<char>>,
    i: int,
    ticket: u64,
)
    requires
        s.sound(),
        0 <= i <= entries.len(),
        !s.pools.waits(ticket),
        empty_handed(s.phase_of(ticket)),
    ensures
        ({
            let (end, effects) = s.cancel_gone(entries, wanted, i);
            &&& !end.pools.waits(ticket)
            &&& (empty_handed(end.phase_of(ticket)) || !end.live(ticket))
            &&& forall|k: int|
                0 <= k < effects.len() ==> launched(#[trigger] effects[k]) != Some(ticket)
            &&& ((exists|e: int|
                0 <= e < i && !wanted.contains((#[trigger] entries[e]).0) && entries[e].1 == ticket)
                ==> !end.live(ticket))
        }),
    decreases i,
{
    if i > 0 {
        lemma_cancel_gone_batch(s, entries, wanted, i - 1, ticket);
        lemma_cancel_gone_sound(s, entries, wanted, i - 1);
        let (then, first) = s.cancel_gone(entries, wanted, i - 1);
        let effects = s.cancel_gone(entries, wanted, i).1;
        if !wanted.contains(entries[i - 1].0) {
            let other = entries[i - 1].1;
            let (after, last) = then.cancel_job(other);
            lemma_cancel_job(then, other);
            lemma_cancel_job_untouched(then, other);
            lemma_job_of(then, ticket);
            lemma_job_of(after, ticket);
            if other == ticket {
                if then.live(ticket) {
                    lemma_cancel_while_waiting(then, ticket);
                }
            } else {
                assert(after.phase_of(ticket) == then.phase_of(ticket));
            }
            assert(effects == first + last);
            assert forall|k: int| 0 <= k < effects.len() implies launched(#[trigger] effects[k])
                != Some(ticket) by {
                if k < first.len() {
                    assert(effects[k] == first[k]);
                } else {
                    assert(effects[k] == last[k - first.len()]);
                }
            }
            if exists|e: int|
                0 <= e < i && !wanted.contains((#[trigger] entries[e]).0) && entries[e].1 == ticket {
                let e = choose|e: int|
                    0 <= e < i && !wanted.contains((#[trigger] entries[e]).0) && entries[e].1
                        == ticket;
                if e < i - 1 {
                    assert(!then.live(ticket));
                }
            }
        } else {
            if exists|e: int|
                0 <= e < i && !wanted.contains((#[trigger] entries[e]).0) && entries[e].1 == ticket {
                let e = choose|e: int|
                    0 <= e < i && !wanted.contains((#[trigger] entries[e]).0) && entries[e].1
                        == ticket;
                assert(e < i - 1);
            }
        }
    } else {
        lemma_job_of(s, ticket);
    }
}

} // verus!
