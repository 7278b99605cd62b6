//! The order of things: tickets only rise, a job is live from its spawn to
//! its end, and each step says what it keeps.

use crate::job::{react, react_to_cancel, ActionView, JobEventView, JobPhase, JobView};
use crate::lists::{slot_below, lemma_slot_below};
use crate::model::{
    case_ids, flight_ids, is_wanted, notify, result_key, result_of, tickets, EffectView,
    ManagerView, StepView,
};
use crate::pool::ResourcesView;
use crate::test::{StatusView, TestCaseView};
use vstd::prelude::*;

verus! {

/// The ticket of the job whose process the effect asks to start, if it asks for that.
pub open spec fn launched(effect: EffectView) -> Option<u64> {
    match effect {
        EffectView::Launch { job, .. } => Some(job),
        _ => None,
    }
}

/// Whether the effect tells that a job is over.
pub open spec fn terminal(effect: EffectView) -> bool {
    effect matches EffectView::Notify(n) && n.status.terminal()
}

/// Whether none of the effects tells that a job is over.
pub open spec fn none_terminal(effects: Seq<EffectView>) -> bool {
    forall|k: int| 0 <= k < effects.len() ==> !terminal(#[trigger] effects[k])
}

/// Whether every process that the effects ask to start is that of a job in `live`.
pub open spec fn launches_within(effects: Seq<EffectView>, live: Seq<u64>) -> bool {
    forall|k: int|
        0 <= k < effects.len() ==> (launched(#[trigger] effects[k]) matches Some(t)
            ==> live.contains(t))
}

impl ManagerView {
    /// No two jobs have one ticket, every ticket in use lies below the next
    /// one, and no identity is in flight twice.
    pub open spec fn inv(self) -> bool {
        &&& tickets(self.jobs).no_duplicates()
        &&& forall|i: int|
            0 <= i < self.jobs.len() ==> (#[trigger] tickets(self.jobs)[i]) < self.next_ticket
        &&& forall|i: int|
            0 <= i < self.in_flight.len() ==> (#[trigger] self.in_flight[i]).1 < self.next_ticket
        &&& flight_ids(self.in_flight).no_duplicates()
    }

    /// Whether a job with `ticket` is not over.
    pub open spec fn live(self, ticket: u64) -> bool {
        tickets(self.jobs).contains(ticket)
    }

    /// Whether the two states differ in their jobs at most, and these have
    /// the same tickets and cases in both.
    pub open spec fn same_but_jobs(self, end: ManagerView) -> bool {
        &&& end.in_flight == self.in_flight
        &&& end.results == self.results
        &&& end.next_ticket == self.next_ticket
        &&& end.tests == self.tests
        &&& end.origin == self.origin
        &&& end.job_env == self.job_env
        &&& tickets(end.jobs) == tickets(self.jobs)
        &&& end.jobs.len() == self.jobs.len()
        &&& forall|i: int|
            0 <= i < self.jobs.len() ==> (#[trigger] end.jobs[i]).test_case
                == self.jobs[i].test_case
    }
}

/// The job that is looked up by a ticket has that ticket, and where none is
/// found no job has it.
pub proof fn lemma_job_of(s: ManagerView, ticket: u64)
    ensures
        match s.job_of(ticket) {
            Some(i) => 0 <= i < s.jobs.len() && s.jobs[i].ticket == ticket && s.live(ticket),
            None => !s.live(ticket),
        },
{
    lemma_slot_below(tickets(s.jobs), ticket, s.jobs.len() as int);
    match s.job_of(ticket) {
        Some(i) => {
            assert(tickets(s.jobs)[i] == ticket);
        },
        None => {},
    }
}

/// Starting a job changes that job alone, and neither its ticket nor its
/// case. It ends no job, and starts the process of a live job only.
pub proof fn lemma_start(s: ManagerView, handle: ResourcesView)
    ensures
        s.same_but_jobs(s.start(handle).0),
        s.start(handle).0.pools == s.pools,
        none_terminal(s.start(handle).1),
        launches_within(s.start(handle).1, tickets(s.jobs)),
{
    lemma_job_of(s, handle.ticket);
    match s.job_of(handle.ticket) {
        Some(i) => {
            assert(tickets(s.start(handle).0.jobs) =~= tickets(s.jobs));
        },
        None => {},
    }
}

/// What holds of starting one job holds of starting several.
pub proof fn lemma_start_all(s: ManagerView, handles: Seq<ResourcesView>, i: int)
    requires
        0 <= i <= handles.len(),
    ensures
        s.same_but_jobs(s.start_all(handles, i).0),
        s.start_all(handles, i).0.pools == s.pools,
        none_terminal(s.start_all(handles, i).1),
        launches_within(s.start_all(handles, i).1, tickets(s.jobs)),
    decreases i,
{
    if i > 0 {
        lemma_start_all(s, handles, i - 1);
        let (then, first) = s.start_all(handles, i - 1);
        lemma_start(then, handles[i - 1]);
        let (end, last) = then.start(handles[i - 1]);
        assert forall|k: int| 0 <= k < (first + last).len() implies !terminal(
            #[trigger] (first + last)[k],
        ) && (launched((first + last)[k]) matches Some(t) ==> tickets(s.jobs).contains(t)) by {
            if k < first.len() {
                assert((first + last)[k] == first[k]);
            } else {
                assert((first + last)[k] == last[k - first.len()]);
            }
        }
    }
}

/// What every step keeps that spawns no job: the in-flight map and the
/// next ticket stay, no job appears, processes are started for live jobs
/// only, and what holds of every state goes on holding.
pub open spec fn calm(s: ManagerView, end: ManagerView, effects: Seq<EffectView>) -> bool {
    &&& end.in_flight == s.in_flight
    &&& end.next_ticket == s.next_ticket
    &&& end.tests == s.tests
    &&& end.origin == s.origin
    &&& end.job_env == s.job_env
    &&& end.jobs.len() <= s.jobs.len()
    &&& forall|t: u64| end.live(t) ==> s.live(t)
    &&& launches_within(effects, tickets(end.jobs))
    &&& (s.inv() ==> end.inv())
}

/// A sequence without duplicates has none after an element is taken out,
/// and no longer holds that element.
pub proof fn lemma_remove_distinct(s: Seq<u64>, i: int)
    requires
        0 <= i < s.len(),
        s.no_duplicates(),
    ensures
        s.remove(i).no_duplicates(),
        !s.remove(i).contains(s[i]),
        forall|t: u64| s.remove(i).contains(t) ==> s.contains(t),
        forall|t: u64| s.contains(t) && t != s[i] ==> s.remove(i).contains(t),
{
    let r = s.remove(i);
    assert forall|a: int, b: int| 0 <= a < r.len() && 0 <= b < r.len() && a != b implies r[a]
        != r[b] by {
        let a2 = if a < i {
            a
        } else {
            a + 1
        };
        let b2 = if b < i {
            b
        } else {
            b + 1
        };
        assert(r[a] == s[a2] && r[b] == s[b2]);
    }
    assert forall|t: u64| r.contains(t) implies s.contains(t) && t != s[i] by {
        let a = choose|a: int| 0 <= a < r.len() && r[a] == t;
        let a2 = if a < i {
            a
        } else {
            a + 1
        };
        assert(r[a] == s[a2]);
    }
    assert forall|t: u64| s.contains(t) && t != s[i] implies r.contains(t) by {
        let a = choose|a: int| 0 <= a < s.len() && s[a] == t;
        let a2 = if a < i {
            a
        } else {
            a - 1
        };
        assert(r[a2] == s[a]);
    }
}

/// The end of a job. The job is live no more, and it alone: the others
/// stay. Exactly one effect tells that a job is over, the first, and it tells
/// the status of this job. Only a completion is stored.
pub proof fn lemma_finish(s: ManagerView, i: int, status: StatusView)
    requires
        0 <= i < s.jobs.len(),
        tickets(s.jobs).no_duplicates(),
        status.terminal(),
    ensures
        calm(s, s.finish(i, status).0, s.finish(i, status).1),
        !s.finish(i, status).0.live(s.jobs[i].ticket),
        forall|t: u64| s.live(t) && t != s.jobs[i].ticket ==> s.finish(i, status).0.live(t),
        s.finish(i, status).0.jobs.len() == s.jobs.len() - 1,
        s.finish(i, status).0.results == match status {
            StatusView::Completed(result) => s.results.insert(result_key(s.jobs[i].test_case), result),
            _ => s.results,
        },
        s.finish(i, status).1.len() >= 2,
        s.finish(i, status).1[0] == notify(s.jobs[i].test_case, status),
        s.finish(i, status).1[1] == (EffectView::Finish {
            job: s.jobs[i].ticket,
            result: result_of(status),
        }),
        none_terminal(s.finish(i, status).1.skip(1)),
{
    let job = s.jobs[i];
    let (pools, granted) = s.pools.leave(job.ticket);
    let results = match status {
        StatusView::Completed(result) => s.results.insert(result_key(job.test_case), result),
        _ => s.results,
    };
    let left = ManagerView { jobs: s.jobs.remove(i), pools, results, ..s };
    let (end, started) = left.start_all(granted, granted.len() as int);
    lemma_start_all(left, granted, granted.len() as int);
    assert(tickets(left.jobs) =~= tickets(s.jobs).remove(i));
    assert(tickets(s.jobs)[i] == job.ticket);
    lemma_remove_distinct(tickets(s.jobs), i);
    let effects = s.finish(i, status).1;
    let head = seq![
        notify(job.test_case, status),
        EffectView::Finish { job: job.ticket, result: result_of(status) },
    ];
    assert(effects == head + started);
    assert forall|k: int| 0 <= k < effects.len() implies (launched(#[trigger] effects[k])
        matches Some(t) ==> tickets(end.jobs).contains(t)) by {
        if k >= 2 {
            assert(effects[k] == started[k - 2]);
        }
    }
    assert forall|k: int| 0 <= k < effects.skip(1).len() implies !terminal(
        #[trigger] effects.skip(1)[k],
    ) by {
        if k >= 1 {
            assert(effects.skip(1)[k] == started[k - 1]);
        }
    }
    if s.inv() {
        assert forall|j: int| 0 <= j < end.jobs.len() implies (#[trigger] tickets(end.jobs)[j])
            < end.next_ticket by {
            let j2 = if j < i {
                j
            } else {
                j + 1
            };
            assert(tickets(end.jobs)[j] == tickets(s.jobs)[j2]);
        }
    }
}

/// What a supervisor asks for, done. Whatever it is, the step is calm, and
/// only the end of the job can store a result or end a job.
pub proof fn lemma_act(s: ManagerView, i: int, job: JobView, action: ActionView)
    requires
        0 <= i < s.jobs.len(),
        tickets(s.jobs).no_duplicates(),
        job.ticket == s.jobs[i].ticket,
        job.test_case == s.jobs[i].test_case,
        action matches ActionView::Finish(status) ==> status.terminal(),
    ensures
        calm(s, s.act(i, job, action).0, s.act(i, job, action).1),
        match action {
            ActionView::Finish(status) => {
                &&& !s.act(i, job, action).0.live(job.ticket)
                &&& s.act(i, job, action).0.results == match status {
                    StatusView::Completed(result) => s.results.insert(
                        result_key(job.test_case),
                        result,
                    ),
                    _ => s.results,
                }
                &&& s.act(i, job, action).1.len() >= 2
                &&& s.act(i, job, action).1[0] == notify(job.test_case, status)
                &&& none_terminal(s.act(i, job, action).1.skip(1))
            },
            ActionView::Acquire => {
                &&& s.act(i, job, action).0.results == s.results
                &&& tickets(s.act(i, job, action).0.jobs) == tickets(s.jobs)
                &&& none_terminal(s.act(i, job, action).1)
            },
            _ => {
                &&& s.act(i, job, action).0.results == s.results
                &&& s.act(i, job, action).0.pools == s.pools
                &&& s.act(i, job, action).0.jobs == s.jobs.update(i, job)
                &&& tickets(s.act(i, job, action).0.jobs) == tickets(s.jobs)
                &&& none_terminal(s.act(i, job, action).1)
            },
        },
        forall|t: u64| s.live(t) && t != job.ticket ==> s.act(i, job, action).0.live(t),
{
    let moved = ManagerView { jobs: s.jobs.update(i, job), ..s };
    assert(tickets(moved.jobs) =~= tickets(s.jobs));
    assert(tickets(s.jobs)[i] == job.ticket);
    match action {
        ActionView::Acquire => {
            let (pools, handle) = moved.pools.get(job.ticket, job.test_case.test.needs_resources);
            let asked = ManagerView { pools, ..moved };
            match handle {
                Some(h) => {
                    lemma_start(asked, h);
                },
                None => {},
            }
        },
        ActionView::Finish(status) => {
            lemma_finish(moved, i, status);
            assert forall|t: u64| s.live(t) && t != job.ticket implies s.act(
                i,
                job,
                action,
            ).0.live(t) by {
                assert(moved.live(t));
            }
        },
        _ => {},
    }
}

/// What the supervisor asks for after a report is the end of the job only
/// with a status that ends it.
pub proof fn lemma_react_ends(phase: JobPhase, cancelled: bool, event: JobEventView)
    ensures
        react(phase, cancelled, event).1 matches ActionView::Finish(status) ==> status.terminal(),
        react_to_cancel(phase).1 matches ActionView::Finish(status) ==> status.terminal(),
{
}

/// A report from the outside is a calm step.
pub proof fn lemma_job_event(s: ManagerView, ticket: u64, event: JobEventView)
    requires
        tickets(s.jobs).no_duplicates(),
    ensures
        calm(s, s.job_event(ticket, event).0, s.job_event(ticket, event).1),
        forall|t: u64| s.live(t) && t != ticket ==> s.job_event(ticket, event).0.live(t),
{
    lemma_job_of(s, ticket);
    match s.job_of(ticket) {
        Some(i) => {
            lemma_react_ends(s.jobs[i].phase, s.jobs[i].cancelled, event);
            lemma_act(
                s,
                i,
                s.jobs[i].after(event),
                react(s.jobs[i].phase, s.jobs[i].cancelled, event).1,
            );
        },
        None => {},
    }
}

/// A cancellation is a calm step, and stores nothing.
pub proof fn lemma_cancel_job(s: ManagerView, ticket: u64)
    requires
        tickets(s.jobs).no_duplicates(),
    ensures
        calm(s, s.cancel_job(ticket).0, s.cancel_job(ticket).1),
        s.cancel_job(ticket).0.results == s.results,
        forall|t: u64| s.live(t) && t != ticket ==> s.cancel_job(ticket).0.live(t),
{
    lemma_job_of(s, ticket);
    match s.job_of(ticket) {
        Some(i) => {
            lemma_react_ends(s.jobs[i].phase, s.jobs[i].cancelled, JobEventView::Launched);
            lemma_act(s, i, s.jobs[i].after_cancel(), react_to_cancel(s.jobs[i].phase).1);
        },
        None => {},
    }
}

/// A job is spawned: it gets the next ticket and its case is in flight. No
/// job ends by it and nothing is stored.
pub proof fn lemma_spawn(s: ManagerView, case: TestCaseView)
    requires
        s.inv(),
        s.next_ticket < u64::MAX,
        !flight_ids(s.in_flight).contains(case.id()),
    ensures
        s.spawn(case).0.inv(),
        s.spawn(case).0.next_ticket == s.next_ticket + 1,
        s.spawn(case).0.in_flight == s.in_flight.push((case.id(), s.next_ticket)),
        s.spawn(case).0.jobs.len() == s.jobs.len() + 1,
        tickets(s.spawn(case).0.jobs) == tickets(s.jobs).push(s.next_ticket),
        s.spawn(case).0.live(s.next_ticket),
        s.spawn(case).0.results == s.results,
        s.spawn(case).0.tests == s.tests,
        s.spawn(case).0.origin == s.origin,
        s.spawn(case).0.job_env == s.job_env,
        forall|t: u64| s.live(t) ==> s.spawn(case).0.live(t),
        s.spawn(case).0.pools == s.pools,
        s.spawn(case).1 == seq![
            notify(case, StatusView::Enqueued),
            EffectView::Spawn { job: s.next_ticket },
        ],
        none_terminal(s.spawn(case).1),
        launches_within(s.spawn(case).1, tickets(s.spawn(case).0.jobs)),
{
    let ticket = s.next_ticket;
    let queued = s.spawn(case).0;
    assert(tickets(queued.jobs) =~= tickets(s.jobs).push(ticket));
    assert(flight_ids(queued.in_flight) =~= flight_ids(s.in_flight).push(case.id()));
    assert(tickets(queued.jobs)[s.jobs.len() as int] == ticket);
    assert forall|t: u64| s.live(t) implies queued.live(t) by {
        let a = choose|a: int| 0 <= a < tickets(s.jobs).len() && tickets(s.jobs)[a] == t;
        assert(tickets(queued.jobs)[a] == t);
    }
    assert(queued.inv()) by {
        assert forall|a: int, b: int|
            0 <= a < tickets(queued.jobs).len() && 0 <= b < tickets(queued.jobs).len() && a
                != b implies tickets(queued.jobs)[a] != tickets(queued.jobs)[b] by {
            if a < s.jobs.len() {
                assert(tickets(queued.jobs)[a] == tickets(s.jobs)[a]);
            }
            if b < s.jobs.len() {
                assert(tickets(queued.jobs)[b] == tickets(s.jobs)[b]);
            }
        }
        assert forall|i: int| 0 <= i < queued.jobs.len() implies (#[trigger] tickets(
            queued.jobs,
        )[i]) < queued.next_ticket by {
            if i < s.jobs.len() {
                assert(tickets(queued.jobs)[i] == tickets(s.jobs)[i]);
            }
        }
        assert forall|i: int| 0 <= i < queued.in_flight.len() implies (
        #[trigger] queued.in_flight[i]).1 < queued.next_ticket by {
            if i < s.in_flight.len() {
                assert(queued.in_flight[i] == s.in_flight[i]);
            }
        }
        assert forall|a: int, b: int|
            0 <= a < flight_ids(queued.in_flight).len() && 0 <= b < flight_ids(
                queued.in_flight,
            ).len() && a != b implies flight_ids(queued.in_flight)[a] != flight_ids(
            queued.in_flight,
        )[b] by {
            if a < s.in_flight.len() {
                assert(flight_ids(queued.in_flight)[a] == flight_ids(s.in_flight)[a]);
            }
            if b < s.in_flight.len() {
                assert(flight_ids(queued.in_flight)[b] == flight_ids(s.in_flight)[b]);
            }
        }
    }
}

/// What every step of the manager keeps: tickets only rise, a job that is
/// live after the step was live before it or has a ticket that the step gave
/// out, a process is started only for such a job, and what holds of every
/// state goes on holding.
pub open spec fn orderly(s: ManagerView, end: ManagerView, effects: Seq<EffectView>) -> bool {
    &&& s.next_ticket <= end.next_ticket
    &&& end.tests == s.tests
    &&& end.origin == s.origin
    &&& end.job_env == s.job_env
    &&& forall|t: u64| end.live(t) ==> s.live(t) || s.next_ticket <= t < end.next_ticket
    &&& forall|k: int|
        0 <= k < effects.len() ==> (launched(#[trigger] effects[k]) matches Some(t) ==> s.live(t)
            || s.next_ticket <= t < end.next_ticket)
    &&& (s.inv() ==> end.inv())
}

/// A calm step is orderly.
pub proof fn lemma_calm_is_orderly(s: ManagerView, end: ManagerView, effects: Seq<EffectView>)
    requires
        calm(s, end, effects),
    ensures
        orderly(s, end, effects),
{
    assert forall|k: int| 0 <= k < effects.len() implies (launched(#[trigger] effects[k])
        matches Some(t) ==> s.live(t) || s.next_ticket <= t < end.next_ticket) by {
        if let Some(t) = launched(effects[k]) {
            assert(end.live(t));
        }
    }
}

/// Two orderly steps, one after the other, make an orderly step.
pub proof fn lemma_orderly_then(
    s: ManagerView,
    then: ManagerView,
    first: Seq<EffectView>,
    end: ManagerView,
    last: Seq<EffectView>,
)
    requires
        orderly(s, then, first),
        orderly(then, end, last),
    ensures
        orderly(s, end, first + last),
{
    let effects = first + last;
    assert forall|k: int| 0 <= k < effects.len() implies (launched(#[trigger] effects[k])
        matches Some(t) ==> s.live(t) || s.next_ticket <= t < end.next_ticket) by {
        if k < first.len() {
            assert(effects[k] == first[k]);
        } else {
            assert(effects[k] == last[k - first.len()]);
            if let Some(t) = launched(effects[k]) {
                if then.live(t) {
                    assert(s.live(t) || s.next_ticket <= t < then.next_ticket);
                }
            }
        }
    }
    assert forall|t: u64| end.live(t) implies s.live(t) || s.next_ticket <= t
        < end.next_ticket by {
        if then.live(t) {
            assert(s.live(t) || s.next_ticket <= t < then.next_ticket);
        }
    }
}

/// Cancelling the jobs of what is wanted no more is orderly; it touches
/// neither the in-flight map nor the tickets nor the results, and adds no job.
pub proof fn lemma_cancel_gone(
    s: ManagerView,
    entries: Seq<(Seq<char>, u64)>,
    wanted: Seq<Seq<char>>,
    i: int,
)
    requires
        s.inv(),
        0 <= i <= entries.len(),
    ensures
        orderly(s, s.cancel_gone(entries, wanted, i).0, s.cancel_gone(entries, wanted, i).1),
        s.cancel_gone(entries, wanted, i).0.inv(),
        s.cancel_gone(entries, wanted, i).0.in_flight == s.in_flight,
        s.cancel_gone(entries, wanted, i).0.next_ticket == s.next_ticket,
        s.cancel_gone(entries, wanted, i).0.results == s.results,
        s.cancel_gone(entries, wanted, i).0.jobs.len() <= s.jobs.len(),
    decreases i,
{
    if i > 0 {
        lemma_cancel_gone(s, entries, wanted, i - 1);
        let (then, first) = s.cancel_gone(entries, wanted, i - 1);
        if !wanted.contains(entries[i - 1].0) {
            lemma_cancel_job(then, entries[i - 1].1);
            let (end, last) = then.cancel_job(entries[i - 1].1);
            lemma_calm_is_orderly(then, end, last);
            lemma_orderly_then(s, then, first, end, last);
        }
    }
}

/// What is kept of an in-flight map: exactly the entries whose identity is
/// wanted, and no identity twice where none was in flight twice.
pub proof fn lemma_kept(entries: Seq<(Seq<char>, u64)>, wanted: Seq<Seq<char>>)
    ensures
        forall|e: (Seq<char>, u64)| #[trigger]
            entries.filter(is_wanted(wanted)).contains(e) <==> entries.contains(e)
                && wanted.contains(e.0),
        flight_ids(entries).no_duplicates() ==> flight_ids(
            entries.filter(is_wanted(wanted)),
        ).no_duplicates(),
    decreases entries.len(),
{
    reveal(Seq::filter);
    let kept = entries.filter(is_wanted(wanted));
    if entries.len() > 0 {
        let rest = entries.drop_last();
        let last = entries.last();
        lemma_kept(rest, wanted);
        let kept_rest = rest.filter(is_wanted(wanted));
        assert forall|e: (Seq<char>, u64)| #[trigger] kept.contains(e) <==> entries.contains(e)
            && wanted.contains(e.0) by {
            if kept.contains(e) {
                let a = choose|a: int| 0 <= a < kept.len() && kept[a] == e;
                if a < kept_rest.len() {
                    assert(kept_rest[a] == e);
                    assert(kept_rest.contains(e));
                    let b = choose|b: int| 0 <= b < rest.len() && rest[b] == e;
                    assert(entries[b] == e);
                } else {
                    assert(e == last);
                    assert(entries[entries.len() - 1] == e);
                }
            }
            if entries.contains(e) && wanted.contains(e.0) {
                let b = choose|b: int| 0 <= b < entries.len() && entries[b] == e;
                if b < rest.len() {
                    assert(rest[b] == e);
                    assert(kept_rest.contains(e));
                    let a = choose|a: int| 0 <= a < kept_rest.len() && kept_rest[a] == e;
                    assert(kept[a] == e);
                } else {
                    assert(kept[kept.len() - 1] == e);
                }
            }
        }
        if flight_ids(entries).no_duplicates() {
            assert forall|a: int, b: int|
                0 <= a < rest.len() && 0 <= b < rest.len() && a != b implies flight_ids(rest)[a]
                != flight_ids(rest)[b] by {
                assert(flight_ids(rest)[a] == flight_ids(entries)[a]);
                assert(flight_ids(rest)[b] == flight_ids(entries)[b]);
            }
            assert forall|a: int, b: int|
                0 <= a < kept.len() && 0 <= b < kept.len() && a != b implies flight_ids(kept)[a]
                != flight_ids(kept)[b] by {
                if a < kept_rest.len() && b < kept_rest.len() {
                    assert(flight_ids(kept)[a] == flight_ids(kept_rest)[a]);
                    assert(flight_ids(kept)[b] == flight_ids(kept_rest)[b]);
                } else {
                    let c = if a < kept_rest.len() {
                        a
                    } else {
                        b
                    };
                    assert(kept[c] == kept_rest[c]);
                    assert(kept_rest.contains(kept_rest[c]));
                    let d = choose|d: int| 0 <= d < rest.len() && rest[d] == kept_rest[c];
                    assert(flight_ids(entries)[d] == kept_rest[c].0);
                    assert(flight_ids(entries)[entries.len() - 1] == last.0);
                }
            }
        }
    }
}

/// Once the entries of what is wanted no more have left the in-flight map,
/// what holds of every state holds again, and every identity in flight was
/// in flight before and is wanted.
pub proof fn lemma_without_gone(then: ManagerView, wanted: Seq<Seq<char>>)
    requires
        then.inv(),
    ensures
        (ManagerView { in_flight: then.in_flight.filter(is_wanted(wanted)), ..then }).inv(),
        forall|id: Seq<char>|
            flight_ids(then.in_flight.filter(is_wanted(wanted))).contains(id) ==> flight_ids(
                then.in_flight,
            ).contains(id) && wanted.contains(id),
{
    let kept = ManagerView { in_flight: then.in_flight.filter(is_wanted(wanted)), ..then };
    lemma_kept(then.in_flight, wanted);
    assert forall|i: int| 0 <= i < kept.in_flight.len() implies (#[trigger] kept.in_flight[i]).1
        < kept.next_ticket by {
        assert(kept.in_flight.contains(kept.in_flight[i]));
        let b = choose|b: int|
            0 <= b < then.in_flight.len() && then.in_flight[b] == kept.in_flight[i];
    }
    assert forall|id: Seq<char>| flight_ids(kept.in_flight).contains(id) implies flight_ids(
        then.in_flight,
    ).contains(id) && wanted.contains(id) by {
        let a = choose|a: int| 0 <= a < kept.in_flight.len() && flight_ids(kept.in_flight)[a] == id;
        assert(kept.in_flight.contains(kept.in_flight[a]));
        let b = choose|b: int|
            0 <= b < then.in_flight.len() && then.in_flight[b] == kept.in_flight[a];
        assert(flight_ids(then.in_flight)[b] == id);
    }
}

/// Whether case `j` of `cases` got a job when the new ones among `cases`
/// were taken up: it is new, and no result seen before stands for it.
pub open spec fn spawned(s: ManagerView, known: Seq<Seq<char>>, cases: Seq<TestCaseView>, j: int) -> bool {
    ManagerView::is_new(known, cases, j) && s.cache_lookup(cases[j]) is None
}

/// Taking up a case is orderly and stores nothing. Where a result seen
/// before stands for the case, nothing changes and the one effect tells
/// that result; else a job is spawned.
pub proof fn lemma_take_up(s: ManagerView, case: TestCaseView)
    requires
        s.inv(),
        s.next_ticket < u64::MAX,
        !flight_ids(s.in_flight).contains(case.id()),
    ensures
        orderly(s, s.take_up(case).0, s.take_up(case).1),
        s.take_up(case).0.inv(),
        s.take_up(case).0.results == s.results,
        match s.cache_lookup(case) {
            Some(result) => s.take_up(case) == (
                s,
                seq![notify(case, StatusView::Completed(result))],
            ),
            None => s.take_up(case) == s.spawn(case),
        },
{
    match s.cache_lookup(case) {
        Some(result) => {},
        None => {
            lemma_spawn(s, case);
            let (end, effects) = s.spawn(case);
            assert forall|t: u64| end.live(t) implies s.live(t) || s.next_ticket <= t
                < end.next_ticket by {
                let a = choose|a: int| 0 <= a < tickets(end.jobs).len() && tickets(end.jobs)[a] == t;
                if a < s.jobs.len() {
                    assert(tickets(s.jobs)[a] == t);
                }
            }
            assert forall|k: int| 0 <= k < effects.len() implies (launched(#[trigger] effects[k])
                matches Some(t) ==> s.live(t) || s.next_ticket <= t < end.next_ticket) by {
                if let Some(t) = launched(effects[k]) {
                    assert(end.live(t));
                }
            }
        },
    }
}

/// Taking up the new ones among the first `k` cases is orderly and stores
/// nothing. The identities in flight afterwards are those that were, and
/// those of the cases that got a job.
pub proof fn lemma_take_up_new(
    base: ManagerView,
    known: Seq<Seq<char>>,
    cases: Seq<TestCaseView>,
    k: int,
)
    requires
        base.inv(),
        0 <= k <= cases.len(),
        base.next_ticket + k <= u64::MAX,
        forall|id: Seq<char>| flight_ids(base.in_flight).contains(id) ==> known.contains(id),
    ensures
        orderly(base, base.take_up_new(known, cases, k).0, base.take_up_new(known, cases, k).1),
        base.take_up_new(known, cases, k).0.inv(),
        base.take_up_new(known, cases, k).0.results == base.results,
        base.take_up_new(known, cases, k).0.next_ticket <= base.next_ticket + k,
        forall|id: Seq<char>|
            flight_ids(base.take_up_new(known, cases, k).0.in_flight).contains(id) <==> flight_ids(
                base.in_flight,
            ).contains(id) || exists|j: int|
                0 <= j < k && #[trigger] spawned(base, known, cases, j) && cases[j].id() == id,
    decreases k,
{
    if k > 0 {
        lemma_take_up_new(base, known, cases, k - 1);
        let (then, first) = base.take_up_new(known, cases, k - 1);
        let case = cases[k - 1];
        let end = base.take_up_new(known, cases, k).0;
        if ManagerView::is_new(known, cases, k - 1) {
            assert(!flight_ids(then.in_flight).contains(case.id())) by {
                if flight_ids(then.in_flight).contains(case.id()) {
                    if !flight_ids(base.in_flight).contains(case.id()) {
                        let j = choose|j: int|
                            0 <= j < k - 1 && #[trigger] spawned(base, known, cases, j)
                                && cases[j].id() == case.id();
                        lemma_slot_below(case_ids(cases), case.id(), k - 1);
                        assert(case_ids(cases)[j] == case.id());
                    }
                }
            }
            lemma_take_up(then, case);
            let (after, last) = then.take_up(case);
            lemma_orderly_then(base, then, first, after, last);
            assert(then.cache_lookup(case) == base.cache_lookup(case));
            assert forall|id: Seq<char>|
                flight_ids(end.in_flight).contains(id) <==> flight_ids(base.in_flight).contains(id)
                    || exists|j: int|
                    0 <= j < k && #[trigger] spawned(base, known, cases, j) && cases[j].id()
                        == id by {
                match then.cache_lookup(case) {
                    Some(_) => {
                        assert(end.in_flight == then.in_flight);
                        assert(!spawned(base, known, cases, k - 1));
                    },
                    None => {
                        lemma_spawn(then, case);
                        assert(flight_ids(end.in_flight) =~= flight_ids(then.in_flight).push(
                            case.id(),
                        ));
                        assert(spawned(base, known, cases, k - 1));
                        if flight_ids(end.in_flight).contains(id) {
                            let a = choose|a: int|
                                0 <= a < flight_ids(end.in_flight).len() && flight_ids(
                                    end.in_flight,
                                )[a] == id;
                            if a < then.in_flight.len() {
                                assert(flight_ids(then.in_flight)[a] == id);
                                assert(flight_ids(then.in_flight).contains(id));
                            }
                        }
                        if flight_ids(then.in_flight).contains(id) {
                            let a = choose|a: int|
                                0 <= a < flight_ids(then.in_flight).len() && flight_ids(
                                    then.in_flight,
                                )[a] == id;
                            assert(flight_ids(end.in_flight)[a] == id);
                        }
                        if id == case.id() {
                            assert(flight_ids(end.in_flight)[then.in_flight.len() as int] == id);
                        }
                    },
                }
            }
        } else {
            assert(!spawned(base, known, cases, k - 1));
        }
    }
}

/// A case that is new is not in flight when its turn comes.
pub proof fn lemma_new_is_free(
    base: ManagerView,
    known: Seq<Seq<char>>,
    cases: Seq<TestCaseView>,
    k: int,
)
    requires
        base.inv(),
        1 <= k <= cases.len(),
        base.next_ticket + k <= u64::MAX,
        forall|id: Seq<char>| flight_ids(base.in_flight).contains(id) ==> known.contains(id),
        ManagerView::is_new(known, cases, k - 1),
    ensures
        !flight_ids(base.take_up_new(known, cases, k - 1).0.in_flight).contains(cases[k - 1].id()),
{
    lemma_take_up_new(base, known, cases, k - 1);
    let then = base.take_up_new(known, cases, k - 1).0;
    let case = cases[k - 1];
    if flight_ids(then.in_flight).contains(case.id()) {
        if !flight_ids(base.in_flight).contains(case.id()) {
            let j = choose|j: int|
                0 <= j < k - 1 && #[trigger] spawned(base, known, cases, j) && cases[j].id()
                    == case.id();
            lemma_slot_below(case_ids(cases), case.id(), k - 1);
            assert(case_ids(cases)[j] == case.id());
        }
    }
}

/// Changing the wanted set is orderly and stores nothing. Afterwards every
/// identity in flight is wanted; and every wanted identity is in flight,
/// but where a result seen before stands for a case of that identity.
pub proof fn lemma_set_cases(s: ManagerView, cases: Seq<TestCaseView>)
    requires
        s.inv(),
        !s.exhausted(cases.len()),
    ensures
        orderly(s, s.set_cases(cases).0, s.set_cases(cases).1),
        s.set_cases(cases).0.inv(),
        s.set_cases(cases).0.results == s.results,
        forall|id: Seq<char>|
            flight_ids(s.set_cases(cases).0.in_flight).contains(id) ==> case_ids(cases).contains(
                id,
            ),
        forall|k: int|
            0 <= k < cases.len() ==> flight_ids(s.set_cases(cases).0.in_flight).contains(
                (#[trigger] cases[k]).id(),
            ) || exists|j: int|
                0 <= j <= k && (#[trigger] cases[j]).id() == cases[k].id() && s.cache_lookup(
                    cases[j],
                ) is Some,
{
    let wanted = case_ids(cases);
    let known = flight_ids(s.in_flight);
    let marked = ManagerView {
        pools: s.withdraw_gone(s.in_flight, wanted, s.in_flight.len() as int),
        ..s
    };
    let (then, cancelled) = marked.cancel_gone(s.in_flight, wanted, s.in_flight.len() as int);
    lemma_cancel_gone(marked, s.in_flight, wanted, s.in_flight.len() as int);
    assert(orderly(s, then, cancelled));
    let kept = ManagerView { in_flight: s.in_flight.filter(is_wanted(wanted)), ..then };
    lemma_kept(s.in_flight, wanted);
    lemma_without_gone(then, wanted);
    assert(orderly(s, kept, cancelled));
    assert forall|id: Seq<char>| flight_ids(kept.in_flight).contains(id) implies known.contains(
        id,
    ) && wanted.contains(id) by {
        let a = choose|a: int| 0 <= a < kept.in_flight.len() && flight_ids(kept.in_flight)[a] == id;
        assert(kept.in_flight.contains(kept.in_flight[a]));
        let b = choose|b: int| 0 <= b < s.in_flight.len() && s.in_flight[b] == kept.in_flight[a];
        assert(known[b] == id);
    }
    lemma_take_up_new(kept, known, cases, cases.len() as int);
    let (end, started) = kept.take_up_new(known, cases, cases.len() as int);
    lemma_orderly_then(s, kept, cancelled, end, started);
    assert forall|id: Seq<char>| flight_ids(end.in_flight).contains(id) implies wanted.contains(
        id,
    ) by {
        if !flight_ids(kept.in_flight).contains(id) {
            let j = choose|j: int|
                0 <= j < cases.len() && #[trigger] spawned(kept, known, cases, j) && cases[j].id()
                    == id;
            assert(wanted[j] == id);
        }
    }
    assert forall|k: int| 0 <= k < cases.len() implies flight_ids(end.in_flight).contains(
        (#[trigger] cases[k]).id(),
    ) || exists|j: int|
        0 <= j <= k && (#[trigger] cases[j]).id() == cases[k].id() && s.cache_lookup(cases[j])
            is Some by {
        let id = cases[k].id();
        assert(wanted[k] == id);
        if known.contains(id) {
            let b = choose|b: int| 0 <= b < known.len() && known[b] == id;
            assert(s.in_flight.contains(s.in_flight[b]));
            assert(kept.in_flight.contains(s.in_flight[b]));
            let a = choose|a: int|
                0 <= a < kept.in_flight.len() && kept.in_flight[a] == s.in_flight[b];
            assert(flight_ids(kept.in_flight)[a] == id);
            assert(flight_ids(kept.in_flight).contains(id));
        } else {
            lemma_first_of(wanted, id, k);
            let j = first_of(wanted, id, k);
            assert(ManagerView::is_new(known, cases, j));
            assert(kept.cache_lookup(cases[j]) == s.cache_lookup(cases[j]));
            if s.cache_lookup(cases[j]) is None {
                assert(spawned(kept, known, cases, j));
            }
        }
    }
}

/// The first index at which `ids` holds what it holds at `k`.
pub open spec fn first_of(ids: Seq<Seq<char>>, id: Seq<char>, k: int) -> int
    decreases k,
{
    match slot_below(ids, id, k) {
        Some(j) => if 0 <= j < k {
            first_of(ids, id, j)
        } else {
            k
        },
        None => k,
    }
}

/// Where `ids` holds `id` at `k`, the first such index holds it, lies at or
/// before `k`, and no index before it holds `id`.
pub proof fn lemma_first_of(ids: Seq<Seq<char>>, id: Seq<char>, k: int)
    requires
        0 <= k < ids.len(),
        ids[k] == id,
    ensures
        0 <= first_of(ids, id, k) <= k,
        ids[first_of(ids, id, k)] == id,
        slot_below(ids, id, first_of(ids, id, k)) is None,
    decreases k,
{
    lemma_slot_below(ids, id, k);
    match slot_below(ids, id, k) {
        Some(j) => {
            lemma_first_of(ids, id, j);
        },
        None => {},
    }
}

/// Every step is orderly and keeps what holds of every state.
pub proof fn lemma_step(s: ManagerView, step: StepView)
    requires
        s.inv(),
    ensures
        orderly(s, s.step(step).0, s.step(step).1),
        s.step(step).0.inv(),
{
    match step {
        StepView::Report { ticket, event } => {
            lemma_job_event(s, ticket, event);
            lemma_calm_is_orderly(s, s.job_event(ticket, event).0, s.job_event(ticket, event).1);
        },
        StepView::Want { cases } => {
            if !s.exhausted(cases.len()) {
                lemma_set_cases(s, cases);
            }
        },
    }
}

/// Every run is orderly and keeps what holds of every state.
pub proof fn lemma_run(s: ManagerView, steps: Seq<StepView>, n: int)
    requires
        s.inv(),
        0 <= n <= steps.len(),
    ensures
        orderly(s, s.run(steps, n).0, s.run(steps, n).1),
        s.run(steps, n).0.inv(),
    decreases n,
{
    if n > 0 {
        lemma_run(s, steps, n - 1);
        let (then, first) = s.run(steps, n - 1);
        lemma_step(then, steps[n - 1]);
        let (end, last) = then.step(steps[n - 1]);
        lemma_orderly_then(s, then, first, end, last);
    }
}

/// A job that is over is never started: whatever happens after, no effect
/// asks for its process, and it does not come back to life.
pub proof fn lemma_over_is_over(s: ManagerView, ticket: u64, steps: Seq<StepView>, n: int)
    requires
        s.inv(),
        !s.live(ticket),
        ticket < s.next_ticket,
        0 <= n <= steps.len(),
    ensures
        !s.run(steps, n).0.live(ticket),
        forall|k: int|
            0 <= k < s.run(steps, n).1.len() ==> launched(#[trigger] s.run(steps, n).1[k]) != Some(
                ticket,
            ),
{
    lemma_run(s, steps, n);
}

/// Once the manager is settled, no report from the outside changes it or
/// has an effect: no further notification arrives.
pub proof fn lemma_settled_is_quiet(s: ManagerView, steps: Seq<StepView>, n: int)
    requires
        s.settled(),
        0 <= n <= steps.len(),
        forall|k: int| 0 <= k < n ==> (#[trigger] steps[k]) is Report,
    ensures
        s.run(steps, n) == (s, Seq::<EffectView>::empty()),
    decreases n,
{
    if n > 0 {
        lemma_settled_is_quiet(s, steps, n - 1);
        assert(steps[n - 1] is Report);
        assert(s.run(steps, n).1 =~= Seq::<EffectView>::empty());
    }
}

/// After nothing is wanted, nothing is in flight.
pub proof fn lemma_want_nothing(s: ManagerView)
    ensures
        s.set_cases(Seq::empty()).0.in_flight.len() == 0,
{
    let wanted = case_ids(Seq::<TestCaseView>::empty());
    let kept = s.in_flight.filter(is_wanted(wanted));
    if kept.len() > 0 {
        s.in_flight.lemma_filter_pred(is_wanted(wanted), 0);
        assert(wanted.contains(kept[0].0));
    }
}

/// What a report from the outside stores and tells. Where it ends the job,
/// exactly one effect tells that a job is over, the first, with the status
/// of this job; and a result is stored only where that status is a
/// completion, under the key of the job's case. Where it does not end the
/// job, nothing is stored and no effect tells that a job is over.
pub proof fn lemma_report_stores(s: ManagerView, ticket: u64, event: JobEventView)
    requires
        s.inv(),
    ensures
        match s.job_of(ticket) {
            Some(i) => match react(s.jobs[i].phase, s.jobs[i].cancelled, event).1 {
                ActionView::Finish(status) => {
                    &&& s.job_event(ticket, event).1.len() >= 2
                    &&& s.job_event(ticket, event).1[0] == notify(s.jobs[i].test_case, status)
                    &&& s.job_event(ticket, event).1[1] == (EffectView::Finish {
                        job: ticket,
                        result: result_of(status),
                    })
                    &&& !s.job_event(ticket, event).0.live(ticket)
                    &&& none_terminal(s.job_event(ticket, event).1.skip(1))
                    &&& s.job_event(ticket, event).0.results == match status {
                        StatusView::Completed(result) => s.results.insert(
                            result_key(s.jobs[i].test_case),
                            result,
                        ),
                        _ => s.results,
                    }
                },
                _ => s.job_event(ticket, event).0.results == s.results && none_terminal(
                    s.job_event(ticket, event).1,
                ) && tickets(s.job_event(ticket, event).0.jobs) == tickets(s.jobs),
            },
            None => s.job_event(ticket, event) == (s, Seq::<EffectView>::empty()),
        },
{
    lemma_job_of(s, ticket);
    match s.job_of(ticket) {
        Some(i) => {
            let after = s.jobs[i].after(event);
            let action = react(s.jobs[i].phase, s.jobs[i].cancelled, event).1;
            lemma_react_ends(s.jobs[i].phase, s.jobs[i].cancelled, event);
            lemma_act(s, i, after, action);
            let moved = ManagerView { jobs: s.jobs.update(i, after), ..s };
            assert(tickets(moved.jobs) =~= tickets(s.jobs));
            match action {
                ActionView::Finish(status) => {
                    lemma_finish(moved, i, status);
                },
                _ => {},
            }
        },
        None => {},
    }
}

} // verus!
