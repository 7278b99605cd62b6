//! How the jobs stand to the in-flight map: a job is cancelled if and only
//! if its case is wanted no more.

use crate::job::{react, react_to_cancel, ActionView, JobEventView, JobView};
use crate::lifecycle::order::{
    lemma_cancel_gone, lemma_job_of, lemma_kept, lemma_new_is_free, lemma_react_ends,
    lemma_remove_distinct, lemma_spawn, lemma_start_all, lemma_take_up_new, lemma_without_gone,
};
use crate::lifecycle::sound::lemma_start_all_jobs;
use crate::model::{case_ids, flight_ids, is_wanted, result_key, tickets, ManagerView};
use crate::pool::ResourcesView;
use crate::test::{StatusView, TestCaseView};
use vstd::prelude::*;

verus! {

/// The tickets of the entries of an in-flight map, in order.
pub open spec fn flight_tickets(in_flight: Seq<(Seq<char>, u64)>) -> Seq<u64> {
    in_flight.map_values(|e: (Seq<char>, u64)| e.1)
}

impl ManagerView {
    /// How the jobs stand to the in-flight map, where the jobs whose
    /// tickets are in `doomed` are being cancelled: no ticket is in flight
    /// twice; a job is cancelled if and only if its ticket is in flight no
    /// more or is doomed; and a job in flight is in flight under the
    /// identity of its case.
    pub open spec fn accounted_but(self, doomed: Set<u64>) -> bool {
        &&& flight_tickets(self.in_flight).no_duplicates()
        &&& forall|i: int|
            0 <= i < self.jobs.len() ==> ((#[trigger] self.jobs[i]).cancelled <==> !flight_tickets(
                self.in_flight,
            ).contains(self.jobs[i].ticket) || doomed.contains(self.jobs[i].ticket))
        &&& forall|e: int, i: int|
            0 <= e < self.in_flight.len() && 0 <= i < self.jobs.len() && (
            #[trigger] self.in_flight[e]).1 == (#[trigger] self.jobs[i]).ticket
                ==> self.jobs[i].test_case.id() == self.in_flight[e].0
    }

    /// How the jobs stand to the in-flight map in every state: a job is
    /// cancelled if and only if its ticket is in flight no more.
    pub open spec fn accounted(self) -> bool {
        self.accounted_but(Set::empty())
    }
}

/// Starting jobs leaves the jobs standing to the in-flight map as they stood.
pub proof fn lemma_start_all_accounted(
    s: ManagerView,
    handles: Seq<ResourcesView>,
    n: int,
    doomed: Set<u64>,
)
    requires
        0 <= n <= handles.len(),
        s.inv(),
        s.accounted_but(doomed),
    ensures
        s.start_all(handles, n).0.accounted_but(doomed),
{
    lemma_start_all(s, handles, n);
    lemma_start_all_jobs(s, handles, n);
    let end = s.start_all(handles, n).0;
    assert forall|i: int| 0 <= i < end.jobs.len() implies ((#[trigger] end.jobs[i]).cancelled
        <==> !flight_tickets(end.in_flight).contains(end.jobs[i].ticket) || doomed.contains(
        end.jobs[i].ticket,
    )) by {
        assert(s.jobs[i].cancelled == end.jobs[i].cancelled);
    }
    assert forall|e: int, i: int|
        0 <= e < end.in_flight.len() && 0 <= i < end.jobs.len() && (#[trigger] end.in_flight[e]).1
            == (#[trigger] end.jobs[i]).ticket implies end.jobs[i].test_case.id()
        == end.in_flight[e].0 by {
        assert(s.in_flight[e].1 == s.jobs[i].ticket);
    }
}

/// The end of a job leaves the jobs standing to the in-flight map as they stood.
pub proof fn lemma_finish_accounted(s: ManagerView, i: int, status: StatusView, doomed: Set<u64>)
    requires
        0 <= i < s.jobs.len(),
        s.inv(),
        s.accounted_but(doomed),
        status.terminal(),
    ensures
        s.finish(i, status).0.accounted_but(doomed),
{
    let job = s.jobs[i];
    let (pools, granted) = s.pools.leave(job.ticket);
    let results = match status {
        StatusView::Completed(result) => s.results.insert(result_key(job.test_case), result),
        _ => s.results,
    };
    let left = ManagerView { jobs: s.jobs.remove(i), pools, results, ..s };
    assert(tickets(left.jobs) =~= tickets(s.jobs).remove(i));
    lemma_remove_distinct(tickets(s.jobs), i);
    assert(left.inv()) by {
        assert forall|j: int| 0 <= j < left.jobs.len() implies (#[trigger] tickets(left.jobs)[j])
            < left.next_ticket by {
            let j2 = if j < i {
                j
            } else {
                j + 1
            };
            assert(tickets(left.jobs)[j] == tickets(s.jobs)[j2]);
        }
    }
    assert(left.accounted_but(doomed)) by {
        assert forall|j: int| 0 <= j < left.jobs.len() implies ((#[trigger] left.jobs[j]).cancelled
            <==> !flight_tickets(left.in_flight).contains(left.jobs[j].ticket) || doomed.contains(
            left.jobs[j].ticket,
        )) by {
            let j2 = if j < i {
                j
            } else {
                j + 1
            };
            assert(left.jobs[j] == s.jobs[j2]);
        }
        assert forall|e: int, j: int|
            0 <= e < left.in_flight.len() && 0 <= j < left.jobs.len() && (
            #[trigger] left.in_flight[e]).1 == (#[trigger] left.jobs[j]).ticket implies left.jobs[j].test_case.id()
            == left.in_flight[e].0 by {
            let j2 = if j < i {
                j
            } else {
                j + 1
            };
            assert(left.jobs[j] == s.jobs[j2]);
            assert(s.in_flight[e].1 == s.jobs[j2].ticket);
        }
    }
    lemma_start_all_accounted(left, granted, granted.len() as int, doomed);
}

/// A job that moves on without ending, and is cancelled as it must be,
/// leaves the jobs standing to the in-flight map as they must stand.
pub proof fn lemma_moved_accounted(s: ManagerView, i: int, job: JobView, doomed: Set<u64>)
    requires
        0 <= i < s.jobs.len(),
        job.ticket == s.jobs[i].ticket,
        job.test_case == s.jobs[i].test_case,
        s.accounted_but(doomed),
        job.cancelled <==> !flight_tickets(s.in_flight).contains(job.ticket) || doomed.contains(
            job.ticket,
        ),
        tickets(s.jobs).no_duplicates(),
    ensures
        (ManagerView { jobs: s.jobs.update(i, job), ..s }).accounted_but(doomed),
{
    let moved = ManagerView { jobs: s.jobs.update(i, job), ..s };
    assert forall|j: int| 0 <= j < moved.jobs.len() implies ((#[trigger] moved.jobs[j]).cancelled
        <==> !flight_tickets(moved.in_flight).contains(moved.jobs[j].ticket) || doomed.contains(
        moved.jobs[j].ticket,
    )) by {
        if j != i {
            assert(moved.jobs[j] == s.jobs[j]);
            assert(tickets(s.jobs)[j] == s.jobs[j].ticket);
            assert(tickets(s.jobs)[i] == s.jobs[i].ticket);
        }
    }
    assert forall|e: int, j: int|
        0 <= e < moved.in_flight.len() && 0 <= j < moved.jobs.len() && (
        #[trigger] moved.in_flight[e]).1 == (#[trigger] moved.jobs[j]).ticket implies moved.jobs[j].test_case.id()
        == moved.in_flight[e].0 by {
        assert(s.in_flight[e].1 == s.jobs[j].ticket);
    }
}

/// A report from the outside leaves the jobs standing to the in-flight map
/// as in every state.
pub proof fn lemma_job_event_accounted(s: ManagerView, ticket: u64, event: JobEventView)
    requires
        s.inv(),
        s.accounted(),
    ensures
        s.job_event(ticket, event).0.accounted(),
{
    lemma_job_of(s, ticket);
    match s.job_of(ticket) {
        Some(i) => {
            let after = s.jobs[i].after(event);
            let action = react(s.jobs[i].phase, s.jobs[i].cancelled, event).1;
            lemma_react_ends(s.jobs[i].phase, s.jobs[i].cancelled, event);
            lemma_moved_accounted(s, i, after, Set::empty());
            let moved = ManagerView { jobs: s.jobs.update(i, after), ..s };
            assert(tickets(moved.jobs) =~= tickets(s.jobs));
            match action {
                ActionView::Finish(status) => {
                    lemma_finish_accounted(moved, i, status, Set::empty());
                },
                _ => {},
            }
        },
        None => {},
    }
}

/// The cancellation of a job that is in flight leaves the jobs standing to
/// the in-flight map as in every state, but that this job is doomed.
pub proof fn lemma_cancel_job_accounted(s: ManagerView, ticket: u64, doomed: Set<u64>)
    requires
        s.inv(),
        s.accounted_but(doomed),
    ensures
        s.cancel_job(ticket).0.accounted_but(doomed.insert(ticket)),
{
    lemma_job_of(s, ticket);
    let more = doomed.insert(ticket);
    match s.job_of(ticket) {
        Some(i) => {
            let after = s.jobs[i].after_cancel();
            let action = react_to_cancel(s.jobs[i].phase).1;
            lemma_react_ends(s.jobs[i].phase, s.jobs[i].cancelled, JobEventView::Launched);
            lemma_doom_another(s, doomed, ticket, i);
            let moved = ManagerView { jobs: s.jobs.update(i, after), ..s };
            assert(moved.accounted_but(more)) by {
                assert forall|j: int| 0 <= j < moved.jobs.len() implies ((
                #[trigger] moved.jobs[j]).cancelled <==> !flight_tickets(moved.in_flight).contains(
                    moved.jobs[j].ticket,
                ) || more.contains(moved.jobs[j].ticket)) by {
                    if j != i {
                        assert(moved.jobs[j] == s.jobs[j]);
                    }
                }
                assert forall|e: int, j: int|
                    0 <= e < moved.in_flight.len() && 0 <= j < moved.jobs.len() && (
                    #[trigger] moved.in_flight[e]).1 == (#[trigger] moved.jobs[j]).ticket implies moved.jobs[j].test_case.id()
                    == moved.in_flight[e].0 by {
                    assert(s.in_flight[e].1 == s.jobs[j].ticket);
                }
            }
            assert(tickets(moved.jobs) =~= tickets(s.jobs));
            match action {
                ActionView::Finish(status) => {
                    lemma_finish_accounted(moved, i, status, more);
                },
                _ => {},
            }
        },
        None => {
            assert(s.accounted_but(more)) by {
                assert forall|j: int| 0 <= j < s.jobs.len() implies ((#[trigger] s.jobs[j]).cancelled
                    <==> !flight_tickets(s.in_flight).contains(s.jobs[j].ticket) || more.contains(
                    s.jobs[j].ticket,
                )) by {
                    assert(tickets(s.jobs)[j] == s.jobs[j].ticket);
                    assert(tickets(s.jobs).contains(s.jobs[j].ticket));
                }
            }
        },
    }
}

/// Dooming one more ticket changes nothing for the jobs of the other tickets.
pub proof fn lemma_doom_another(s: ManagerView, doomed: Set<u64>, ticket: u64, i: int)
    requires
        s.inv(),
        s.accounted_but(doomed),
        0 <= i < s.jobs.len(),
        s.jobs[i].ticket == ticket,
    ensures
        forall|j: int|
            0 <= j < s.jobs.len() && j != i ==> ((#[trigger] s.jobs[j]).cancelled
                <==> !flight_tickets(s.in_flight).contains(s.jobs[j].ticket) || doomed.insert(
                ticket,
            ).contains(s.jobs[j].ticket)),
        flight_tickets(s.in_flight).no_duplicates(),
        forall|e: int, j: int|
            0 <= e < s.in_flight.len() && 0 <= j < s.jobs.len() && (#[trigger] s.in_flight[e]).1
                == (#[trigger] s.jobs[j]).ticket ==> s.jobs[j].test_case.id() == s.in_flight[e].0,
{
    assert forall|j: int| 0 <= j < s.jobs.len() && j != i implies ((
    #[trigger] s.jobs[j]).cancelled <==> !flight_tickets(s.in_flight).contains(s.jobs[j].ticket)
        || doomed.insert(ticket).contains(s.jobs[j].ticket)) by {
        assert(tickets(s.jobs)[j] == s.jobs[j].ticket);
        assert(tickets(s.jobs)[i] == s.jobs[i].ticket);
    }
}

/// The tickets of the first `i` entries whose identity is not in `wanted`.
pub open spec fn doomed(entries: Seq<(Seq<char>, u64)>, wanted: Seq<Seq<char>>, i: int) -> Set<u64> {
    Set::new(
        |t: u64|
            exists|e: int|
                0 <= e < i && !wanted.contains((#[trigger] entries[e]).0) && entries[e].1 == t,
    )
}

/// While the jobs of what is wanted no more are cancelled, the jobs stand
/// to the in-flight map as in every state, but that the jobs cancelled so
/// far are doomed.
pub proof fn lemma_cancel_gone_accounted(
    s: ManagerView,
    entries: Seq<(Seq<char>, u64)>,
    wanted: Seq<Seq<char>>,
    i: int,
)
    requires
        s.inv(),
        s.accounted(),
        0 <= i <= entries.len(),
    ensures
        s.cancel_gone(entries, wanted, i).0.accounted_but(doomed(entries, wanted, i)),
    decreases i,
{
    if i > 0 {
        lemma_cancel_gone_accounted(s, entries, wanted, i - 1);
        lemma_cancel_gone(s, entries, wanted, i - 1);
        let then = s.cancel_gone(entries, wanted, i - 1).0;
        let before = doomed(entries, wanted, i - 1);
        let now = doomed(entries, wanted, i);
        if !wanted.contains(entries[i - 1].0) {
            let ticket = entries[i - 1].1;
            lemma_cancel_job_accounted(then, ticket, before);
            assert(now =~= before.insert(ticket)) by {
                assert forall|t: u64| now.contains(t) <==> before.insert(ticket).contains(t) by {
                    if now.contains(t) {
                        let e = choose|e: int|
                            0 <= e < i && !wanted.contains((#[trigger] entries[e]).0)
                                && entries[e].1 == t;
                        if e < i - 1 {
                            assert(before.contains(t));
                        }
                    }
                    if before.contains(t) {
                        let e = choose|e: int|
                            0 <= e < i - 1 && !wanted.contains((#[trigger] entries[e]).0)
                                && entries[e].1 == t;
                        assert(0 <= e < i);
                    }
                    if t == ticket {
                        assert(0 <= i - 1 < i && !wanted.contains(entries[i - 1].0));
                    }
                }
            }
        } else {
            assert(now =~= before) by {
                assert forall|t: u64| now.contains(t) <==> before.contains(t) by {
                    if now.contains(t) {
                        let e = choose|e: int|
                            0 <= e < i && !wanted.contains((#[trigger] entries[e]).0)
                                && entries[e].1 == t;
                        assert(e < i - 1);
                    }
                    if before.contains(t) {
                        let e = choose|e: int|
                            0 <= e < i - 1 && !wanted.contains((#[trigger] entries[e]).0)
                                && entries[e].1 == t;
                        assert(0 <= e < i);
                    }
                }
            }
        }
    } else {
        assert(doomed(entries, wanted, 0) =~= Set::<u64>::empty());
    }
}

/// What is kept of an in-flight map holds no ticket twice where the map
/// held none twice.
pub proof fn lemma_kept_tickets(entries: Seq<(Seq<char>, u64)>, wanted: Seq<Seq<char>>)
    requires
        flight_tickets(entries).no_duplicates(),
    ensures
        flight_tickets(entries.filter(is_wanted(wanted))).no_duplicates(),
    decreases entries.len(),
{
    reveal(Seq::filter);
    let kept = entries.filter(is_wanted(wanted));
    if entries.len() > 0 {
        let rest = entries.drop_last();
        let last = entries.last();
        assert forall|a: int, b: int|
            0 <= a < rest.len() && 0 <= b < rest.len() && a != b implies flight_tickets(rest)[a]
            != flight_tickets(rest)[b] by {
            assert(flight_tickets(rest)[a] == flight_tickets(entries)[a]);
            assert(flight_tickets(rest)[b] == flight_tickets(entries)[b]);
        }
        lemma_kept_tickets(rest, wanted);
        lemma_kept(rest, wanted);
        let kept_rest = rest.filter(is_wanted(wanted));
        assert forall|a: int, b: int|
            0 <= a < kept.len() && 0 <= b < kept.len() && a != b implies flight_tickets(kept)[a]
            != flight_tickets(kept)[b] by {
            if a < kept_rest.len() && b < kept_rest.len() {
                assert(flight_tickets(kept)[a] == flight_tickets(kept_rest)[a]);
                assert(flight_tickets(kept)[b] == flight_tickets(kept_rest)[b]);
            } else {
                let c = if a < kept_rest.len() {
                    a
                } else {
                    b
                };
                assert(kept[c] == kept_rest[c]);
                assert(kept_rest.contains(kept_rest[c]));
                let d = choose|d: int| 0 <= d < rest.len() && rest[d] == kept_rest[c];
                assert(flight_tickets(entries)[d] == kept_rest[c].1);
                assert(flight_tickets(entries)[entries.len() - 1] == last.1);
            }
        }
    }
}

/// Once the entries of what is wanted no more have left the in-flight map,
/// the jobs stand to it as in every state: those that were doomed are
/// cancelled and in flight no more.
pub proof fn lemma_kept_accounted(then: ManagerView, wanted: Seq<Seq<char>>)
    requires
        then.accounted_but(doomed(then.in_flight, wanted, then.in_flight.len() as int)),
    ensures
        (ManagerView { in_flight: then.in_flight.filter(is_wanted(wanted)), ..then }).accounted(),
{
    let entries = then.in_flight;
    let n = entries.len() as int;
    let kept = ManagerView { in_flight: entries.filter(is_wanted(wanted)), ..then };
    lemma_kept(entries, wanted);
    lemma_kept_tickets(entries, wanted);
    assert forall|i: int| 0 <= i < kept.jobs.len() implies ((#[trigger] kept.jobs[i]).cancelled
        <==> !flight_tickets(kept.in_flight).contains(kept.jobs[i].ticket)
        || Set::<u64>::empty().contains(kept.jobs[i].ticket)) by {
        let t = kept.jobs[i].ticket;
        assert(then.jobs[i].cancelled <==> !flight_tickets(entries).contains(t) || doomed(
            entries,
            wanted,
            n,
        ).contains(t));
        if flight_tickets(kept.in_flight).contains(t) {
            let a = choose|a: int|
                0 <= a < kept.in_flight.len() && flight_tickets(kept.in_flight)[a] == t;
            assert(kept.in_flight.contains(kept.in_flight[a]));
            let b = choose|b: int| 0 <= b < n && entries[b] == kept.in_flight[a];
            assert(flight_tickets(entries)[b] == t);
            if doomed(entries, wanted, n).contains(t) {
                let e = choose|e: int|
                    0 <= e < n && !wanted.contains((#[trigger] entries[e]).0) && entries[e].1 == t;
                assert(flight_tickets(entries)[e] == t);
                assert(e == b);
            }
        } else {
            if flight_tickets(entries).contains(t) {
                let b = choose|b: int| 0 <= b < n && flight_tickets(entries)[b] == t;
                assert(entries.contains(entries[b]));
                if wanted.contains(entries[b].0) {
                    assert(kept.in_flight.contains(entries[b]));
                    let a = choose|a: int|
                        0 <= a < kept.in_flight.len() && kept.in_flight[a] == entries[b];
                    assert(flight_tickets(kept.in_flight)[a] == t);
                } else {
                    assert(0 <= b < n && !wanted.contains(entries[b].0) && entries[b].1 == t);
                }
            }
        }
    }
    assert forall|e: int, i: int|
        0 <= e < kept.in_flight.len() && 0 <= i < kept.jobs.len() && (
        #[trigger] kept.in_flight[e]).1 == (#[trigger] kept.jobs[i]).ticket implies kept.jobs[i].test_case.id()
        == kept.in_flight[e].0 by {
        assert(kept.in_flight.contains(kept.in_flight[e]));
        let b = choose|b: int| 0 <= b < n && entries[b] == kept.in_flight[e];
        assert(then.in_flight[b].1 == then.jobs[i].ticket);
    }
}

/// A job that is spawned leaves the jobs standing to the in-flight map as
/// in every state: it is in flight, under the identity of its case.
pub proof fn lemma_spawn_accounted(s: ManagerView, case: TestCaseView)
    requires
        s.inv(),
        s.accounted(),
        s.next_ticket < u64::MAX,
        !flight_ids(s.in_flight).contains(case.id()),
    ensures
        s.spawn(case).0.accounted(),
{
    lemma_spawn(s, case);
    let ticket = s.next_ticket;
    let queued = s.spawn(case).0;
    let none = Set::<u64>::empty();
    assert(flight_tickets(queued.in_flight) =~= flight_tickets(s.in_flight).push(ticket));
    assert(tickets(queued.jobs) =~= tickets(s.jobs).push(ticket));
    assert forall|a: int| 0 <= a < s.in_flight.len() implies flight_tickets(s.in_flight)[a]
        != ticket by {
        assert(s.in_flight[a].1 < s.next_ticket);
    }
    assert forall|a: int| 0 <= a < s.jobs.len() implies (#[trigger] s.jobs[a]).ticket != ticket by {
        assert(tickets(s.jobs)[a] < s.next_ticket);
    }
    assert(queued.accounted()) by {
        assert forall|a: int, b: int|
            0 <= a < flight_tickets(queued.in_flight).len() && 0 <= b < flight_tickets(
                queued.in_flight,
            ).len() && a != b implies flight_tickets(queued.in_flight)[a] != flight_tickets(
            queued.in_flight,
        )[b] by {
            if a < s.in_flight.len() && b < s.in_flight.len() {
                assert(flight_tickets(s.in_flight)[a] != flight_tickets(s.in_flight)[b]);
            }
        }
        assert forall|i: int| 0 <= i < queued.jobs.len() implies ((
        #[trigger] queued.jobs[i]).cancelled <==> !flight_tickets(queued.in_flight).contains(
            queued.jobs[i].ticket,
        ) || none.contains(queued.jobs[i].ticket)) by {
            let t = queued.jobs[i].ticket;
            if i < s.jobs.len() {
                assert(queued.jobs[i] == s.jobs[i]);
                if flight_tickets(s.in_flight).contains(t) {
                    let a = choose|a: int|
                        0 <= a < s.in_flight.len() && flight_tickets(s.in_flight)[a] == t;
                    assert(flight_tickets(queued.in_flight)[a] == t);
                }
                if flight_tickets(queued.in_flight).contains(t) {
                    let a = choose|a: int|
                        0 <= a < queued.in_flight.len() && flight_tickets(queued.in_flight)[a]
                            == t;
                    assert(a < s.in_flight.len());
                    assert(flight_tickets(s.in_flight)[a] == t);
                }
            } else {
                assert(flight_tickets(queued.in_flight)[s.in_flight.len() as int] == ticket);
            }
        }
        assert forall|e: int, i: int|
            0 <= e < queued.in_flight.len() && 0 <= i < queued.jobs.len() && (
            #[trigger] queued.in_flight[e]).1 == (#[trigger] queued.jobs[i]).ticket implies queued.jobs[i].test_case.id()
            == queued.in_flight[e].0 by {
            if e < s.in_flight.len() && i < s.jobs.len() {
                assert(s.in_flight[e].1 == s.jobs[i].ticket);
            } else if e < s.in_flight.len() {
                assert(flight_tickets(s.in_flight)[e] != ticket);
            } else if i < s.jobs.len() {
                assert(s.jobs[i].ticket != ticket);
            }
        }
    }
}

/// Taking up new cases leaves the jobs standing to the in-flight map as in
/// every state.
pub proof fn lemma_take_up_new_accounted(
    base: ManagerView,
    known: Seq<Seq<char>>,
    cases: Seq<TestCaseView>,
    k: int,
)
    requires
        base.inv(),
        base.accounted(),
        0 <= k <= cases.len(),
        base.next_ticket + k <= u64::MAX,
        forall|id: Seq<char>| flight_ids(base.in_flight).contains(id) ==> known.contains(id),
    ensures
        base.take_up_new(known, cases, k).0.accounted(),
    decreases k,
{
    if k > 0 {
        lemma_take_up_new_accounted(base, known, cases, k - 1);
        lemma_take_up_new(base, known, cases, k - 1);
        let then = base.take_up_new(known, cases, k - 1).0;
        let case = cases[k - 1];
        if ManagerView::is_new(known, cases, k - 1) {
            lemma_new_is_free(base, known, cases, k);
            if then.cache_lookup(case) is None {
                lemma_spawn_accounted(then, case);
            }
        }
    }
}

/// Changing the wanted set leaves the jobs standing to the in-flight map
/// as in every state.
pub proof fn lemma_set_cases_accounted(s: ManagerView, cases: Seq<TestCaseView>)
    requires
        s.inv(),
        s.accounted(),
        !s.exhausted(cases.len()),
    ensures
        s.set_cases(cases).0.accounted(),
{
    let wanted = case_ids(cases);
    let known = flight_ids(s.in_flight);
    let n = s.in_flight.len() as int;
    let marked = ManagerView { pools: s.withdraw_gone(s.in_flight, wanted, n), ..s };
    lemma_cancel_gone_accounted(marked, s.in_flight, wanted, n);
    lemma_cancel_gone(marked, s.in_flight, wanted, n);
    let then = marked.cancel_gone(s.in_flight, wanted, n).0;
    let kept = ManagerView { in_flight: s.in_flight.filter(is_wanted(wanted)), ..then };
    lemma_kept(s.in_flight, wanted);
    lemma_kept_accounted(then, wanted);
    lemma_without_gone(then, wanted);
    lemma_take_up_new_accounted(kept, known, cases, cases.len() as int);
}

} // verus!
