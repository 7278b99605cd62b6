//! How the jobs stand to the pools: who waits, who holds, and in what phase.

use crate::job::{react, react_to_cancel, ActionView, JobEventView, JobPhase, JobView};
use crate::lifecycle::order::{
    lemma_cancel_gone, lemma_job_of, lemma_kept, lemma_new_is_free, lemma_react_ends,
    lemma_remove_distinct, lemma_spawn, lemma_start_all, lemma_take_up_new, lemma_without_gone,
};
use crate::lists::slot_below;
use crate::model::{
    case_ids, flight_ids, is_wanted, result_key, tickets, EffectView, ManagerView, StepView,
};
use crate::lending::{lemma_forget, lemma_grant_holds, lemma_release_holds, lemma_schedule, waiting};
use crate::pool::ResourcesView;
use crate::test::{StatusView, TestCaseView};
use vstd::prelude::*;

verus! {

/// The tickets of handles, in order.
pub open spec fn granted_to(handles: Seq<ResourcesView>) -> Seq<u64> {
    handles.map_values(|h: ResourcesView| h.ticket)
}

/// Whether a job in this phase, if there is one, holds nothing yet: it has
/// not asked for its resources, or waits for them.
pub open spec fn empty_handed(phase: Option<JobPhase>) -> bool {
    phase == Some(JobPhase::Enqueued) || phase == Some(JobPhase::Waiting)
}

/// Whether the phase and the cancellation of a job fit: a job that waits or
/// runs is not cancelled, and one that drains or was killed is.
pub open spec fn fits(job: JobView) -> bool {
    match job.phase {
        JobPhase::Enqueued => !job.cancelled,
        JobPhase::Waiting => !job.cancelled,
        JobPhase::Launching => true,
        JobPhase::Running => !job.cancelled,
        JobPhase::Draining => job.cancelled,
        JobPhase::Killed => job.cancelled,
    }
}

impl ManagerView {
    /// The phase of the job with `ticket`, if it is not over.
    pub open spec fn phase_of(self, ticket: u64) -> Option<JobPhase> {
        match self.job_of(ticket) {
            Some(i) => Some(self.jobs[i].phase),
            None => None,
        }
    }

    /// How the jobs stand to the pools: who waits in the queue is a job
    /// that waits, and nobody waits there twice; who holds an instance is a
    /// job past waiting; and the phase of every job fits its cancellation.
    pub open spec fn sound(self) -> bool {
        &&& self.inv()
        &&& waiting(self.pools.waiters).no_duplicates()
        &&& forall|w: int|
            0 <= w < self.pools.waiters.len() ==> self.phase_of(
                #[trigger] waiting(self.pools.waiters)[w],
            ) == Some(JobPhase::Waiting)
        &&& forall|t: u64| #[trigger]
            self.pools.holds(t) ==> self.phase_of(t) is Some && !empty_handed(self.phase_of(t))
        &&& forall|i: int| 0 <= i < self.jobs.len() ==> fits(#[trigger] self.jobs[i])
    }
}

/// With tickets that are all different, a job is found by its ticket.
pub proof fn lemma_job_at(s: ManagerView, i: int)
    requires
        0 <= i < s.jobs.len(),
        tickets(s.jobs).no_duplicates(),
    ensures
        s.job_of(s.jobs[i].ticket) == Some(i),
{
    lemma_job_of(s, s.jobs[i].ticket);
    assert(tickets(s.jobs)[i] == s.jobs[i].ticket);
    match s.job_of(s.jobs[i].ticket) {
        Some(j) => {
            assert(tickets(s.jobs)[j] == s.jobs[i].ticket);
        },
        None => {},
    }
}

/// Starting jobs changes the jobs that are granted, and those alone: each
/// of them is being launched afterwards, neither more nor less cancelled
/// than before.
pub proof fn lemma_start_all_jobs(s: ManagerView, handles: Seq<ResourcesView>, n: int)
    requires
        0 <= n <= handles.len(),
        tickets(s.jobs).no_duplicates(),
    ensures
        forall|i: int|
            0 <= i < s.jobs.len() ==> {
                let was = s.jobs[i];
                let now = #[trigger] s.start_all(handles, n).0.jobs[i];
                &&& now.ticket == was.ticket
                &&& now.test_case == was.test_case
                &&& now.cancelled == was.cancelled
                &&& now.phase == if granted_to(handles.take(n)).contains(was.ticket) {
                    JobPhase::Launching
                } else {
                    was.phase
                }
            },
    decreases n,
{
    lemma_start_all(s, handles, n);
    if n > 0 {
        lemma_start_all_jobs(s, handles, n - 1);
        lemma_start_all(s, handles, n - 1);
        let then = s.start_all(handles, n - 1).0;
        let h = handles[n - 1];
        lemma_job_of(then, h.ticket);
        let end = then.start(h).0;
        assert(handles.take(n) =~= handles.take(n - 1).push(h));
        assert(granted_to(handles.take(n)) =~= granted_to(handles.take(n - 1)).push(h.ticket));
        assert forall|i: int| 0 <= i < s.jobs.len() implies {
            let was = s.jobs[i];
            let now = #[trigger] end.jobs[i];
            &&& now.ticket == was.ticket
            &&& now.test_case == was.test_case
            &&& now.cancelled == was.cancelled
            &&& now.phase == if granted_to(handles.take(n)).contains(was.ticket) {
                JobPhase::Launching
            } else {
                was.phase
            }
        } by {
            let was = s.jobs[i];
            let mid = then.jobs[i];
            assert(tickets(then.jobs)[i] == mid.ticket);
            assert(tickets(s.jobs)[i] == was.ticket);
            let before = granted_to(handles.take(n - 1));
            let after = granted_to(handles.take(n));
            if before.contains(was.ticket) {
                let a = choose|a: int| 0 <= a < before.len() && before[a] == was.ticket;
                assert(after[a] == was.ticket);
            }
            if was.ticket == h.ticket {
                assert(after[n - 1] == was.ticket);
                lemma_job_at(then, i);
            } else {
                if after.contains(was.ticket) {
                    let a = choose|a: int| 0 <= a < after.len() && after[a] == was.ticket;
                    assert(a < n - 1);
                    assert(before[a] == was.ticket);
                }
                match then.job_of(h.ticket) {
                    Some(j) => {
                        assert(j != i);
                    },
                    None => {},
                }
            }
        }
    } else {
        assert(granted_to(handles.take(0)) =~= Seq::<u64>::empty());
    }
}

/// With tickets that are all different, the phase that is looked up by the
/// ticket of a job is the phase of that job.
pub proof fn lemma_phase_at(s: ManagerView, i: int)
    requires
        0 <= i < s.jobs.len(),
        tickets(s.jobs).no_duplicates(),
    ensures
        s.phase_of(s.jobs[i].ticket) == Some(s.jobs[i].phase),
{
    lemma_job_at(s, i);
}

/// The phase of a job is that of some job with its ticket, and none where
/// no job has the ticket.
pub proof fn lemma_phase_of(s: ManagerView, ticket: u64)
    ensures
        match s.phase_of(ticket) {
            Some(phase) => exists|i: int|
                0 <= i < s.jobs.len() && (#[trigger] s.jobs[i]).ticket == ticket && s.jobs[i].phase
                    == phase,
            None => forall|i: int| 0 <= i < s.jobs.len() ==> (#[trigger] s.jobs[i]).ticket != ticket,
        },
{
    lemma_job_of(s, ticket);
    match s.job_of(ticket) {
        Some(i) => {},
        None => {
            assert forall|i: int| 0 <= i < s.jobs.len() implies (#[trigger] s.jobs[i]).ticket
                != ticket by {
                assert(tickets(s.jobs)[i] == s.jobs[i].ticket);
            }
        },
    }
}

/// Two states whose jobs have, place by place, the same tickets and phases
/// give every ticket the same phase.
pub proof fn lemma_same_phases(a: ManagerView, b: ManagerView, ticket: u64)
    requires
        a.jobs.len() == b.jobs.len(),
        forall|i: int|
            0 <= i < a.jobs.len() ==> (#[trigger] a.jobs[i]).ticket == b.jobs[i].ticket
                && a.jobs[i].phase == b.jobs[i].phase,
    ensures
        a.phase_of(ticket) == b.phase_of(ticket),
{
    assert(tickets(a.jobs) =~= tickets(b.jobs));
    lemma_job_of(a, ticket);
}

/// Taking a job out leaves every other ticket its phase, and the ticket of
/// the job none.
pub proof fn lemma_phase_without(s: ManagerView, i: int, ticket: u64)
    requires
        0 <= i < s.jobs.len(),
        tickets(s.jobs).no_duplicates(),
    ensures
        (ManagerView { jobs: s.jobs.remove(i), ..s }).phase_of(ticket) == if ticket
            == s.jobs[i].ticket {
            None
        } else {
            s.phase_of(ticket)
        },
{
    let left = ManagerView { jobs: s.jobs.remove(i), ..s };
    assert(tickets(left.jobs) =~= tickets(s.jobs).remove(i));
    assert(tickets(s.jobs)[i] == s.jobs[i].ticket);
    lemma_remove_distinct(tickets(s.jobs), i);
    lemma_phase_of(left, ticket);
    lemma_phase_of(s, ticket);
    match left.phase_of(ticket) {
        Some(phase) => {
            let a = choose|a: int|
                0 <= a < left.jobs.len() && (#[trigger] left.jobs[a]).ticket == ticket
                    && left.jobs[a].phase == phase;
            let a2 = if a < i {
                a
            } else {
                a + 1
            };
            assert(left.jobs[a] == s.jobs[a2]);
            assert(tickets(left.jobs)[a] == ticket);
            lemma_phase_at(s, a2);
        },
        None => {
            if ticket != s.jobs[i].ticket {
                match s.phase_of(ticket) {
                    Some(phase) => {
                        let b = choose|b: int|
                            0 <= b < s.jobs.len() && (#[trigger] s.jobs[b]).ticket == ticket
                                && s.jobs[b].phase == phase;
                        let b2 = if b < i {
                            b
                        } else {
                            b - 1
                        };
                        assert(left.jobs[b2] == s.jobs[b]);
                    },
                    None => {},
                }
            }
        },
    }
}

/// One more job leaves every other ticket its phase.
pub proof fn lemma_phase_with(s: ManagerView, job: JobView, ticket: u64)
    requires
        tickets(s.jobs).no_duplicates(),
        !s.live(job.ticket),
    ensures
        (ManagerView { jobs: s.jobs.push(job), ..s }).phase_of(ticket) == if ticket == job.ticket {
            Some(job.phase)
        } else {
            s.phase_of(ticket)
        },
{
    let more = ManagerView { jobs: s.jobs.push(job), ..s };
    assert(tickets(more.jobs) =~= tickets(s.jobs).push(job.ticket));
    let n = s.jobs.len() as int;
    assert(tickets(more.jobs)[n] == job.ticket);
    assert(slot_below(tickets(more.jobs), ticket, n) == slot_below(tickets(s.jobs), ticket, n))
        by {
        lemma_slot_prefix(tickets(more.jobs), tickets(s.jobs), ticket, n);
    }
    if ticket != job.ticket {
        match s.job_of(ticket) {
            Some(i) => {
                lemma_job_of(s, ticket);
                assert(more.jobs[i] == s.jobs[i]);
            },
            None => {},
        }
    }
}

/// Sequences that agree below `i` are searched alike below `i`.
pub proof fn lemma_slot_prefix(a: Seq<u64>, b: Seq<u64>, key: u64, i: int)
    requires
        0 <= i <= a.len(),
        i <= b.len(),
        forall|k: int| 0 <= k < i ==> a[k] == b[k],
    ensures
        slot_below(a, key, i) == slot_below(b, key, i),
    decreases i,
{
    if i > 0 {
        lemma_slot_prefix(a, b, key, i - 1);
    }
}

/// How the jobs stand to the pools between a grant and the start of the
/// jobs that were granted: as in every state, but that those jobs hold what
/// they were granted and wait still.
pub open spec fn sound_but(s: ManagerView, granted: Seq<u64>) -> bool {
    &&& s.inv()
    &&& waiting(s.pools.waiters).no_duplicates()
    &&& forall|w: int|
        0 <= w < s.pools.waiters.len() ==> s.phase_of(#[trigger] waiting(s.pools.waiters)[w])
            == Some(JobPhase::Waiting) && !granted.contains(waiting(s.pools.waiters)[w])
    &&& forall|t: u64| #[trigger]
        s.pools.holds(t) ==> s.phase_of(t) is Some && (!empty_handed(s.phase_of(t))
            || granted.contains(t))
    &&& forall|k: int|
        0 <= k < granted.len() ==> s.phase_of(#[trigger] granted[k]) == Some(JobPhase::Waiting)
    &&& forall|i: int| 0 <= i < s.jobs.len() ==> fits(#[trigger] s.jobs[i])
}

/// Once the jobs that were granted are started, the jobs stand to the pools
/// as in every state.
pub proof fn lemma_started_is_sound(s: ManagerView, handles: Seq<ResourcesView>)
    requires
        sound_but(s, granted_to(handles)),
    ensures
        s.start_all(handles, handles.len() as int).0.sound(),
{
    let n = handles.len() as int;
    let end = s.start_all(handles, n).0;
    let granted = granted_to(handles);
    lemma_start_all(s, handles, n);
    lemma_start_all_jobs(s, handles, n);
    assert(handles.take(n) =~= handles);
    assert forall|t: u64| true implies end.phase_of(t) == if s.phase_of(t) is Some
        && granted.contains(t) {
        Some(JobPhase::Launching)
    } else {
        s.phase_of(t)
    } by {
        match s.job_of(t) {
            Some(i) => {
                lemma_job_of(s, t);
                assert(end.jobs[i].ticket == t);
            },
            None => {},
        }
    }
    assert forall|w: int| 0 <= w < end.pools.waiters.len() implies end.phase_of(
        #[trigger] waiting(end.pools.waiters)[w],
    ) == Some(JobPhase::Waiting) by {
        assert(s.phase_of(waiting(s.pools.waiters)[w]) == Some(JobPhase::Waiting));
    }
    assert forall|i: int| 0 <= i < end.jobs.len() implies fits(#[trigger] end.jobs[i]) by {
        assert(fits(s.jobs[i]));
    }
}

/// After the end of a job the jobs stand to the pools as in every state.
pub proof fn lemma_finish_sound(s: ManagerView, i: int, status: StatusView)
    requires
        s.sound(),
        0 <= i < s.jobs.len(),
        status.terminal(),
    ensures
        s.finish(i, status).0.sound(),
{
    let job = s.jobs[i];
    let ticket = job.ticket;
    let withdrawn = s.pools.forget(ticket);
    let released = withdrawn.release(ticket);
    let (served, handles) = released.schedule();
    let results = match status {
        StatusView::Completed(result) => s.results.insert(result_key(job.test_case), result),
        _ => s.results,
    };
    let left = ManagerView { jobs: s.jobs.remove(i), pools: served, results, ..s };
    let granted = granted_to(handles);
    lemma_forget(s.pools.waiters, ticket);
    lemma_schedule(released);
    let g = handles.len() as int;
    assert(tickets(left.jobs) =~= tickets(s.jobs).remove(i));
    assert(tickets(s.jobs)[i] == ticket);
    lemma_remove_distinct(tickets(s.jobs), i);
    assert(left.inv()) by {
        assert forall|j: int| 0 <= j < left.jobs.len() implies (#[trigger] tickets(left.jobs)[j])
            < left.next_ticket by {
            let j2 = if j < i {
                j
            } else {
                j + 1
            };
            assert(tickets(left.jobs)[j] == tickets(s.jobs)[j2]);
        }
    }
    // Who waits in the queue that was served waited before, and is not the job that ended.
    assert forall|w: int| 0 <= w < released.waiters.len() implies s.phase_of(
        #[trigger] waiting(released.waiters)[w],
    ) == Some(JobPhase::Waiting) && waiting(released.waiters)[w] != ticket by {
        assert(released.waiters.contains(released.waiters[w]));
        assert(s.pools.waiters.contains(released.waiters[w]));
        let b = choose|b: int|
            0 <= b < s.pools.waiters.len() && s.pools.waiters[b] == released.waiters[w];
        assert(waiting(s.pools.waiters)[b] == released.waiters[w].ticket);
    }
    assert forall|t: u64| true implies left.phase_of(t) == if t == ticket {
        None
    } else {
        s.phase_of(t)
    } by {
        lemma_phase_without(s, i, t);
        lemma_same_phases(left, ManagerView { jobs: s.jobs.remove(i), ..s }, t);
    }
    assert(waiting(served.waiters) =~= waiting(released.waiters).skip(g));
    assert forall|k: int| 0 <= k < g implies granted[k] == waiting(released.waiters)[k] by {
        assert(handles[k].ticket == released.waiters[k].ticket);
    }
    assert(sound_but(left, granted)) by {
        assert forall|a: int, b: int|
            0 <= a < waiting(served.waiters).len() && 0 <= b < waiting(served.waiters).len() && a
                != b implies waiting(served.waiters)[a] != waiting(served.waiters)[b] by {
            assert(waiting(served.waiters)[a] == waiting(released.waiters)[a + g]);
            assert(waiting(served.waiters)[b] == waiting(released.waiters)[b + g]);
        }
        assert forall|w: int| 0 <= w < served.waiters.len() implies left.phase_of(
            #[trigger] waiting(served.waiters)[w],
        ) == Some(JobPhase::Waiting) && !granted.contains(waiting(served.waiters)[w]) by {
            assert(waiting(served.waiters)[w] == waiting(released.waiters)[w + g]);
            if granted.contains(waiting(served.waiters)[w]) {
                let k = choose|k: int| 0 <= k < granted.len() && granted[k] == waiting(
                    served.waiters,
                )[w];
                assert(waiting(released.waiters)[k] == waiting(released.waiters)[w + g]);
            }
        }
        assert forall|t: u64| #[trigger] left.pools.holds(t) implies left.phase_of(t) is Some && (
        !empty_handed(left.phase_of(t)) || granted.contains(t)) by {
            if released.holds(t) {
                lemma_release_holds(withdrawn, ticket, t);
                assert(s.pools.holds(t)) by {
                    let (a, b) = choose|a: int, b: int|
                        0 <= a < withdrawn.pools.len() && 0 <= b < withdrawn.pools[a].holders.len()
                            && withdrawn.pools[a].holders[b] == Some(t);
                    assert(s.pools.pools[a].holders[b] == Some(t));
                }
            } else {
                let k = choose|k: int| 0 <= k < handles.len() && (#[trigger] handles[k]).ticket == t;
                assert(granted[k] == t);
                assert(s.phase_of(waiting(released.waiters)[k]) == Some(JobPhase::Waiting));
            }
        }
        assert forall|k: int| 0 <= k < granted.len() implies left.phase_of(#[trigger] granted[k])
            == Some(JobPhase::Waiting) by {
            assert(s.phase_of(waiting(released.waiters)[k]) == Some(JobPhase::Waiting));
        }
        assert forall|j: int| 0 <= j < left.jobs.len() implies fits(#[trigger] left.jobs[j]) by {
            let j2 = if j < i {
                j
            } else {
                j + 1
            };
            assert(left.jobs[j] == s.jobs[j2]);
        }
    }
    lemma_started_is_sound(left, handles);
}

/// A job that moves on without ending leaves the jobs standing to the
/// pools as in every state, if its phase fits, it waits still where it
/// waited, and has its resources still where it had them.
pub proof fn lemma_moved_sound(s: ManagerView, i: int, job: JobView)
    requires
        s.sound(),
        0 <= i < s.jobs.len(),
        job.ticket == s.jobs[i].ticket,
        fits(job),
        s.jobs[i].phase == JobPhase::Waiting ==> job.phase == JobPhase::Waiting,
        s.jobs[i].phase.holding() ==> job.phase.holding(),
    ensures
        (ManagerView { jobs: s.jobs.update(i, job), ..s }).sound(),
{
    let moved = ManagerView { jobs: s.jobs.update(i, job), ..s };
    assert(tickets(moved.jobs) =~= tickets(s.jobs));
    assert forall|t: u64| true implies (s.phase_of(t) == Some(JobPhase::Waiting)
        ==> moved.phase_of(t) == Some(JobPhase::Waiting)) && (s.phase_of(t) is Some
        && !empty_handed(s.phase_of(t)) ==> moved.phase_of(t) is Some && !empty_handed(
        moved.phase_of(t),
    )) by {
        lemma_job_of(s, t);
    }
    assert forall|w: int| 0 <= w < moved.pools.waiters.len() implies moved.phase_of(
        #[trigger] waiting(moved.pools.waiters)[w],
    ) == Some(JobPhase::Waiting) by {
        assert(s.phase_of(waiting(s.pools.waiters)[w]) == Some(JobPhase::Waiting));
    }
    assert forall|j: int| 0 <= j < moved.jobs.len() implies fits(#[trigger] moved.jobs[j]) by {
        if j != i {
            assert(moved.jobs[j] == s.jobs[j]);
            assert(fits(s.jobs[j]));
        }
    }
}

/// What a supervisor asks for leaves the jobs standing to the pools as in
/// every state.
pub proof fn lemma_act_sound(s: ManagerView, i: int, after: JobView, action: ActionView)
    requires
        s.sound(),
        0 <= i < s.jobs.len(),
        after.ticket == s.jobs[i].ticket,
        after.test_case == s.jobs[i].test_case,
        fits(after),
        s.jobs[i].phase == JobPhase::Waiting ==> after.phase == JobPhase::Waiting,
        s.jobs[i].phase.holding() ==> after.phase.holding(),
        action matches ActionView::Finish(status) ==> status.terminal(),
        action is Acquire ==> s.jobs[i].phase == JobPhase::Enqueued && after.phase
            == JobPhase::Waiting,
    ensures
        s.act(i, after, action).0.sound(),
{
    lemma_moved_sound(s, i, after);
    let moved = ManagerView { jobs: s.jobs.update(i, after), ..s };
    match action {
        ActionView::Finish(status) => {
            lemma_finish_sound(moved, i, status);
        },
        ActionView::Acquire => {
            // The job has asked for nothing before: it neither waits nor holds.
            lemma_phase_at(s, i);
            let ticket = s.jobs[i].ticket;
            assert(!s.pools.waits(ticket)) by {
                if s.pools.waits(ticket) {
                    let w = choose|w: int|
                        0 <= w < s.pools.waiters.len() && s.pools.waiters[w].ticket == ticket;
                    assert(waiting(s.pools.waiters)[w] == ticket);
                }
            }
            lemma_acquire_sound(moved, i);
        },
        _ => {},
    }
}

/// A job that waits, and is not in the queue yet, asks for its resources:
/// afterwards the jobs stand to the pools as in every state.
pub proof fn lemma_acquire_sound(s: ManagerView, i: int)
    requires
        s.sound(),
        0 <= i < s.jobs.len(),
        s.jobs[i].phase == JobPhase::Waiting,
        !s.pools.waits(s.jobs[i].ticket),
    ensures
        s.acquire(i).0.sound(),
{
    let job = s.jobs[i];
    let ticket = job.ticket;
    let wants = job.test_case.test.needs_resources;
    let (pools, handle) = s.pools.get(ticket, wants);
    let asked = ManagerView { pools, ..s };
    lemma_phase_at(s, i);
    assert forall|t: u64| true implies asked.phase_of(t) == s.phase_of(t) by {}
    match handle {
        Some(h) => {
            let handles = seq![h];
            assert(granted_to(handles) =~= seq![ticket]);
            assert(granted_to(handles)[0] == ticket);
            assert(sound_but(asked, granted_to(handles))) by {
                assert forall|t: u64| #[trigger] asked.pools.holds(t) implies asked.phase_of(t)
                    is Some && (!empty_handed(asked.phase_of(t)) || granted_to(handles).contains(
                    t,
                )) by {
                    lemma_grant_holds(s.pools, ticket, wants, t);
                }
                assert forall|w: int| 0 <= w < asked.pools.waiters.len() implies asked.phase_of(
                    #[trigger] waiting(asked.pools.waiters)[w],
                ) == Some(JobPhase::Waiting) && !granted_to(handles).contains(
                    waiting(asked.pools.waiters)[w],
                ) by {}
            }
            lemma_started_is_sound(asked, handles);
            assert(asked.start_all(handles, 0) == (asked, Seq::<EffectView>::empty()));
            assert(asked.start_all(handles, 1).0 == asked.start(h).0);
        },
        None => {
            let before = waiting(s.pools.waiters);
            assert(waiting(asked.pools.waiters) =~= before.push(ticket));
            assert forall|a: int, b: int|
                0 <= a < waiting(asked.pools.waiters).len() && 0 <= b < waiting(
                    asked.pools.waiters,
                ).len() && a != b implies waiting(asked.pools.waiters)[a] != waiting(
                asked.pools.waiters,
            )[b] by {
                let c = if a < before.len() {
                    a
                } else {
                    b
                };
                if a < before.len() && b < before.len() {
                } else {
                    assert(before[c] == s.pools.waiters[c].ticket);
                }
            }
            assert forall|w: int| 0 <= w < asked.pools.waiters.len() implies asked.phase_of(
                #[trigger] waiting(asked.pools.waiters)[w],
            ) == Some(JobPhase::Waiting) by {
                if w < before.len() {
                    assert(s.phase_of(before[w]) == Some(JobPhase::Waiting));
                }
            }
            assert forall|t: u64| #[trigger] asked.pools.holds(t) implies asked.phase_of(t)
                is Some && !empty_handed(asked.phase_of(t)) by {
                assert(s.pools.holds(t));
            }
        },
    }
}

/// A report from the outside leaves the jobs standing to the pools as in
/// every state.
pub proof fn lemma_job_event_sound(s: ManagerView, ticket: u64, event: JobEventView)
    requires
        s.sound(),
    ensures
        s.job_event(ticket, event).0.sound(),
{
    lemma_job_of(s, ticket);
    match s.job_of(ticket) {
        Some(i) => {
            lemma_react_ends(s.jobs[i].phase, s.jobs[i].cancelled, event);
            assert(fits(s.jobs[i]));
            lemma_act_sound(
                s,
                i,
                s.jobs[i].after(event),
                react(s.jobs[i].phase, s.jobs[i].cancelled, event).1,
            );
        },
        None => {},
    }
}

/// A cancellation leaves the jobs standing to the pools as in every state.
pub proof fn lemma_cancel_job_sound(s: ManagerView, ticket: u64)
    requires
        s.sound(),
    ensures
        s.cancel_job(ticket).0.sound(),
{
    lemma_job_of(s, ticket);
    match s.job_of(ticket) {
        Some(i) => {
            lemma_react_ends(s.jobs[i].phase, s.jobs[i].cancelled, JobEventView::Launched);
            assert(fits(s.jobs[i]));
            let after = s.jobs[i].after_cancel();
            let action = react_to_cancel(s.jobs[i].phase).1;
            if action is Finish {
                // The job ends at once: what it is meanwhile does not count.
                lemma_finish_waiting_sound(s, i);
            } else {
                lemma_act_sound(s, i, after, action);
            }
        },
        None => {},
    }
}

/// The end of a job that is cancelled while it waits leaves the jobs
/// standing to the pools as in every state.
pub proof fn lemma_finish_waiting_sound(s: ManagerView, i: int)
    requires
        s.sound(),
        0 <= i < s.jobs.len(),
    ensures
        (ManagerView { jobs: s.jobs.update(i, s.jobs[i].after_cancel()), ..s }).finish(
            i,
            StatusView::Canceled,
        ).0.sound(),
{
    // For the end of the job it makes no difference whether it was marked
    // as cancelled before: it leaves the jobs.
    let after = s.jobs[i].after_cancel();
    let moved = ManagerView { jobs: s.jobs.update(i, after), ..s };
    lemma_finish_sound(s, i, StatusView::Canceled);
    assert(moved.jobs.remove(i) =~= s.jobs.remove(i));
    assert(moved.finish(i, StatusView::Canceled).0 == s.finish(i, StatusView::Canceled).0);
}

/// A job that is spawned leaves the jobs standing to the pools as in every
/// state: it has asked for nothing, so it neither waits nor holds.
pub proof fn lemma_spawn_sound(s: ManagerView, case: TestCaseView)
    requires
        s.sound(),
        s.next_ticket < u64::MAX,
        !flight_ids(s.in_flight).contains(case.id()),
    ensures
        s.spawn(case).0.sound(),
{
    lemma_spawn(s, case);
    let ticket = s.next_ticket;
    let job = JobView::enqueued(ticket, case);
    let queued = s.spawn(case).0;
    // The ticket is new: no job has it.
    assert(!s.live(ticket)) by {
        if s.live(ticket) {
            let a = choose|a: int| 0 <= a < tickets(s.jobs).len() && tickets(s.jobs)[a] == ticket;
            assert(tickets(s.jobs)[a] < s.next_ticket);
        }
    }
    lemma_job_of(s, ticket);
    assert forall|t: u64| true implies queued.phase_of(t) == if t == ticket {
        Some(JobPhase::Enqueued)
    } else {
        s.phase_of(t)
    } by {
        lemma_phase_with(s, job, t);
        lemma_same_phases(queued, ManagerView { jobs: s.jobs.push(job), ..s }, t);
    }
    assert forall|i: int| 0 <= i < queued.jobs.len() implies fits(#[trigger] queued.jobs[i]) by {
        if i < s.jobs.len() {
            assert(queued.jobs[i] == s.jobs[i]);
            assert(fits(s.jobs[i]));
        }
    }
    assert forall|w: int| 0 <= w < queued.pools.waiters.len() implies queued.phase_of(
        #[trigger] waiting(queued.pools.waiters)[w],
    ) == Some(JobPhase::Waiting) by {
        assert(s.phase_of(waiting(s.pools.waiters)[w]) == Some(JobPhase::Waiting));
    }
    assert forall|t: u64| #[trigger] queued.pools.holds(t) implies queued.phase_of(t) is Some
        && !empty_handed(queued.phase_of(t)) by {
        assert(s.pools.holds(t));
        lemma_job_of(s, t);
    }
}

/// Withdrawing requests leaves the jobs standing to the pools as in every state.
pub proof fn lemma_withdraw_sound(
    s: ManagerView,
    entries: Seq<(Seq<char>, u64)>,
    wanted: Seq<Seq<char>>,
    i: int,
)
    requires
        s.sound(),
        0 <= i <= entries.len(),
    ensures
        (ManagerView { pools: s.withdraw_gone(entries, wanted, i), ..s }).sound(),
        s.withdraw_gone(entries, wanted, i).pools == s.pools.pools,
        forall|t: u64| #[trigger]
            s.withdraw_gone(entries, wanted, i).waits(t) ==> s.pools.waits(t) && !(exists|e: int|
                0 <= e < i && !wanted.contains((#[trigger] entries[e]).0) && entries[e].1 == t),
    decreases i,
{
    if i > 0 {
        lemma_withdraw_sound(s, entries, wanted, i - 1);
        let before = s.withdraw_gone(entries, wanted, i - 1);
        let now = s.withdraw_gone(entries, wanted, i);
        if !wanted.contains(entries[i - 1].0) {
            let ticket = entries[i - 1].1;
            lemma_forget(before.waiters, ticket);
            let then = ManagerView { pools: before, ..s };
            let end = ManagerView { pools: now, ..s };
            assert forall|w: int| 0 <= w < now.waiters.len() implies end.phase_of(
                #[trigger] waiting(now.waiters)[w],
            ) == Some(JobPhase::Waiting) by {
                assert(now.waiters.contains(now.waiters[w]));
                let b = choose|b: int| 0 <= b < before.waiters.len() && before.waiters[b]
                    == now.waiters[w];
                assert(then.phase_of(waiting(before.waiters)[b]) == Some(JobPhase::Waiting));
            }
            assert forall|t: u64| #[trigger] end.pools.holds(t) implies end.phase_of(t) is Some
                && !empty_handed(end.phase_of(t)) by {
                assert(then.pools.holds(t));
            }
            assert forall|t: u64| now.waits(t) implies before.waits(t) && t != ticket by {
                let w = choose|w: int| 0 <= w < now.waiters.len() && now.waiters[w].ticket == t;
                assert(now.waiters.contains(now.waiters[w]));
                let b = choose|b: int| 0 <= b < before.waiters.len() && before.waiters[b]
                    == now.waiters[w];
                assert(before.waiters[b].ticket == t);
            }
        }
        assert forall|t: u64| now.waits(t) implies s.pools.waits(t) && !(exists|e: int|
            0 <= e < i && !wanted.contains((#[trigger] entries[e]).0) && entries[e].1 == t) by {
            if wanted.contains(entries[i - 1].0) {
                assert(now == before);
            } else {
                assert(before.waits(t) && t != entries[i - 1].1);
            }
            assert(before.waits(t));
            assert(s.pools.waits(t));
            assert(!(exists|e: int|
                0 <= e < i - 1 && !wanted.contains((#[trigger] entries[e]).0) && entries[e].1
                    == t));
            if exists|e: int|
                0 <= e < i && !wanted.contains((#[trigger] entries[e]).0) && entries[e].1 == t {
                let e = choose|e: int|
                    0 <= e < i && !wanted.contains((#[trigger] entries[e]).0) && entries[e].1 == t;
                if e < i - 1 {
                    assert(0 <= e < i - 1 && !wanted.contains(entries[e].0) && entries[e].1 == t);
                }
                assert(false);
            }
        }
    }
}

/// Cancelling the jobs of what is wanted no more leaves the jobs standing
/// to the pools as in every state.
pub proof fn lemma_cancel_gone_sound(
    s: ManagerView,
    entries: Seq<(Seq<char>, u64)>,
    wanted: Seq<Seq<char>>,
    i: int,
)
    requires
        s.sound(),
        0 <= i <= entries.len(),
    ensures
        s.cancel_gone(entries, wanted, i).0.sound(),
    decreases i,
{
    if i > 0 {
        lemma_cancel_gone_sound(s, entries, wanted, i - 1);
        let then = s.cancel_gone(entries, wanted, i - 1).0;
        if !wanted.contains(entries[i - 1].0) {
            lemma_cancel_job_sound(then, entries[i - 1].1);
        }
    }
}

/// Taking up new cases leaves the jobs standing to the pools as in every state.
pub proof fn lemma_take_up_new_sound(
    base: ManagerView,
    known: Seq<Seq<char>>,
    cases: Seq<TestCaseView>,
    k: int,
)
    requires
        base.sound(),
        0 <= k <= cases.len(),
        base.next_ticket + k <= u64::MAX,
        forall|id: Seq<char>| flight_ids(base.in_flight).contains(id) ==> known.contains(id),
    ensures
        base.take_up_new(known, cases, k).0.sound(),
    decreases k,
{
    if k > 0 {
        lemma_take_up_new_sound(base, known, cases, k - 1);
        lemma_take_up_new(base, known, cases, k - 1);
        let then = base.take_up_new(known, cases, k - 1).0;
        let case = cases[k - 1];
        if ManagerView::is_new(known, cases, k - 1) {
            lemma_new_is_free(base, known, cases, k);
            if then.cache_lookup(case) is None {
                lemma_spawn_sound(then, case);
            }
        }
    }
}

/// Changing the wanted set leaves the jobs standing to the pools as in every state.
pub proof fn lemma_set_cases_sound(s: ManagerView, cases: Seq<TestCaseView>)
    requires
        s.sound(),
        !s.exhausted(cases.len()),
    ensures
        s.set_cases(cases).0.sound(),
{
    let wanted = case_ids(cases);
    let known = flight_ids(s.in_flight);
    let n = s.in_flight.len() as int;
    let marked = ManagerView { pools: s.withdraw_gone(s.in_flight, wanted, n), ..s };
    lemma_withdraw_sound(s, s.in_flight, wanted, n);
    lemma_cancel_gone_sound(marked, s.in_flight, wanted, n);
    lemma_cancel_gone(marked, s.in_flight, wanted, n);
    let then = marked.cancel_gone(s.in_flight, wanted, n).0;
    let kept = ManagerView { in_flight: s.in_flight.filter(is_wanted(wanted)), ..then };
    lemma_kept(s.in_flight, wanted);
    lemma_without_gone(then, wanted);
    assert(kept.sound()) by {
        assert forall|t: u64| true implies kept.phase_of(t) == then.phase_of(t) by {}
        assert forall|w: int| 0 <= w < kept.pools.waiters.len() implies kept.phase_of(
            #[trigger] waiting(kept.pools.waiters)[w],
        ) == Some(JobPhase::Waiting) by {
            assert(then.phase_of(waiting(then.pools.waiters)[w]) == Some(JobPhase::Waiting));
        }
        assert forall|t: u64| #[trigger] kept.pools.holds(t) implies kept.phase_of(t) is Some
            && !empty_handed(kept.phase_of(t)) by {
            assert(then.pools.holds(t));
        }
    }
    assert forall|id: Seq<char>| flight_ids(kept.in_flight).contains(id) implies known.contains(
        id,
    ) by {
        let a = choose|a: int| 0 <= a < kept.in_flight.len() && flight_ids(kept.in_flight)[a] == id;
        assert(kept.in_flight.contains(kept.in_flight[a]));
        let b = choose|b: int| 0 <= b < s.in_flight.len() && s.in_flight[b] == kept.in_flight[a];
        assert(known[b] == id);
    }
    lemma_take_up_new_sound(kept, known, cases, cases.len() as int);
}

/// Every step leaves the jobs standing to the pools as in every state.
pub proof fn lemma_step_sound(s: ManagerView, step: StepView)
    requires
        s.sound(),
    ensures
        s.step(step).0.sound(),
{
    match step {
        StepView::Report { ticket, event } => {
            lemma_job_event_sound(s, ticket, event);
        },
        StepView::Want { cases } => {
            if !s.exhausted(cases.len()) {
                lemma_set_cases_sound(s, cases);
            }
        },
    }
}

/// In every state that a manager comes to, however it got there: an
/// instance of a resource is held by one job at most, that job is not over
/// and has left the queue; and who waits in the queue holds nothing.
pub proof fn lemma_run_sound(s: ManagerView, steps: Seq<StepView>, n: int)
    requires
        s.sound(),
        0 <= n <= steps.len(),
    ensures
        s.run(steps, n).0.sound(),
    decreases n,
{
    if n > 0 {
        lemma_run_sound(s, steps, n - 1);
        lemma_step_sound(s.run(steps, n - 1).0, steps[n - 1]);
    }
}

} // verus!
