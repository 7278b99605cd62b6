//! The manager's model: its state as plain values, and each of its steps as
//! a function from the state before to the state after and the effects.

use crate::job::{
    launch_plan, react, react_to_cancel, ActionView, JobEventView, JobView, LaunchPlanView,
};
use crate::lists::{slot_below, slot_of};
use crate::pool::{PoolsView, ResourcesView};
use crate::result::ResultKey;
use crate::test::{
    cache_hash_of, CachePolicy, NotificationView, StatusView, TestCaseView, TestResult, TestView,
};
use std::time::Duration;
use vstd::prelude::*;

verus! {

/// What an [`Effect`](crate::manager::Effect) is in contracts.
pub enum EffectView {
    Notify(NotificationView),
    Spawn { job: u64 },
    Launch { job: u64, plan: LaunchPlanView },
    Interrupt { job: u64, grace: Duration },
    Kill { job: u64 },
    Finish { job: u64, result: Option<TestResult> },
}

/// The notification that `test_case` has reached `status`.
pub open spec fn notify(test_case: TestCaseView, status: StatusView) -> EffectView {
    EffectView::Notify(NotificationView { test_case, status })
}

/// The key under which the result of `case` is stored.
pub open spec fn result_key(case: TestCaseView) -> ResultKey {
    (case.storage_hash(), case.test.name, case.test.config_hash)
}

/// The result that a status brings, if it is a completion.
pub open spec fn result_of(status: StatusView) -> Option<TestResult> {
    match status {
        StatusView::Completed(result) => Some(result),
        _ => None,
    }
}

/// The tickets of `jobs`, in order.
pub open spec fn tickets(jobs: Seq<JobView>) -> Seq<u64> {
    jobs.map_values(|j: JobView| j.ticket)
}

/// The identities of the entries of an in-flight map, in order.
pub open spec fn flight_ids(in_flight: Seq<(Seq<char>, u64)>) -> Seq<Seq<char>> {
    in_flight.map_values(|e: (Seq<char>, u64)| e.0)
}

/// The identities of `cases`, in order.
pub open spec fn case_ids(cases: Seq<TestCaseView>) -> Seq<Seq<char>> {
    cases.map_values(|c: TestCaseView| c.id())
}

/// Holds of the entries of an in-flight map whose identity is in `wanted`.
pub open spec fn is_wanted(wanted: Seq<Seq<char>>) -> spec_fn((Seq<char>, u64)) -> bool {
    |e: (Seq<char>, u64)| wanted.contains(e.0)
}

/// How many cases a wanted set can have: the list of them must fit in
/// memory on every machine.
pub const MAX_CASES: usize = 0x0400_0000;

/// What a [`Revision`](crate::manager::Revision) is in contracts.
pub struct RevisionView {
    pub commit_hash: Seq<char>,
    pub tree_hash: Option<Seq<char>>,
}

/// The case of `test` on `rev`.
pub open spec fn case_of(rev: RevisionView, test: TestView) -> TestCaseView {
    TestCaseView {
        commit_hash: rev.commit_hash,
        cache_hash: cache_hash_of(test.cache_policy, rev.commit_hash, rev.tree_hash),
        test,
    }
}

/// Every test on every revision: all tests on the first revision, then all
/// on the second, and so on.
pub open spec fn cases_of(revs: Seq<RevisionView>, tests: Seq<TestView>) -> Seq<TestCaseView> {
    Seq::new(
        revs.len() * tests.len(),
        |k: int| case_of(revs[k / (tests.len() as int)], tests[k % (tests.len() as int)]),
    )
}

/// Whether a test caches by tree while a revision comes without its tree.
pub open spec fn lacks_tree(revs: Seq<RevisionView>, tests: Seq<TestView>) -> bool {
    (exists|i: int| 0 <= i < revs.len() && (#[trigger] revs[i]).tree_hash is None) && (exists|
        j: int,
    |
        0 <= j < tests.len() && (#[trigger] tests[j]).cache_policy == CachePolicy::ByTree)
}

/// What a [`Manager`](crate::manager::Manager) is in contracts.
pub struct ManagerView {
    /// The path of the origin repository.
    pub origin: Seq<char>,
    pub tests: Seq<TestView>,
    /// The variables that every job's process gets.
    pub job_env: Seq<(Seq<char>, Seq<char>)>,
    /// For each identity in flight, the ticket of its job.
    pub in_flight: Seq<(Seq<char>, u64)>,
    /// The jobs that are not over.
    pub jobs: Seq<JobView>,
    pub pools: PoolsView,
    pub results: Map<ResultKey, TestResult>,
    /// The ticket of the next job.
    pub next_ticket: u64,
}

impl ManagerView {
    /// The index of the job with `ticket`, if it is not over.
    pub open spec fn job_of(self, ticket: u64) -> Option<int> {
        slot_of(tickets(self.jobs), ticket)
    }

    /// Whether no job is left.
    pub open spec fn settled(self) -> bool {
        self.jobs.len() == 0
    }

    /// The job of `handle` gets its resources: it is started.
    pub open spec fn start(self, handle: ResourcesView) -> (ManagerView, Seq<EffectView>) {
        match self.job_of(handle.ticket) {
            Some(i) => {
                let job = self.jobs[i];
                (
                    ManagerView { jobs: self.jobs.update(i, job.granted(handle)), ..self },
                    seq![
                        notify(job.test_case, StatusView::Started),
                        EffectView::Launch {
                            job: job.ticket,
                            plan: launch_plan(job.test_case, handle, self.origin, self.job_env),
                        },
                    ],
                )
            },
            None => (self, Seq::empty()),
        }
    }

    /// The jobs of the first `i` of `handles` are started, in order.
    pub open spec fn start_all(self, handles: Seq<ResourcesView>, i: int) -> (
        ManagerView,
        Seq<EffectView>,
    )
        decreases i,
    {
        if i <= 0 {
            (self, Seq::empty())
        } else {
            let (then, first) = self.start_all(handles, i - 1);
            let (end, last) = then.start(handles[i - 1]);
            (end, first + last)
        }
    }

    /// The job at index `i` is over with `status`. A completion is stored;
    /// nothing else is. What the job held goes to those that wait.
    pub open spec fn finish(self, i: int, status: StatusView) -> (ManagerView, Seq<EffectView>) {
        let job = self.jobs[i];
        let (pools, granted) = self.pools.leave(job.ticket);
        let results = match status {
            StatusView::Completed(result) => self.results.insert(result_key(job.test_case), result),
            _ => self.results,
        };
        let left = ManagerView { jobs: self.jobs.remove(i), pools, results, ..self };
        let (end, started) = left.start_all(granted, granted.len() as int);
        (
            end,
            seq![
                notify(job.test_case, status),
                EffectView::Finish { job: job.ticket, result: result_of(status) },
            ] + started,
        )
    }

    /// The job at index `i` has become `job` and its supervisor asks for `action`.
    pub open spec fn act(self, i: int, job: JobView, action: ActionView) -> (
        ManagerView,
        Seq<EffectView>,
    ) {
        let moved = ManagerView { jobs: self.jobs.update(i, job), ..self };
        match action {
            ActionView::Nothing => (moved, Seq::empty()),
            ActionView::Acquire => moved.acquire(i),
            ActionView::Interrupt => (
                moved,
                seq![
                    EffectView::Interrupt {
                        job: job.ticket,
                        grace: job.test_case.test.shutdown_grace_period,
                    },
                ],
            ),
            ActionView::Kill => (moved, seq![EffectView::Kill { job: job.ticket }]),
            ActionView::Finish(status) => moved.finish(i, status),
        }
    }

    /// The outside reports `event` of the job with `ticket`. Of a job that
    /// is over nothing is taken in.
    pub open spec fn job_event(self, ticket: u64, event: JobEventView) -> (
        ManagerView,
        Seq<EffectView>,
    ) {
        match self.job_of(ticket) {
            Some(i) => self.act(
                i,
                self.jobs[i].after(event),
                react(self.jobs[i].phase, self.jobs[i].cancelled, event).1,
            ),
            None => (self, Seq::empty()),
        }
    }

    /// The job with `ticket` is cancelled.
    pub open spec fn cancel_job(self, ticket: u64) -> (ManagerView, Seq<EffectView>) {
        match self.job_of(ticket) {
            Some(i) => self.act(
                i,
                self.jobs[i].after_cancel(),
                react_to_cancel(self.jobs[i].phase).1,
            ),
            None => (self, Seq::empty()),
        }
    }

    /// The job at index `i` asks for its resources; where it gets them at
    /// once, it is started, else it waits in the queue of the pools.
    pub open spec fn acquire(self, i: int) -> (ManagerView, Seq<EffectView>) {
        let job = self.jobs[i];
        let (pools, handle) = self.pools.get(job.ticket, job.test_case.test.needs_resources);
        let asked = ManagerView { pools, ..self };
        match handle {
            Some(h) => asked.start(h),
            None => (asked, Seq::empty()),
        }
    }

    /// A job for `case` is enqueued, and its supervisor is to be spawned. It
    /// asks for nothing yet: it is told as enqueued, and neither started
    /// nor launched, until its supervisor has had its first turn.
    pub open spec fn spawn(self, case: TestCaseView) -> (ManagerView, Seq<EffectView>) {
        let ticket = self.next_ticket;
        (
            ManagerView {
                jobs: self.jobs.push(JobView::enqueued(ticket, case)),
                in_flight: self.in_flight.push((case.id(), ticket)),
                next_ticket: (ticket + 1) as u64,
                ..self
            },
            seq![notify(case, StatusView::Enqueued), EffectView::Spawn { job: ticket }],
        )
    }

    /// The result that stands for a run of `case`, if one was seen and the
    /// test's policy lets it stand.
    pub open spec fn cache_lookup(self, case: TestCaseView) -> Option<TestResult> {
        match case.cache_hash {
            Some(hash) => {
                let key = (hash, case.test.name, case.test.config_hash);
                if self.results.contains_key(key) {
                    Some(self.results[key])
                } else {
                    None
                }
            },
            None => None,
        }
    }

    /// A case that is newly wanted: a result seen before completes it at
    /// once, without a job; else a job is spawned.
    pub open spec fn take_up(self, case: TestCaseView) -> (ManagerView, Seq<EffectView>) {
        match self.cache_lookup(case) {
            Some(result) => (self, seq![notify(case, StatusView::Completed(result))]),
            None => self.spawn(case),
        }
    }

    /// The pools after the requests of the jobs of the first `i` entries of
    /// `entries` were withdrawn, but for those whose identity is in `wanted`.
    pub open spec fn withdraw_gone(
        self,
        entries: Seq<(Seq<char>, u64)>,
        wanted: Seq<Seq<char>>,
        i: int,
    ) -> PoolsView
        decreases i,
    {
        if i <= 0 {
            self.pools
        } else {
            let pools = self.withdraw_gone(entries, wanted, i - 1);
            if wanted.contains(entries[i - 1].0) {
                pools
            } else {
                pools.forget(entries[i - 1].1)
            }
        }
    }

    /// The jobs of the first `i` entries of `entries` are cancelled, but for
    /// those whose identity is in `wanted`.
    pub open spec fn cancel_gone(
        self,
        entries: Seq<(Seq<char>, u64)>,
        wanted: Seq<Seq<char>>,
        i: int,
    ) -> (ManagerView, Seq<EffectView>)
        decreases i,
    {
        if i <= 0 {
            (self, Seq::empty())
        } else {
            let (then, first) = self.cancel_gone(entries, wanted, i - 1);
            if wanted.contains(entries[i - 1].0) {
                (then, first)
            } else {
                let (end, last) = then.cancel_job(entries[i - 1].1);
                (end, first + last)
            }
        }
    }

    /// Whether case `k` of `cases` is to be taken up: its identity was not in
    /// flight, and stands at no earlier place in `cases`.
    pub open spec fn is_new(known: Seq<Seq<char>>, cases: Seq<TestCaseView>, k: int) -> bool {
        !known.contains(cases[k].id()) && slot_below(case_ids(cases), cases[k].id(), k) is None
    }

    /// The new ones among the first `k` of `cases` are taken up, in order.
    pub open spec fn take_up_new(self, known: Seq<Seq<char>>, cases: Seq<TestCaseView>, k: int) -> (
        ManagerView,
        Seq<EffectView>,
    )
        decreases k,
    {
        if k <= 0 {
            (self, Seq::empty())
        } else {
            let (then, first) = self.take_up_new(known, cases, k - 1);
            if Self::is_new(known, cases, k - 1) {
                let (end, last) = then.take_up(cases[k - 1]);
                (end, first + last)
            } else {
                (then, first)
            }
        }
    }

    /// Whether `cases` are more than can be listed at once, or more than the
    /// tickets or the job counts that are left.
    pub open spec fn exhausted(self, cases: nat) -> bool {
        cases > MAX_CASES || self.next_ticket + cases > u64::MAX || self.jobs.len() + cases
            > usize::MAX
    }

    /// The wanted set becomes `cases`. Jobs in flight whose case is wanted no
    /// more are cancelled and leave the in-flight map, in its order; then
    /// each wanted case that was not in flight is taken up, in the order of
    /// `cases`.
    ///
    /// Before any job is cancelled, the requests of all that will be are
    /// withdrawn from the pools: what one of them gives back never goes to
    /// another of them.
    pub open spec fn set_cases(self, cases: Seq<TestCaseView>) -> (ManagerView, Seq<EffectView>) {
        let wanted = case_ids(cases);
        let marked = ManagerView {
            pools: self.withdraw_gone(self.in_flight, wanted, self.in_flight.len() as int),
            ..self
        };
        let (then, cancelled) = marked.cancel_gone(
            self.in_flight,
            wanted,
            self.in_flight.len() as int,
        );
        let kept = ManagerView {
            in_flight: self.in_flight.filter(is_wanted(wanted)),
            ..then
        };
        let known = flight_ids(self.in_flight);
        let (end, started) = kept.take_up_new(known, cases, cases.len() as int);
        (end, cancelled + started)
    }

    /// One step of the manager. A wanted set of more cases than there are
    /// tickets left is refused: nothing changes.
    pub open spec fn step(self, step: StepView) -> (ManagerView, Seq<EffectView>) {
        match step {
            StepView::Report { ticket, event } => self.job_event(ticket, event),
            StepView::Want { cases } => if self.exhausted(cases.len()) {
                (self, Seq::empty())
            } else {
                self.set_cases(cases)
            },
        }
    }

    /// The first `n` of `steps`, one after the other, and all their effects.
    pub open spec fn run(self, steps: Seq<StepView>, n: int) -> (ManagerView, Seq<EffectView>)
        decreases n,
    {
        if n <= 0 {
            (self, Seq::empty())
        } else {
            let (then, first) = self.run(steps, n - 1);
            let (end, last) = then.step(steps[n - 1]);
            (end, first + last)
        }
    }
}

/// What can happen to a manager: the outside reports of a job, or the
/// wanted set changes.
pub enum StepView {
    Report { ticket: u64, event: JobEventView },
    Want { cases: Seq<TestCaseView> },
}

} // verus!
