//! The manager: it keeps one job in flight for every test case of the
//! revisions that are wanted, cancels the jobs of those that are wanted no
//! more, and reuses the results that it has seen.

use crate::git::{CommitHash, TreeHash};
use crate::job::{pairs_view, JobAction, JobCounter, JobEvent, JobView, LaunchPlan, TestJob};
use crate::lifecycle::accounts::flight_tickets;
use crate::lifecycle::starts::{lemma_set_cases_starts, starts_only_waiting};
use crate::lifecycle::steady::lemma_step_steady;
use crate::lists::{views, slot_below};
use crate::model::{
    case_ids, cases_of, flight_ids, is_wanted, lacks_tree, notify, result_of, tickets, EffectView,
    ManagerView, RevisionView, StepView, MAX_CASES,
};
use crate::lending::{lemma_stocked_is_free, lemma_stocked_keys, lemma_stocked_last, waiting};
use crate::lifecycle::home::worktree_slot;
use crate::pool::{held_view, stocked, Pools, PoolsView, Resources};
use crate::resource::{text, 
    check_wants, wants_fault, wants_view, ConfigError, ConfigFault, KeyView, Resource, ResourceKey,
    ResourceView,
};
use crate::result::{Database, ResultKey};
use crate::test::{
    share, CachePolicy, Notification, StatusView, Test, TestCase, TestCaseId, TestResult,
    TestStatus, TestView,
};
use itertools::Itertools;
use std::sync::Arc;
use std::time::Duration;
use vstd::prelude::*;
use vstd::string::StringExecFns;

verus! {

/// What the manager asks of the outside after a step, in the order in which
/// it is to be done.
#[derive(Debug)]
pub enum Effect {
    /// Send the notification to all subscribers.
    Notify(Notification),
    /// Spawn the supervisor of the job, and report `Polled` when it has its
    /// first turn.
    Spawn { job: u64 },
    /// Start the process of the job, and report `Launched` or `LaunchFailed`.
    Launch { job: u64, plan: LaunchPlan },
    /// Interrupt the process of the job, and report `GraceExpired` if it
    /// has not ended by itself after `grace`.
    Interrupt { job: u64, grace: Duration },
    /// Kill the process of the job.
    Kill { job: u64 },
    /// The job is over. Where it completed, `result` is to be stored with its output.
    Finish { job: u64, result: Option<TestResult> },
}

impl View for Effect {
    type V = EffectView;

    open spec fn view(&self) -> EffectView {
        match self {
            Effect::Notify(n) => EffectView::Notify(n@),
            Effect::Spawn { job } => EffectView::Spawn { job: *job },
            Effect::Launch { job, plan } => EffectView::Launch { job: *job, plan: plan@ },
            Effect::Interrupt { job, grace } => EffectView::Interrupt { job: *job, grace: *grace },
            Effect::Kill { job } => EffectView::Kill { job: *job },
            Effect::Finish { job, result } => EffectView::Finish { job: *job, result: *result },
        }
    }
}

/// A revision to test. The hash of its tree is needed where a test caches by tree.
#[derive(Debug)]
pub struct Revision {
    pub commit_hash: CommitHash,
    pub tree_hash: Option<TreeHash>,
}

impl View for Revision {
    type V = RevisionView;

    open spec fn view(&self) -> RevisionView {
        RevisionView {
            commit_hash: self.commit_hash@,
            tree_hash: match self.tree_hash {
                Some(hash) => Some(hash@),
                None => None,
            },
        }
    }
}

/// Why the wanted set could not be changed.
#[derive(Debug, Clone, Copy, PartialEq, Eq, Structural)]
pub enum SetRevisionsError {
    /// A test caches by tree and a revision came without the hash of its tree.
    MissingTree,
    /// There are more cases than can be listed at once, or than tickets or
    /// job counts are left.
    Exhausted,
}

/// An in-flight map in contracts.
pub open spec fn flight_view(entries: Seq<(TestCaseId, u64)>) -> Seq<(Seq<char>, u64)> {
    entries.map_values(|e: (TestCaseId, u64)| (e.0@, e.1))
}

/// Runs the tests for the current set of revisions.
pub struct Manager {
    /// The path of the origin repository.
    origin: String,
    tests: Vec<Arc<Test>>,
    /// For each identity in flight, the ticket of its job. The entry stays
    /// when the job is over, until the identity is wanted no more.
    in_flight: Vec<(TestCaseId, u64)>,
    /// The jobs that are not over.
    jobs: Vec<TestJob>,
    job_counter: JobCounter,
    resource_pools: Pools,
    result_db: Database,
    job_env: Vec<(String, String)>,
    next_ticket: u64,
}

impl View for Manager {
    type V = ManagerView;

    closed spec fn view(&self) -> ManagerView {
        ManagerView {
            origin: self.origin@,
            tests: views(self.tests@),
            job_env: pairs_view(self.job_env@),
            in_flight: flight_view(self.in_flight@),
            jobs: views(self.jobs@),
            pools: self.resource_pools@,
            results: self.result_db@,
            next_ticket: self.next_ticket,
        }
    }
}

impl Manager {
    /// The pools are well formed, and the job counter counts the jobs that are not over.
    pub closed spec fn coherent(&self) -> bool {
        &&& self.resource_pools.wf()
        &&& self.job_counter@ == self.jobs@.len()
    }

    /// The manager is coherent, and what holds of every state of its model
    /// holds of it.
    pub open spec fn wf(&self) -> bool {
        self.coherent() && self@.steady()
    }

    /// The index of the job with `ticket`, if it is not over.
    fn job_index(&self, ticket: u64) -> (found: Option<usize>)
        ensures
            match found {
                Some(i) => self@.job_of(ticket) == Some(i as int) && i < self.jobs@.len(),
                None => self@.job_of(ticket) is None,
            },
    {
        let ghost keys = tickets(self@.jobs);
        let mut found: Option<usize> = None;
        let mut i: usize = 0;
        while i < self.jobs.len()
            invariant
                i <= self.jobs.len(),
                keys == tickets(self@.jobs),
                match slot_below(keys, ticket, i as int) {
                    Some(j) => found == Some(j as usize) && 0 <= j < i,
                    None => found is None,
                },
            decreases self.jobs.len() - i,
        {
            if self.jobs[i].ticket() == ticket {
                found = Some(i);
            }
            i += 1;
        }
        found
    }

    /// Starts the job that `handle` was granted to.
    fn start(&mut self, handle: Resources, effects: &mut Vec<Effect>)
        requires
            old(self).coherent(),
        ensures
            final(self).coherent(),
            final(self)@ == old(self)@.start(handle@).0,
            views(final(effects)@) == views(old(effects)@) + old(self)@.start(handle@).1,
            final(self)@.jobs.len() == old(self)@.jobs.len(),
            final(self)@.next_ticket == old(self)@.next_ticket,
            final(self)@.in_flight == old(self)@.in_flight,
    {
        let ghost before = views(effects@);
        let ghost jobs = views(self.jobs@);
        match self.job_index(handle.ticket()) {
            Some(i) => {
                let ghost h = handle@;
                let ticket = self.jobs[i].ticket();
                let test_case = self.jobs[i].test_case().clone();
                let plan = self.jobs[i].grant(handle, &self.origin, &self.job_env);
                effects.push(Effect::Notify(Notification { test_case, status: TestStatus::Started }));
                effects.push(Effect::Launch { job: ticket, plan });
                assert(views(self.jobs@) =~= jobs.update(i as int, jobs[i as int].granted(h)));
                assert(views(effects@) =~= before + old(self)@.start(h).1);
            },
            None => {
                assert(views(effects@) =~= before + old(self)@.start(handle@).1);
            },
        }
    }

    /// Starts the jobs that `handles` were granted to, in order.
    fn start_all(&mut self, handles: Vec<Resources>, effects: &mut Vec<Effect>)
        requires
            old(self).coherent(),
        ensures
            final(self).coherent(),
            final(self)@ == old(self)@.start_all(views(handles@), handles@.len() as int).0,
            views(final(effects)@) == views(old(effects)@) + old(self)@.start_all(
                views(handles@),
                handles@.len() as int,
            ).1,
            final(self)@.jobs.len() == old(self)@.jobs.len(),
            final(self)@.next_ticket == old(self)@.next_ticket,
            final(self)@.in_flight == old(self)@.in_flight,
    {
        let ghost all = views(handles@);
        let ghost before = views(effects@);
        let mut rest = handles;
        let ghost mut k: int = 0;
        assert(views(rest@) =~= all.skip(0));
        assert(views(effects@) =~= before + old(self)@.start_all(all, 0).1);
        while rest.len() > 0
            invariant
                self.coherent(),
                0 <= k <= all.len(),
                views(rest@) == all.skip(k),
                self@ == old(self)@.start_all(all, k).0,
                views(effects@) == before + old(self)@.start_all(all, k).1,
                self@.jobs.len() == old(self)@.jobs.len(),
                self@.next_ticket == old(self)@.next_ticket,
                self@.in_flight == old(self)@.in_flight,
            decreases rest.len(),
        {
            let ghost left = rest@;
            let ghost now = self@;
            assert(views(left).len() == all.skip(k).len());
            let handle = rest.remove(0);
            proof {
                assert(rest@ =~= left.skip(1));
                assert(views(rest@) =~= views(left).skip(1));
                assert(views(rest@) =~= all.skip(k + 1));
                assert(handle@ == views(left)[0]);
                assert(handle@ == all[k]);
            }
            self.start(handle, effects);
            proof {
                assert(views(effects@) =~= before + (old(self)@.start_all(all, k).1 + now.start(
                    all[k],
                ).1));
                k = k + 1;
            }
        }
        assert(views(rest@).len() == 0);
    }

    /// Ends the job at index `i` with `status`.
    fn finish(&mut self, i: usize, status: TestStatus, effects: &mut Vec<Effect>)
        requires
            old(self).coherent(),
            i < old(self)@.jobs.len(),
        ensures
            final(self).coherent(),
            final(self)@ == old(self)@.finish(i as int, status@).0,
            views(final(effects)@) == views(old(effects)@) + old(self)@.finish(i as int, status@).1,
            final(self)@.jobs.len() == old(self)@.jobs.len() - 1,
            final(self)@.next_ticket == old(self)@.next_ticket,
            final(self)@.in_flight == old(self)@.in_flight,
    {
        let ghost before = views(effects@);
        let ghost jobs = views(self.jobs@);
        let job = self.jobs.remove(i);
        assert(views(self.jobs@) =~= jobs.remove(i as int));
        assert(job@ == jobs[i as int]);
        let ticket = job.ticket();
        let test_case = job.test_case().clone();
        let result = match &status {
            TestStatus::Completed(result) => {
                self.result_db.set_result(
                    test_case.storage_hash(),
                    &test_case.test.name,
                    test_case.test.config_hash,
                    result,
                );
                Some(result.clone())
            },
            _ => None,
        };
        let token = job.into_token();
        self.job_counter.put(token);
        let granted = self.resource_pools.leave(ticket);
        effects.push(Effect::Notify(Notification { test_case, status }));
        effects.push(Effect::Finish { job: ticket, result });
        let ghost head = views(effects@);
        assert(head =~= before + seq![
            notify(jobs[i as int].test_case, status@),
            EffectView::Finish { job: ticket, result: result_of(status@) },
        ]);
        self.start_all(granted, effects);
        assert(views(effects@) =~= before + old(self)@.finish(i as int, status@).1);
    }

    /// Does what the supervisor of the job at index `i` asks for.
    fn act(&mut self, i: usize, action: JobAction, effects: &mut Vec<Effect>)
        requires
            old(self).coherent(),
            i < old(self)@.jobs.len(),
        ensures
            final(self).coherent(),
            final(self)@ == old(self)@.act(i as int, old(self)@.jobs[i as int], action@).0,
            views(final(effects)@) == views(old(effects)@) + old(self)@.act(
                i as int,
                old(self)@.jobs[i as int],
                action@,
            ).1,
            final(self)@.jobs.len() <= old(self)@.jobs.len(),
            final(self)@.next_ticket == old(self)@.next_ticket,
            final(self)@.in_flight == old(self)@.in_flight,
    {
        let ghost before = views(effects@);
        let ghost job = self@.jobs[i as int];
        assert(self@.jobs.update(i as int, job) =~= self@.jobs);
        match action {
            JobAction::Nothing => {
                assert(views(effects@) =~= before + Seq::<EffectView>::empty());
            },
            JobAction::Acquire => {
                let ticket = self.jobs[i].ticket();
                let handle = self.resource_pools.get(
                    ticket,
                    &self.jobs[i].test_case().test.needs_resources,
                );
                match handle {
                    Some(h) => {
                        self.start(h, effects);
                    },
                    None => {
                        assert(views(effects@) =~= before + Seq::<EffectView>::empty());
                    },
                }
            },
            JobAction::Interrupt => {
                let ticket = self.jobs[i].ticket();
                let grace = self.jobs[i].test_case().test.shutdown_grace_period;
                effects.push(Effect::Interrupt { job: ticket, grace });
                assert(views(effects@) =~= before + seq![
                    EffectView::Interrupt { job: ticket, grace },
                ]);
            },
            JobAction::Kill => {
                let ticket = self.jobs[i].ticket();
                effects.push(Effect::Kill { job: ticket });
                assert(views(effects@) =~= before + seq![EffectView::Kill { job: ticket }]);
            },
            JobAction::Finish(status) => {
                self.finish(i, status, effects);
            },
        }
    }

    /// Takes in what the outside reports of the job with `ticket`, and says
    /// what is to be done. The report of a job that is over, or that never
    /// was, changes nothing and asks for nothing.
    pub fn job_event(&mut self, ticket: u64, event: JobEvent) -> (effects: Vec<Effect>)
        requires
            old(self).wf(),
        ensures
            final(self).wf(),
            (final(self)@, views(effects@)) == old(self)@.job_event(ticket, event@),
    {
        proof {
            lemma_step_steady(
                old(self)@,
                StepView::Report { ticket, event: event@ },
            );
        }
        let mut effects: Vec<Effect> = Vec::new();
        match self.job_index(ticket) {
            Some(i) => {
                let ghost jobs = views(self.jobs@);
                let action = self.jobs[i].step(event);
                let ghost moved = ManagerView {
                    jobs: jobs.update(i as int, jobs[i as int].after(event@)),
                    ..old(self)@
                };
                assert(views(self.jobs@) =~= moved.jobs);
                assert(self@ == moved);
                assert(moved.jobs.update(i as int, moved.jobs[i as int]) =~= moved.jobs);
                self.act(i, action, &mut effects);
                assert(views(effects@) =~= old(self)@.job_event(ticket, event@).1);
            },
            None => {
                assert(views(effects@) =~= Seq::<EffectView>::empty());
            },
        }
        effects
    }

    /// Cancels the job with `ticket`.
    fn cancel_job(&mut self, ticket: u64, effects: &mut Vec<Effect>)
        requires
            old(self).coherent(),
        ensures
            final(self).coherent(),
            final(self)@ == old(self)@.cancel_job(ticket).0,
            views(final(effects)@) == views(old(effects)@) + old(self)@.cancel_job(ticket).1,
            final(self)@.jobs.len() <= old(self)@.jobs.len(),
            final(self)@.next_ticket == old(self)@.next_ticket,
            final(self)@.in_flight == old(self)@.in_flight,
    {
        match self.job_index(ticket) {
            Some(i) => {
                let ghost jobs = views(self.jobs@);
                let action = self.jobs[i].cancel();
                let ghost moved = ManagerView {
                    jobs: jobs.update(i as int, jobs[i as int].after_cancel()),
                    ..old(self)@
                };
                assert(views(self.jobs@) =~= moved.jobs);
                assert(self@ == moved);
                assert(moved.jobs.update(i as int, moved.jobs[i as int]) =~= moved.jobs);
                self.act(i, action, effects);
            },
            None => {
                assert(views(effects@) =~= views(old(effects)@) + Seq::<EffectView>::empty());
            },
        }
    }

    /// The result that stands for a run of `test_case`, if one was seen and
    /// the test's policy lets it stand.
    pub fn cache_lookup(&self, test_case: &TestCase) -> (found: Option<TestResult>)
        ensures
            found == self@.cache_lookup(test_case@),
    {
        match &test_case.cache_hash {
            Some(hash) => self.result_db.cached_result(
                hash,
                &test_case.test.name,
                test_case.test.config_hash,
            ),
            None => None,
        }
    }

    /// Enqueues a job for `test_case` and asks for its supervisor to be
    /// spawned. The job asks for its resources at the first turn of its
    /// supervisor, not here.
    fn spawn_job(&mut self, test_case: TestCase, effects: &mut Vec<Effect>)
        requires
            old(self).coherent(),
            old(self)@.next_ticket < u64::MAX,
            old(self)@.jobs.len() < usize::MAX,
        ensures
            final(self).coherent(),
            final(self)@ == old(self)@.spawn(test_case@).0,
            views(final(effects)@) == views(old(effects)@) + old(self)@.spawn(test_case@).1,
            final(self)@.jobs.len() == old(self)@.jobs.len() + 1,
            final(self)@.next_ticket == old(self)@.next_ticket + 1,
    {
        let ghost before = views(effects@);
        let ghost case = test_case@;
        let ghost jobs = views(self.jobs@);
        let ghost flights = flight_view(self.in_flight@);
        let ticket = self.next_ticket;
        self.next_ticket = ticket + 1;
        let token = self.job_counter.get();
        let id = test_case.id();
        effects.push(
            Effect::Notify(Notification { test_case: test_case.clone(), status: TestStatus::Enqueued }),
        );
        effects.push(Effect::Spawn { job: ticket });
        self.jobs.push(TestJob::new(ticket, test_case, token));
        self.in_flight.push((id, ticket));
        assert(views(self.jobs@) =~= jobs.push(JobView::enqueued(ticket, case)));
        assert(flight_view(self.in_flight@) =~= flights.push((case.id(), ticket)));
        assert(views(effects@) =~= before + seq![
            notify(case, StatusView::Enqueued),
            EffectView::Spawn { job: ticket },
        ]);
    }

    /// Takes up a case that is newly wanted.
    fn take_up(&mut self, test_case: TestCase, effects: &mut Vec<Effect>)
        requires
            old(self).coherent(),
            old(self)@.next_ticket < u64::MAX,
            old(self)@.jobs.len() < usize::MAX,
        ensures
            final(self).coherent(),
            final(self)@ == old(self)@.take_up(test_case@).0,
            views(final(effects)@) == views(old(effects)@) + old(self)@.take_up(test_case@).1,
            final(self)@.jobs.len() <= old(self)@.jobs.len() + 1,
            final(self)@.next_ticket <= old(self)@.next_ticket + 1,
    {
        let ghost before = views(effects@);
        match self.cache_lookup(&test_case) {
            Some(result) => {
                let ghost case = test_case@;
                effects.push(
                    Effect::Notify(Notification { test_case, status: TestStatus::Completed(result) }),
                );
                assert(views(effects@) =~= before + seq![
                    notify(case, StatusView::Completed(result)),
                ]);
            },
            None => {
                self.spawn_job(test_case, effects);
            },
        }
    }

    /// Whether no job is left: every job that was spawned is over.
    pub fn settled(&self) -> (b: bool)
        requires
            self.wf(),
        ensures
            b == self@.settled(),
    {
        self.job_counter.zero()
    }
}

/// All pairs of an index below `n` and an index below `m`, computed by
/// `Itertools::cartesian_product` on the two ranges. As its source shows, the
/// pairs come with the first index rising slowest: pair `k` is `(k / m, k % m)`.
/// The bound keeps the list of them within what a vector can hold.
#[verifier::external_body]
fn index_pairs(n: usize, m: usize) -> (pairs: Vec<(usize, usize)>)
    requires
        n * m <= MAX_CASES,
    ensures
        pairs@.len() == n * m,
        forall|k: int|
            0 <= k < pairs@.len() ==> (#[trigger] pairs@[k]).0 == k / (m as int) && pairs@[k].1 == k
                % (m as int) && pairs@[k].0 < n && pairs@[k].1 < m,
{
    (0..n).cartesian_product(0..m).collect()
}

/// Whether `id` is among `ids`.
fn id_in(ids: &Vec<TestCaseId>, id: &TestCaseId) -> (b: bool)
    ensures
        b == views(ids@).contains(id@),
{
    let mut i: usize = 0;
    while i < ids.len()
        invariant
            i <= ids.len(),
            forall|j: int| 0 <= j < i ==> views(ids@)[j] != id@,
        decreases ids.len() - i,
    {
        if ids[i].same(id) {
            assert(views(ids@)[i as int] == id@);
            return true;
        }
        i += 1;
    }
    false
}

/// Whether the identity at index `k` stands at an earlier index too.
fn seen_before(ids: &Vec<TestCaseId>, k: usize) -> (b: bool)
    requires
        k < ids@.len(),
    ensures
        b == (slot_below(views(ids@), ids@[k as int]@, k as int) is Some),
{
    let mut found = false;
    let mut i: usize = 0;
    while i < k
        invariant
            i <= k,
            k < ids@.len(),
            found == (slot_below(views(ids@), ids@[k as int]@, i as int) is Some),
        decreases k - i,
    {
        if ids[i].same(&ids[k]) {
            found = true;
        }
        i += 1;
    }
    found
}

/// Whether a revision comes without the hash of its tree.
fn any_without_tree(revs: &Vec<Revision>) -> (b: bool)
    ensures
        b == exists|i: int| 0 <= i < revs@.len() && (#[trigger] views(revs@)[i]).tree_hash is None,
{
    let mut i: usize = 0;
    while i < revs.len()
        invariant
            i <= revs.len(),
            forall|j: int| 0 <= j < i ==> (#[trigger] views(revs@)[j]).tree_hash is Some,
        decreases revs.len() - i,
    {
        if revs[i].tree_hash.is_none() {
            assert(views(revs@)[i as int].tree_hash is None);
            return true;
        }
        i += 1;
    }
    false
}

/// Whether a test caches by tree.
fn any_by_tree(tests: &Vec<Arc<Test>>) -> (b: bool)
    ensures
        b == exists|j: int|
            0 <= j < tests@.len() && (#[trigger] views(tests@)[j]).cache_policy
                == CachePolicy::ByTree,
{
    let mut j: usize = 0;
    while j < tests.len()
        invariant
            j <= tests.len(),
            forall|i: int|
                0 <= i < j ==> (#[trigger] views(tests@)[i]).cache_policy
                    != CachePolicy::ByTree,
        decreases tests.len() - j,
    {
        if tests[j].cache_policy.needs_tree() {
            assert(views(tests@)[j as int].cache_policy == CachePolicy::ByTree);
            return true;
        }
        j += 1;
    }
    false
}

/// Every test on every revision, where no test lacks the tree that it needs.
fn all_cases(revs: &Vec<Revision>, tests: &Vec<Arc<Test>>) -> (cases: Vec<TestCase>)
    requires
        !lacks_tree(views(revs@), views(tests@)),
        revs@.len() * tests@.len() <= MAX_CASES,
    ensures
        views(cases@) == cases_of(views(revs@), views(tests@)),
{
    let pairs = index_pairs(revs.len(), tests.len());
    let ghost want = cases_of(views(revs@), views(tests@));
    let mut cases: Vec<TestCase> = Vec::new();
    let mut k: usize = 0;
    while k < pairs.len()
        invariant
            k <= pairs.len(),
            !lacks_tree(views(revs@), views(tests@)),
            want == cases_of(views(revs@), views(tests@)),
            pairs@.len() == revs@.len() * tests@.len(),
            forall|k: int|
                0 <= k < pairs@.len() ==> (#[trigger] pairs@[k]).0 == k / (tests@.len() as int)
                    && pairs@[k].1 == k % (tests@.len() as int) && pairs@[k].0 < revs@.len()
                    && pairs@[k].1 < tests@.len(),
            cases@.len() == k,
            forall|j: int| 0 <= j < k ==> (#[trigger] cases@[j])@ == want[j],
        decreases pairs.len() - k,
    {
        let i = pairs[k].0;
        let j = pairs[k].1;
        let rev = &revs[i];
        let tree = match &rev.tree_hash {
            Some(hash) => Some(hash.clone()),
            None => None,
        };
        assert(views(revs@)[i as int] == rev@);
        assert(views(tests@)[j as int] == tests@[j as int]@);
        match TestCase::new(rev.commit_hash.clone(), share(&tests[j]), tree) {
            Ok(case) => {
                assert(case@ == want[k as int]);
                cases.push(case);
            },
            Err(_) => {
                assert(false);
            },
        }
        k += 1;
    }
    assert(views(cases@) =~= want);
    cases
}

impl Manager {
    /// Changes the wanted set to every test on every one of `revs`. The jobs
    /// of cases that are wanted no more are cancelled; each wanted case that
    /// was not in flight is completed from a result seen before, or gets a job.
    ///
    /// A job that this spawns is told as enqueued and its supervisor is asked
    /// for; it asks for its resources, and is started, only when the
    /// supervisor's first turn is reported. So what this starts are jobs that
    /// waited in the queue of the pools before, and a job that is cancelled
    /// before its first turn is never started.
    ///
    /// Nothing changes where a test caches by tree and a revision comes
    /// without its tree, or where the tickets would not suffice.
    pub fn set_revisions(&mut self, revs: &Vec<Revision>) -> (outcome: Result<
        Vec<Effect>,
        SetRevisionsError,
    >)
        requires
            old(self).wf(),
        ensures
            final(self).wf(),
            match outcome {
                Ok(effects) => (final(self)@, views(effects@)) == old(self)@.set_cases(
                    cases_of(views(revs@), old(self)@.tests),
                ),
                Err(_) => final(self)@ == old(self)@,
            },
            outcome matches Ok(effects) ==> starts_only_waiting(old(self)@, views(effects@)),
            outcome is Ok <==> !lacks_tree(views(revs@), old(self)@.tests) && !old(self)@.exhausted(
                revs@.len() * old(self)@.tests.len(),
            ),
            outcome == Err::<Vec<Effect>, SetRevisionsError>(SetRevisionsError::MissingTree)
                <==> lacks_tree(views(revs@), old(self)@.tests),
            outcome == Err::<Vec<Effect>, SetRevisionsError>(SetRevisionsError::Exhausted) <==> !lacks_tree(
                views(revs@),
                old(self)@.tests,
            ) && old(self)@.exhausted(revs@.len() * old(self)@.tests.len()),
    {
        if any_without_tree(revs) && any_by_tree(&self.tests) {
            return Err(SetRevisionsError::MissingTree);
        }
        let total = match revs.len().checked_mul(self.tests.len()) {
            Some(total) => total,
            None => {
                return Err(SetRevisionsError::Exhausted);
            },
        };
        if total > MAX_CASES || total as u64 > u64::MAX - self.next_ticket || total > usize::MAX
            - self.jobs.len() {
            return Err(SetRevisionsError::Exhausted);
        }
        let cases = all_cases(revs, &self.tests);
        let ghost cv = views(cases@);
        proof {
            lemma_step_steady(old(self)@, StepView::Want { cases: cv });
            lemma_set_cases_starts(old(self)@, cv);
        }
        let ghost wanted = case_ids(cv);
        let ghost entries = self@.in_flight;
        let ghost known = flight_ids(entries);
        let mut effects: Vec<Effect> = Vec::new();

        let mut ids: Vec<TestCaseId> = Vec::new();
        let mut k: usize = 0;
        while k < cases.len()
            invariant
                k <= cases.len(),
                cv == views(cases@),
                ids@.len() == k,
                forall|j: int| 0 <= j < k ==> (#[trigger] ids@[j])@ == cv[j].id(),
            decreases cases.len() - k,
        {
            ids.push(cases[k].id());
            k += 1;
        }
        assert(views(ids@) =~= wanted);

        let mut w: usize = 0;
        while w < self.in_flight.len()
            invariant
                w <= self.in_flight@.len(),
                self.coherent(),
                views(ids@) == wanted,
                entries == old(self)@.in_flight,
                self@ == (ManagerView {
                    pools: old(self)@.withdraw_gone(entries, wanted, w as int),
                    ..old(self)@
                }),
            decreases self.in_flight@.len() - w,
        {
            assert((self.in_flight@[w as int].0@, self.in_flight@[w as int].1) == entries[w as int]);
            if !id_in(&ids, &self.in_flight[w].0) {
                let ticket = self.in_flight[w].1;
                self.resource_pools.forget(ticket);
            }
            w += 1;
        }
        let ghost marked = self@;

        let mut was_known: Vec<TestCaseId> = Vec::new();
        let mut kept: Vec<(TestCaseId, u64)> = Vec::new();
        let mut i: usize = 0;
        assert(entries.take(0) =~= Seq::<(Seq<char>, u64)>::empty());
        assert(Seq::<(Seq<char>, u64)>::empty().filter(is_wanted(wanted)) =~= Seq::<
            (Seq<char>, u64),
        >::empty()) by {
            reveal(Seq::filter);
        }
        assert(flight_view(kept@) =~= Seq::<(Seq<char>, u64)>::empty());
        assert(views(effects@) =~= Seq::<EffectView>::empty());
        while i < self.in_flight.len()
            invariant
                i <= self.in_flight@.len(),
                self.in_flight@.len() == entries.len(),
                self.coherent(),
                entries == old(self)@.in_flight,
                self@.in_flight == entries,
                views(ids@) == wanted,
                marked == (ManagerView {
                    pools: old(self)@.withdraw_gone(entries, wanted, entries.len() as int),
                    ..old(self)@
                }),
                self@ == marked.cancel_gone(entries, wanted, i as int).0,
                views(effects@) == marked.cancel_gone(entries, wanted, i as int).1,
                flight_view(kept@) == entries.take(i as int).filter(is_wanted(wanted)),
                was_known@.len() == i,
                forall|j: int| 0 <= j < i ==> (#[trigger] was_known@[j])@ == entries[j].0,
                self@.next_ticket == old(self)@.next_ticket,
                self@.jobs.len() <= old(self)@.jobs.len(),
            decreases entries.len() - i,
        {
            let id = self.in_flight[i].0.clone();
            let ticket = self.in_flight[i].1;
            assert((id@, ticket) == entries[i as int]);
            let ghost so_far = flight_view(kept@);
            proof {
                assert(entries.take(i + 1) =~= entries.take(i as int).push(entries[i as int]));
                entries.take(i as int).lemma_filter_push(entries[i as int], is_wanted(wanted));
            }
            was_known.push(id.clone());
            if id_in(&ids, &id) {
                kept.push((id, ticket));
                assert(flight_view(kept@) =~= so_far.push(entries[i as int]));
            } else {
                self.cancel_job(ticket, &mut effects);
                assert(flight_view(self.in_flight@).len() == self.in_flight@.len());
            }
            i += 1;
        }
        assert(entries.take(entries.len() as int) =~= entries);
        assert(views(was_known@) =~= known);
        let ghost then = self@;
        let ghost cancelled = views(effects@);
        self.in_flight = kept;
        let ghost kept_state = ManagerView { in_flight: entries.filter(is_wanted(wanted)), ..then };
        assert(self@ == kept_state);

        let mut k: usize = 0;
        assert(views(effects@) =~= cancelled + kept_state.take_up_new(known, cv, 0).1);
        while k < cases.len()
            invariant
                k <= cases.len(),
                self.coherent(),
                cv == views(cases@),
                views(ids@) == case_ids(cv),
                views(was_known@) == known,
                ids@.len() == cases@.len(),
                self@ == kept_state.take_up_new(known, cv, k as int).0,
                views(effects@) == cancelled + kept_state.take_up_new(known, cv, k as int).1,
                self@.next_ticket + (cases@.len() - k) <= u64::MAX,
                self@.jobs.len() + (cases@.len() - k) <= usize::MAX,
            decreases cases.len() - k,
        {
            let ghost now = self@;
            assert(views(ids@)[k as int] == cv[k as int].id());
            if !id_in(&was_known, &ids[k]) && !seen_before(&ids, k) {
                self.take_up(cases[k].clone(), &mut effects);
                assert(views(effects@) =~= cancelled + (kept_state.take_up_new(
                    known,
                    cv,
                    k as int,
                ).1 + now.take_up(cv[k as int]).1));
            }
            k += 1;
        }
        Ok(effects)
    }
}

/// Whether no two of `paths` are one path and none is `origin`.
fn paths_apart(paths: &Vec<String>, origin: &String) -> (apart: bool)
    ensures
        apart == (views(paths@).no_duplicates() && !views(paths@).contains(origin@)),
{
    let mut i: usize = 0;
    while i < paths.len()
        invariant
            i <= paths.len(),
            forall|a: int| 0 <= a < i ==> views(paths@)[a] != origin@,
            forall|a: int, b: int| 0 <= a < i && 0 <= b < a ==> views(paths@)[a] != views(paths@)[b],
        decreases paths.len() - i,
    {
        if paths[i] == *origin {
            assert(views(paths@)[i as int] == origin@);
            return false;
        }
        let mut j: usize = 0;
        while j < i
            invariant
                j <= i,
                i < paths.len(),
                forall|b: int| 0 <= b < j ==> views(paths@)[i as int] != views(paths@)[b],
            decreases i - j,
        {
            if paths[i] == paths[j] {
                assert(views(paths@)[i as int] == views(paths@)[j as int]);
                return false;
            }
            j += 1;
        }
        i += 1;
    }
    assert forall|a: int, b: int|
        0 <= a < views(paths@).len() && 0 <= b < views(paths@).len() && a != b implies views(
        paths@,
    )[a] != views(paths@)[b] by {
        if b < a {
        } else {
            assert(views(paths@)[b] != views(paths@)[a]);
        }
    }
    true
}

/// Lists of tokens by key, in contracts.
pub open spec fn tokens_view(tokens: Seq<(ResourceKey, Vec<String>)>) -> Seq<
    (KeyView, Seq<Seq<char>>),
> {
    tokens.map_values(|e: (ResourceKey, Vec<String>)| (e.0@, views(e.1@)))
}

/// What a [`ManagerBuilder`] is in contracts.
pub struct ManagerBuilderView {
    pub origin: Seq<char>,
    pub tests: Seq<TestView>,
    pub resource_tokens: Seq<(KeyView, Seq<Seq<char>>)>,
    pub results: Map<ResultKey, TestResult>,
    pub num_worktrees: usize,
    pub worktree_prefix: Seq<char>,
    pub worktree_dir: Option<Seq<char>>,
    pub job_env: Seq<(Seq<char>, Seq<char>)>,
}

/// Collects what a [`Manager`] is made from.
pub struct ManagerBuilder {
    origin: String,
    tests: Vec<Test>,
    resource_tokens: Vec<(ResourceKey, Vec<String>)>,
    result_db: Database,
    num_worktrees: usize,
    worktree_prefix: String,
    worktree_dir: Option<String>,
    job_env: Vec<(String, String)>,
}

impl View for ManagerBuilder {
    type V = ManagerBuilderView;

    closed spec fn view(&self) -> ManagerBuilderView {
        ManagerBuilderView {
            origin: self.origin@,
            tests: views(self.tests@),
            resource_tokens: tokens_view(self.resource_tokens@),
            results: self.result_db@,
            num_worktrees: self.num_worktrees,
            worktree_prefix: self.worktree_prefix@,
            worktree_dir: match self.worktree_dir {
                Some(dir) => Some(dir@),
                None => None,
            },
            job_env: pairs_view(self.job_env@),
        }
    }
}

/// What a [`BuildError`] is in contracts.
pub enum BuildFault {
    WorktreeSetup,
    WorktreePaths,
    Config(ConfigFault),
}

/// Why a manager could not be made.
#[derive(Debug, PartialEq, Eq)]
pub enum BuildError {
    /// The worktrees that were handed in are not as many as were asked for.
    WorktreeSetup,
    /// Two worktrees have one path, or a worktree has the path of the
    /// origin repository.
    WorktreePaths,
    /// A test refers to resources in a way that no pool can serve.
    Config(ConfigError),
}

impl View for BuildError {
    type V = BuildFault;

    open spec fn view(&self) -> BuildFault {
        match self {
            BuildError::WorktreeSetup => BuildFault::WorktreeSetup,
            BuildError::WorktreePaths => BuildFault::WorktreePaths,
            BuildError::Config(e) => BuildFault::Config(e@),
        }
    }
}

/// The keys that have a pool: those of the tokens, and the worktrees.
pub open spec fn defined_keys(tokens: Seq<(KeyView, Seq<Seq<char>>)>) -> Seq<KeyView> {
    tokens.map_values(|e: (KeyView, Seq<Seq<char>>)| e.0).push(KeyView::Worktree)
}

/// The first fault among the requests of the first `t` tests.
pub open spec fn tests_fault(tests: Seq<TestView>, defined: Seq<KeyView>, t: int) -> Option<
    ConfigFault,
>
    decreases t,
{
    if t <= 0 {
        None
    } else {
        match tests_fault(tests, defined, t - 1) {
            Some(fault) => Some(fault),
            None => wants_fault(
                tests[t - 1].needs_resources,
                defined,
                tests[t - 1].needs_resources.len() as int,
            ),
        }
    }
}

/// Once a fault is found, later tests do not change it.
proof fn lemma_tests_fault_stays(tests: Seq<TestView>, defined: Seq<KeyView>, t: int, n: int)
    requires
        t <= n,
        tests_fault(tests, defined, t) is Some,
    ensures
        tests_fault(tests, defined, n) == tests_fault(tests, defined, t),
    decreases n - t,
{
    if t < n {
        lemma_tests_fault_stays(tests, defined, t, n - 1);
    }
}

/// What the pools are filled with: the tokens of each key, then the worktrees.
pub open spec fn stock_of(tokens: Seq<(KeyView, Seq<Seq<char>>)>, worktrees: Seq<Seq<char>>) -> Seq<
    (KeyView, Seq<ResourceView>),
> {
    tokens.map_values(
        |e: (KeyView, Seq<Seq<char>>)|
            (e.0, e.1.map_values(|t: Seq<char>| ResourceView::UserToken(t))),
    ).push((KeyView::Worktree, worktrees.map_values(|p: Seq<char>| ResourceView::Worktree(p))))
}

impl ManagerBuilderView {
    /// The builder that `Manager::builder` returns.
    pub open spec fn initial(
        origin: Seq<char>,
        results: Map<ResultKey, TestResult>,
        tests: Seq<TestView>,
        resource_tokens: Seq<(KeyView, Seq<Seq<char>>)>,
    ) -> ManagerBuilderView {
        ManagerBuilderView {
            origin,
            tests,
            resource_tokens,
            results,
            num_worktrees: 1,
            worktree_prefix: "worktree-"@,
            worktree_dir: None,
            job_env: seq![("LCI_ORIGIN"@, origin)],
        }
    }

    /// Why no manager can be made from the builder with these worktrees, if
    /// so: their number is not the one asked for; or else two of them have
    /// one path, or one has the path of the origin repository; or else a
    /// test is at fault.
    pub open spec fn fault(self, worktrees: Seq<Seq<char>>) -> Option<BuildFault> {
        if worktrees.len() != self.num_worktrees {
            Some(BuildFault::WorktreeSetup)
        } else if !worktrees.no_duplicates() || worktrees.contains(self.origin) {
            Some(BuildFault::WorktreePaths)
        } else {
            match tests_fault(self.tests, defined_keys(self.resource_tokens), self.tests.len() as int) {
                Some(fault) => Some(BuildFault::Config(fault)),
                None => None,
            }
        }
    }

    /// The manager that the builder makes with these worktrees: nothing in
    /// flight, no job, every instance free.
    pub open spec fn built(self, worktrees: Seq<Seq<char>>) -> ManagerView {
        ManagerView {
            origin: self.origin,
            tests: self.tests,
            job_env: self.job_env,
            in_flight: Seq::empty(),
            jobs: Seq::empty(),
            pools: PoolsView {
                pools: stocked(
                    stock_of(self.resource_tokens, worktrees),
                    (self.resource_tokens.len() + 1) as int,
                ),
                waiters: Seq::empty(),
            },
            results: self.results,
            next_ticket: 0,
        }
    }
}

impl Manager {
    /// Starts a builder for a manager of `tests` on the repository at
    /// `origin`, with one worktree. `resource_tokens` gives the tokens of
    /// each user-defined resource.
    pub fn builder(
        origin: &str,
        result_db: Database,
        tests: Vec<Test>,
        resource_tokens: Vec<(ResourceKey, Vec<String>)>,
    ) -> (builder: ManagerBuilder)
        ensures
            builder@ == ManagerBuilderView::initial(
                origin@,
                result_db@,
                views(tests@),
                tokens_view(resource_tokens@),
            ),
    {
        let mut job_env: Vec<(String, String)> = Vec::new();
        job_env.push((String::from_str("LCI_ORIGIN"), String::from_str(origin)));
        assert(pairs_view(job_env@) =~= seq![("LCI_ORIGIN"@, origin@)]);
        ManagerBuilder {
            origin: String::from_str(origin),
            tests,
            resource_tokens,
            result_db,
            num_worktrees: 1,
            worktree_prefix: String::from_str("worktree-"),
            worktree_dir: None,
            job_env,
        }
    }
}

impl ManagerBuilder {
    /// Asks for `n` worktrees.
    pub fn num_worktrees(self, n: usize) -> (builder: Self)
        ensures
            builder@ == (ManagerBuilderView { num_worktrees: n, ..self@ }),
    {
        let mut builder = self;
        builder.num_worktrees = n;
        builder
    }

    /// The names of the worktrees' directories, not their paths, start with `prefix`.
    pub fn worktree_prefix(self, prefix: &str) -> (builder: Self)
        ensures
            builder@ == (ManagerBuilderView { worktree_prefix: prefix@, ..self@ }),
    {
        let mut builder = self;
        builder.worktree_prefix = String::from_str(prefix);
        builder
    }

    /// The worktrees are made in `dir`.
    pub fn worktree_dir(self, dir: &str) -> (builder: Self)
        ensures
            builder@ == (ManagerBuilderView { worktree_dir: Some(dir@), ..self@ }),
    {
        let mut builder = self;
        builder.worktree_dir = Some(String::from_str(dir));
        builder
    }

    /// How many worktrees `build` is to be given.
    pub fn wanted_worktrees(&self) -> (n: usize)
        ensures
            n == self@.num_worktrees,
    {
        self.num_worktrees
    }

    /// What the names of the worktrees' directories start with.
    pub fn prefix(&self) -> (prefix: &str)
        ensures
            prefix@ == self@.worktree_prefix,
    {
        self.worktree_prefix.as_str()
    }

    /// Where the worktrees are made; where nothing was said, in the
    /// directory that the system has for temporary files.
    pub fn dir(&self) -> (dir: Option<&String>)
        ensures
            match dir {
                Some(d) => self@.worktree_dir == Some(d@),
                None => self@.worktree_dir is None,
            },
    {
        self.worktree_dir.as_ref()
    }

    /// The first fault among the requests of the tests.
    fn check_tests(&self) -> (checked: Result<(), ConfigError>)
        ensures
            match checked {
                Ok(_) => tests_fault(
                    self@.tests,
                    defined_keys(self@.resource_tokens),
                    self@.tests.len() as int,
                ) is None,
                Err(e) => tests_fault(
                    self@.tests,
                    defined_keys(self@.resource_tokens),
                    self@.tests.len() as int,
                ) == Some(e@),
            },
    {
        let ghost defined_view = defined_keys(self@.resource_tokens);
        let mut defined: Vec<ResourceKey> = Vec::new();
        let mut i: usize = 0;
        while i < self.resource_tokens.len()
            invariant
                i <= self.resource_tokens.len(),
                defined@.len() == i,
                forall|j: int|
                    0 <= j < i ==> (#[trigger] defined@[j])@ == tokens_view(
                        self.resource_tokens@,
                    )[j].0,
            decreases self.resource_tokens.len() - i,
        {
            defined.push(self.resource_tokens[i].0.clone());
            i += 1;
        }
        defined.push(ResourceKey::Worktree);
        assert(views(defined@) =~= defined_view);
        let mut t: usize = 0;
        while t < self.tests.len()
            invariant
                t <= self.tests.len(),
                views(defined@) == defined_view,
                defined_view == defined_keys(self@.resource_tokens),
                tests_fault(self@.tests, defined_view, t as int) is None,
            decreases self.tests.len() - t,
        {
            assert(self@.tests[t as int] == self.tests@[t as int]@);
            match check_wants(&self.tests[t].needs_resources, &defined) {
                Ok(_) => {
                    let ghost needs = self@.tests[t as int].needs_resources;
                    assert(needs == wants_view(
                        self.tests@[t as int].needs_resources@,
                    ));
                    assert(needs.len() == self.tests@[t as int].needs_resources@.len());
                },
                Err(e) => {
                    proof {
                        let needs = self@.tests[t as int].needs_resources;
                        assert(needs == wants_view(
                            self.tests@[t as int].needs_resources@,
                        ));
                        assert(needs.len() == self.tests@[t as int].needs_resources@.len());
                        assert(tests_fault(self@.tests, defined_view, t + 1) == Some(e@));
                        lemma_tests_fault_stays(
                            self@.tests,
                            defined_view,
                            t + 1,
                            self@.tests.len() as int,
                        );
                    }
                    return Err(e);
                },
            }
            t += 1;
        }
        Ok(())
    }

    /// Makes the manager. `worktrees` are the paths of the worktrees that
    /// were set up for it, as many as were asked for.
    pub fn build(self, worktrees: Vec<String>) -> (built: Result<Manager, BuildError>)
        ensures
            match built {
                Ok(manager) => self@.fault(views(worktrees@)) is None && manager.wf() && manager@
                    == self@.built(views(worktrees@)),
                Err(e) => self@.fault(views(worktrees@)) == Some(e@),
            },
    {
        if worktrees.len() != self.num_worktrees {
            return Err(BuildError::WorktreeSetup);
        }
        if !paths_apart(&worktrees, &self.origin) {
            return Err(BuildError::WorktreePaths);
        }
        match self.check_tests() {
            Ok(_) => {},
            Err(e) => {
                return Err(BuildError::Config(e));
            },
        }
        let ghost tv = tokens_view(self.resource_tokens@);
        let ghost wv = views(worktrees@);
        let ghost stock = stock_of(tv, wv);
        let ghost view = self@;
        let ManagerBuilder {
            origin,
            tests,
            resource_tokens,
            result_db,
            num_worktrees: _,
            worktree_prefix: _,
            worktree_dir: _,
            job_env,
        } = self;
        let mut resources: Vec<(ResourceKey, Vec<Resource>)> = Vec::new();
        let mut i: usize = 0;
        while i < resource_tokens.len()
            invariant
                i <= resource_tokens.len(),
                tv == tokens_view(resource_tokens@),
                stock == stock_of(tv, wv),
                resources@.len() == i,
                forall|j: int|
                    0 <= j < i ==> (#[trigger] held_view(resources@)[j])
                        == stock[j],
            decreases resource_tokens.len() - i,
        {
            let tokens = &resource_tokens[i].1;
            let ghost texts = tv[i as int].1;
            assert(texts == views(tokens@));
            let mut items: Vec<Resource> = Vec::new();
            let mut j: usize = 0;
            while j < tokens.len()
                invariant
                    j <= tokens.len(),
                    texts == views(tokens@),
                    items@.len() == j,
                    forall|k: int|
                        0 <= k < j ==> (#[trigger] items@[k])@ == ResourceView::UserToken(texts[k]),
                decreases tokens.len() - j,
            {
                items.push(Resource::UserToken(tokens[j].clone()));
                j += 1;
            }
            assert(views(items@) =~= texts.map_values(|t: Seq<char>| ResourceView::UserToken(t)));
            let ghost prev = held_view(resources@);
            let ghost entry = (resource_tokens@[i as int].0@, views(items@));
            resources.push((resource_tokens[i].0.clone(), items));
            assert(held_view(resources@) =~= prev.push(entry));
            i += 1;
        }
        let mut items: Vec<Resource> = Vec::new();
        let mut j: usize = 0;
        while j < worktrees.len()
            invariant
                j <= worktrees.len(),
                wv == views(worktrees@),
                items@.len() == j,
                forall|k: int| 0 <= k < j ==> (#[trigger] items@[k])@ == ResourceView::Worktree(wv[k]),
            decreases worktrees.len() - j,
        {
            items.push(Resource::Worktree(worktrees[j].clone()));
            j += 1;
        }
        assert(views(items@) =~= wv.map_values(|p: Seq<char>| ResourceView::Worktree(p)));
        let ghost prev = held_view(resources@);
        let ghost entry = (KeyView::Worktree, views(items@));
        resources.push((ResourceKey::Worktree, items));
        assert(held_view(resources@) =~= prev.push(entry));
        assert(held_view(resources@) =~= stock);
        let resource_pools = Pools::new(resources);

        let ghost all = views(tests@);
        let mut shared: Vec<Arc<Test>> = Vec::new();
        let mut rest = tests;
        let ghost mut k: int = 0;
        assert(views(rest@) =~= all.skip(0));
        assert(views(shared@) =~= all.take(0));
        while rest.len() > 0
            invariant
                0 <= k <= all.len(),
                views(rest@) == all.skip(k),
                views(shared@) == all.take(k),
            decreases rest.len(),
        {
            let ghost left = rest@;
            let ghost done = views(shared@);
            assert(views(left).len() == all.skip(k).len());
            let test = rest.remove(0);
            proof {
                assert(rest@ =~= left.skip(1));
                assert(views(rest@) =~= views(left).skip(1));
                assert(views(rest@) =~= all.skip(k + 1));
                assert(test@ == views(left)[0]);
            }
            shared.push(Arc::new(test));
            proof {
                assert(views(shared@) =~= done.push(all[k]));
                assert(all.take(k + 1) =~= all.take(k).push(all[k]));
                k = k + 1;
            }
        }
        assert(views(rest@).len() == 0);
        assert(all.take(k) =~= all);
        let manager = Manager {
            origin,
            tests: shared,
            in_flight: Vec::new(),
            jobs: Vec::new(),
            job_counter: JobCounter::new(),
            resource_pools,
            result_db,
            job_env,
            next_ticket: 0,
        };
        assert(manager@.in_flight =~= Seq::<(Seq<char>, u64)>::empty());
        assert(manager@.jobs =~= Seq::<JobView>::empty());
        assert(manager@.pools.waiters =~= Seq::empty());
        assert(manager@ == view.built(wv));
        proof {
            assert(tickets(manager@.jobs) =~= Seq::<u64>::empty());
            assert(flight_ids(manager@.in_flight) =~= Seq::<Seq<char>>::empty());
            assert(waiting(manager@.pools.waiters) =~= Seq::<u64>::empty());
            assert(flight_tickets(manager@.in_flight) =~= Seq::<u64>::empty());
            lemma_stocked_is_free(stock, stock.len() as int);
            assert forall|t: u64| !manager@.pools.holds(t) by {
                if manager@.pools.holds(t) {
                    let (i, j) = choose|i: int, j: int|
                        0 <= i < manager@.pools.pools.len() && 0 <= j
                            < manager@.pools.pools[i].holders.len()
                            && manager@.pools.pools[i].holders[j] == Some(t);
                    assert(stocked(stock, stock.len() as int)[i].holders[j]
                        is None);
                }
            }
            // Every pool of worktrees is the one that was stocked last, with
            // the paths that were handed in.
            let n = stock.len() as int;
            let pools = manager@.pools;
            let dirs = wv.map_values(|p: Seq<char>| ResourceView::Worktree(p));
            assert(stock[n - 1] == (KeyView::Worktree, dirs));
            assert forall|i: int, j: int, a: int, b: int|
                #![trigger worktree_slot(pools, i, j), worktree_slot(pools, a, b)]
                worktree_slot(pools, i, j) && worktree_slot(pools, a, b) implies text(
                pools.pools[i].items[j],
            ) != manager@.origin && (text(pools.pools[i].items[j]) == text(pools.pools[a].items[b])
                ==> i == a && j == b) by {
                lemma_stocked_last(stock, n, i);
                lemma_stocked_last(stock, n, a);
                lemma_stocked_keys(stock, n);
                assert(pools.pools[i].items == dirs && pools.pools[a].items == dirs);
                assert(text(dirs[j]) == wv[j] && text(dirs[b]) == wv[b]);
                assert(wv.contains(wv[j]));
                assert(crate::pool::pool_keys(pools.pools)[i] == KeyView::Worktree);
                assert(crate::pool::pool_keys(pools.pools)[a] == KeyView::Worktree);
            }
        }
        Ok(manager)
    }
}

} // verus!
