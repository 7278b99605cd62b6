//! When a result that was seen before stands for a new run.

use crate::job::{react, ActionView, JobEventView, JobPhase};
use crate::lifecycle::order::{lemma_job_of, lemma_report_stores, lemma_run, lemma_set_cases};
use crate::model::{case_of, notify, result_key, EffectView, ManagerView, RevisionView, StepView};
use crate::process::ChildExit;
use crate::result::ResultKey;
use crate::test::{CachePolicy, StatusView, TestCaseView, TestResult, TestView};
use vstd::prelude::*;

verus! {

/// Without caching no result ever stands for a case: it gets a job each
/// time it is taken up.
pub proof fn lemma_no_caching_spawns(s: ManagerView, rev: RevisionView, test: TestView)
    requires
        test.cache_policy == CachePolicy::NoCaching,
    ensures
        s.cache_lookup(case_of(rev, test)) is None,
        s.take_up(case_of(rev, test)) == s.spawn(case_of(rev, test)),
{
}

/// Under caching by commit, one test on one commit has one key; under
/// caching by tree, one test on two commits of one tree has one key.
pub proof fn lemma_shared_key(a: RevisionView, b: RevisionView, test: TestView)
    requires
        match test.cache_policy {
            CachePolicy::NoCaching => false,
            CachePolicy::ByCommit => a.commit_hash == b.commit_hash,
            CachePolicy::ByTree => a.tree_hash is Some && a.tree_hash == b.tree_hash,
        },
    ensures
        case_of(a, test).cache_hash is Some,
        case_of(b, test).cache_hash is Some,
        result_key(case_of(a, test)) == result_key(case_of(b, test)),
{
}

/// A completion is reused. After a job has completed, its result stands
/// for every case with the key of the job's case whose policy lets results
/// stand: taking up such a case tells that result and spawns nothing.
pub proof fn lemma_completion_is_reused(
    s: ManagerView,
    ticket: u64,
    exit_code: i32,
    case: TestCaseView,
)
    requires
        s.inv(),
        s.job_of(ticket) matches Some(i) && s.jobs[i].phase == JobPhase::Running && result_key(
            s.jobs[i].test_case,
        ) == result_key(case),
        case.cache_hash is Some,
    ensures
        ({
            let event = JobEventView::Exited(ChildExit::Exited(exit_code));
            let end = s.job_event(ticket, event).0;
            let result = TestResult { exit_code };
            &&& end.cache_lookup(case) == Some(result)
            &&& end.take_up(case) == (end, seq![notify(case, StatusView::Completed(result))])
        }),
{
    let event = JobEventView::Exited(ChildExit::Exited(exit_code));
    lemma_report_stores(s, ticket, event);
}

/// An error or a cancellation is not reused. Where a report ends a job
/// otherwise than by a completion, every case stands as it stood: one that
/// got a job before gets a job again.
pub proof fn lemma_failure_is_not_reused(
    s: ManagerView,
    ticket: u64,
    event: JobEventView,
    case: TestCaseView,
)
    requires
        s.inv(),
        s.job_of(ticket) matches Some(i) && !(react(s.jobs[i].phase, s.jobs[i].cancelled, event).1
            matches ActionView::Finish(StatusView::Completed(_))),
    ensures
        s.job_event(ticket, event).0.results == s.results,
        s.job_event(ticket, event).0.cache_lookup(case) == s.cache_lookup(case),
{
    lemma_report_stores(s, ticket, event);
}

/// Whether the effect tells that a case whose result is stored under
/// `key` is completed.
pub open spec fn tells_completion(effect: EffectView, key: ResultKey) -> bool {
    effect matches EffectView::Notify(n) && n.status is Completed && result_key(n.test_case) == key
}

/// Only completions are stored. Whatever happens in a run, a result that
/// is stored under a key after it was stored under that key before, or a
/// job of a case with that key was told as completed during the run.
pub proof fn lemma_run_stores(s: ManagerView, steps: Seq<StepView>, n: int, key: ResultKey)
    requires
        s.inv(),
        0 <= n <= steps.len(),
        s.run(steps, n).0.results.contains_key(key),
    ensures
        s.results.contains_key(key) || exists|e: int|
            0 <= e < s.run(steps, n).1.len() && tells_completion(
                #[trigger] s.run(steps, n).1[e],
                key,
            ),
    decreases n,
{
    if n > 0 {
        lemma_run(s, steps, n - 1);
        let (then, first) = s.run(steps, n - 1);
        let (end, last) = then.step(steps[n - 1]);
        let all = first + last;
        assert(s.run(steps, n).1 == all);
        if then.results.contains_key(key) {
            lemma_run_stores(s, steps, n - 1, key);
            if !s.results.contains_key(key) {
                let e = choose|e: int|
                    0 <= e < first.len() && tells_completion(#[trigger] first[e], key);
                assert(all[e] == first[e]);
            }
        } else {
            match steps[n - 1] {
                StepView::Report { ticket, event } => {
                    lemma_report_stores(then, ticket, event);
                    lemma_job_of(then, ticket);
                    assert(tells_completion(last[0], key));
                    assert(all[first.len() as int] == last[0]);
                },
                StepView::Want { cases } => {
                    if !then.exhausted(cases.len()) {
                        lemma_set_cases(then, cases);
                    }
                },
            }
        }
    }
}

/// An error or a cancellation is never reused. Whatever happens in a run,
/// a case for which no result stood before, and of whose key no job was
/// told as completed during the run, has no result standing for it after
/// the run: it gets a job when it is taken up.
pub proof fn lemma_failures_are_not_reused(
    s: ManagerView,
    steps: Seq<StepView>,
    n: int,
    case: TestCaseView,
)
    requires
        s.inv(),
        0 <= n <= steps.len(),
        s.cache_lookup(case) is None,
        forall|e: int|
            0 <= e < s.run(steps, n).1.len() ==> !tells_completion(
                #[trigger] s.run(steps, n).1[e],
                result_key(case),
            ),
    ensures
        s.run(steps, n).0.cache_lookup(case) is None,
        s.run(steps, n).0.take_up(case) == s.run(steps, n).0.spawn(case),
{
    if case.cache_hash is Some && s.run(steps, n).0.results.contains_key(result_key(case)) {
        lemma_run_stores(s, steps, n, result_key(case));
    }
}

} // verus!
