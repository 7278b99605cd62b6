use local_ci::job::{JobEvent, LaunchPlan};
use local_ci::manager::{BuildError, Effect, Revision, SetRevisionsError};
use local_ci::process::ChildExit;
use local_ci::resource::{ConfigError, ResourceKey};
use local_ci::result::Database;
use local_ci::test::{
    CachePolicy, Manager, Notification, Test, TestCase, TestName, TestResult, TestStatus,
};
use std::sync::Arc;
use std::time::Duration;

const ORIGIN: &str = "/repo";

fn script_test(name: &str, cache_policy: CachePolicy, needs_worktree: bool) -> Test {
    Test {
        name: TestName::new(name),
        config_hash: 0,
        program: String::from("bash"),
        args: vec![String::from("-xc"), String::from("true")],
        needs_resources: if needs_worktree {
            vec![(ResourceKey::Worktree, 1)]
        } else {
            vec![]
        },
        shutdown_grace_period: Duration::from_secs(5),
        cache_policy,
    }
}

fn worktree_paths(n: usize) -> Vec<String> {
    (0..n).map(|i| format!("/tmp/worktree-{}", i)).collect()
}

/// Stands for the outside: it keeps what the manager asked for.
struct World {
    manager: Manager,
    log: Vec<(String, String, TestStatus)>,
    /// The jobs whose supervisors were asked for and have not had their first turn.
    spawned: Vec<u64>,
    launched: Vec<(u64, String, String, LaunchPlan)>,
    interrupted: Vec<u64>,
    killed: Vec<u64>,
    finished: Vec<(u64, Option<TestResult>)>,
}

impl World {
    fn new(tests: Vec<Test>, num_worktrees: usize) -> World {
        World::with_tokens(tests, vec![], num_worktrees)
    }

    fn with_tokens(
        tests: Vec<Test>,
        tokens: Vec<(ResourceKey, Vec<String>)>,
        num_worktrees: usize,
    ) -> World {
        let manager = Manager::builder(ORIGIN, Database::new(), tests, tokens)
            .num_worktrees(num_worktrees)
            .build(worktree_paths(num_worktrees))
            .expect("couldn't set up manager");
        World {
            manager,
            log: vec![],
            spawned: vec![],
            launched: vec![],
            interrupted: vec![],
            killed: vec![],
            finished: vec![],
        }
    }

    fn take(&mut self, effects: Vec<Effect>) {
        let mut last_case: Option<(String, String)> = None;
        for effect in effects {
            match effect {
                Effect::Notify(Notification { test_case, status }) => {
                    let commit = test_case.commit_hash.clone();
                    let name = String::from(test_case.test.name.as_str());
                    last_case = Some((commit.clone(), name.clone()));
                    self.log.push((commit, name, status));
                }
                Effect::Spawn { job } => self.spawned.push(job),
                Effect::Launch { job, plan } => {
                    let (commit, name) = last_case.clone().expect("launch without a notification");
                    self.launched.push((job, commit, name, plan));
                }
                Effect::Interrupt { job, grace } => {
                    assert_eq!(grace, Duration::from_secs(5));
                    self.interrupted.push(job);
                }
                Effect::Kill { job } => self.killed.push(job),
                Effect::Finish { job, result } => self.finished.push((job, result)),
            }
        }
    }

    /// Changes the wanted set, and no more: the supervisors that were asked
    /// for have not had their first turn when this returns.
    fn want(&mut self, commits: &[&str]) {
        let revs: Vec<Revision> = commits
            .iter()
            .map(|c| Revision { commit_hash: String::from(*c), tree_hash: None })
            .collect();
        let effects = self.manager.set_revisions(&revs).unwrap();
        self.take(effects);
    }

    /// Gives every supervisor that was asked for its first turn, in order.
    fn turn(&mut self) {
        while !self.spawned.is_empty() {
            let job = self.spawned.remove(0);
            self.report(job, JobEvent::Polled);
        }
    }

    /// Changes the wanted set and lets the supervisors have their first turn.
    fn set_revisions(&mut self, commits: &[&str]) {
        self.want(commits);
        self.turn();
    }

    fn set_revisions_with_trees(&mut self, revs: &[(&str, &str)]) {
        let revs: Vec<Revision> = revs
            .iter()
            .map(|(c, t)| Revision {
                commit_hash: String::from(*c),
                tree_hash: Some(String::from(*t)),
            })
            .collect();
        let effects = self.manager.set_revisions(&revs).unwrap();
        self.take(effects);
        self.turn();
    }

    fn report(&mut self, job: u64, event: JobEvent) {
        let effects = self.manager.job_event(job, event);
        self.take(effects);
    }

    fn job(&self, commit: &str, test: &str) -> u64 {
        self.launched
            .iter()
            .rev()
            .find(|(_, c, t, _)| c == commit && t == test)
            .map(|(job, _, _, _)| *job)
            .expect("script did not start")
    }

    fn num_runs(&self, commit: &str, test: &str) -> usize {
        self.launched.iter().filter(|(_, c, t, _)| c == commit && t == test).count()
    }

    fn was_started(&self, commit: &str) -> bool {
        self.launched.iter().any(|(_, c, _, _)| c == commit)
    }

    fn statuses(&self, commit: &str, test: &str) -> Vec<TestStatus> {
        self.log
            .iter()
            .filter(|(c, t, _)| c == commit && t == test)
            .map(|(_, _, status)| status.clone())
            .collect()
    }

    /// Lets every process that was started and has not ended run to its end.
    fn run_all(&mut self, exit: fn(&str) -> ChildExit) {
        let mut next = 0;
        while next < self.launched.len() {
            let (job, commit) = (self.launched[next].0, self.launched[next].1.clone());
            if !self.finished.iter().any(|(done, _)| *done == job) {
                self.report(job, JobEvent::Launched);
                self.report(job, JobEvent::Exited(exit(&commit)));
            }
            next += 1;
        }
    }
}

fn exit_ok(_commit: &str) -> ChildExit {
    ChildExit::Exited(0)
}

fn exit_by_commit_number(commit: &str) -> ChildExit {
    ChildExit::Exited(commit.trim_start_matches("commit-").parse().unwrap())
}

#[test]
fn should_run_single() {
    let mut w = World::new(vec![script_test("test_0", CachePolicy::ByCommit, true)], 2);
    w.set_revisions(&["hello,"]);
    let job = w.job("hello,", "test_0");
    w.report(job, JobEvent::Launched);
    w.report(job, JobEvent::Exited(ChildExit::Exited(0)));
    assert_eq!(
        w.statuses("hello,", "test_0"),
        vec![
            TestStatus::Enqueued,
            TestStatus::Started,
            TestStatus::Completed(TestResult { exit_code: 0 }),
        ]
    );
    assert!(w.manager.settled());
    let before = w.log.len();
    w.report(job, JobEvent::Exited(ChildExit::Exited(0)));
    assert_eq!(w.log.len(), before);
    assert_eq!(w.finished, vec![(job, Some(TestResult { exit_code: 0 }))]);
}

#[test]
fn should_cancel_running() {
    let mut w = World::new(
        vec![
            script_test("test_0", CachePolicy::ByCommit, true),
            script_test("test_1", CachePolicy::ByCommit, true),
        ],
        2,
    );
    w.set_revisions(&["hash1"]);
    let first = [w.job("hash1", "test_0"), w.job("hash1", "test_1")];
    for job in first {
        w.report(job, JobEvent::Launched);
    }
    w.set_revisions(&["hash2"]);
    // Both worktrees are still held by the jobs that were interrupted.
    assert_eq!(w.interrupted, first.to_vec());
    assert!(!w.was_started("hash2"));
    for job in first {
        w.report(job, JobEvent::Exited(ChildExit::Signaled(2)));
    }
    assert!(w.killed.is_empty());
    w.run_all(exit_ok);
    for test in ["test_0", "test_1"] {
        assert_eq!(
            w.statuses("hash1", test),
            vec![TestStatus::Enqueued, TestStatus::Started, TestStatus::Canceled]
        );
        assert_eq!(
            w.statuses("hash2", test),
            vec![
                TestStatus::Enqueued,
                TestStatus::Started,
                TestStatus::Completed(TestResult { exit_code: 0 }),
            ]
        );
    }
    assert!(w.manager.settled());
}

#[test]
fn should_not_settle() {
    let mut w = World::new(vec![script_test("test_0", CachePolicy::ByCommit, true)], 2);
    w.set_revisions(&["block_this_test"]);
    let job = w.job("block_this_test", "test_0");
    w.report(job, JobEvent::Launched);
    assert!(!w.manager.settled(), "manager settled unexpectedly");
}

#[test]
fn should_cache_results() {
    let mut w = World::new(
        vec![
            script_test("test_0", CachePolicy::NoCaching, true),
            script_test("test_1", CachePolicy::ByCommit, true),
            script_test("test_2", CachePolicy::ByTree, true),
        ],
        2,
    );
    w.set_revisions_with_trees(&[("yarp", "tree")]);
    w.run_all(exit_ok);
    assert!(w.manager.settled());
    assert_eq!(w.num_runs("yarp", "test_0"), 1);
    assert_eq!(w.num_runs("yarp", "test_1"), 1);
    assert_eq!(w.num_runs("yarp", "test_2"), 1);

    w.set_revisions_with_trees(&[("darp", "tree")]);
    w.run_all(exit_ok);
    assert!(w.manager.settled());
    // Without caching the script should get run every time.
    assert_eq!(w.num_runs("darp", "test_0"), 1);
    // Commit has changed so new commit should get retested for ByCommit.
    assert_eq!(w.num_runs("darp", "test_1"), 1);
    // But not for ByTree
    assert_eq!(w.num_runs("darp", "test_2"), 0);
    assert_eq!(
        w.statuses("darp", "test_2"),
        vec![TestStatus::Completed(TestResult { exit_code: 0 })]
    );

    w.set_revisions_with_trees(&[("yarp", "tree")]);
    w.run_all(exit_ok);
    assert!(w.manager.settled());
    assert_eq!(w.num_runs("yarp", "test_0"), 2);
    assert_eq!(w.num_runs("yarp", "test_1"), 1);
    assert_eq!(w.num_runs("yarp", "test_2"), 1);
}

fn handle_many(num_worktrees: usize, num_tests: usize) {
    let tests = (0..num_tests)
        .map(|i| script_test(&format!("test_{}", i), CachePolicy::ByCommit, true))
        .collect();
    let mut w = World::new(tests, num_worktrees);
    let commits: Vec<String> = (0..50).map(|i| format!("commit-{}", i)).collect();
    let revs: Vec<&str> = commits.iter().map(|c| c.as_str()).collect();
    w.set_revisions(&revs);
    assert_eq!(w.launched.len(), num_worktrees);
    w.run_all(exit_by_commit_number);
    for (i, commit) in commits.iter().enumerate() {
        for j in 0..num_tests {
            assert_eq!(
                w.statuses(commit, &format!("test_{}", j)),
                vec![
                    TestStatus::Enqueued,
                    TestStatus::Started,
                    TestStatus::Completed(TestResult { exit_code: i as i32 }),
                ],
                "bad results"
            );
        }
    }
    assert!(w.manager.settled());
}

#[test]
fn should_handle_many() {
    handle_many(1, 1);
    handle_many(4, 1);
    handle_many(4, 4);
}

#[test]
fn should_respect_resource_limits() {
    let foo = || ResourceKey::UserToken(String::from("foo"));
    let tests = vec![Test {
        name: TestName::new("my_test"),
        config_hash: 0,
        program: String::from("bash"),
        args: vec![],
        needs_resources: vec![(ResourceKey::Worktree, 1), (foo(), 1)],
        shutdown_grace_period: Duration::from_secs(5),
        cache_policy: CachePolicy::ByCommit,
    }];
    // We only have 2 tokens
    let tokens = vec![(foo(), vec![String::from("foo1"), String::from("foo2")])];
    let mut w = World::with_tokens(tests, tokens, 4);
    let commits: Vec<String> = (0..10).map(|i| format!("commit-{}", i)).collect();
    let revs: Vec<&str> = commits.iter().map(|c| c.as_str()).collect();
    w.set_revisions(&revs);
    assert_eq!(w.launched.len(), 2, "extra jobs started, resource limits not respected");
    assert_eq!(w.statuses("commit-0", "my_test"), vec![TestStatus::Enqueued, TestStatus::Started]);
    assert_eq!(w.statuses("commit-1", "my_test"), vec![TestStatus::Enqueued, TestStatus::Started]);
    for commit in &commits[2..] {
        assert_eq!(w.statuses(commit, "my_test"), vec![TestStatus::Enqueued]);
    }
    // The two jobs hold different worktrees and different tokens.
    assert_ne!(w.launched[0].3.current_dir, w.launched[1].3.current_dir);
    let token = |plan: &LaunchPlan| {
        plan.env.iter().find(|(k, _)| k == "LCI_RESOURCE_foo_0").map(|(_, v)| v.clone())
    };
    assert_eq!(token(&w.launched[0].3), Some(String::from("foo1")));
    assert_eq!(token(&w.launched[1].3), Some(String::from("foo2")));
    // When one ends, the one that has waited longest gets what it held.
    let first = w.launched[0].0;
    w.report(first, JobEvent::Launched);
    w.report(first, JobEvent::Exited(ChildExit::Exited(0)));
    assert_eq!(w.launched.len(), 3);
    assert_eq!(w.launched[2].1, "commit-2");
    assert_eq!(w.launched[2].3.current_dir, w.launched[0].3.current_dir);
    assert_eq!(token(&w.launched[2].3), Some(String::from("foo1")));
}

#[test]
fn test_job_env() {
    let key = |name: &str| ResourceKey::UserToken(String::from(name));
    let strings = |items: &[&str]| items.iter().map(|s| String::from(*s)).collect::<Vec<_>>();
    let tests = vec![Test {
        name: TestName::new("my_test"),
        config_hash: 0,
        program: String::from("bash"),
        args: strings(&["-c", "env >> env.txt"]),
        needs_resources: vec![(ResourceKey::Worktree, 1), (key("my_resource"), 2)],
        shutdown_grace_period: Duration::from_secs(5),
        cache_policy: CachePolicy::ByCommit,
    }];
    let tokens = vec![
        (key("my_resource"), strings(&["thing1", "thing2", "thing3"])),
        (key("other_resource"), strings(&["whing1", "whing2", "whing3"])),
    ];
    let mut w = World::with_tokens(tests, tokens, 1);
    w.set_revisions(&["hello,"]);
    assert_eq!(w.launched.len(), 1);
    let plan = &w.launched[0].3;
    let env = |k: &str| plan.env.iter().find(|(key, _)| key == k).map(|(_, v)| v.as_str());
    assert_eq!(env("LCI_ORIGIN"), Some(ORIGIN));
    assert_eq!(env("LCI_COMMIT"), Some("hello,"));
    let resource0 = env("LCI_RESOURCE_my_resource_0").expect("didn't get resource0");
    assert!(resource0.starts_with("thing"), "bad resource 0: {resource0:?}'");
    let resource1 = env("LCI_RESOURCE_my_resource_1").expect("didn't get resource1");
    assert!(resource1.starts_with("thing"), "bad resource 2: {resource1:?}'");
    assert_ne!(resource0, resource1);
    assert_eq!(env("LCI_RESOURCE_my_resource_2"), None);
    assert_eq!(env("LCI_RESOURCE_other_resource_0"), None);
    assert_eq!(plan.program, "bash");
    assert_eq!(plan.args, strings(&["-c", "env >> env.txt"]));
    assert!(plan.checkout);
    assert_eq!(plan.current_dir, "/tmp/worktree-0");
    assert_eq!(
        plan.env,
        vec![
            (String::from("LCI_COMMIT"), String::from("hello,")),
            (String::from("LCI_ORIGIN"), String::from(ORIGIN)),
            (String::from("LCI_RESOURCE_my_resource_0"), String::from("thing1")),
            (String::from("LCI_RESOURCE_my_resource_1"), String::from("thing2")),
        ]
    );
}

#[test]
fn should_not_start_canceled() {
    let mut w = World::new(vec![script_test("test_0", CachePolicy::ByCommit, true)], 2);
    w.set_revisions(&["h0"]);
    assert_eq!(w.statuses("h0", "test_0"), vec![TestStatus::Enqueued, TestStatus::Started]);
    let job = w.job("h0", "test_0");
    w.report(job, JobEvent::Launched);

    // Now we enqueue the second test. It is told as enqueued, and no more,
    // though a worktree is free: its supervisor has not had its turn.
    w.want(&["h0", "h1"]);
    assert_eq!(w.statuses("h1", "test_0"), vec![TestStatus::Enqueued]);
    assert_eq!(w.launched.len(), 1);

    // Now we cancel both of those tests, before that turn.
    w.want(&[]);
    assert_eq!(w.statuses("h1", "test_0"), vec![TestStatus::Enqueued, TestStatus::Canceled]);
    // The turn comes too late to start anything.
    w.turn();
    assert_eq!(w.statuses("h1", "test_0"), vec![TestStatus::Enqueued, TestStatus::Canceled]);
    assert_eq!(w.interrupted, vec![job]);
    w.report(job, JobEvent::Exited(ChildExit::Exited(130)));
    assert_eq!(
        w.statuses("h0", "test_0"),
        vec![TestStatus::Enqueued, TestStatus::Started, TestStatus::Canceled]
    );
    assert!(w.manager.settled());
    assert!(!w.was_started("h1"));
    assert_eq!(w.launched.len(), 1);
    assert_eq!(w.finished.iter().filter(|(_, result)| result.is_some()).count(), 0);
}

#[test]
fn should_not_start_any_of_a_cancelled_batch() {
    // Three jobs wait behind one that runs; all four are cancelled at once.
    // What the first gives back must not go to one of the others.
    let mut w = World::new(vec![script_test("test_0", CachePolicy::ByCommit, true)], 1);
    w.set_revisions(&["h0", "h1", "h2", "h3"]);
    assert_eq!(w.launched.len(), 1);
    // The running job fails to start: it is over and gives its worktree back
    // while the others are being cancelled.
    w.set_revisions(&["h9"]);
    assert_eq!(w.launched.len(), 1);
    let job = w.job("h0", "test_0");
    w.report(job, JobEvent::LaunchFailed(String::from("no such program")));
    assert_eq!(
        w.statuses("h0", "test_0"),
        vec![
            TestStatus::Enqueued,
            TestStatus::Started,
            TestStatus::Error(String::from("no such program")),
        ]
    );
    for commit in ["h1", "h2", "h3"] {
        assert_eq!(w.statuses(commit, "test_0"), vec![TestStatus::Enqueued, TestStatus::Canceled]);
    }
    assert_eq!(w.launched.len(), 2);
    assert_eq!(w.launched[1].1, "h9");
}

#[test]
fn should_not_cache() {
    let mut w = World::new(
        vec![
            script_test("test_0", CachePolicy::ByCommit, true),
            script_test("test_1", CachePolicy::ByCommit, true),
        ],
        4,
    );
    w.set_revisions(&["hash_error", "hash_fail"]);
    for commit in ["hash_error", "hash_fail"] {
        for test in ["test_0", "test_1"] {
            assert_eq!(w.statuses(commit, test), vec![TestStatus::Enqueued, TestStatus::Started]);
            let job = w.job(commit, test);
            w.report(job, JobEvent::Launched);
        }
    }
    // Cause one to fail with an error: it is an error when a signal ends a test.
    let killed = w.job("hash_error", "test_0");
    w.report(killed, JobEvent::Exited(ChildExit::Signaled(15)));
    assert_eq!(
        w.statuses("hash_error", "test_0").last(),
        Some(&TestStatus::Error(String::from("terminated by signal 15")))
    );

    // ... and the others to be canceled.
    w.set_revisions(&[]);
    for (commit, test) in [("hash_error", "test_1"), ("hash_fail", "test_0"), ("hash_fail", "test_1")]
    {
        let job = w.job(commit, test);
        w.report(job, JobEvent::Exited(ChildExit::Exited(1)));
        assert_eq!(w.statuses(commit, test).last(), Some(&TestStatus::Canceled));
    }
    assert!(w.manager.settled());

    // They should now get run a second time: none of the results was stored.
    w.set_revisions(&["hash_error", "hash_fail"]);
    assert_eq!(w.num_runs("hash_error", "test_0"), 2, "error'd test not re-run");
    assert_eq!(w.num_runs("hash_error", "test_1"), 2, "canceled test not re-run");
    assert_eq!(w.num_runs("hash_fail", "test_0"), 2, "error'd test not re-run");
    assert_eq!(w.num_runs("hash_fail", "test_1"), 2, "canceled test not re-run");
}

#[test]
fn should_not_require_worktree() {
    let mut w = World::new(
        vec![
            script_test("test_0", CachePolicy::ByCommit, false),
            script_test("test_1", CachePolicy::ByCommit, false),
            script_test("test_2", CachePolicy::ByCommit, false),
        ],
        1,
    );
    w.set_revisions(&["block_this_test"]);
    // Even though we have three tests that never finish, and only one
    // worktree, they should all start.
    assert_eq!(w.launched.len(), 3, "not all scripts run for hash");
    for (_, _, _, plan) in &w.launched {
        // We don't own the origin worktree, so nothing is checked out in it.
        assert!(!plan.checkout);
        assert_eq!(plan.current_dir, ORIGIN);
    }
}

#[test]
fn should_invalidate_cache_when_dep_changes() {
    // The digest of a test's configuration covers what it depends on: with
    // another digest the result seen before does not stand.
    let mut test = script_test("my_test", CachePolicy::ByCommit, true);
    test.config_hash = 1;
    let mut w = World::new(vec![test], 1);
    w.set_revisions(&["c"]);
    w.run_all(exit_ok);
    let case = |config_hash: u64| {
        let mut test = script_test("my_test", CachePolicy::ByCommit, true);
        test.config_hash = config_hash;
        TestCase::new(String::from("c"), Arc::new(test), None).unwrap()
    };
    assert_eq!(w.manager.cache_lookup(&case(1)), Some(TestResult { exit_code: 0 }));
    assert_eq!(w.manager.cache_lookup(&case(2)), None, "test not re-ran when dependency config changed");
}

#[test]
fn kills_after_the_grace_period() {
    let mut w = World::new(vec![script_test("test_0", CachePolicy::ByCommit, true)], 1);
    w.set_revisions(&["c"]);
    let job = w.job("c", "test_0");
    w.report(job, JobEvent::Launched);
    // Nothing is due while the process runs.
    w.report(job, JobEvent::GraceExpired);
    assert!(w.killed.is_empty());
    w.set_revisions(&[]);
    assert_eq!(w.interrupted, vec![job]);
    w.report(job, JobEvent::GraceExpired);
    assert_eq!(w.killed, vec![job]);
    // A second expiry asks for nothing more.
    w.report(job, JobEvent::GraceExpired);
    assert_eq!(w.killed, vec![job]);
    assert!(!w.manager.settled());
    w.report(job, JobEvent::Exited(ChildExit::Signaled(9)));
    assert_eq!(w.statuses("c", "test_0").last(), Some(&TestStatus::Canceled));
    assert!(w.manager.settled());
}

#[test]
fn signal_failure_is_an_error_and_frees_the_worktree() {
    let mut w = World::new(vec![script_test("test_0", CachePolicy::ByCommit, true)], 1);
    w.set_revisions(&["c0"]);
    let job = w.job("c0", "test_0");
    w.report(job, JobEvent::Launched);
    w.set_revisions(&["c1"]);
    assert!(!w.was_started("c1"));
    w.report(job, JobEvent::SignalFailed(String::from("couldn't interrupt child job")));
    assert_eq!(
        w.statuses("c0", "test_0").last(),
        Some(&TestStatus::Error(String::from("couldn't interrupt child job")))
    );
    assert!(w.was_started("c1"));
}

#[test]
fn cancelled_while_launching_is_interrupted_once_it_runs() {
    let mut w = World::new(vec![script_test("test_0", CachePolicy::ByCommit, true)], 1);
    w.set_revisions(&["c"]);
    let job = w.job("c", "test_0");
    w.set_revisions(&[]);
    assert!(w.interrupted.is_empty());
    w.report(job, JobEvent::Launched);
    assert_eq!(w.interrupted, vec![job]);
    w.report(job, JobEvent::Exited(ChildExit::Exited(0)));
    assert_eq!(
        w.statuses("c", "test_0"),
        vec![TestStatus::Enqueued, TestStatus::Started, TestStatus::Canceled]
    );
}

#[test]
fn keeps_what_is_still_wanted() {
    let mut w = World::new(vec![script_test("test_0", CachePolicy::ByCommit, true)], 2);
    w.set_revisions(&["a", "b"]);
    assert_eq!(w.launched.len(), 2);
    // The same set again changes nothing.
    let before = w.log.len();
    w.set_revisions(&["a", "b"]);
    w.set_revisions(&["b", "a", "b"]);
    assert_eq!(w.log.len(), before);
    assert_eq!(w.launched.len(), 2);
    assert!(w.interrupted.is_empty());
}

#[test]
fn a_commit_named_twice_is_taken_up_once() {
    let mut w = World::new(vec![script_test("test_0", CachePolicy::ByCommit, true)], 2);
    w.set_revisions(&["a", "a"]);
    assert_eq!(w.statuses("a", "test_0"), vec![TestStatus::Enqueued, TestStatus::Started]);
    w.run_all(exit_ok);
    w.set_revisions(&[]);
    w.set_revisions(&["a", "a"]);
    assert_eq!(
        w.statuses("a", "test_0"),
        vec![
            TestStatus::Enqueued,
            TestStatus::Started,
            TestStatus::Completed(TestResult { exit_code: 0 }),
            TestStatus::Completed(TestResult { exit_code: 0 }),
        ]
    );
}

#[test]
fn set_revisions_without_tree_for_by_tree_test_fails() {
    let mut w = World::new(vec![script_test("test_0", CachePolicy::ByTree, true)], 1);
    let revs = vec![Revision { commit_hash: String::from("c1"), tree_hash: None }];
    assert_eq!(w.manager.set_revisions(&revs).err(), Some(SetRevisionsError::MissingTree));
    assert!(w.manager.settled());
    // With no revision at all no tree is missing.
    assert!(w.manager.set_revisions(&vec![]).unwrap().is_empty());
}

#[test]
fn build_checks_the_worktrees_and_the_resources() {
    let builder = |tests: Vec<Test>| {
        Manager::builder(
            ORIGIN,
            Database::new(),
            tests,
            vec![(ResourceKey::UserToken(String::from("gpu")), vec![String::from("0")])],
        )
        .num_worktrees(2)
    };
    let with_needs = |needs: Vec<(ResourceKey, usize)>| {
        let mut test = script_test("t", CachePolicy::ByCommit, true);
        test.needs_resources = needs;
        vec![test]
    };
    let gpu = || ResourceKey::UserToken(String::from("gpu"));
    let tpu = || ResourceKey::UserToken(String::from("tpu"));
    assert_eq!(
        builder(vec![]).build(worktree_paths(1)).err(),
        Some(BuildError::WorktreeSetup)
    );
    assert!(builder(with_needs(vec![(gpu(), 1), (ResourceKey::Worktree, 1)]))
        .build(worktree_paths(2))
        .is_ok());
    assert_eq!(
        builder(with_needs(vec![(gpu(), 1), (tpu(), 1)])).build(worktree_paths(2)).err(),
        Some(BuildError::Config(ConfigError::UndefinedResource(tpu())))
    );
    assert_eq!(
        builder(with_needs(vec![(gpu(), 1), (ResourceKey::Worktree, 1), (gpu(), 2)]))
            .build(worktree_paths(2))
            .err(),
        Some(BuildError::Config(ConfigError::DuplicateResource(gpu())))
    );
    // The fault of the first entry at fault is reported.
    assert_eq!(
        builder(with_needs(vec![(tpu(), 1), (tpu(), 1)])).build(worktree_paths(2)).err(),
        Some(BuildError::Config(ConfigError::UndefinedResource(tpu())))
    );
}

#[test]
fn builder_defaults() {
    let builder = Manager::builder(ORIGIN, Database::new(), vec![], vec![]);
    assert_eq!(builder.wanted_worktrees(), 1);
    assert_eq!(builder.prefix(), "worktree-");
    assert_eq!(builder.dir(), None);
    let builder = builder.num_worktrees(3).worktree_prefix("wt-").worktree_dir("/var/tmp");
    assert_eq!(builder.wanted_worktrees(), 3);
    assert_eq!(builder.prefix(), "wt-");
    assert_eq!(builder.dir(), Some(&String::from("/var/tmp")));
}

#[test]
fn no_two_running_jobs_share_a_worktree() {
    let tests = vec![
        script_test("test_0", CachePolicy::NoCaching, true),
        script_test("test_1", CachePolicy::NoCaching, true),
    ];
    let mut w = World::new(tests, 3);
    let commits: Vec<String> = (0..12).map(|i| format!("commit-{}", i)).collect();
    let revs: Vec<&str> = commits.iter().map(|c| c.as_str()).collect();
    w.set_revisions(&revs);
    let mut done = 0;
    let mut rounds = 0;
    while done < w.launched.len() {
        // Jobs that were started and are not over run side by side.
        let running: Vec<(u64, String)> = w.launched[done..]
            .iter()
            .map(|(job, _, _, plan)| (*job, plan.current_dir.clone()))
            .collect();
        assert!(running.len() <= 3);
        for (i, (_, dir)) in running.iter().enumerate() {
            assert!(dir.starts_with("/tmp/worktree-"));
            for (_, other) in &running[i + 1..] {
                assert_ne!(dir, other, "two jobs in one worktree");
            }
        }
        // The oldest of them ends; now and then the wanted set changes under them.
        let job = w.launched[done].0;
        w.report(job, JobEvent::Launched);
        if rounds % 5 == 4 {
            w.set_revisions(&revs[(rounds / 5)..]);
        }
        w.report(job, JobEvent::Exited(ChildExit::Exited(0)));
        done += 1;
        rounds += 1;
    }
    assert!(w.manager.settled());
    assert_eq!(w.killed, Vec::<u64>::new());
}

#[test]
fn settled_manager_is_quiet() {
    let mut w = World::new(vec![script_test("test_0", CachePolicy::ByCommit, true)], 2);
    w.set_revisions(&["a", "b", "c"]);
    for job in [w.job("a", "test_0"), w.job("b", "test_0")] {
        w.report(job, JobEvent::Launched);
    }
    w.set_revisions(&[]);
    assert!(!w.manager.settled());
    for job in [w.job("a", "test_0"), w.job("b", "test_0")] {
        w.report(job, JobEvent::Exited(ChildExit::Signaled(2)));
    }
    assert!(w.manager.settled());
    assert_eq!(
        w.statuses("c", "test_0"),
        vec![TestStatus::Enqueued, TestStatus::Canceled]
    );
    // Whatever is reported now, of whatever job, nothing more is told.
    for job in 0..5 {
        assert!(w.manager.job_event(job, JobEvent::Polled).is_empty());
        assert!(w.manager.job_event(job, JobEvent::Launched).is_empty());
        assert!(w.manager.job_event(job, JobEvent::Exited(ChildExit::Exited(0))).is_empty());
        assert!(w.manager.job_event(job, JobEvent::GraceExpired).is_empty());
        assert!(w
            .manager
            .job_event(job, JobEvent::LaunchFailed(String::from("late")))
            .is_empty());
    }
    assert!(w.manager.set_revisions(&vec![]).unwrap().is_empty());
    assert!(w.manager.settled());
}

#[test]
fn every_wanted_case_ends_completed_or_as_an_error() {
    let tests = vec![
        script_test("test_0", CachePolicy::ByCommit, true),
        script_test("test_1", CachePolicy::ByCommit, false),
    ];
    let mut w = World::new(tests, 1);
    w.set_revisions(&["a", "b"]);
    w.set_revisions(&["b", "c"]);
    w.set_revisions(&["c", "d"]);
    // Processes of jobs that were interrupted end by the signal; the others by themselves.
    let mut next = 0;
    while next < w.launched.len() {
        let (job, commit) = (w.launched[next].0, w.launched[next].1.clone());
        if !w.finished.iter().any(|(done, _)| *done == job) {
            w.report(job, JobEvent::Launched);
            let exit = if w.interrupted.contains(&job) {
                ChildExit::Signaled(2)
            } else if commit == "d" {
                ChildExit::Signaled(11)
            } else {
                ChildExit::Exited(7)
            };
            w.report(job, JobEvent::Exited(exit));
        }
        next += 1;
    }
    assert!(w.manager.settled());
    for test in ["test_0", "test_1"] {
        // What is wanted at the end has its outcome, and was not cancelled.
        assert_eq!(
            w.statuses("c", test).last(),
            Some(&TestStatus::Completed(TestResult { exit_code: 7 }))
        );
        assert_eq!(
            w.statuses("d", test).last(),
            Some(&TestStatus::Error(String::from("terminated by signal 11")))
        );
        for commit in ["c", "d"] {
            assert!(!w.statuses(commit, test).contains(&TestStatus::Canceled));
        }
        // What was wanted once and is wanted no more was cancelled.
        for commit in ["a", "b"] {
            assert_eq!(w.statuses(commit, test).last(), Some(&TestStatus::Canceled));
        }
    }
    // Each job that was spawned has told its end exactly once.
    for commit in ["a", "b", "c", "d"] {
        for test in ["test_0", "test_1"] {
            let ends = w
                .statuses(commit, test)
                .iter()
                .filter(|s| !matches!(s, TestStatus::Enqueued | TestStatus::Started))
                .count();
            assert_eq!(ends, 1);
        }
    }
}

#[test]
fn more_cases_than_can_be_listed_are_refused() {
    let tests: Vec<Test> = (0..8192)
        .map(|i| script_test(&format!("test_{}", i), CachePolicy::ByCommit, false))
        .collect();
    let mut w = World::new(tests, 1);
    let revs = |n: usize| -> Vec<Revision> {
        (0..n)
            .map(|i| Revision { commit_hash: format!("commit-{}", i), tree_hash: None })
            .collect()
    };
    // 8193 revisions of 8192 tests each are more than 0x0400_0000 cases.
    assert_eq!(w.manager.set_revisions(&revs(8193)).err(), Some(SetRevisionsError::Exhausted));
    assert!(w.manager.settled());
    // Nothing has changed: a small set is taken up as ever.
    let effects = w.manager.set_revisions(&revs(1)).unwrap();
    assert_eq!(effects.len(), 2 * 8192);
}

#[test]
fn a_job_is_started_at_the_first_turn_of_its_supervisor() {
    let mut w = World::new(vec![script_test("test_0", CachePolicy::ByCommit, true)], 2);
    let revs = vec![
        Revision { commit_hash: String::from("a"), tree_hash: None },
        Revision { commit_hash: String::from("b"), tree_hash: None },
    ];
    let effects = w.manager.set_revisions(&revs).unwrap();
    // Each job is told as enqueued and its supervisor is asked for; nothing is started.
    assert_eq!(effects.len(), 4);
    assert!(matches!(&effects[0], Effect::Notify(n) if n.status == TestStatus::Enqueued));
    assert!(matches!(&effects[1], Effect::Spawn { job: 0 }));
    assert!(matches!(&effects[2], Effect::Notify(n) if n.status == TestStatus::Enqueued));
    assert!(matches!(&effects[3], Effect::Spawn { job: 1 }));
    // The first turn asks for the resources and starts the job.
    let effects = w.manager.job_event(1, JobEvent::Polled);
    assert_eq!(effects.len(), 2);
    assert!(matches!(&effects[0], Effect::Notify(n)
        if n.status == TestStatus::Started && n.test_case.commit_hash == "b"));
    assert!(matches!(&effects[1], Effect::Launch { job: 1, plan } if plan.current_dir == "/tmp/worktree-0"));
    // A second turn of the same supervisor asks for nothing more.
    assert!(w.manager.job_event(1, JobEvent::Polled).is_empty());
    let effects = w.manager.job_event(0, JobEvent::Polled);
    assert!(matches!(&effects[1], Effect::Launch { job: 0, plan } if plan.current_dir == "/tmp/worktree-1"));
}

#[test]
fn worktrees_need_directories_of_their_own() {
    let build = |paths: &[&str]| {
        Manager::builder(ORIGIN, Database::new(), vec![], vec![])
            .num_worktrees(paths.len())
            .build(paths.iter().map(|p| String::from(*p)).collect())
            .err()
    };
    assert_eq!(build(&["/w/0", "/w/1"]), None);
    assert_eq!(build(&[]), None);
    assert_eq!(build(&["/w", "/w"]), Some(BuildError::WorktreePaths));
    assert_eq!(build(&["/w/0", "/w/1", "/w/0"]), Some(BuildError::WorktreePaths));
    assert_eq!(build(&["/w/0", ORIGIN]), Some(BuildError::WorktreePaths));
    assert_eq!(build(&[ORIGIN]), Some(BuildError::WorktreePaths));
    // The number is looked at first.
    assert_eq!(
        Manager::builder(ORIGIN, Database::new(), vec![], vec![])
            .num_worktrees(3)
            .build(vec![String::from("/w"), String::from("/w")])
            .err(),
        Some(BuildError::WorktreeSetup)
    );
}

#[test]
fn what_completed_before_it_left_is_not_cancelled() {
    let mut w = World::new(vec![script_test("test_0", CachePolicy::ByCommit, true)], 2);
    w.set_revisions(&["a", "b"]);
    let done = w.job("a", "test_0");
    w.report(done, JobEvent::Launched);
    w.report(done, JobEvent::Exited(ChildExit::Exited(0)));
    let running = w.job("b", "test_0");
    w.report(running, JobEvent::Launched);
    // Both leave the wanted set: the one that is over stays as it was told,
    // the one that runs is cancelled.
    w.set_revisions(&[]);
    assert_eq!(w.interrupted, vec![running]);
    w.report(running, JobEvent::Exited(ChildExit::Signaled(2)));
    assert!(w.manager.settled());
    assert_eq!(
        w.statuses("a", "test_0"),
        vec![
            TestStatus::Enqueued,
            TestStatus::Started,
            TestStatus::Completed(TestResult { exit_code: 0 })
        ]
    );
    assert_eq!(
        w.statuses("b", "test_0"),
        vec![TestStatus::Enqueued, TestStatus::Started, TestStatus::Canceled]
    );
}
