use local_ci::job::{
    plan_launch, resource_env, token_var_name, JobAction, JobCounter, JobEvent, JobPhase, TestJob,
};
use local_ci::process::ChildExit;
use local_ci::pool::Pools;
use local_ci::resource::{Resource, ResourceKey};
use local_ci::result::Database;
use local_ci::test::{
    failure_line, CachePolicy, Test, TestCase, TestCaseError, TestCaseId, TestName, TestResult,
    TestStatus,
};
use local_ci::text::{joined, decimal_string, signed_decimal_string};
use std::sync::Arc;
use std::time::Duration;

fn test(policy: CachePolicy) -> Arc<Test> {
    Arc::new(Test {
        name: TestName::new("my_test"),
        config_hash: 5,
        program: String::from("prog"),
        args: vec![String::from("a"), String::from("b")],
        needs_resources: vec![],
        shutdown_grace_period: Duration::from_secs(5),
        cache_policy: policy,
    })
}

#[test]
fn decimal_strings() {
    assert_eq!(decimal_string(0), "0");
    assert_eq!(decimal_string(7), "7");
    assert_eq!(decimal_string(10), "10");
    assert_eq!(decimal_string(1905), "1905");
    assert_eq!(decimal_string(u64::MAX), "18446744073709551615");
    assert_eq!(signed_decimal_string(0), "0");
    assert_eq!(signed_decimal_string(15), "15");
    assert_eq!(signed_decimal_string(-1), "-1");
    assert_eq!(signed_decimal_string(i32::MIN), "-2147483648");
    assert_eq!(signed_decimal_string(i32::MAX), "2147483647");
    assert_eq!(joined("ab", "cd"), "abcd");
}

#[test]
fn code_not_killed() {
    assert_eq!(ChildExit::Exited(0).code_not_killed(), Ok(0));
    assert_eq!(ChildExit::Exited(-3).code_not_killed(), Ok(-3));
    assert_eq!(
        ChildExit::Signaled(15).code_not_killed(),
        Err(String::from("terminated by signal 15"))
    );
}

#[test]
fn status_lines() {
    assert_eq!(TestStatus::Enqueued.to_string(), "Enqueued");
    assert_eq!(TestStatus::Started.to_string(), "Started");
    assert_eq!(TestStatus::Canceled.to_string(), "Cancelled");
    assert_eq!(
        TestStatus::Error(String::from("it \"broke\"")).to_string(),
        "Failed testing - \"it \\\"broke\\\"\""
    );
    assert_eq!(
        TestStatus::Completed(TestResult { exit_code: 3 }).to_string(),
        "Completed - exit code 3"
    );
    assert_eq!(TestResult { exit_code: -1 }.to_string(), "exit code -1");
    assert_eq!(failure_line("\"x\""), "Failed testing - \"x\"");
}

#[test]
fn test_case_identity_and_hashes() {
    let commit = String::from("abc123");
    let id = TestCaseId::new(&commit, &TestName::new("my_test"));
    assert_eq!(id.as_str(), "abc123:my_test");
    assert_eq!(TestCaseId::new(&String::new(), &TestName::new("")).as_str(), ":");
    assert_eq!(id, TestCaseId::new(&String::from("abc123"), &TestName::new("my_test")));
    assert!(id.same(&TestCase::new(commit.clone(), test(CachePolicy::ByTree), Some(String::from("t"))).unwrap().id()));
    assert!(!id.same(&TestCaseId::new(&commit, &TestName::new("other"))));
    assert!(!id.same(&TestCaseId::new(&String::from("abc124"), &TestName::new("my_test"))));

    let none = TestCase::new(commit.clone(), test(CachePolicy::NoCaching), Some(String::from("t"))).unwrap();
    assert_eq!(none.cache_hash, None);
    assert_eq!(none.storage_hash(), "abc123");
    let by_commit = TestCase::new(commit.clone(), test(CachePolicy::ByCommit), Some(String::from("t"))).unwrap();
    assert_eq!(by_commit.cache_hash, Some(String::from("abc123")));
    assert_eq!(by_commit.storage_hash(), "abc123");
    let by_tree = TestCase::new(commit.clone(), test(CachePolicy::ByTree), Some(String::from("t"))).unwrap();
    assert_eq!(by_tree.cache_hash, Some(String::from("t")));
    assert_eq!(by_tree.storage_hash(), "t");
    assert_eq!(by_tree.commit_hash, "abc123");
    assert_eq!(
        TestCase::new(commit.clone(), test(CachePolicy::ByTree), None).err(),
        Some(TestCaseError::MissingTree)
    );
    assert!(TestCase::new(commit.clone(), test(CachePolicy::ByCommit), None).is_ok());
    assert!(CachePolicy::ByTree.needs_tree());
    assert!(!CachePolicy::ByCommit.needs_tree());
    assert!(!CachePolicy::NoCaching.needs_tree());
}

#[test]
fn database_keeps_one_result_for_a_key() {
    let mut db = Database::new();
    let name = TestName::new("t");
    let hash = String::from("h");
    assert_eq!(db.cached_result(&hash, &name, 1), None);
    db.set_result(&hash, &name, 1, &TestResult { exit_code: 3 });
    assert_eq!(db.cached_result(&hash, &name, 1), Some(TestResult { exit_code: 3 }));
    assert_eq!(db.cached_result(&hash, &name, 2), None);
    assert_eq!(db.cached_result(&String::from("g"), &name, 1), None);
    assert_eq!(db.cached_result(&hash, &TestName::new("u"), 1), None);
    db.set_result(&hash, &TestName::new("u"), 1, &TestResult { exit_code: 9 });
    db.set_result(&hash, &name, 1, &TestResult { exit_code: 4 });
    assert_eq!(db.cached_result(&hash, &name, 1), Some(TestResult { exit_code: 4 }));
    assert_eq!(db.cached_result(&hash, &TestName::new("u"), 1), Some(TestResult { exit_code: 9 }));
}

#[test]
fn job_counter_counts() {
    let mut counter = JobCounter::new();
    assert!(counter.zero());
    assert!(counter.has_room());
    let a = counter.get();
    let b = counter.get();
    assert!(!counter.zero());
    counter.put(a);
    assert!(!counter.zero());
    counter.put(b);
    assert!(counter.zero());
}

#[test]
fn token_variables() {
    assert_eq!(token_var_name("gpu", 0), "LCI_RESOURCE_gpu_0");
    assert_eq!(token_var_name("my_resource", 12), "LCI_RESOURCE_my_resource_12");
    let lists = vec![
        (String::from("a"), vec![String::from("x"), String::from("y")]),
        (String::from("b"), vec![]),
        (String::from("c"), vec![String::from("z")]),
    ];
    assert_eq!(
        resource_env(&lists),
        vec![
            (String::from("LCI_RESOURCE_a_0"), String::from("x")),
            (String::from("LCI_RESOURCE_a_1"), String::from("y")),
            (String::from("LCI_RESOURCE_c_0"), String::from("z")),
        ]
    );
}

#[test]
fn supervisor_steps() {
    let case = || TestCase::new(String::from("c"), test(CachePolicy::ByCommit), None).unwrap();
    let mut counter = JobCounter::new();
    let mut job = TestJob::new(3, case(), counter.get());
    assert_eq!(job.ticket(), 3);
    assert_eq!(job.phase(), JobPhase::Enqueued);
    assert_eq!(job.test_case().commit_hash, "c");
    // Nothing is expected of a job that has not asked for its resources.
    assert!(matches!(job.step(JobEvent::Launched), JobAction::Nothing));
    assert!(matches!(job.step(JobEvent::Exited(ChildExit::Exited(0))), JobAction::Nothing));
    assert_eq!(job.phase(), JobPhase::Enqueued);
    // At the first turn of its supervisor it asks, once.
    assert!(matches!(job.step(JobEvent::Polled), JobAction::Acquire));
    assert_eq!(job.phase(), JobPhase::Waiting);
    assert!(matches!(job.step(JobEvent::Polled), JobAction::Nothing));
    assert!(matches!(job.step(JobEvent::Launched), JobAction::Nothing));
    assert_eq!(job.phase(), JobPhase::Waiting);

    let mut pools = Pools::new(vec![(
        ResourceKey::Worktree,
        vec![Resource::Worktree(String::from("/w/0"))],
    )]);
    let handle = pools.get(3, &vec![(ResourceKey::Worktree, 1)]).unwrap();
    let shared = vec![(String::from("LCI_ORIGIN"), String::from("/repo"))];
    let plan = job.grant(handle, &String::from("/repo"), &shared);
    assert_eq!(job.phase(), JobPhase::Launching);
    assert!(plan.checkout);
    assert_eq!(plan.current_dir, "/w/0");
    assert_eq!(plan.commit_hash, "c");
    assert_eq!(plan.program, "prog");
    assert_eq!(plan.args, vec!["a", "b"]);
    assert!(matches!(job.step(JobEvent::Launched), JobAction::Nothing));
    assert_eq!(job.phase(), JobPhase::Running);
    assert!(matches!(job.cancel(), JobAction::Interrupt));
    assert_eq!(job.phase(), JobPhase::Draining);
    assert!(matches!(job.cancel(), JobAction::Nothing));
    assert!(matches!(job.step(JobEvent::GraceExpired), JobAction::Kill));
    assert_eq!(job.phase(), JobPhase::Killed);
    assert!(matches!(
        job.step(JobEvent::Exited(ChildExit::Exited(0))),
        JobAction::Finish(TestStatus::Canceled)
    ));
    counter.put(job.into_token());
    assert!(counter.zero());

    let mut job = TestJob::new(4, case(), counter.get());
    assert!(matches!(job.cancel(), JobAction::Finish(TestStatus::Canceled)));
    let mut job = TestJob::new(6, case(), counter.get());
    job.step(JobEvent::Polled);
    assert!(matches!(job.cancel(), JobAction::Finish(TestStatus::Canceled)));
    let mut job = TestJob::new(5, case(), counter.get());
    let handle = pools.get(5, &vec![]).unwrap();
    let plan = plan_launch(job.test_case(), &handle, &String::from("/repo"), &shared);
    assert!(!plan.checkout);
    assert_eq!(plan.current_dir, "/repo");
    job.grant(handle, &String::from("/repo"), &shared);
    match job.step(JobEvent::LaunchFailed(String::from("spawning test command"))) {
        JobAction::Finish(TestStatus::Error(msg)) => assert_eq!(msg, "spawning test command"),
        other => panic!("unexpected action {:?}", other),
    }
}
