use local_ci::config::{
    digest, manager_builder, resolve, Command, Config, Resource, Settings, Test,
};
use local_ci::resource::{ConfigError, ResourceKey};
use local_ci::result::Database;
use local_ci::test::{CachePolicy, TestName};
use std::time::Duration;

fn settings() -> Settings {
    Settings {
        cache_policy: CachePolicy::ByTree,
        shutdown_grace_period: Duration::from_secs(3),
        config_hash: 77,
    }
}

fn bare(name: &str) -> Resource {
    Resource::Bare(String::from(name))
}

fn counted(name: &str, count: usize) -> Resource {
    Resource::Counted { name: String::from(name), count }
}

fn test(name: &str, resources: Option<Vec<Resource>>) -> Test {
    Test { name: String::from(name), command: Command::Shell(String::from("make check")), resources }
}

fn token(name: &str) -> ResourceKey {
    ResourceKey::UserToken(String::from(name))
}

#[test]
fn resource_name_and_count() {
    assert_eq!(bare("gpu").name(), "gpu");
    assert_eq!(bare("gpu").count(), 1);
    assert_eq!(counted("cpu", 4).name(), "cpu");
    assert_eq!(counted("cpu", 4).count(), 4);
    assert_eq!(counted("cpu", 0).count(), 0);
}

#[test]
fn command_program_and_args() {
    let shell = Command::Shell(String::from("echo hello world"));
    assert!(shell.runnable());
    assert_eq!(shell.program(), "bash");
    assert_eq!(shell.args(), vec!["-c", "echo hello world"]);
    let raw = Command::Raw(vec![String::from("cargo"), String::from("test"), String::from("-q")]);
    assert!(raw.runnable());
    assert_eq!(raw.program(), "cargo");
    assert_eq!(raw.args(), vec!["test", "-q"]);
    let alone = Command::Raw(vec![String::from("true")]);
    assert_eq!(alone.program(), "true");
    assert_eq!(alone.args(), Vec::<String>::new());
    assert!(!Command::Raw(vec![]).runnable());
}

#[test]
fn resolve_makes_tests_and_tokens() {
    let config = Config {
        num_worktrees: 3,
        resources: Some(vec![bare("gpu"), counted("cpu", 3), counted("none", 0)]),
        tests: vec![
            test("build", None),
            Test {
                name: String::from("bench"),
                command: Command::Raw(vec![String::from("cargo"), String::from("bench")]),
                resources: Some(vec![counted("cpu", 2), bare("gpu")]),
            },
        ],
    };
    assert!(config.runnable());
    let (tests, tokens) = resolve(&config, &settings()).unwrap();
    assert_eq!(tests.len(), 2);
    assert_eq!(tests[0].name, TestName::new("build"));
    assert_eq!(tests[0].program, "bash");
    assert_eq!(tests[0].args, vec!["-c", "make check"]);
    assert_eq!(tests[0].needs_resources, vec![(ResourceKey::Worktree, 1)]);
    assert_eq!(tests[0].config_hash, 77);
    assert_eq!(tests[0].cache_policy, CachePolicy::ByTree);
    assert_eq!(tests[0].shutdown_grace_period, Duration::from_secs(3));
    assert_eq!(tests[1].name, TestName::new("bench"));
    assert_eq!(tests[1].program, "cargo");
    assert_eq!(tests[1].args, vec!["bench"]);
    assert_eq!(
        tests[1].needs_resources,
        vec![(token("cpu"), 2), (token("gpu"), 1), (ResourceKey::Worktree, 1)]
    );
    assert_eq!(
        tokens,
        vec![
            (token("gpu"), vec![String::from("0")]),
            (token("cpu"), vec![String::from("0"), String::from("1"), String::from("2")]),
            (token("none"), vec![]),
        ]
    );
}

#[test]
fn resolve_without_resources() {
    let config = Config { num_worktrees: 1, resources: None, tests: vec![test("t", None)] };
    let (tests, tokens) = resolve(&config, &settings()).unwrap();
    assert_eq!(tests.len(), 1);
    assert!(tokens.is_empty());
    let empty = Config { num_worktrees: 1, resources: None, tests: vec![] };
    let (tests, tokens) = resolve(&empty, &settings()).unwrap();
    assert!(tests.is_empty() && tokens.is_empty());
}

#[test]
fn resolve_reports_the_first_fault() {
    let resolve_err = |resources: Option<Vec<Resource>>, tests: Vec<Test>| {
        resolve(&Config { num_worktrees: 1, resources, tests }, &settings()).err()
    };
    assert_eq!(
        resolve_err(Some(vec![bare("gpu")]), vec![test("t", Some(vec![bare("tpu")]))]),
        Some(ConfigError::UndefinedResource(token("tpu")))
    );
    assert_eq!(
        resolve_err(None, vec![test("t", Some(vec![bare("gpu")]))]),
        Some(ConfigError::UndefinedResource(token("gpu")))
    );
    assert_eq!(
        resolve_err(
            Some(vec![bare("gpu")]),
            vec![test("t", Some(vec![bare("gpu"), counted("gpu", 2)]))]
        ),
        Some(ConfigError::DuplicateResource(token("gpu")))
    );
    // A resource that is defined twice is an error even if no test names it.
    assert_eq!(
        resolve_err(Some(vec![bare("gpu"), bare("cpu"), bare("gpu")]), vec![test("t", None)]),
        Some(ConfigError::DuplicateResource(token("gpu")))
    );
    // The fault of a test comes before that of the resources.
    assert_eq!(
        resolve_err(
            Some(vec![bare("gpu"), bare("gpu")]),
            vec![test("fine", None), test("t", Some(vec![bare("tpu")]))]
        ),
        Some(ConfigError::UndefinedResource(token("tpu")))
    );
    // Within a test the first entry at fault counts.
    assert_eq!(
        resolve_err(
            Some(vec![bare("gpu")]),
            vec![test("t", Some(vec![bare("gpu"), bare("tpu"), bare("gpu")]))]
        ),
        Some(ConfigError::UndefinedResource(token("tpu")))
    );
}

#[test]
fn manager_builder_takes_the_number_of_worktrees() {
    let config = Config {
        num_worktrees: 2,
        resources: Some(vec![counted("cpu", 2)]),
        tests: vec![test("t", Some(vec![bare("cpu")]))],
    };
    let builder = manager_builder("/repo", Database::new(), &config, &settings()).unwrap();
    assert_eq!(builder.wanted_worktrees(), 2);
    assert_eq!(builder.prefix(), "worktree-");
    let manager = builder
        .build(vec![String::from("/w/0"), String::from("/w/1")])
        .expect("couldn't set up manager");
    assert!(manager.settled());
    let broken = Config {
        num_worktrees: 2,
        resources: None,
        tests: vec![test("t", Some(vec![bare("cpu")]))],
    };
    assert_eq!(
        manager_builder("/repo", Database::new(), &broken, &settings()).err(),
        Some(ConfigError::UndefinedResource(token("cpu")))
    );
}

#[test]
fn digest_of_a_text() {
    assert_eq!(digest(b""), 0xcbf29ce484222325);
    assert_eq!(digest(b"a"), 0xaf63dc4c8601ec8c);
    assert_eq!(digest(b"foobar"), 0x85944171f73967e8);
    assert_ne!(digest(b"num_worktrees = 1"), digest(b"num_worktrees = 2"));
}
