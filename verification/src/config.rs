//! The configuration as the user writes it, and the tests and resources that
//! it stands for.

use crate::lists::views;
use crate::manager::{tokens_view, Manager, ManagerBuilder, ManagerBuilderView};
use crate::resource::{
    check_wants, wants_fault, wants_view, ConfigError, ConfigFault, KeyView, ResourceKey,
};
use crate::result::Database;
use crate::test::{CachePolicy, ConfigHash, TestName, TestView};
use crate::text::{decimal, decimal_string};
use std::time::Duration;
use vstd::prelude::*;
use vstd::string::StringExecFns;

verus! {

/// A resource by name: one instance of it, or as many as are counted.
#[derive(Debug)]
pub enum Resource {
    Bare(String),
    Counted { name: String, count: usize },
}

impl View for Resource {
    type V = (Seq<char>, nat);

    open spec fn view(&self) -> (Seq<char>, nat) {
        match self {
            Resource::Bare(name) => (name@, 1),
            Resource::Counted { name, count } => (name@, *count as nat),
        }
    }
}

impl Resource {
    /// The name of the resource.
    pub fn name(&self) -> (name: &str)
        ensures
            name@ == self@.0,
    {
        match self {
            Resource::Bare(n) => n.as_str(),
            Resource::Counted { name: n, count: _ } => n.as_str(),
        }
    }

    /// How many instances are meant: one where no count is given.
    pub fn count(&self) -> (count: usize)
        ensures
            count == self@.1,
    {
        match self {
            Resource::Bare(_) => 1,
            Resource::Counted { name: _, count: c } => *c,
        }
    }
}

/// What a [`Command`] is in contracts.
pub enum CommandView {
    Shell(Seq<char>),
    Raw(Seq<Seq<char>>),
}

/// How a test is run: a line for the shell, or a program with its arguments.
#[derive(Debug)]
pub enum Command {
    Shell(String),
    Raw(Vec<String>),
}

impl View for Command {
    type V = CommandView;

    open spec fn view(&self) -> CommandView {
        match self {
            Command::Shell(line) => CommandView::Shell(line@),
            Command::Raw(args) => CommandView::Raw(views(args@)),
        }
    }
}

impl CommandView {
    /// Whether the command names a program.
    pub open spec fn runnable(self) -> bool {
        match self {
            CommandView::Shell(_) => true,
            CommandView::Raw(args) => args.len() > 0,
        }
    }

    /// The program to start: the shell, or the first word of a raw command.
    pub open spec fn program(self) -> Seq<char> {
        match self {
            CommandView::Shell(_) => "bash"@,
            CommandView::Raw(args) => args[0],
        }
    }

    /// The arguments of the program: `-c` and the line for the shell, or the
    /// words of a raw command after the first.
    pub open spec fn args(self) -> Seq<Seq<char>> {
        match self {
            CommandView::Shell(line) => seq!["-c"@, line],
            CommandView::Raw(args) => args.skip(1),
        }
    }
}

impl Command {
    /// Whether the command names a program.
    pub fn runnable(&self) -> (b: bool)
        ensures
            b == self@.runnable(),
    {
        match self {
            Command::Shell(_) => true,
            Command::Raw(args) => args.len() > 0,
        }
    }

    /// The program to start.
    pub fn program(&self) -> (program: String)
        requires
            self@.runnable(),
        ensures
            program@ == self@.program(),
    {
        match self {
            Command::Shell(_) => String::from_str("bash"),
            Command::Raw(args) => args[0].clone(),
        }
    }

    /// The arguments of the program.
    pub fn args(&self) -> (args: Vec<String>)
        requires
            self@.runnable(),
        ensures
            views(args@) == self@.args(),
    {
        match self {
            Command::Shell(cmd) => {
                let mut out: Vec<String> = Vec::new();
                out.push(String::from_str("-c"));
                out.push(cmd.clone());
                assert(views(out@) =~= seq!["-c"@, cmd@]);
                out
            },
            Command::Raw(args) => {
                let mut out: Vec<String> = Vec::new();
                let mut i: usize = 1;
                while i < args.len()
                    invariant
                        1 <= i <= args.len(),
                        out@.len() == i - 1,
                        forall|j: int| 0 <= j < i - 1 ==> (#[trigger] out@[j])@ == args@[j + 1]@,
                    decreases args.len() - i,
                {
                    out.push(args[i].clone());
                    i += 1;
                }
                assert(views(out@) =~= views(args@).skip(1));
                out
            },
        }
    }
}

/// The resources of a list that may be left out: none where it is.
pub open spec fn refs_view(refs: Option<Vec<Resource>>) -> Seq<(Seq<char>, nat)> {
    match refs {
        Some(list) => views(list@),
        None => Seq::empty(),
    }
}

/// What a [`Test`] of the configuration is in contracts.
pub struct TestEntryView {
    pub name: Seq<char>,
    pub command: CommandView,
    pub resources: Seq<(Seq<char>, nat)>,
}

/// A test as the configuration states it.
#[derive(Debug)]
pub struct Test {
    pub name: String,
    pub command: Command,
    pub resources: Option<Vec<Resource>>,
}

impl View for Test {
    type V = TestEntryView;

    open spec fn view(&self) -> TestEntryView {
        TestEntryView {
            name: self.name@,
            command: self.command@,
            resources: refs_view(self.resources),
        }
    }
}

/// What a [`Config`] is in contracts.
pub struct ConfigView {
    pub num_worktrees: usize,
    pub resources: Seq<(Seq<char>, nat)>,
    pub tests: Seq<TestEntryView>,
}

/// The configuration.
#[derive(Debug)]
pub struct Config {
    pub num_worktrees: usize,
    pub resources: Option<Vec<Resource>>,
    pub tests: Vec<Test>,
}

impl View for Config {
    type V = ConfigView;

    open spec fn view(&self) -> ConfigView {
        ConfigView {
            num_worktrees: self.num_worktrees,
            resources: refs_view(self.resources),
            tests: views(self.tests@),
        }
    }
}

/// What the configuration leaves open, the same for all its tests.
#[derive(Debug)]
pub struct Settings {
    pub cache_policy: CachePolicy,
    pub shutdown_grace_period: Duration,
    /// Digest of the configuration.
    pub config_hash: ConfigHash,
}

/// Named resources as requests for tokens.
pub open spec fn token_wants(refs: Seq<(Seq<char>, nat)>) -> Seq<(KeyView, nat)> {
    refs.map_values(|r: (Seq<char>, nat)| (KeyView::UserToken(r.0), r.1))
}

/// The keys of named resources.
pub open spec fn token_keys(refs: Seq<(Seq<char>, nat)>) -> Seq<KeyView> {
    refs.map_values(|r: (Seq<char>, nat)| KeyView::UserToken(r.0))
}

impl ConfigView {
    /// Whether every test's command names a program.
    pub open spec fn runnable(self) -> bool {
        forall|t: int| 0 <= t < self.tests.len() ==> (#[trigger] self.tests[t]).command.runnable()
    }

    /// The fault of the first of the first `t` tests that names a resource
    /// twice or names one that is not defined.
    pub open spec fn tests_fault(self, t: int) -> Option<ConfigFault>
        decreases t,
    {
        if t <= 0 {
            None
        } else {
            match self.tests_fault(t - 1) {
                Some(fault) => Some(fault),
                None => wants_fault(
                    token_wants(self.tests[t - 1].resources),
                    token_keys(self.resources),
                    self.tests[t - 1].resources.len() as int,
                ),
            }
        }
    }

    /// What is wrong with the configuration, if anything: the first fault of
    /// a test, or else the first resource that is defined twice.
    pub open spec fn fault(self) -> Option<ConfigFault> {
        match self.tests_fault(self.tests.len() as int) {
            Some(fault) => Some(fault),
            None => wants_fault(
                token_wants(self.resources),
                token_keys(self.resources),
                self.resources.len() as int,
            ),
        }
    }

    /// Test `t` as the manager gets it: it holds the tokens that it names
    /// and, behind them, one worktree.
    pub open spec fn test(self, t: int, settings: Settings) -> TestView {
        TestView {
            name: self.tests[t].name,
            config_hash: settings.config_hash,
            program: self.tests[t].command.program(),
            args: self.tests[t].command.args(),
            needs_resources: token_wants(self.tests[t].resources).push((KeyView::Worktree, 1)),
            shutdown_grace_period: settings.shutdown_grace_period,
            cache_policy: settings.cache_policy,
        }
    }

    /// The tokens of each resource: as many as its count, numbered from zero.
    pub open spec fn tokens(self) -> Seq<(KeyView, Seq<Seq<char>>)> {
        self.resources.map_values(
            |r: (Seq<char>, nat)|
                (KeyView::UserToken(r.0), Seq::new(r.1, |i: int| decimal(i as nat))),
        )
    }

    /// The tests as the manager gets them.
    pub open spec fn resolved_tests(self, settings: Settings) -> Seq<TestView> {
        Seq::new(self.tests.len(), |t: int| self.test(t, settings))
    }
}

/// Once a fault is found, later tests do not change it.
proof fn lemma_tests_fault_stays(config: ConfigView, t: int, n: int)
    requires
        t <= n,
        config.tests_fault(t) is Some,
    ensures
        config.tests_fault(n) == config.tests_fault(t),
    decreases n - t,
{
    if t < n {
        lemma_tests_fault_stays(config, t, n - 1);
    }
}

/// Named resources as requests, in order.
fn wants_of(refs: &Option<Vec<Resource>>) -> (wants: Vec<(ResourceKey, usize)>)
    ensures
        wants_view(wants@) == token_wants(refs_view(*refs)),
        wants@.len() == refs_view(*refs).len(),
{
    let mut wants: Vec<(ResourceKey, usize)> = Vec::new();
    match refs {
        Some(list) => {
            let mut i: usize = 0;
            while i < list.len()
                invariant
                    i <= list.len(),
                    wants@.len() == i,
                    forall|j: int|
                        0 <= j < i ==> (#[trigger] wants_view(wants@)[j]) == (
                            KeyView::UserToken(list@[j]@.0),
                            list@[j]@.1,
                        ),
                decreases list.len() - i,
            {
                let ghost prev = wants_view(wants@);
                let name = String::from_str(list[i].name());
                let ghost entry = (KeyView::UserToken(name@), list@[i as int]@.1);
                wants.push((ResourceKey::UserToken(name), list[i].count()));
                assert(wants_view(wants@) =~= prev.push(entry));
                i += 1;
            }
            assert(wants_view(wants@) =~= token_wants(views(list@)));
        },
        None => {
            assert(wants_view(wants@) =~= token_wants(Seq::empty()));
        },
    }
    wants
}

/// The keys of requests, in order.
fn keys_of(wants: &Vec<(ResourceKey, usize)>) -> (keys: Vec<ResourceKey>)
    ensures
        views(keys@) == crate::resource::want_keys(wants_view(wants@)),
{
    let mut keys: Vec<ResourceKey> = Vec::new();
    let mut i: usize = 0;
    while i < wants.len()
        invariant
            i <= wants.len(),
            keys@.len() == i,
            forall|j: int| 0 <= j < i ==> (#[trigger] keys@[j])@ == wants@[j].0@,
        decreases wants.len() - i,
    {
        keys.push(wants[i].0.clone());
        i += 1;
    }
    assert(views(keys@) =~= crate::resource::want_keys(wants_view(wants@)));
    keys
}

/// The tokens of a resource that is given by its count: the numbers from
/// zero up, in decimal.
fn numbered_tokens(count: usize) -> (tokens: Vec<String>)
    ensures
        views(tokens@) == Seq::new(count as nat, |i: int| decimal(i as nat)),
{
    let mut tokens: Vec<String> = Vec::new();
    let mut i: usize = 0;
    while i < count
        invariant
            i <= count,
            tokens@.len() == i,
            forall|j: int| 0 <= j < i ==> (#[trigger] tokens@[j])@ == decimal(j as nat),
        decreases count - i,
    {
        tokens.push(decimal_string(i as u64));
        i += 1;
    }
    assert(views(tokens@) =~= Seq::new(count as nat, |i: int| decimal(i as nat)));
    tokens
}

/// The tests and the tokens that the configuration stands for. A test that
/// names a resource twice, or one that is not defined, is an error, and so
/// is a resource that is defined twice; the first such test is reported
/// before the resources.
pub fn resolve(config: &Config, settings: &Settings) -> (resolved: Result<
    (Vec<crate::test::Test>, Vec<(ResourceKey, Vec<String>)>),
    ConfigError,
>)
    requires
        config@.runnable(),
    ensures
        match resolved {
            Ok((tests, tokens)) => config@.fault() is None && views(tests@)
                == config@.resolved_tests(*settings) && tokens_view(tokens@) == config@.tokens(),
            Err(e) => config@.fault() == Some(e@),
        },
{
    let ghost cv = config@;
    let defined_wants = wants_of(&config.resources);
    let defined = keys_of(&defined_wants);
    assert(views(defined@) =~= token_keys(cv.resources));
    let mut tests: Vec<crate::test::Test> = Vec::new();
    let mut t: usize = 0;
    while t < config.tests.len()
        invariant
            t <= config.tests.len(),
            cv == config@,
            cv.runnable(),
            views(defined@) == token_keys(cv.resources),
            cv.tests_fault(t as int) is None,
            tests@.len() == t,
            forall|j: int| 0 <= j < t ==> (#[trigger] tests@[j])@ == cv.test(j, *settings),
        decreases config.tests.len() - t,
    {
        let entry = &config.tests[t];
        assert(cv.tests[t as int] == entry@);
        let mut needs = wants_of(&entry.resources);
        match check_wants(&needs, &defined) {
            Ok(_) => {},
            Err(e) => {
                proof {
                    assert(cv.tests_fault(t + 1) == Some(e@));
                    lemma_tests_fault_stays(cv, t + 1, cv.tests.len() as int);
                }
                return Err(e);
            },
        }
        let ghost named = wants_view(needs@);
        needs.push((ResourceKey::Worktree, 1));
        assert(wants_view(needs@) =~= named.push((KeyView::Worktree, 1)));
        tests.push(
            crate::test::Test {
                name: TestName::new(entry.name.as_str()),
                config_hash: settings.config_hash,
                program: entry.command.program(),
                args: entry.command.args(),
                needs_resources: needs,
                shutdown_grace_period: settings.shutdown_grace_period,
                cache_policy: settings.cache_policy,
            },
        );
        t += 1;
    }
    match check_wants(&defined_wants, &defined) {
        Ok(_) => {},
        Err(e) => {
            return Err(e);
        },
    }
    assert(views(tests@) =~= cv.resolved_tests(*settings));
    let mut tokens: Vec<(ResourceKey, Vec<String>)> = Vec::new();
    let mut i: usize = 0;
    while i < defined_wants.len()
        invariant
            i <= defined_wants.len(),
            wants_view(defined_wants@) == token_wants(cv.resources),
            defined_wants@.len() == cv.resources.len(),
            tokens@.len() == i,
            forall|j: int| 0 <= j < i ==> (#[trigger] tokens_view(tokens@)[j]) == cv.tokens()[j],
        decreases defined_wants.len() - i,
    {
        let ghost prev = tokens_view(tokens@);
        let key = defined_wants[i].0.clone();
        let list = numbered_tokens(defined_wants[i].1);
        assert(wants_view(defined_wants@)[i as int] == (key@, defined_wants@[i as int].1 as nat));
        let ghost entry = (key@, views(list@));
        tokens.push((key, list));
        assert(tokens_view(tokens@) =~= prev.push(entry));
        i += 1;
    }
    assert(tokens_view(tokens@) =~= cv.tokens());
    Ok((tests, tokens))
}

/// The builder of the manager that the configuration asks for.
pub fn manager_builder(origin: &str, result_db: Database, config: &Config, settings: &Settings) -> (builder:
    Result<ManagerBuilder, ConfigError>)
    requires
        config@.runnable(),
    ensures
        match builder {
            Ok(b) => config@.fault() is None && b@ == (ManagerBuilderView {
                num_worktrees: config@.num_worktrees,
                ..ManagerBuilderView::initial(
                    origin@,
                    result_db@,
                    config@.resolved_tests(*settings),
                    config@.tokens(),
                )
            }),
            Err(e) => config@.fault() == Some(e@),
        },
{
    match resolve(config, settings) {
        Ok((tests, tokens)) => Ok(
            Manager::builder(origin, result_db, tests, tokens).num_worktrees(config.num_worktrees),
        ),
        Err(e) => Err(e),
    }
}

impl Config {
    /// Whether every test's command names a program.
    pub fn runnable(&self) -> (b: bool)
        ensures
            b == self@.runnable(),
    {
        let mut t: usize = 0;
        while t < self.tests.len()
            invariant
                t <= self.tests.len(),
                forall|j: int| 0 <= j < t ==> (#[trigger] self@.tests[j]).command.runnable(),
            decreases self.tests.len() - t,
        {
            assert(self@.tests[t as int] == self.tests@[t as int]@);
            if !self.tests[t].command.runnable() {
                return false;
            }
            t += 1;
        }
        true
    }
}

/// What the digest of no bytes is.
pub const DIGEST_START: u64 = 0xcbf2_9ce4_8422_2325;

/// What the digest is multiplied by for each byte.
pub const DIGEST_PRIME: u64 = 0x0100_0000_01b3;

/// The digest of the first `i` of `bytes`: for each byte in turn, the
/// digest so far is combined with the byte by exclusive or and multiplied,
/// modulo two to the power of 64.
pub open spec fn digest_below(bytes: Seq<u8>, i: int) -> u64
    decreases i,
{
    if i <= 0 {
        DIGEST_START
    } else {
        (digest_below(bytes, i - 1) ^ (bytes[i - 1] as u64)).wrapping_mul(DIGEST_PRIME)
    }
}

/// A digest of the text of a configuration. The same text has the same
/// digest in every run, so that results stored by an earlier run are found
/// again for as long as the configuration stays as it is.
pub fn digest(content: &[u8]) -> (hash: u64)
    ensures
        hash == digest_below(content@, content@.len() as int),
{
    let mut hash: u64 = DIGEST_START;
    let mut i: usize = 0;
    while i < content.len()
        invariant
            i <= content.len(),
            hash == digest_below(content@, i as int),
        decreases content.len() - i,
    {
        hash = (hash ^ (content[i] as u64)).wrapping_mul(DIGEST_PRIME);
        i += 1;
    }
    hash
}

} // verus!
