//! Tests, their cases and the manager that runs them against a moving set of
//! revisions.

pub use crate::job::{JobCounter, JobToken, TestJob};
pub use crate::manager::{Manager, ManagerBuilder};

use crate::git::{CommitHash, TreeHash};
use crate::lists::views;
use crate::resource::{wants_view, KeyView, ResourceKey};
use crate::text::{debug_string, debug_text, joined, signed_decimal, signed_decimal_string};
use std::sync::Arc;
use std::time::Duration;
use vstd::prelude::*;
use vstd::string::StringExecFns;

verus! {

/// When a result that was seen before stands for a new run.
#[derive(Debug, Clone, Copy, Hash, PartialEq, Eq, Structural)]
pub enum CachePolicy {
    NoCaching,
    ByCommit,
    ByTree,
}

impl CachePolicy {
    /// Whether a case under this policy is identified by the tree of its commit.
    pub fn needs_tree(&self) -> (b: bool)
        ensures
            b == (*self == CachePolicy::ByTree),
    {
        match self {
            CachePolicy::ByTree => true,
            _ => false,
        }
    }
}

/// A digest of the configuration that a test was made from.
pub type ConfigHash = u64;

/// The exit code of a test's process.
pub type ExitCode = i32;

/// The name of a test, unique among the tests of a manager.
#[derive(Debug, Eq, Hash, PartialEq, PartialOrd, Ord)]
pub struct TestName(String);

impl View for TestName {
    type V = Seq<char>;

    closed spec fn view(&self) -> Seq<char> {
        self.0@
    }
}

impl Clone for TestName {
    fn clone(&self) -> (res: Self)
        ensures
            res == *self,
    {
        TestName(self.0.clone())
    }
}

impl TestName {
    /// The name that reads `s`.
    pub fn new(s: &str) -> (name: Self)
        ensures
            name@ == s@,
    {
        TestName(String::from_str(s))
    }

    /// Whether both are the same name.
    pub fn same(&self, other: &TestName) -> (b: bool)
        ensures
            b == (self@ == other@),
    {
        self.0 == other.0
    }

    /// The name as text.
    pub fn as_str(&self) -> (s: &str)
        ensures
            s@ == self@,
    {
        self.0.as_str()
    }
}

/// What a [`Test`] is in contracts.
pub struct TestView {
    pub name: Seq<char>,
    pub config_hash: ConfigHash,
    pub program: Seq<char>,
    pub args: Seq<Seq<char>>,
    pub needs_resources: Seq<(KeyView, nat)>,
    pub shutdown_grace_period: Duration,
    pub cache_policy: CachePolicy,
}

/// A test task that is repeated for each commit.
#[derive(Debug)]
pub struct Test {
    pub name: TestName,
    /// Digest of the configuration that made this test.
    pub config_hash: ConfigHash,
    pub program: String,
    pub args: Vec<String>,
    /// How many instances of each resource the test holds while it runs. Of
    /// two entries for one key the later one counts.
    pub needs_resources: Vec<(ResourceKey, usize)>,
    /// How long the test's process has between being interrupted and being killed.
    pub shutdown_grace_period: Duration,
    pub cache_policy: CachePolicy,
}

impl View for Test {
    type V = TestView;

    open spec fn view(&self) -> TestView {
        TestView {
            name: self.name@,
            config_hash: self.config_hash,
            program: self.program@,
            args: views(self.args@),
            needs_resources: wants_view(self.needs_resources@),
            shutdown_grace_period: self.shutdown_grace_period,
            cache_policy: self.cache_policy,
        }
    }
}

/// The identity of a test case: the commit and the test's name, joined by a colon.
pub open spec fn case_id(commit_hash: Seq<char>, test_name: Seq<char>) -> Seq<char> {
    commit_hash + seq![':'] + test_name
}

/// Identifies a test case among all that can exist for one manager.
#[derive(Debug, PartialEq, Eq, Hash)]
pub struct TestCaseId(String);

impl View for TestCaseId {
    type V = Seq<char>;

    closed spec fn view(&self) -> Seq<char> {
        self.0@
    }
}

impl Clone for TestCaseId {
    fn clone(&self) -> (res: Self)
        ensures
            res == *self,
    {
        TestCaseId(self.0.clone())
    }
}

impl TestCaseId {
    /// The identity of the case of the test named `test_name` on `commit_hash`.
    pub fn new(commit_hash: &CommitHash, test_name: &TestName) -> (id: Self)
        ensures
            id@ == case_id(commit_hash@, test_name@),
    {
        let mut s = commit_hash.clone();
        s.append(":");
        s.append(test_name.as_str());
        proof {
            reveal_strlit(":");
            assert(s@ =~= case_id(commit_hash@, test_name@));
        }
        TestCaseId(s)
    }

    /// The identity as text.
    pub fn as_str(&self) -> (s: &str)
        ensures
            s@ == self@,
    {
        self.0.as_str()
    }

    /// Whether both identify the same case.
    pub fn same(&self, other: &TestCaseId) -> (b: bool)
        ensures
            b == (self@ == other@),
    {
        self.0 == other.0
    }
}

/// What a [`TestCase`] is in contracts.
pub struct TestCaseView {
    pub commit_hash: Seq<char>,
    pub cache_hash: Option<Seq<char>>,
    pub test: TestView,
}

impl TestCaseView {
    /// The identity of the case.
    pub open spec fn id(self) -> Seq<char> {
        case_id(self.commit_hash, self.test.name)
    }

    /// The hash under which the result of the case is stored.
    pub open spec fn storage_hash(self) -> Seq<char> {
        match self.cache_hash {
            Some(hash) => hash,
            None => self.commit_hash,
        }
    }
}

/// The hash by which a result of `test` on `commit_hash` is found again: none
/// without caching, the commit under `ByCommit`, the tree under `ByTree`.
pub open spec fn cache_hash_of(
    policy: CachePolicy,
    commit_hash: Seq<char>,
    tree_hash: Option<Seq<char>>,
) -> Option<Seq<char>> {
    match policy {
        CachePolicy::NoCaching => None,
        CachePolicy::ByCommit => Some(commit_hash),
        CachePolicy::ByTree => tree_hash,
    }
}

/// A test on a commit.
#[derive(Debug)]
pub struct TestCase {
    /// Commit that is checked out to run the test.
    pub commit_hash: CommitHash,
    /// Hash that identifies the result: the tree's where the policy says so,
    /// else the commit's; none where results are not reused.
    pub cache_hash: Option<crate::git::Hash>,
    pub test: Arc<Test>,
}

impl View for TestCase {
    type V = TestCaseView;

    open spec fn view(&self) -> TestCaseView {
        TestCaseView {
            commit_hash: self.commit_hash@,
            cache_hash: match self.cache_hash {
                Some(hash) => Some(hash@),
                None => None,
            },
            test: self.test@,
        }
    }
}

/// Why a test case could not be made.
#[derive(Debug, Clone, Copy, PartialEq, Eq, Structural)]
pub enum TestCaseError {
    /// The test caches by tree and no tree hash was given for the commit.
    MissingTree,
}

/// Calls `Arc::clone` of std: the new handle is a handle on the same test.
#[verifier::external_body]
pub(crate) fn share(test: &Arc<Test>) -> (shared: Arc<Test>)
    ensures
        shared == *test,
{
    Arc::clone(test)
}

impl Clone for TestCase {
    fn clone(&self) -> (res: Self)
        ensures
            res == *self,
    {
        TestCase {
            commit_hash: self.commit_hash.clone(),
            cache_hash: match &self.cache_hash {
                Some(hash) => Some(hash.clone()),
                None => None,
            },
            test: share(&self.test),
        }
    }
}

impl TestCase {
    /// The case of `test` on `commit_hash`. `tree_hash` is the tree of the
    /// commit; only a test that caches by tree needs it, and fails without.
    pub fn new(commit_hash: CommitHash, test: Arc<Test>, tree_hash: Option<TreeHash>) -> (case:
        Result<Self, TestCaseError>)
        ensures
            case is Err <==> test@.cache_policy == CachePolicy::ByTree && tree_hash is None,
            case matches Ok(c) ==> c@ == (TestCaseView {
                commit_hash: commit_hash@,
                cache_hash: cache_hash_of(
                    test@.cache_policy,
                    commit_hash@,
                    match tree_hash {
                        Some(h) => Some(h@),
                        None => None,
                    },
                ),
                test: test@,
            }) && c.test == test && c.commit_hash == commit_hash,
    {
        let cache_hash = match test.cache_policy {
            CachePolicy::NoCaching => None,
            CachePolicy::ByCommit => Some(commit_hash.clone()),
            CachePolicy::ByTree => match tree_hash {
                Some(hash) => Some(hash),
                None => {
                    return Err(TestCaseError::MissingTree);
                },
            },
        };
        Ok(TestCase { commit_hash, cache_hash, test })
    }

    /// The hash under which the result is stored. Results are stored also
    /// where they are not reused, so that their output can be read.
    pub fn storage_hash(&self) -> (hash: &crate::git::Hash)
        ensures
            hash@ == self@.storage_hash(),
    {
        match &self.cache_hash {
            Some(hash) => hash,
            None => &self.commit_hash,
        }
    }

    /// The identity of the case. The cache hash is no part of it.
    pub fn id(&self) -> (id: TestCaseId)
        ensures
            id@ == self@.id(),
    {
        TestCaseId::new(&self.commit_hash, &self.test.name)
    }
}

/// What a test's process returned.
#[derive(Debug, PartialEq, Eq, Structural)]
pub struct TestResult {
    /// Set only when the process exited by itself.
    pub exit_code: ExitCode,
}

impl Clone for TestResult {
    fn clone(&self) -> (res: Self)
        ensures
            res == *self,
    {
        TestResult { exit_code: self.exit_code }
    }
}

/// What is written for the exit code `code`.
pub open spec fn result_text(code: int) -> Seq<char> {
    "exit code "@ + signed_decimal(code)
}

impl TestResult {
    /// The result as a line for the user.
    pub fn to_string(&self) -> (s: String)
        ensures
            s@ == result_text(self.exit_code as int),
    {
        let code = signed_decimal_string(self.exit_code);
        joined("exit code ", code.as_str())
    }
}

/// What a [`TestStatus`] is in contracts.
pub enum StatusView {
    Enqueued,
    Started,
    Canceled,
    Error(Seq<char>),
    Completed(TestResult),
}

impl StatusView {
    /// Whether a job is over once it has this status.
    pub open spec fn terminal(self) -> bool {
        self is Canceled || self is Error || self is Completed
    }
}

/// How far a test case has come.
#[derive(Debug, PartialEq, Eq)]
pub enum TestStatus {
    Enqueued,
    Started,
    Canceled,
    /// The test could not be run to its end. That a signal killed its process
    /// counts as this.
    Error(String),
    Completed(TestResult),
}

impl View for TestStatus {
    type V = StatusView;

    open spec fn view(&self) -> StatusView {
        match self {
            TestStatus::Enqueued => StatusView::Enqueued,
            TestStatus::Started => StatusView::Started,
            TestStatus::Canceled => StatusView::Canceled,
            TestStatus::Error(msg) => StatusView::Error(msg@),
            TestStatus::Completed(result) => StatusView::Completed(*result),
        }
    }
}

impl Clone for TestStatus {
    fn clone(&self) -> (res: Self)
        ensures
            res == *self,
    {
        match self {
            TestStatus::Enqueued => TestStatus::Enqueued,
            TestStatus::Started => TestStatus::Started,
            TestStatus::Canceled => TestStatus::Canceled,
            TestStatus::Error(msg) => TestStatus::Error(msg.clone()),
            TestStatus::Completed(result) => TestStatus::Completed(result.clone()),
        }
    }
}

/// What is written for a failure whose message, in quotes, is `quoted`.
pub open spec fn failure_text(quoted: Seq<char>) -> Seq<char> {
    "Failed testing - "@ + quoted
}

/// The line for a failure, from its message in quotes.
pub fn failure_line(quoted: &str) -> (s: String)
    ensures
        s@ == failure_text(quoted@),
{
    joined("Failed testing - ", quoted)
}

impl StatusView {
    /// The status as a line for the user. The message of an error stands in
    /// it as `Debug` writes a string.
    pub open spec fn text(self) -> Seq<char> {
        match self {
            StatusView::Enqueued => "Enqueued"@,
            StatusView::Started => "Started"@,
            StatusView::Canceled => "Cancelled"@,
            StatusView::Error(msg) => failure_text(debug_text(msg)),
            StatusView::Completed(result) => "Completed - "@ + result_text(result.exit_code as int),
        }
    }
}

impl TestStatus {
    /// The status as a line for the user.
    pub fn to_string(&self) -> (s: String)
        ensures
            s@ == self@.text(),
    {
        match self {
            TestStatus::Enqueued => String::from_str("Enqueued"),
            TestStatus::Started => String::from_str("Started"),
            TestStatus::Canceled => String::from_str("Cancelled"),
            TestStatus::Error(msg) => {
                let quoted = debug_string(msg.as_str());
                failure_line(quoted.as_str())
            },
            TestStatus::Completed(result) => {
                let text = result.to_string();
                joined("Completed - ", text.as_str())
            },
        }
    }
}

/// What a [`Notification`] is in contracts.
pub struct NotificationView {
    pub test_case: TestCaseView,
    pub status: StatusView,
}

/// Tells the subscribers how far a test case has come.
#[derive(Debug)]
pub struct Notification {
    pub test_case: TestCase,
    pub status: TestStatus,
}

impl View for Notification {
    type V = NotificationView;

    open spec fn view(&self) -> NotificationView {
        NotificationView { test_case: self.test_case@, status: self.status@ }
    }
}

} // verus!
