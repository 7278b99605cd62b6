//! The supervisor of one test job: what it does when its resources arrive,
//! when its process starts and ends, and when it is cancelled.

use crate::git::CommitHash;
use crate::lists::views;
use crate::process::{killed_message, ChildExit};
use crate::pool::{token_lists, Resources, ResourcesView};
use crate::resource::{text, KeyView, ResourceKey};
use crate::test::{ConfigHash, StatusView, TestCase, TestCaseView, TestResult, TestStatus};
use crate::text::{decimal, decimal_string};
use vstd::prelude::*;
use vstd::string::StringExecFns;

verus! {

/// Counts the jobs that are not over. The manager is settled when it is at zero.
pub struct JobCounter {
    count: usize,
}

/// Stands for one count of a [`JobCounter`]: handing it back takes the count down.
pub struct JobToken {
    _private: (),
}

impl View for JobCounter {
    type V = nat;

    closed spec fn view(&self) -> nat {
        self.count as nat
    }
}

impl JobCounter {
    /// A counter at zero.
    pub fn new() -> (counter: Self)
        ensures
            counter@ == 0,
    {
        JobCounter { count: 0 }
    }

    /// Whether another token can be had.
    pub fn has_room(&self) -> (b: bool)
        ensures
            b == (self@ < usize::MAX),
    {
        self.count < usize::MAX
    }

    /// Takes the count up by one. It goes down when the token is put back.
    pub fn get(&mut self) -> (token: JobToken)
        requires
            old(self)@ < usize::MAX,
        ensures
            final(self)@ == old(self)@ + 1,
    {
        self.count = self.count + 1;
        JobToken { _private: () }
    }

    /// Takes the count down by one.
    pub fn put(&mut self, token: JobToken)
        requires
            old(self)@ > 0,
        ensures
            final(self)@ == old(self)@ - 1,
    {
        self.count = self.count - 1;
    }

    /// Whether the count is zero.
    pub fn zero(&self) -> (b: bool)
        ensures
            b == (self@ == 0),
    {
        self.count == 0
    }
}

/// Where a job stands between being enqueued and being over.
#[derive(Debug, Clone, Copy, PartialEq, Eq, Structural)]
pub enum JobPhase {
    /// Enqueued; its supervisor has not had its first turn, and has asked
    /// for nothing yet.
    Enqueued,
    /// Has asked for its resources and waits for them.
    Waiting,
    /// Has its resources; its process is being started.
    Launching,
    /// Its process runs.
    Running,
    /// Cancelled; its process was interrupted and has time to end.
    Draining,
    /// Cancelled; its process was killed after the time ran out.
    Killed,
}

impl JobPhase {
    /// Whether a job in this phase has its resources.
    pub open spec fn holding(self) -> bool {
        self is Launching || self is Running || self is Draining || self is Killed
    }
}

/// What the outside reports of a job.
#[derive(Debug)]
pub enum JobEvent {
    /// The supervisor has its first turn: it is time to ask for the resources.
    Polled,
    /// The process was started.
    Launched,
    /// The commit could not be checked out, or the process could not be started.
    LaunchFailed(String),
    /// The process ended.
    Exited(ChildExit),
    /// The time between the interrupt and the kill ran out.
    GraceExpired,
    /// A signal could not be delivered to the process.
    SignalFailed(String),
}

/// What a [`JobEvent`] is in contracts.
pub enum JobEventView {
    Polled,
    Launched,
    LaunchFailed(Seq<char>),
    Exited(ChildExit),
    GraceExpired,
    SignalFailed(Seq<char>),
}

impl View for JobEvent {
    type V = JobEventView;

    open spec fn view(&self) -> JobEventView {
        match self {
            JobEvent::Polled => JobEventView::Polled,
            JobEvent::Launched => JobEventView::Launched,
            JobEvent::LaunchFailed(msg) => JobEventView::LaunchFailed(msg@),
            JobEvent::Exited(exit) => JobEventView::Exited(*exit),
            JobEvent::GraceExpired => JobEventView::GraceExpired,
            JobEvent::SignalFailed(msg) => JobEventView::SignalFailed(msg@),
        }
    }
}

/// What a supervisor does next.
#[derive(Debug)]
pub enum JobAction {
    /// Go on waiting.
    Nothing,
    /// Ask the pools for the resources of the job.
    Acquire,
    /// Interrupt the process and give it time to end.
    Interrupt,
    /// Kill the process.
    Kill,
    /// The job is over, with this status.
    Finish(TestStatus),
}

/// What a [`JobAction`] is in contracts.
pub enum ActionView {
    Nothing,
    Acquire,
    Interrupt,
    Kill,
    Finish(StatusView),
}

impl View for JobAction {
    type V = ActionView;

    open spec fn view(&self) -> ActionView {
        match self {
            JobAction::Nothing => ActionView::Nothing,
            JobAction::Acquire => ActionView::Acquire,
            JobAction::Interrupt => ActionView::Interrupt,
            JobAction::Kill => ActionView::Kill,
            JobAction::Finish(status) => ActionView::Finish(status@),
        }
    }
}

/// The status with which a process that ended by itself completes the job:
/// its exit code, or an error where a signal killed it.
pub open spec fn exit_status(exit: ChildExit) -> StatusView {
    match exit {
        ChildExit::Exited(code) => StatusView::Completed(TestResult { exit_code: code }),
        ChildExit::Signaled(signal) => StatusView::Error(killed_message(signal as int)),
    }
}

/// The phase after `event` and what the supervisor does, for a job in `phase`
/// whose cancellation was or was not asked for.
///
/// A job asks for its resources at the first turn of its supervisor, not
/// before. A process that starts for a job already cancelled is interrupted
/// at once. While it drains, however it ends the job is cancelled; only a
/// signal that cannot be delivered makes it an error. What a phase does not
/// expect is ignored.
pub open spec fn react(phase: JobPhase, cancelled: bool, event: JobEventView) -> (
    JobPhase,
    ActionView,
) {
    match (phase, event) {
        (JobPhase::Enqueued, JobEventView::Polled) => (JobPhase::Waiting, ActionView::Acquire),
        (JobPhase::Launching, JobEventView::Launched) => if cancelled {
            (JobPhase::Draining, ActionView::Interrupt)
        } else {
            (JobPhase::Running, ActionView::Nothing)
        },
        (JobPhase::Launching, JobEventView::LaunchFailed(msg)) => (
            phase,
            ActionView::Finish(StatusView::Error(msg)),
        ),
        (JobPhase::Running, JobEventView::Exited(exit)) => (
            phase,
            ActionView::Finish(exit_status(exit)),
        ),
        (JobPhase::Draining, JobEventView::Exited(_)) => (
            phase,
            ActionView::Finish(StatusView::Canceled),
        ),
        (JobPhase::Killed, JobEventView::Exited(_)) => (
            phase,
            ActionView::Finish(StatusView::Canceled),
        ),
        (JobPhase::Draining, JobEventView::GraceExpired) => (JobPhase::Killed, ActionView::Kill),
        (JobPhase::Draining, JobEventView::SignalFailed(msg)) => (
            phase,
            ActionView::Finish(StatusView::Error(msg)),
        ),
        (JobPhase::Killed, JobEventView::SignalFailed(msg)) => (
            phase,
            ActionView::Finish(StatusView::Error(msg)),
        ),
        _ => (phase, ActionView::Nothing),
    }
}

/// The phase after a cancellation and what the supervisor does. A job that
/// has not asked for its resources, or waits for them, is over without its
/// process ever starting; a running one is interrupted; one that is being
/// started is interrupted once it runs.
pub open spec fn react_to_cancel(phase: JobPhase) -> (JobPhase, ActionView) {
    match phase {
        JobPhase::Enqueued => (phase, ActionView::Finish(StatusView::Canceled)),
        JobPhase::Waiting => (phase, ActionView::Finish(StatusView::Canceled)),
        JobPhase::Running => (JobPhase::Draining, ActionView::Interrupt),
        _ => (phase, ActionView::Nothing),
    }
}

/// The name of the variable that carries token `i` of resource `name`.
pub open spec fn token_var(name: Seq<char>, i: nat) -> Seq<char> {
    "LCI_RESOURCE_"@ + name + "_"@ + decimal(i)
}

/// The variables for the first `i` tokens of resource `name`.
pub open spec fn token_vars(name: Seq<char>, tokens: Seq<Seq<char>>, i: int) -> Seq<
    (Seq<char>, Seq<char>),
>
    decreases i,
{
    if i <= 0 {
        Seq::empty()
    } else {
        token_vars(name, tokens, i - 1).push((token_var(name, (i - 1) as nat), tokens[i - 1]))
    }
}

/// The variables for the first `i` resources of `lists`.
pub open spec fn resource_vars(lists: Seq<(Seq<char>, Seq<Seq<char>>)>, i: int) -> Seq<
    (Seq<char>, Seq<char>),
>
    decreases i,
{
    if i <= 0 {
        Seq::empty()
    } else {
        resource_vars(lists, i - 1) + token_vars(
            lists[i - 1].0,
            lists[i - 1].1,
            lists[i - 1].1.len() as int,
        )
    }
}

/// The environment of a job's process: the commit, then what all jobs
/// share, then each token that the job holds.
pub open spec fn job_env(
    commit_hash: Seq<char>,
    shared: Seq<(Seq<char>, Seq<char>)>,
    handle: ResourcesView,
) -> Seq<(Seq<char>, Seq<char>)> {
    seq![("LCI_COMMIT"@, commit_hash)] + shared + resource_vars(
        handle.tokens(),
        handle.tokens().len() as int,
    )
}

/// Pairs of strings in contracts.
pub open spec fn pairs_view(pairs: Seq<(String, String)>) -> Seq<(Seq<char>, Seq<char>)> {
    pairs.map_values(|p: (String, String)| (p.0@, p.1@))
}

/// What a [`LaunchPlan`] is in contracts.
pub struct LaunchPlanView {
    pub storage_hash: Seq<char>,
    pub test_name: Seq<char>,
    pub config_hash: ConfigHash,
    pub checkout: bool,
    pub commit_hash: Seq<char>,
    pub current_dir: Seq<char>,
    pub program: Seq<char>,
    pub args: Seq<Seq<char>>,
    pub env: Seq<(Seq<char>, Seq<char>)>,
}

/// How to start the process of a job.
#[derive(Debug)]
pub struct LaunchPlan {
    /// The hash, the test's name and the digest of the test's configuration
    /// under which the output of the process is kept.
    pub storage_hash: String,
    pub test_name: String,
    pub config_hash: ConfigHash,
    /// Whether `commit_hash` is to be checked out in `current_dir` first.
    pub checkout: bool,
    pub commit_hash: CommitHash,
    /// The directory that the process starts in.
    pub current_dir: String,
    pub program: String,
    pub args: Vec<String>,
    /// Variables to set for the process, in this order.
    pub env: Vec<(String, String)>,
}

impl View for LaunchPlan {
    type V = LaunchPlanView;

    open spec fn view(&self) -> LaunchPlanView {
        LaunchPlanView {
            storage_hash: self.storage_hash@,
            test_name: self.test_name@,
            config_hash: self.config_hash,
            checkout: self.checkout,
            commit_hash: self.commit_hash@,
            current_dir: self.current_dir@,
            program: self.program@,
            args: views(self.args@),
            env: pairs_view(self.env@),
        }
    }
}

/// How the process of `case` is started with `handle` in hand. With a
/// worktree it runs there, on the commit checked out. Without one it runs in
/// the origin repository, which it does not own: nothing is checked out.
pub open spec fn launch_plan(
    case: TestCaseView,
    handle: ResourcesView,
    origin: Seq<char>,
    shared: Seq<(Seq<char>, Seq<char>)>,
) -> LaunchPlanView {
    let worktrees = handle.of(KeyView::Worktree);
    LaunchPlanView {
        storage_hash: case.storage_hash(),
        test_name: case.test.name,
        config_hash: case.test.config_hash,
        checkout: worktrees.len() > 0,
        commit_hash: case.commit_hash,
        current_dir: if worktrees.len() > 0 {
            text(worktrees[0])
        } else {
            origin
        },
        program: case.test.program,
        args: case.test.args,
        env: job_env(case.commit_hash, shared, handle),
    }
}

/// The name of the variable for token `i` of resource `name`.
pub fn token_var_name(name: &str, i: usize) -> (var: String)
    ensures
        var@ == token_var(name@, i as nat),
{
    let mut var = String::from_str("LCI_RESOURCE_");
    var.append(name);
    var.append("_");
    let number = decimal_string(i as u64);
    var.append(number.as_str());
    var
}

/// The variables that tell a process which tokens it holds.
pub fn resource_env(lists: &Vec<(String, Vec<String>)>) -> (env: Vec<(String, String)>)
    ensures
        pairs_view(env@) == resource_vars(token_lists(lists@), lists@.len() as int),
{
    let ghost lv = token_lists(lists@);
    let mut env: Vec<(String, String)> = Vec::new();
    let mut i: usize = 0;
    assert(pairs_view(env@) =~= resource_vars(lv, 0));
    while i < lists.len()
        invariant
            i <= lists.len(),
            lv == token_lists(lists@),
            pairs_view(env@) == resource_vars(lv, i as int),
        decreases lists.len() - i,
    {
        let name = &lists[i].0;
        let tokens = &lists[i].1;
        let ghost start = pairs_view(env@);
        let ghost tv = views(tokens@);
        assert(lv[i as int] == (name@, tv));
        let mut j: usize = 0;
        assert(pairs_view(env@) =~= start + token_vars(name@, tv, 0));
        while j < tokens.len()
            invariant
                j <= tokens.len(),
                tv == views(tokens@),
                pairs_view(env@) == start + token_vars(name@, tv, j as int),
            decreases tokens.len() - j,
        {
            let ghost prev = pairs_view(env@);
            let var = token_var_name(name.as_str(), j);
            env.push((var, tokens[j].clone()));
            assert(pairs_view(env@) =~= prev.push((token_var(name@, j as nat), tv[j as int])));
            assert(pairs_view(env@) =~= start + token_vars(name@, tv, j + 1));
            j += 1;
        }
        i += 1;
    }
    env
}

/// What a [`TestJob`] is in contracts.
pub struct JobView {
    pub ticket: u64,
    pub test_case: TestCaseView,
    pub phase: JobPhase,
    pub cancelled: bool,
    pub resources: Option<ResourcesView>,
}

/// The supervisor of one test case, from the moment it is enqueued until it is over.
pub struct TestJob {
    ticket: u64,
    test_case: TestCase,
    phase: JobPhase,
    cancelled: bool,
    resources: Option<Resources>,
    token: JobToken,
}

impl View for TestJob {
    type V = JobView;

    closed spec fn view(&self) -> JobView {
        JobView {
            ticket: self.ticket,
            test_case: self.test_case@,
            phase: self.phase,
            cancelled: self.cancelled,
            resources: match self.resources {
                Some(handle) => Some(handle@),
                None => None,
            },
        }
    }
}

impl JobView {
    /// The job as it is enqueued.
    pub open spec fn enqueued(ticket: u64, test_case: TestCaseView) -> JobView {
        JobView { ticket, test_case, phase: JobPhase::Enqueued, cancelled: false, resources: None }
    }

    /// The job with `handle` in hand, its process being started.
    pub open spec fn granted(self, handle: ResourcesView) -> JobView {
        JobView { phase: JobPhase::Launching, resources: Some(handle), ..self }
    }

    /// The job after `event`.
    pub open spec fn after(self, event: JobEventView) -> JobView {
        JobView { phase: react(self.phase, self.cancelled, event).0, ..self }
    }

    /// The job after its cancellation was asked for.
    pub open spec fn after_cancel(self) -> JobView {
        JobView { phase: react_to_cancel(self.phase).0, cancelled: true, ..self }
    }
}

impl TestJob {
    /// The supervisor of `test_case`, enqueued under `ticket`.
    pub fn new(ticket: u64, test_case: TestCase, token: JobToken) -> (job: TestJob)
        ensures
            job@ == JobView::enqueued(ticket, test_case@),
    {
        TestJob {
            ticket,
            test_case,
            phase: JobPhase::Enqueued,
            cancelled: false,
            resources: None,
            token,
        }
    }

    /// The ticket under which the job asks for its resources.
    pub fn ticket(&self) -> (t: u64)
        ensures
            t == self@.ticket,
    {
        self.ticket
    }

    /// Where the job stands.
    pub fn phase(&self) -> (p: JobPhase)
        ensures
            p == self@.phase,
    {
        self.phase
    }

    /// The case that the job runs.
    pub fn test_case(&self) -> (case: &TestCase)
        ensures
            case@ == self@.test_case,
    {
        &self.test_case
    }

    /// Ends the supervisor and hands back its token.
    pub fn into_token(self) -> JobToken {
        self.token
    }

    /// The resources arrived: the job holds them from now on. Returns how
    /// its process is to be started.
    pub fn grant(
        &mut self,
        handle: Resources,
        origin: &String,
        shared: &Vec<(String, String)>,
    ) -> (plan: LaunchPlan)
        ensures
            final(self)@ == old(self)@.granted(handle@),
            plan@ == launch_plan(old(self)@.test_case, handle@, origin@, pairs_view(shared@)),
    {
        let plan = plan_launch(&self.test_case, &handle, origin, shared);
        self.phase = JobPhase::Launching;
        self.resources = Some(handle);
        plan
    }

    /// Takes `event` in and says what to do next.
    pub fn step(&mut self, event: JobEvent) -> (action: JobAction)
        ensures
            final(self)@ == old(self)@.after(event@),
            action@ == react(old(self)@.phase, old(self)@.cancelled, event@).1,
    {
        match (self.phase, event) {
            (JobPhase::Enqueued, JobEvent::Polled) => {
                self.phase = JobPhase::Waiting;
                JobAction::Acquire
            },
            (JobPhase::Launching, JobEvent::Launched) => {
                if self.cancelled {
                    self.phase = JobPhase::Draining;
                    JobAction::Interrupt
                } else {
                    self.phase = JobPhase::Running;
                    JobAction::Nothing
                }
            },
            (JobPhase::Launching, JobEvent::LaunchFailed(msg)) => JobAction::Finish(
                TestStatus::Error(msg),
            ),
            (JobPhase::Running, JobEvent::Exited(exit)) => match exit.code_not_killed() {
                Ok(exit_code) => JobAction::Finish(TestStatus::Completed(TestResult { exit_code })),
                Err(msg) => JobAction::Finish(TestStatus::Error(msg)),
            },
            (JobPhase::Draining, JobEvent::Exited(_)) => JobAction::Finish(TestStatus::Canceled),
            (JobPhase::Killed, JobEvent::Exited(_)) => JobAction::Finish(TestStatus::Canceled),
            (JobPhase::Draining, JobEvent::GraceExpired) => {
                self.phase = JobPhase::Killed;
                JobAction::Kill
            },
            (JobPhase::Draining, JobEvent::SignalFailed(msg)) => JobAction::Finish(
                TestStatus::Error(msg),
            ),
            (JobPhase::Killed, JobEvent::SignalFailed(msg)) => JobAction::Finish(
                TestStatus::Error(msg),
            ),
            _ => JobAction::Nothing,
        }
    }

    /// Takes in that the job's cancellation was asked for and says what to do next.
    pub fn cancel(&mut self) -> (action: JobAction)
        ensures
            final(self)@ == old(self)@.after_cancel(),
            action@ == react_to_cancel(old(self)@.phase).1,
    {
        self.cancelled = true;
        match self.phase {
            JobPhase::Enqueued => JobAction::Finish(TestStatus::Canceled),
            JobPhase::Waiting => JobAction::Finish(TestStatus::Canceled),
            JobPhase::Running => {
                self.phase = JobPhase::Draining;
                JobAction::Interrupt
            },
            _ => JobAction::Nothing,
        }
    }
}

/// How the process of `case` is started with `handle` in hand: where it
/// runs, whether the commit is checked out first, and its environment.
pub fn plan_launch(
    case: &TestCase,
    handle: &Resources,
    origin: &String,
    shared: &Vec<(String, String)>,
) -> (plan: LaunchPlan)
    ensures
        plan@ == launch_plan(case@, handle@, origin@, pairs_view(shared@)),
{
    let (checkout, current_dir) = match handle.resources(&ResourceKey::Worktree) {
        Some(worktrees) => (true, worktrees[0].text().clone()),
        None => (false, origin.clone()),
    };
    let mut env: Vec<(String, String)> = Vec::new();
    env.push((String::from_str("LCI_COMMIT"), case.commit_hash.clone()));
    assert(pairs_view(env@) =~= seq![("LCI_COMMIT"@, case@.commit_hash)]);
    let mut i: usize = 0;
    while i < shared.len()
        invariant
            i <= shared.len(),
            pairs_view(env@) == seq![("LCI_COMMIT"@, case@.commit_hash)] + pairs_view(
                shared@,
            ).take(i as int),
        decreases shared.len() - i,
    {
        let ghost prev = pairs_view(env@);
        env.push((shared[i].0.clone(), shared[i].1.clone()));
        assert(pairs_view(env@) =~= prev.push(pairs_view(shared@)[i as int]));
        assert(pairs_view(shared@).take(i + 1) =~= pairs_view(shared@).take(i as int).push(
            pairs_view(shared@)[i as int],
        ));
        i += 1;
    }
    assert(pairs_view(shared@).take(shared@.len() as int) =~= pairs_view(shared@));
    let lists = handle.tokens();
    let mut vars = resource_env(&lists);
    let ghost before = pairs_view(env@);
    let ghost added = pairs_view(vars@);
    env.append(&mut vars);
    assert(pairs_view(env@) =~= before + added);
    let mut args: Vec<String> = Vec::new();
    let mut j: usize = 0;
    while j < case.test.args.len()
        invariant
            j <= case.test.args.len(),
            views(args@) == views(case.test.args@).take(j as int),
        decreases case.test.args.len() - j,
    {
        let ghost prev = views(args@);
        args.push(case.test.args[j].clone());
        assert(views(args@) =~= prev.push(views(case.test.args@)[j as int]));
        assert(views(case.test.args@).take(j + 1) =~= views(case.test.args@).take(j as int).push(
            views(case.test.args@)[j as int],
        ));
        j += 1;
    }
    assert(views(case.test.args@).take(case.test.args@.len() as int) =~= views(case.test.args@));
    LaunchPlan {
        storage_hash: case.storage_hash().clone(),
        test_name: String::from_str(case.test.name.as_str()),
        config_hash: case.test.config_hash,
        checkout,
        commit_hash: case.commit_hash.clone(),
        current_dir,
        program: case.test.program.clone(),
        args,
        env,
    }
}

} // verus!
