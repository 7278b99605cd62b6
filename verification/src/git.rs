//! What the manager knows of the repository: hashes, and how the files and
//! the output of git are read.

use crate::lists::views;
use crate::process::{killed_message, ChildExit};

use std::path::Path;
use vstd::prelude::*;
use vstd::slice::slice_subrange;
use vstd::string::{StrSliceExecFns, StringExecFns};

verus! {

/// Identifies a commit or a tree.
pub type Hash = String;

/// Identifies a revision.
pub type CommitHash = String;

/// Identifies a snapshot of the source tree.
pub type TreeHash = String;

/// The byte that ends a line.
pub const NEWLINE: u8 = 10;

/// What reading the first `i` bytes of `s` finds: the lines that have ended,
/// and where the line that has not ended begins, if the bytes end inside one.
/// A line is a longest run of bytes without a newline.
pub open spec fn scan_lines(s: Seq<u8>, i: int) -> (Seq<Seq<u8>>, Option<int>)
    decreases i,
{
    if i <= 0 {
        (Seq::empty(), None)
    } else {
        let (lines, start) = scan_lines(s, i - 1);
        if s[i - 1] == NEWLINE {
            match start {
                Some(a) => (lines.push(s.subrange(a, i - 1)), None),
                None => (lines, None),
            }
        } else {
            match start {
                Some(a) => (lines, start),
                None => (lines, Some(i - 1)),
            }
        }
    }
}

/// The lines of `s`, in order, without their newlines. Empty lines are left out.
pub open spec fn lines_of(s: Seq<u8>) -> Seq<Seq<u8>> {
    let (lines, start) = scan_lines(s, s.len() as int);
    match start {
        Some(a) => lines.push(s.subrange(a, s.len() as int)),
        None => lines,
    }
}

/// While the first `i` bytes are read, every line found is a run of bytes
/// of `s` that is not empty and holds no newline, and so is the line that
/// has not ended.
pub proof fn lemma_scan_lines(s: Seq<u8>, i: int)
    requires
        0 <= i <= s.len(),
    ensures
        forall|k: int|
            0 <= k < scan_lines(s, i).0.len() ==> (#[trigger] scan_lines(s, i).0[k]).len() > 0
                && !scan_lines(s, i).0[k].contains(NEWLINE),
        match scan_lines(s, i).1 {
            Some(a) => 0 <= a < i && !s.subrange(a, i).contains(NEWLINE),
            None => true,
        },
    decreases i,
{
    if i > 0 {
        lemma_scan_lines(s, i - 1);
        let start = scan_lines(s, i - 1).1;
        if s[i - 1] != NEWLINE {
            let a = match start {
                Some(a) => a,
                None => i - 1,
            };
            let run = s.subrange(a, i);
            assert forall|j: int| 0 <= j < run.len() implies #[trigger] run[j] != NEWLINE by {
                if j < i - 1 - a {
                    assert(s.subrange(a, i - 1)[j] == s[a + j]);
                    assert(s.subrange(a, i - 1).contains(s[a + j]));
                }
            }
        }
    }
}

/// No line is empty and no line holds a newline.
pub proof fn lemma_lines_of(s: Seq<u8>)
    ensures
        forall|k: int|
            0 <= k < lines_of(s).len() ==> (#[trigger] lines_of(s)[k]).len() > 0 && !lines_of(
                s,
            )[k].contains(NEWLINE),
{
    lemma_scan_lines(s, s.len() as int);
}

/// Splits `s` into its lines.
pub fn split_lines(s: &[u8]) -> (lines: Vec<&[u8]>)
    ensures
        views(lines@) == lines_of(s@),
{
    let mut lines: Vec<&[u8]> = Vec::new();
    let mut start: Option<usize> = None;
    let mut i: usize = 0;
    assert(views(lines@) =~= scan_lines(s@, 0).0);
    while i < s.len()
        invariant
            i <= s.len(),
            views(lines@) == scan_lines(s@, i as int).0,
            match start {
                Some(a) => scan_lines(s@, i as int).1 == Some(a as int) && a < i,
                None => scan_lines(s@, i as int).1 is None,
            },
        decreases s.len() - i,
    {
        let ghost found = views(lines@);
        if s[i] == NEWLINE {
            match start {
                Some(a) => {
                    let line = slice_subrange(s, a, i);
                    lines.push(line);
                    assert(views(lines@) =~= found.push(s@.subrange(a as int, i as int)));
                    start = None;
                },
                None => {},
            }
        } else if start.is_none() {
            start = Some(i);
        }
        i += 1;
    }
    match start {
        Some(a) => {
            let ghost found = views(lines@);
            let line = slice_subrange(s, a, s.len());
            lines.push(line);
            assert(views(lines@) =~= found.push(s@.subrange(a as int, s@.len() as int)));
        },
        None => {},
    }
    lines
}

/// Why the revisions of a range could not be listed.
#[derive(Debug, PartialEq, Eq)]
pub enum RevListError {
    /// A signal killed git.
    Killed(String),
    /// Git failed with this exit code.
    Failed(i32),
}

/// What a [`RevListError`] is in contracts.
pub enum RevListFault {
    Killed(Seq<char>),
    Failed(i32),
}

impl View for RevListError {
    type V = RevListFault;

    open spec fn view(&self) -> RevListFault {
        match self {
            RevListError::Killed(msg) => RevListFault::Killed(msg@),
            RevListError::Failed(code) => RevListFault::Failed(*code),
        }
    }
}

/// The exit code with which `git rev-list` says that the range is not valid.
pub const INVALID_RANGE: i32 = 128;

/// What a run of `git rev-list` says: the revisions, one for each line that
/// it wrote. A range that is not valid holds no revisions. Any other
/// failure, and being killed, is an error.
pub open spec fn revisions_listed(exit: ChildExit, stdout: Seq<u8>) -> Result<
    Seq<Seq<u8>>,
    RevListFault,
> {
    match exit {
        ChildExit::Signaled(signal) => Err(RevListFault::Killed(killed_message(signal as int))),
        ChildExit::Exited(code) => if code == INVALID_RANGE {
            Ok(Seq::empty())
        } else if code != 0 {
            Err(RevListFault::Failed(code))
        } else {
            Ok(lines_of(stdout))
        },
    }
}

/// Reads what a run of `git rev-list` returned.
pub fn read_rev_list<'a>(exit: ChildExit, stdout: &'a [u8]) -> (listed: Result<
    Vec<&'a [u8]>,
    RevListError,
>)
    ensures
        match listed {
            Ok(revs) => revisions_listed(exit, stdout@) == Ok::<Seq<Seq<u8>>, RevListFault>(
                views(revs@),
            ),
            Err(e) => revisions_listed(exit, stdout@) == Err::<Seq<Seq<u8>>, RevListFault>(e@),
        },
{
    match exit.code_not_killed() {
        Err(msg) => Err(RevListError::Killed(msg)),
        Ok(code) => {
            if code == INVALID_RANGE {
                let none: Vec<&[u8]> = Vec::new();
                assert(views(none@) =~= Seq::<Seq<u8>>::empty());
                Ok(none)
            } else if code != 0 {
                Err(RevListError::Failed(code))
            } else {
                Ok(split_lines(stdout))
            }
        },
    }
}

/// What watches the repository reports.
#[derive(Debug, Clone, Copy, PartialEq, Eq, Structural)]
pub enum WatchEvent {
    /// Something under the git directory changed.
    Changed,
    /// The timer ran out.
    TimerFired,
    /// Nothing more will be reported.
    Closed,
}

/// What the watcher of a range does next.
#[derive(Debug, Clone, Copy, PartialEq, Eq, Structural)]
pub enum WatchAction {
    /// Go on waiting.
    Nothing,
    /// Start the timer.
    StartTimer,
    /// List the revisions of the range and hand them on.
    ListRevisions,
    /// End the stream.
    Stop,
}

/// For how many seconds changes are collected before the revisions are listed.
pub const DEBOUNCE_SECONDS: u64 = 1;

/// Collects the changes that follow one another closely, so that the
/// revisions are listed once for them all.
#[derive(Debug, Clone, Copy, PartialEq, Eq, Structural)]
pub struct Debounce {
    /// Whether the timer runs.
    pub armed: bool,
}

/// The watcher after `event`, and what it does: the first change starts the
/// timer and later ones are covered by it; when the timer runs out, the
/// revisions are listed.
pub open spec fn debounce(armed: bool, event: WatchEvent) -> (bool, WatchAction) {
    match event {
        WatchEvent::Changed => if armed {
            (true, WatchAction::Nothing)
        } else {
            (true, WatchAction::StartTimer)
        },
        WatchEvent::TimerFired => (false, WatchAction::ListRevisions),
        WatchEvent::Closed => (armed, WatchAction::Stop),
    }
}

impl Debounce {
    /// A watcher whose timer does not run.
    pub fn new() -> (d: Debounce)
        ensures
            !d.armed,
    {
        Debounce { armed: false }
    }

    /// Takes `event` in and says what to do next.
    pub fn step(&mut self, event: WatchEvent) -> (action: WatchAction)
        ensures
            (final(self).armed, action) == debounce(old(self).armed, event),
    {
        match event {
            WatchEvent::Changed => {
                if self.armed {
                    WatchAction::Nothing
                } else {
                    self.armed = true;
                    WatchAction::StartTimer
                }
            },
            WatchEvent::TimerFired => {
                self.armed = false;
                WatchAction::ListRevisions
            },
            WatchEvent::Closed => WatchAction::Stop,
        }
    }
}

/// The parent of a path, as `Path::parent` of std gives it where `/`
/// separates the components: none for a root and for the empty path.
pub uninterp spec fn path_parent(path: Seq<char>) -> Option<Seq<char>>;

/// The last component of a path, as `Path::file_name` of std gives it where
/// `/` separates the components: none where the path ends in `..` or is a root.
pub uninterp spec fn path_file_name(path: Seq<char>) -> Option<Seq<char>>;

/// Calls `Path::parent` of std. The contract only names the result: the
/// same path gives the same parent.
#[verifier::external_body]
fn parent_of(path: &str) -> (parent: Option<String>)
    ensures
        match parent {
            Some(p) => path_parent(path@) == Some(p@),
            None => path_parent(path@) is None,
        },
{
    match Path::new(path).parent() {
        Some(p) => Some(p.to_string_lossy().into_owned()),
        None => None,
    }
}

/// Calls `Path::file_name` of std. The contract only names the result: the
/// same path gives the same name.
#[verifier::external_body]
fn file_name_of(path: &str) -> (name: Option<String>)
    ensures
        match name {
            Some(n) => path_file_name(path@) == Some(n@),
            None => path_file_name(path@) is None,
        },
{
    match Path::new(path).file_name() {
        Some(n) => Some(n.to_string_lossy().into_owned()),
        None => None,
    }
}

/// Why a repository could not be opened.
#[derive(Debug, Clone, Copy, PartialEq, Eq, Structural)]
pub enum OpenError {
    /// There is no `.git` under the path.
    NoDotGit,
    /// `.git` is a file that does not start with `gitdir: `.
    NotAPointer,
    /// The path that `.git` points to, or its parent, has no parent.
    NoParent,
    /// The path that `.git` points to does not lie in a directory named `worktrees`.
    NotWorktrees,
    /// What the worktree belongs to is not a directory.
    NotARepository,
}

/// What stands under a path by the name `.git`.
#[derive(Debug)]
pub enum DotGit {
    /// Nothing that can be opened.
    Missing,
    /// A directory: the path holds a repository.
    Directory,
    /// A file with this content: the path may be a worktree. `origin_is_dir`
    /// says whether the git directory that the content leads to, by
    /// [`worktree_origin`], is a directory.
    File { content: String, origin_is_dir: bool },
}

/// `s` without the newline at its end, if it has one.
pub open spec fn strip_newline(s: Seq<char>) -> Seq<char> {
    if s.len() > 0 && s.last() == '\n' {
        s.drop_last()
    } else {
        s
    }
}

/// The path that the content of a worktree's `.git` file points to: what
/// follows `gitdir: `, without the newline at the end. None where the
/// content does not start so.
pub open spec fn pointer_target(content: Seq<char>) -> Option<Seq<char>> {
    let prefix = "gitdir: "@;
    if content.len() >= prefix.len() && content.take(prefix.len() as int) == prefix {
        Some(strip_newline(content.skip(prefix.len() as int)))
    } else {
        None
    }
}

/// Reads the content of a worktree's `.git` file.
pub fn gitdir_pointer(content: &str) -> (target: Option<String>)
    ensures
        match target {
            Some(t) => pointer_target(content@) == Some(t@),
            None => pointer_target(content@) is None,
        },
{
    let prefix = "gitdir: ";
    proof {
        reveal_strlit("gitdir: ");
    }
    let len = content.unicode_len();
    if len < 8 {
        return None;
    }
    let mut i: usize = 0;
    while i < 8
        invariant
            i <= 8,
            len == content@.len(),
            len >= 8,
            prefix@.len() == 8,
            prefix@ == "gitdir: "@,
            forall|j: int| 0 <= j < i ==> content@[j] == prefix@[j],
        decreases 8 - i,
    {
        if content.get_char(i) != prefix.get_char(i) {
            assert(content@.take(8)[i as int] != prefix@[i as int]);
            return None;
        }
        i += 1;
    }
    assert(content@.take(8) =~= prefix@);
    let end = if len > 8 && content.get_char(len - 1) == '\n' {
        len - 1
    } else {
        len
    };
    let target = content.substring_char(8, end);
    assert(target@ =~= strip_newline(content@.skip(8)));
    Some(String::from_str(target))
}

/// The git directory that a worktree belongs to, from the parent of the
/// path that its `.git` file points to, the name of that parent, and the
/// parent of that parent. The path must lie in a directory named
/// `worktrees`, which lies in the git directory.
pub open spec fn origin_from(
    parent: Option<Seq<char>>,
    parent_name: Option<Seq<char>>,
    grandparent: Option<Seq<char>>,
) -> Result<Seq<char>, OpenError> {
    if parent is None {
        Err(OpenError::NoParent)
    } else if parent_name != Some("worktrees"@) {
        Err(OpenError::NotWorktrees)
    } else {
        match grandparent {
            Some(origin) => Ok(origin),
            None => Err(OpenError::NoParent),
        }
    }
}

/// The git directory that the worktree with git directory `gitdir` belongs to.
pub open spec fn origin_of(gitdir: Seq<char>) -> Result<Seq<char>, OpenError> {
    match path_parent(gitdir) {
        Some(parent) => origin_from(Some(parent), path_file_name(parent), path_parent(parent)),
        None => Err(OpenError::NoParent),
    }
}

/// Decides on the git directory that a worktree belongs to, from what the
/// paths are made of.
pub fn judge_origin(
    parent: Option<String>,
    parent_name: Option<String>,
    grandparent: Option<String>,
) -> (origin: Result<String, OpenError>)
    ensures
        match origin {
            Ok(o) => origin_from(
                match parent {
                    Some(p) => Some(p@),
                    None => None,
                },
                match parent_name {
                    Some(n) => Some(n@),
                    None => None,
                },
                match grandparent {
                    Some(g) => Some(g@),
                    None => None,
                },
            ) == Ok::<Seq<char>, OpenError>(o@),
            Err(e) => origin_from(
                match parent {
                    Some(p) => Some(p@),
                    None => None,
                },
                match parent_name {
                    Some(n) => Some(n@),
                    None => None,
                },
                match grandparent {
                    Some(g) => Some(g@),
                    None => None,
                },
            ) == Err::<Seq<char>, OpenError>(e),
        },
{
    if parent.is_none() {
        return Err(OpenError::NoParent);
    }
    let named = match &parent_name {
        Some(name) => *name == String::from_str("worktrees"),
        None => false,
    };
    if !named {
        return Err(OpenError::NotWorktrees);
    }
    match grandparent {
        Some(origin) => Ok(origin),
        None => Err(OpenError::NoParent),
    }
}

/// The git directory that the worktree with git directory `gitdir` belongs to.
pub fn worktree_origin(gitdir: &str) -> (origin: Result<String, OpenError>)
    ensures
        match origin {
            Ok(o) => origin_of(gitdir@) == Ok::<Seq<char>, OpenError>(o@),
            Err(e) => origin_of(gitdir@) == Err::<Seq<char>, OpenError>(e),
        },
{
    match parent_of(gitdir) {
        Some(parent) => {
            let name = file_name_of(parent.as_str());
            let grandparent = parent_of(parent.as_str());
            judge_origin(Some(parent), name, grandparent)
        },
        None => Err(OpenError::NoParent),
    }
}

/// A repository, by the directory that git keeps it in.
#[derive(Debug)]
pub struct Repo {
    git_dir: String,
}

impl View for Repo {
    type V = Seq<char>;

    closed spec fn view(&self) -> Seq<char> {
        self.git_dir@
    }
}

/// What opening `path` gives, by what stands under it as `.git`: for a
/// directory the path itself; for the file of a worktree the git directory
/// that the worktree belongs to, which must be a directory.
pub open spec fn opened(path: Seq<char>, dot_git: DotGit) -> Result<Seq<char>, OpenError> {
    match dot_git {
        DotGit::Missing => Err(OpenError::NoDotGit),
        DotGit::Directory => Ok(path),
        DotGit::File { content, origin_is_dir } => match pointer_target(content@) {
            None => Err(OpenError::NotAPointer),
            Some(gitdir) => match origin_of(gitdir) {
                Err(e) => Err(e),
                Ok(origin) => if origin_is_dir {
                    Ok(origin)
                } else {
                    Err(OpenError::NotARepository)
                },
            },
        },
    }
}

impl Repo {
    /// Opens the repository at `path`, or the one that the worktree at `path`
    /// belongs to.
    pub fn open(path: String, dot_git: &DotGit) -> (repo: Result<Repo, OpenError>)
        ensures
            match repo {
                Ok(r) => opened(path@, *dot_git) == Ok::<Seq<char>, OpenError>(r@),
                Err(e) => opened(path@, *dot_git) == Err::<Seq<char>, OpenError>(e),
            },
    {
        match dot_git {
            DotGit::Missing => Err(OpenError::NoDotGit),
            DotGit::Directory => Ok(Repo { git_dir: path }),
            DotGit::File { content, origin_is_dir } => match gitdir_pointer(content.as_str()) {
                None => Err(OpenError::NotAPointer),
                Some(gitdir) => match worktree_origin(gitdir.as_str()) {
                    Err(e) => Err(e),
                    Ok(origin) => {
                        if *origin_is_dir {
                            Ok(Repo { git_dir: origin })
                        } else {
                            Err(OpenError::NotARepository)
                        }
                    },
                },
            },
        }
    }

    /// The directory that git keeps the repository in.
    pub fn git_dir(&self) -> (dir: &String)
        ensures
            dir@ == self@,
    {
        &self.git_dir
    }

    /// The directory that holds the git directory.
    pub fn path(&self) -> (path: String)
        requires
            path_parent(self@) is Some,
        ensures
            path_parent(self@) == Some(path@),
    {
        match parent_of(self.git_dir.as_str()) {
            Some(path) => path,
            None => String::new(),
        }
    }

    /// The directory that holds the git directory, where there is one.
    pub fn try_path(&self) -> (path: Option<String>)
        ensures
            match path {
                Some(p) => path_parent(self@) == Some(p@),
                None => path_parent(self@) is None,
            },
    {
        match parent_of(self.git_dir.as_str()) {
            Some(_) => Some(self.path()),
            None => None,
        }
    }

    /// The arguments with which git lists the revisions of `range_spec`.
    pub fn rev_list_args(&self, range_spec: &str) -> (args: Vec<String>)
        ensures
            views(args@) == seq!["-C"@, self@, "rev-list"@, range_spec@],
    {
        let mut args: Vec<String> = Vec::new();
        args.push(String::from_str("-C"));
        args.push(self.git_dir.clone());
        args.push(String::from_str("rev-list"));
        args.push(String::from_str(range_spec));
        assert(views(args@) =~= seq!["-C"@, self@, "rev-list"@, range_spec@]);
        args
    }
}

} // verus!
