use local_ci::git::{
    gitdir_pointer, judge_origin, read_rev_list, split_lines, worktree_origin, Debounce, DotGit,
    OpenError, Repo, RevListError, WatchAction, WatchEvent, DEBOUNCE_SECONDS,
};
use local_ci::process::ChildExit;

fn pointer(content: &str, origin_is_dir: bool) -> DotGit {
    DotGit::File { content: String::from(content), origin_is_dir }
}

#[test]
fn test_new_gitdir_notgit() {
    assert!(
        Repo::open(String::from("/tmp/somewhere"), &DotGit::Missing).is_err(),
        "opening repo with no .git didn't fail"
    );
    assert_eq!(
        Repo::open(String::from("/tmp/somewhere"), &DotGit::Missing).err(),
        Some(OpenError::NoDotGit)
    );
}

#[test]
fn test_new_gitdir_file_notgit() {
    assert!(
        Repo::open(String::from("/tmp/somewhere"), &pointer("no no no", true)).is_err(),
        "opening repo with bogus .git file didn't fail"
    );
    assert_eq!(
        Repo::open(String::from("/tmp/somewhere"), &pointer("no no no", true)).err(),
        Some(OpenError::NotAPointer)
    );
}

#[test]
fn test_new_gitdir() {
    let repo =
        Repo::open(String::from("/tmp/somewhere"), &DotGit::Directory).expect("failed to open repo");
    assert_eq!(repo.git_dir(), "/tmp/somewhere");
}

#[test]
fn test_new_gitdir_worktree() {
    let content = "gitdir: /tmp/origin/.git/worktrees/foo\n";
    let repo = Repo::open(String::from("/tmp/worktree"), &pointer(content, true))
        .expect("failed to open repo");
    assert_eq!(repo.git_dir(), "/tmp/origin/.git");
    assert_eq!(repo.path(), "/tmp/origin");
    assert_eq!(repo.try_path(), Some(String::from("/tmp/origin")));
}

#[test]
fn open_worktree_errors() {
    let open = |content: &str, is_dir: bool| {
        Repo::open(String::from("/tmp/worktree"), &pointer(content, is_dir)).err()
    };
    assert_eq!(
        open("gitdir: /tmp/origin/.git/worktrees/foo\n", false),
        Some(OpenError::NotARepository)
    );
    assert_eq!(open("gitdir: /tmp/origin/.git/elsewhere/foo\n", true), Some(OpenError::NotWorktrees));
    assert_eq!(open("gitdir: /", true), Some(OpenError::NoParent));
    assert_eq!(open("gitdir: worktrees/foo", true), None);
    assert_eq!(open("gitdir: /worktrees/foo", true), None);
    assert_eq!(open("gitdir: foo", true), Some(OpenError::NotWorktrees));
    assert_eq!(open("gitdir:/tmp/origin/.git/worktrees/foo\n", true), Some(OpenError::NotAPointer));
    assert_eq!(open("gitdir", true), Some(OpenError::NotAPointer));
    assert_eq!(open("", true), Some(OpenError::NotAPointer));
}

#[test]
fn gitdir_pointer_strips_prefix_and_one_newline() {
    assert_eq!(gitdir_pointer("gitdir: /a/b\n"), Some(String::from("/a/b")));
    assert_eq!(gitdir_pointer("gitdir: /a/b"), Some(String::from("/a/b")));
    assert_eq!(gitdir_pointer("gitdir: /a/b\n\n"), Some(String::from("/a/b\n")));
    assert_eq!(gitdir_pointer("gitdir: "), Some(String::from("")));
    assert_eq!(gitdir_pointer("gitdir: \n"), Some(String::from("")));
    assert_eq!(gitdir_pointer("gitdir: /ä/ö\n"), Some(String::from("/ä/ö")));
    assert_eq!(gitdir_pointer("Gitdir: /a/b\n"), None);
    assert_eq!(gitdir_pointer(" gitdir: /a/b\n"), None);
}

#[test]
fn worktree_origin_follows_the_path() {
    assert_eq!(worktree_origin("/r/.git/worktrees/w"), Ok(String::from("/r/.git")));
    assert_eq!(worktree_origin("/r/.git/worktrees/w/"), Ok(String::from("/r/.git")));
    assert_eq!(worktree_origin("/r/.git/worktree/w"), Err(OpenError::NotWorktrees));
    assert_eq!(worktree_origin(""), Err(OpenError::NoParent));
    assert_eq!(worktree_origin("worktrees/w"), Ok(String::from("")));
}

#[test]
fn judge_origin_decides_from_the_parts() {
    let some = |s: &str| Some(String::from(s));
    assert_eq!(judge_origin(some("/g/worktrees"), some("worktrees"), some("/g")), Ok(String::from("/g")));
    assert_eq!(judge_origin(None, some("worktrees"), some("/g")), Err(OpenError::NoParent));
    assert_eq!(judge_origin(some("/g/w"), some("w"), some("/g")), Err(OpenError::NotWorktrees));
    assert_eq!(judge_origin(some("/g/w"), None, some("/g")), Err(OpenError::NotWorktrees));
    assert_eq!(judge_origin(some("worktrees"), some("worktrees"), None), Err(OpenError::NoParent));
}

#[test]
fn repo_path_and_rev_list_args() {
    let repo = Repo::open(String::from("/"), &DotGit::Directory).unwrap();
    assert_eq!(repo.try_path(), None);
    let repo = Repo::open(String::from("/a/b"), &DotGit::Directory).unwrap();
    assert_eq!(repo.try_path(), Some(String::from("/a")));
    assert_eq!(repo.rev_list_args("HEAD^..HEAD"), vec!["-C", "/a/b", "rev-list", "HEAD^..HEAD"]);
}

fn lines(s: &str) -> Vec<String> {
    split_lines(s.as_bytes()).iter().map(|l| String::from_utf8(l.to_vec()).unwrap()).collect()
}

#[test]
fn split_lines_leaves_out_empty_lines() {
    assert_eq!(lines("a\nbc\n"), vec!["a", "bc"]);
    assert_eq!(lines("a\nbc"), vec!["a", "bc"]);
    assert_eq!(lines("\n\na\n\n\nbc\n\n"), vec!["a", "bc"]);
    assert_eq!(lines("abc"), vec!["abc"]);
    assert_eq!(lines("\n"), Vec::<String>::new());
    assert_eq!(lines(""), Vec::<String>::new());
    assert_eq!(lines("a b\r\n"), vec!["a b\r"]);
}

#[test]
fn read_rev_list_reads_the_exit_code_first() {
    let out = b"abc\ndef\n";
    assert_eq!(
        read_rev_list(ChildExit::Exited(0), out),
        Ok(vec![&b"abc"[..], &b"def"[..]])
    );
    // An invalid range holds no revisions, whatever git wrote.
    assert_eq!(read_rev_list(ChildExit::Exited(128), out), Ok(vec![]));
    assert_eq!(read_rev_list(ChildExit::Exited(1), out), Err(RevListError::Failed(1)));
    assert_eq!(read_rev_list(ChildExit::Exited(-1), out), Err(RevListError::Failed(-1)));
    assert_eq!(
        read_rev_list(ChildExit::Signaled(9), out),
        Err(RevListError::Killed(String::from("terminated by signal 9")))
    );
    assert_eq!(read_rev_list(ChildExit::Exited(0), b""), Ok(vec![]));
}

#[test]
fn debounce_lists_once_for_changes_that_come_together() {
    assert_eq!(DEBOUNCE_SECONDS, 1);
    let mut d = Debounce::new();
    assert!(!d.armed);
    assert_eq!(d.step(WatchEvent::Changed), WatchAction::StartTimer);
    assert_eq!(d.step(WatchEvent::Changed), WatchAction::Nothing);
    assert_eq!(d.step(WatchEvent::Changed), WatchAction::Nothing);
    assert_eq!(d.step(WatchEvent::TimerFired), WatchAction::ListRevisions);
    assert!(!d.armed);
    assert_eq!(d.step(WatchEvent::Changed), WatchAction::StartTimer);
    assert_eq!(d.step(WatchEvent::Closed), WatchAction::Stop);
    assert!(d.armed);
}
