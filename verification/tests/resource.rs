use local_ci::pool::{Pool, Pools};
use local_ci::resource::{check_wants, wanted_count, ConfigError, Resource, ResourceKey};

fn token_key(name: &str) -> ResourceKey {
    ResourceKey::UserToken(String::from(name))
}

fn tokens(items: &[&str]) -> Vec<Resource> {
    items.iter().map(|t| Resource::UserToken(String::from(*t))).collect()
}

fn worktrees(items: &[&str]) -> Vec<Resource> {
    items.iter().map(|t| Resource::Worktree(String::from(*t))).collect()
}

fn pools() -> Pools {
    Pools::new(vec![
        (token_key("gpu"), tokens(&["g0", "g1"])),
        (ResourceKey::Worktree, worktrees(&["/w/0", "/w/1", "/w/2"])),
    ])
}

#[test]
fn keys_are_the_same_by_what_they_name() {
    assert!(ResourceKey::Worktree.same(&ResourceKey::Worktree));
    assert!(token_key("a").same(&token_key("a")));
    assert!(!token_key("a").same(&token_key("b")));
    assert!(!token_key("a").same(&ResourceKey::Worktree));
    assert_eq!(Resource::UserToken(String::from("t")).text(), "t");
    assert_eq!(Resource::Worktree(String::from("/w")).text(), "/w");
    assert_eq!(Resource::Worktree(String::from("/w")).as_worktree(), "/w");
}

#[test]
fn wanted_count_reads_a_request_as_a_map() {
    let wants = vec![(token_key("gpu"), 1), (ResourceKey::Worktree, 2), (token_key("gpu"), 3)];
    assert_eq!(wanted_count(&wants, &token_key("gpu")), 3);
    assert_eq!(wanted_count(&wants, &ResourceKey::Worktree), 2);
    assert_eq!(wanted_count(&wants, &token_key("cpu")), 0);
}

#[test]
fn pool_lends_the_first_free_instances() {
    let mut pool = Pool::new(token_key("gpu"), tokens(&["a", "b", "c", "d"]));
    assert_eq!(pool.free(), 4);
    assert_eq!(pool.lend(2, 7), tokens(&["a", "b"]));
    assert_eq!(pool.free(), 2);
    assert_eq!(pool.lend(1, 8), tokens(&["c"]));
    pool.release(7);
    assert_eq!(pool.free(), 3);
    // What came back is lent again, lowest slot first.
    assert_eq!(pool.lend(3, 9), tokens(&["a", "b", "d"]));
    assert_eq!(pool.free(), 0);
    // A pool that runs out lends what it has.
    assert_eq!(pool.lend(2, 10), tokens(&[]));
    pool.release(8);
    assert_eq!(pool.lend(2, 10), tokens(&["c"]));
    // Releasing twice frees nothing more.
    pool.release(7);
    assert_eq!(pool.free(), 0);
}

#[test]
fn pools_grant_all_or_nothing() {
    let mut p = pools();
    assert_eq!(p.available(&ResourceKey::Worktree), 3);
    assert_eq!(p.available(&token_key("gpu")), 2);
    assert_eq!(p.available(&token_key("cpu")), 0);
    let both = vec![(ResourceKey::Worktree, 1), (token_key("gpu"), 2)];
    assert!(p.can_grant(&both));
    let first = p.get(1, &both).expect("not granted at once");
    assert_eq!(first.ticket(), 1);
    assert_eq!(first.resources(&ResourceKey::Worktree), Some(&worktrees(&["/w/0"])));
    assert_eq!(first.resources(&token_key("gpu")), Some(&tokens(&["g0", "g1"])));
    assert_eq!(first.resources(&token_key("cpu")), None);
    assert_eq!(
        first.tokens(),
        vec![(String::from("gpu"), vec![String::from("g0"), String::from("g1")])]
    );
    // Worktrees are left, tokens are not: nothing is taken.
    assert!(!p.can_grant(&both));
    assert!(p.get(2, &both).is_none());
    assert_eq!(p.available(&ResourceKey::Worktree), 2);
    // A key that no pool has can never be granted.
    assert!(!p.can_grant(&vec![(token_key("cpu"), 1)]));
    assert!(p.can_grant(&vec![(token_key("cpu"), 0)]));
    assert!(p.can_grant(&vec![]));
}

#[test]
fn pools_serve_the_queue_in_order() {
    let mut p = pools();
    let all_worktrees = vec![(ResourceKey::Worktree, 3)];
    let one_worktree = vec![(ResourceKey::Worktree, 1)];
    let one_gpu = vec![(token_key("gpu"), 1)];
    let first = p.get(1, &one_worktree).unwrap();
    // The big request waits, and keeps the small ones behind it waiting
    // though they could be granted.
    assert!(p.get(2, &all_worktrees).is_none());
    assert!(p.get(3, &one_worktree).is_none());
    assert!(p.get(4, &one_gpu).is_none());
    let granted = p.put(first);
    assert_eq!(granted.iter().map(|h| h.ticket()).collect::<Vec<_>>(), vec![2]);
    assert_eq!(granted[0].resources(&ResourceKey::Worktree), Some(&worktrees(&["/w/0", "/w/1", "/w/2"])));
    // Ticket 3 waits for a worktree and ticket 4 waits behind it, though the
    // token that it asks for is free.
    assert_eq!(p.available(&token_key("gpu")), 2);
    let mut granted = granted;
    let big = granted.remove(0);
    let after = p.put(big);
    assert_eq!(after.iter().map(|h| h.ticket()).collect::<Vec<_>>(), vec![3, 4]);
    assert_eq!(after[0].resources(&ResourceKey::Worktree), Some(&worktrees(&["/w/0"])));
    assert_eq!(after[1].resources(&token_key("gpu")), Some(&tokens(&["g0"])));
}

#[test]
fn withdrawing_a_request_lets_the_next_go() {
    let mut p = pools();
    let all_worktrees = vec![(ResourceKey::Worktree, 3)];
    let one_worktree = vec![(ResourceKey::Worktree, 1)];
    let _first = p.get(1, &one_worktree).unwrap();
    assert!(p.get(2, &all_worktrees).is_none());
    assert!(p.get(3, &one_worktree).is_none());
    let granted = p.cancel(2);
    assert_eq!(granted.iter().map(|h| h.ticket()).collect::<Vec<_>>(), vec![3]);
    assert_eq!(granted[0].resources(&ResourceKey::Worktree), Some(&worktrees(&["/w/1"])));
    // Forgetting does not serve the queue; leaving does.
    assert!(p.get(4, &all_worktrees).is_none());
    assert!(p.get(5, &one_worktree).is_none());
    p.forget(4);
    assert_eq!(p.available(&ResourceKey::Worktree), 1);
    let granted = p.leave(1);
    assert_eq!(granted.iter().map(|h| h.ticket()).collect::<Vec<_>>(), vec![5]);
    assert_eq!(p.available(&ResourceKey::Worktree), 1);
}

#[test]
fn a_later_pool_for_a_key_replaces_the_earlier() {
    let mut p = Pools::new(vec![
        (token_key("gpu"), tokens(&["old"])),
        (ResourceKey::Worktree, worktrees(&["/w/0"])),
        (token_key("gpu"), tokens(&["new0", "new1"])),
    ]);
    assert_eq!(p.available(&token_key("gpu")), 2);
    let handle = p.get(1, &vec![(token_key("gpu"), 2)]).unwrap();
    assert_eq!(handle.resources(&token_key("gpu")), Some(&tokens(&["new0", "new1"])));
    let empty = Pools::empty();
    assert_eq!(empty.available(&ResourceKey::Worktree), 0);
}

#[test]
fn check_wants_finds_the_first_fault() {
    let defined = vec![token_key("gpu"), ResourceKey::Worktree];
    assert_eq!(check_wants(&vec![(token_key("gpu"), 1), (ResourceKey::Worktree, 1)], &defined), Ok(()));
    assert_eq!(check_wants(&vec![], &defined), Ok(()));
    assert_eq!(
        check_wants(&vec![(token_key("gpu"), 1), (token_key("gpu"), 1)], &defined),
        Err(ConfigError::DuplicateResource(token_key("gpu")))
    );
    assert_eq!(
        check_wants(&vec![(token_key("cpu"), 1), (token_key("gpu"), 1)], &defined),
        Err(ConfigError::UndefinedResource(token_key("cpu")))
    );
    assert_eq!(
        check_wants(&vec![(token_key("cpu"), 1), (token_key("cpu"), 1)], &defined),
        Err(ConfigError::UndefinedResource(token_key("cpu")))
    );
}
