//! The resources that jobs borrow for as long as they run: user-defined
//! tokens and worktrees, and the requests that tests make for them.

use crate::lists::{slot_below, slot_of, views};
use vstd::prelude::*;

verus! {


/// What a [`ResourceKey`] is in contracts.
pub enum KeyView {
    Worktree,
    UserToken(Seq<char>),
}

/// Names one pool: the worktrees, or the tokens of one user-defined resource.
#[derive(Debug, PartialEq, Eq, Hash)]
pub enum ResourceKey {
    Worktree,
    UserToken(String),
}

impl View for ResourceKey {
    type V = KeyView;

    open spec fn view(&self) -> KeyView {
        match self {
            ResourceKey::Worktree => KeyView::Worktree,
            ResourceKey::UserToken(name) => KeyView::UserToken(name@),
        }
    }
}

impl Clone for ResourceKey {
    fn clone(&self) -> (res: Self)
        ensures
            res == *self,
    {
        match self {
            ResourceKey::Worktree => ResourceKey::Worktree,
            ResourceKey::UserToken(name) => ResourceKey::UserToken(name.clone()),
        }
    }
}

impl ResourceKey {
    /// Whether two keys name the same pool.
    pub fn same(&self, other: &ResourceKey) -> (b: bool)
        ensures
            b == (self@ == other@),
    {
        match (self, other) {
            (ResourceKey::Worktree, ResourceKey::Worktree) => true,
            (ResourceKey::UserToken(a), ResourceKey::UserToken(b)) => *a == *b,
            _ => false,
        }
    }
}

/// What a [`Resource`] is in contracts.
pub enum ResourceView {
    Worktree(Seq<char>),
    UserToken(Seq<char>),
}

/// One instance that a job can hold: a worktree, given by the path of its
/// directory, or a token of a user-defined resource.
#[derive(Debug, PartialEq, Eq)]
pub enum Resource {
    Worktree(String),
    UserToken(String),
}

impl View for Resource {
    type V = ResourceView;

    open spec fn view(&self) -> ResourceView {
        match self {
            Resource::Worktree(path) => ResourceView::Worktree(path@),
            Resource::UserToken(token) => ResourceView::UserToken(token@),
        }
    }
}

impl Clone for Resource {
    fn clone(&self) -> (res: Self)
        ensures
            res == *self,
    {
        match self {
            Resource::Worktree(path) => Resource::Worktree(path.clone()),
            Resource::UserToken(token) => Resource::UserToken(token.clone()),
        }
    }
}

impl Resource {
    /// The path of a worktree, or the token.
    pub fn text(&self) -> (s: &String)
        ensures
            s@ == text(self@),
    {
        match self {
            Resource::Worktree(path) => path,
            Resource::UserToken(token) => token,
        }
    }

    /// The path of the worktree that this resource is.
    pub fn as_worktree(&self) -> (path: &String)
        requires
            self is Worktree,
        ensures
            self@ == ResourceView::Worktree(path@),
    {
        match self {
            Resource::Worktree(path) => path,
            Resource::UserToken(token) => token,
        }
    }
}

/// A request in contracts: keys and how many instances of each.
pub open spec fn wants_view(wants: Seq<(ResourceKey, usize)>) -> Seq<(KeyView, nat)> {
    wants.map_values(|w: (ResourceKey, usize)| (w.0@, w.1 as nat))
}

/// The keys of a request, in order.
pub open spec fn want_keys(wants: Seq<(KeyView, nat)>) -> Seq<KeyView> {
    wants.map_values(|w: (KeyView, nat)| w.0)
}

/// How many instances of `key` the request asks for.
pub open spec fn wanted(wants: Seq<(KeyView, nat)>, key: KeyView) -> nat {
    match slot_of(want_keys(wants), key) {
        Some(i) => wants[i].1,
        None => 0,
    }
}

/// The count that `wants` holds for `key`.
pub fn wanted_count(wants: &Vec<(ResourceKey, usize)>, key: &ResourceKey) -> (n: usize)
    ensures
        n == wanted(wants_view(wants@), key@),
{
    let ghost keys = want_keys(wants_view(wants@));
    let mut n: usize = 0;
    let mut i: usize = 0;
    while i < wants.len()
        invariant
            i <= wants.len(),
            keys == want_keys(wants_view(wants@)),
            match slot_below(keys, key@, i as int) {
                Some(j) => 0 <= j < i && n == wants@[j].1,
                None => n == 0,
            },
        decreases wants.len() - i,
    {
        if wants[i].0.same(key) {
            n = wants[i].1;
        }
        i += 1;
    }
    n
}

/// The text of an instance: the path of a worktree, or a token.
pub open spec fn text(r: ResourceView) -> Seq<char> {
    match r {
        ResourceView::Worktree(path) => path,
        ResourceView::UserToken(token) => token,
    }
}

/// What a [`ConfigError`] is in contracts.
pub enum ConfigFault {
    DuplicateResource(KeyView),
    UndefinedResource(KeyView),
}

/// A test refers to resources in a way that no pool can serve.
#[derive(Debug, PartialEq, Eq)]
pub enum ConfigError {
    /// The test names this resource twice.
    DuplicateResource(ResourceKey),
    /// No such resource is defined.
    UndefinedResource(ResourceKey),
}

impl View for ConfigError {
    type V = ConfigFault;

    open spec fn view(&self) -> ConfigFault {
        match self {
            ConfigError::DuplicateResource(key) => ConfigFault::DuplicateResource(key@),
            ConfigError::UndefinedResource(key) => ConfigFault::UndefinedResource(key@),
        }
    }
}

/// What is wrong with entry `i` of a request, where `defined` are the keys
/// that have a pool: it repeats the key of an earlier entry, or its key has no pool.
pub open spec fn entry_fault(wants: Seq<(KeyView, nat)>, defined: Seq<KeyView>, i: int) -> Option<
    ConfigFault,
> {
    if slot_below(want_keys(wants), wants[i].0, i) is Some {
        Some(ConfigFault::DuplicateResource(wants[i].0))
    } else if !defined.contains(wants[i].0) {
        Some(ConfigFault::UndefinedResource(wants[i].0))
    } else {
        None
    }
}

/// The fault of the first faulty entry among the first `i` of a request.
pub open spec fn wants_fault(wants: Seq<(KeyView, nat)>, defined: Seq<KeyView>, i: int) -> Option<
    ConfigFault,
>
    decreases i,
{
    if i <= 0 {
        None
    } else {
        match wants_fault(wants, defined, i - 1) {
            Some(fault) => Some(fault),
            None => entry_fault(wants, defined, i - 1),
        }
    }
}

/// Once a fault is found, later entries do not change it.
proof fn lemma_fault_stays(wants: Seq<(KeyView, nat)>, defined: Seq<KeyView>, i: int, n: int)
    requires
        i <= n,
        wants_fault(wants, defined, i) is Some,
    ensures
        wants_fault(wants, defined, n) == wants_fault(wants, defined, i),
    decreases n - i,
{
    if i < n {
        lemma_fault_stays(wants, defined, i, n - 1);
    }
}

/// Whether `key` is among `keys`.
pub fn key_in(keys: &Vec<ResourceKey>, key: &ResourceKey) -> (b: bool)
    ensures
        b == views(keys@).contains(key@),
{
    let mut i: usize = 0;
    while i < keys.len()
        invariant
            i <= keys.len(),
            forall|j: int| 0 <= j < i ==> views(keys@)[j] != key@,
        decreases keys.len() - i,
    {
        if keys[i].same(key) {
            assert(views(keys@)[i as int] == key@);
            return true;
        }
        i += 1;
    }
    false
}

/// Checks that a request names no key twice and only keys among `defined`.
/// The error is that of the first entry at fault.
pub fn check_wants(wants: &Vec<(ResourceKey, usize)>, defined: &Vec<ResourceKey>) -> (checked:
    Result<(), ConfigError>)
    ensures
        match checked {
            Ok(_) => wants_fault(wants_view(wants@), views(defined@), wants@.len() as int) is None,
            Err(e) => wants_fault(wants_view(wants@), views(defined@), wants@.len() as int) == Some(
                e@,
            ),
        },
{
    let ghost wv = wants_view(wants@);
    let ghost keys = want_keys(wv);
    let mut i: usize = 0;
    while i < wants.len()
        invariant
            i <= wants.len(),
            wv == wants_view(wants@),
            keys == want_keys(wv),
            wants_fault(wv, views(defined@), i as int) is None,
        decreases wants.len() - i,
    {
        let key = &wants[i].0;
        assert(key@ == wv[i as int].0);
        let mut repeated = false;
        let mut j: usize = 0;
        while j < i
            invariant
                j <= i,
                i < wants.len(),
                wv == wants_view(wants@),
                keys == want_keys(wv),
                key@ == wv[i as int].0,
                repeated == (slot_below(keys, key@, j as int) is Some),
            decreases i - j,
        {
            if wants[j].0.same(key) {
                repeated = true;
            }
            j += 1;
        }
        if repeated {
            proof {
                lemma_fault_stays(wv, views(defined@), i + 1, wants@.len() as int);
            }
            return Err(ConfigError::DuplicateResource(key.clone()));
        }
        if !key_in(defined, key) {
            proof {
                lemma_fault_stays(wv, views(defined@), i + 1, wants@.len() as int);
            }
            return Err(ConfigError::UndefinedResource(key.clone()));
        }
        i += 1;
    }
    Ok(())
}

} // verus!
