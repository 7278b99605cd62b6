//! The results that were seen before, by what was tested.

use crate::test::{ConfigHash, TestName, TestResult};
use vstd::prelude::*;

verus! {

/// What identifies a result: the hash of what was tested, the test's name and
/// the digest of the test's configuration.
pub type ResultKey = (Seq<char>, Seq<char>, ConfigHash);

/// One stored result.
struct Entry {
    hash: String,
    test_name: TestName,
    config_hash: ConfigHash,
    result: TestResult,
}

/// An entry in contracts.
pub struct EntryView {
    pub key: ResultKey,
    pub result: TestResult,
}

impl View for Entry {
    type V = EntryView;

    closed spec fn view(&self) -> EntryView {
        EntryView { key: (self.hash@, self.test_name@, self.config_hash), result: self.result }
    }
}

/// The results that the first `i` entries hold; a later entry for a key
/// replaces an earlier one.
pub open spec fn results_below(entries: Seq<EntryView>, i: int) -> Map<ResultKey, TestResult>
    decreases i,
{
    if i <= 0 {
        Map::empty()
    } else {
        results_below(entries, i - 1).insert(entries[i - 1].key, entries[i - 1].result)
    }
}

/// Entries that agree up to `i` hold the same results up to `i`.
proof fn lemma_results_prefix(a: Seq<EntryView>, b: Seq<EntryView>, i: int)
    requires
        0 <= i <= a.len(),
        i <= b.len(),
        forall|k: int| 0 <= k < i ==> a[k] == b[k],
    ensures
        results_below(a, i) == results_below(b, i),
    decreases i,
{
    if i > 0 {
        lemma_results_prefix(a, b, i - 1);
    }
}

/// Replacing the result of the last entry for a key stores that result for
/// the key and changes nothing else.
proof fn lemma_results_update(entries: Seq<EntryView>, j: int, result: TestResult, n: int)
    requires
        0 <= j < n <= entries.len(),
        forall|k: int| j < k < n ==> entries[k].key != entries[j].key,
    ensures
        results_below(entries.update(j, EntryView { key: entries[j].key, result }), n)
            == results_below(entries, n).insert(entries[j].key, result),
    decreases n,
{
    let changed = entries.update(j, EntryView { key: entries[j].key, result });
    if n == j + 1 {
        lemma_results_prefix(entries, changed, j);
        assert(results_below(changed, n) =~= results_below(entries, n).insert(
            entries[j].key,
            result,
        ));
    } else {
        lemma_results_update(entries, j, result, n - 1);
        assert(results_below(changed, n) =~= results_below(entries, n).insert(
            entries[j].key,
            result,
        ));
    }
}

/// The results of earlier runs. It holds at most one result for a key, and
/// only grows.
pub struct Database {
    entries: Vec<Entry>,
}

impl View for Database {
    type V = Map<ResultKey, TestResult>;

    closed spec fn view(&self) -> Map<ResultKey, TestResult> {
        results_below(self.entries@.map_values(|e: Entry| e@), self.entries@.len() as int)
    }
}

impl Database {
    /// A database without results.
    pub fn new() -> (db: Database)
        ensures
            db@ == Map::<ResultKey, TestResult>::empty(),
    {
        Database { entries: Vec::new() }
    }

    /// The index of the last entry for the key, if there is one.
    fn find(&self, hash: &String, test_name: &TestName, config_hash: ConfigHash) -> (found: Option<
        usize,
    >)
        ensures
            match found {
                Some(j) => j < self.entries@.len() && self.entries@[j as int]@.key == (
                    hash@,
                    test_name@,
                    config_hash,
                ) && forall|k: int|
                    j < k < self.entries@.len() ==> (#[trigger] self.entries@[k])@.key != (
                        hash@,
                        test_name@,
                        config_hash,
                    ),
                None => !self@.contains_key((hash@, test_name@, config_hash)),
            },
            found matches Some(j) ==> self@.contains_key((hash@, test_name@, config_hash))
                && self@[(hash@, test_name@, config_hash)] == self.entries@[j as int].result,
    {
        let ghost entries = self.entries@.map_values(|e: Entry| e@);
        let ghost key = (hash@, test_name@, config_hash);
        let mut found: Option<usize> = None;
        let mut i: usize = 0;
        while i < self.entries.len()
            invariant
                i <= self.entries.len(),
                entries == self.entries@.map_values(|e: Entry| e@),
                key == (hash@, test_name@, config_hash),
                match found {
                    Some(j) => j < i && entries[j as int].key == key && results_below(
                        entries,
                        i as int,
                    ).contains_key(key) && results_below(entries, i as int)[key]
                        == entries[j as int].result && forall|k: int|
                        j < k < i ==> (#[trigger] entries[k]).key != key,
                    None => !results_below(entries, i as int).contains_key(key),
                },
            decreases self.entries.len() - i,
        {
            let e = &self.entries[i];
            if e.config_hash == config_hash && e.hash == *hash && e.test_name.same(test_name) {
                found = Some(i);
            }
            i += 1;
        }
        proof {
            if let Some(j) = found {
                assert forall|k: int| j < k < self.entries@.len() implies (
                #[trigger] self.entries@[k])@.key != key by {
                    assert(entries[k] == self.entries@[k]@);
                }
            }
        }
        found
    }

    /// The result stored for the key, if there is one.
    pub fn cached_result(&self, hash: &String, test_name: &TestName, config_hash: ConfigHash) -> (found:
        Option<TestResult>)
        ensures
            found == if self@.contains_key((hash@, test_name@, config_hash)) {
                Some(self@[(hash@, test_name@, config_hash)])
            } else {
                None
            },
    {
        match self.find(hash, test_name, config_hash) {
            Some(j) => Some(self.entries[j].result.clone()),
            None => None,
        }
    }

    /// Stores `result` for the key, in the place of what was stored for it.
    pub fn set_result(
        &mut self,
        hash: &String,
        test_name: &TestName,
        config_hash: ConfigHash,
        result: &TestResult,
    )
        ensures
            final(self)@ == old(self)@.insert((hash@, test_name@, config_hash), *result),
    {
        let ghost entries = self.entries@.map_values(|e: Entry| e@);
        let ghost key = (hash@, test_name@, config_hash);
        match self.find(hash, test_name, config_hash) {
            Some(j) => {
                let entry = Entry {
                    hash: hash.clone(),
                    test_name: test_name.clone(),
                    config_hash,
                    result: result.clone(),
                };
                self.entries.set(j, entry);
                proof {
                    lemma_results_update(entries, j as int, *result, entries.len() as int);
                    assert(self.entries@.map_values(|e: Entry| e@) =~= entries.update(
                        j as int,
                        EntryView { key, result: *result },
                    ));
                }
            },
            None => {
                let entry = Entry {
                    hash: hash.clone(),
                    test_name: test_name.clone(),
                    config_hash,
                    result: result.clone(),
                };
                self.entries.push(entry);
                proof {
                    let after = self.entries@.map_values(|e: Entry| e@);
                    assert(after =~= entries.push(EntryView { key, result: *result }));
                    lemma_results_prefix(entries, after, entries.len() as int);
                }
            },
        }
    }
}

} // verus!
