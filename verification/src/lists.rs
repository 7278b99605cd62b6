//! Small helpers on sequences that the rest of the crate shares.

use vstd::prelude::*;

verus! {

/// The views of the elements of `s`, in order.
pub open spec fn views<T: View>(s: Seq<T>) -> Seq<T::V> {
    s.map_values(|t: T| t@)
}

/// The last index below `i` at which `keys` holds `key`.
pub open spec fn slot_below<T>(keys: Seq<T>, key: T, i: int) -> Option<int>
    decreases i,
{
    if i <= 0 {
        None
    } else if keys[i - 1] == key {
        Some(i - 1)
    } else {
        slot_below(keys, key, i - 1)
    }
}

/// The last index at which `keys` holds `key`: of two entries for one key the
/// later one counts, as in a map filled in order.
pub open spec fn slot_of<T>(keys: Seq<T>, key: T) -> Option<int> {
    slot_below(keys, key, keys.len() as int)
}

/// What `slot_below` finds is an index below `i` that holds the key, and
/// where it finds nothing the key is at no index below `i`.
pub proof fn lemma_slot_below<T>(keys: Seq<T>, key: T, i: int)
    requires
        0 <= i <= keys.len(),
    ensures
        match slot_below(keys, key, i) {
            Some(j) => 0 <= j < i && keys[j] == key && forall|k: int| j < k < i ==> keys[k] != key,
            None => forall|k: int| 0 <= k < i ==> keys[k] != key,
        },
    decreases i,
{
    if i > 0 {
        lemma_slot_below(keys, key, i - 1);
    }
}

} // verus!
