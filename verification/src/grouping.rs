//! Keyed groups: a sequence of `(key, values)` pairs looked up by first
//! matching key. This is the mathematical model shared by the folder index
//! and by the groupings that `OrganizedFiles` maintains.

use vstd::prelude::*;

verus! {

/// Index of the first pair whose key is `k`, or `groups.len()` when absent.
pub open spec fn key_index<K, V>(groups: Seq<(K, Seq<V>)>, k: K) -> int
    decreases groups.len(),
{
    if groups.len() == 0 {
        0
    } else if groups[0].0 == k {
        0
    } else {
        1 + key_index(groups.drop_first(), k)
    }
}

/// Some pair carries the key `k`.
pub open spec fn groups_has_key<K, V>(groups: Seq<(K, Seq<V>)>, k: K) -> bool {
    key_index(groups, k) < groups.len()
}

/// The values grouped under `k`, if any pair carries that key.
pub open spec fn groups_lookup<K, V>(groups: Seq<(K, Seq<V>)>, k: K) -> Option<Seq<V>> {
    if groups_has_key(groups, k) {
        Some(groups[key_index(groups, k)].1)
    } else {
        None
    }
}

/// Append `v` to the group keyed by `k`, or open a new group at the end.
pub open spec fn groups_insert<K, V>(groups: Seq<(K, Seq<V>)>, k: K, v: V) -> Seq<(K, Seq<V>)> {
    if groups_has_key(groups, k) {
        let i = key_index(groups, k);
        groups.update(i, (k, groups[i].1.push(v)))
    } else {
        groups.push((k, seq![v]))
    }
}

/// No two pairs carry the same key.
pub open spec fn distinct_keys<K, V>(groups: Seq<(K, Seq<V>)>) -> bool {
    forall|i: int, j: int| 0 <= i < j < groups.len() ==> groups[i].0 != groups[j].0
}

/// `key_index` stays within `0 ..= groups.len()`, points at the key when it
/// is present, and skips no earlier occurrence.
pub proof fn lemma_key_index<K, V>(groups: Seq<(K, Seq<V>)>, k: K)
    ensures
        0 <= key_index(groups, k) <= groups.len(),
        key_index(groups, k) < groups.len() ==> groups[key_index(groups, k)].0 == k,
        forall|j: int| 0 <= j < key_index(groups, k) ==> groups[j].0 != k,
    decreases groups.len(),
{
    if groups.len() == 0 {
    } else if groups[0].0 == k {
    } else {
        lemma_key_index(groups.drop_first(), k);
        let rest = groups.drop_first();
        if key_index(groups, k) < groups.len() {
            assert(groups[key_index(groups, k)] == rest[key_index(rest, k)]);
        }
        assert forall|j: int| 0 <= j < key_index(groups, k) implies groups[j].0 != k by {
            if j >= 1 {
                assert(groups[j] == rest[j - 1]);
            }
        }
    }
}

/// Conversely, a position with the key and no earlier occurrence is the
/// `key_index`; so is `groups.len()` when the key never occurs.
pub proof fn lemma_key_index_of<K, V>(groups: Seq<(K, Seq<V>)>, k: K, i: int)
    requires
        0 <= i <= groups.len(),
        i < groups.len() ==> groups[i].0 == k,
        forall|j: int| 0 <= j < i ==> groups[j].0 != k,
    ensures
        key_index(groups, k) == i,
    decreases groups.len(),
{
    if groups.len() == 0 {
    } else if groups[0].0 == k {
        assert(i == 0);
    } else {
        assert(i >= 1);
        assert(forall|j: int|
            0 <= j < groups.drop_first().len() ==> groups.drop_first()[j] == groups[j + 1]);
        lemma_key_index_of(groups.drop_first(), k, i - 1);
    }
}

/// A key occurs somewhere exactly when `groups_has_key` says so.
pub proof fn lemma_has_key_exists<K, V>(groups: Seq<(K, Seq<V>)>, k: K)
    ensures
        groups_has_key(groups, k) <==> exists|i: int| 0 <= i < groups.len() && groups[i].0 == k,
{
    lemma_key_index(groups, k);
    if groups_has_key(groups, k) {
        assert(groups[key_index(groups, k)].0 == k);
    } else {
        assert(forall|j: int| 0 <= j < groups.len() ==> groups[j].0 != k);
    }
}

/// Inserting never merges distinct keys: distinctness is preserved.
pub proof fn lemma_insert_preserves_distinct<K, V>(groups: Seq<(K, Seq<V>)>, k: K, v: V)
    requires
        distinct_keys(groups),
    ensures
        distinct_keys(groups_insert(groups, k, v)),
{
    lemma_key_index(groups, k);
    if groups_has_key(groups, k) {
        let i = key_index(groups, k);
        let updated = groups.update(i, (k, groups[i].1.push(v)));
        assert(forall|j: int| 0 <= j < updated.len() ==> updated[j].0 == groups[j].0);
    } else {
        lemma_has_key_exists(groups, k);
        let pushed = groups.push((k, seq![v]));
        assert(forall|j: int| 0 <= j < groups.len() ==> pushed[j] == groups[j]);
    }
}

} // verus!
