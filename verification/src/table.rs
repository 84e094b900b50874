//! Spec-level view of a keyed table stored as a vector of key/value pairs.
//!
//! The coordinator keeps its player and game tables as `Vec<(K, V)>` with
//! pairwise-distinct keys; these functions give contracts a map-like
//! vocabulary over the sequence view of such a vector.

use vstd::prelude::*;

verus! {

/// The keys of the table, in storage order.
pub open spec fn keys<K, V>(s: Seq<(K, V)>) -> Seq<K> {
    s.map_values(|p: (K, V)| p.0)
}

/// Some entry carries key `k`.
pub open spec fn has_key<K, V>(s: Seq<(K, V)>, k: K) -> bool {
    exists|i: int| 0 <= i < s.len() && s[i].0 == k
}

/// No two entries share a key.
pub open spec fn keys_unique<K, V>(s: Seq<(K, V)>) -> bool {
    forall|i: int, j: int| 0 <= i < j < s.len() ==> s[i].0 != s[j].0
}

/// The index of the entry carrying key `k` (meaningful when `has_key`).
pub open spec fn key_index<K, V>(s: Seq<(K, V)>, k: K) -> int {
    choose|i: int| 0 <= i < s.len() && s[i].0 == k
}

/// The value stored under key `k` (meaningful when `has_key`).
pub open spec fn lookup<K, V>(s: Seq<(K, V)>, k: K) -> V {
    s[key_index(s, k)].1
}

/// When keys are unique, any entry with key `k` sits at `key_index(s, k)`.
pub proof fn lemma_key_index_unique<K, V>(s: Seq<(K, V)>, k: K, i: int)
    requires
        keys_unique(s),
        0 <= i < s.len(),
        s[i].0 == k,
    ensures
        key_index(s, k) == i,
        has_key(s, k),
        lookup(s, k) == s[i].1,
{
    assert(has_key(s, k));
    let j = key_index(s, k);
    assert(0 <= j < s.len() && s[j].0 == k);
    if i < j {
        assert(s[i].0 != s[j].0);
    } else if j < i {
        assert(s[j].0 != s[i].0);
    }
}

/// A table with pairwise-distinct keys has pairwise-distinct key sequence.
pub proof fn lemma_keys_no_duplicates<K, V>(s: Seq<(K, V)>)
    requires
        keys_unique(s),
    ensures
        keys(s).no_duplicates(),
{
    assert forall|i: int, j: int|
        0 <= i < keys(s).len() && 0 <= j < keys(s).len() && i != j implies keys(s)[i] != keys(
        s,
    )[j] by {
        if i < j {
            assert(s[i].0 != s[j].0);
        } else {
            assert(s[j].0 != s[i].0);
        }
    }
}

/// Taking an entry out and putting another back at the same place is an
/// update.
pub proof fn lemma_remove_insert<A>(s: Seq<A>, i: int, x: A)
    requires
        0 <= i < s.len(),
    ensures
        s.remove(i).insert(i, x) == s.update(i, x),
{
    assert(s.remove(i).insert(i, x) =~= s.update(i, x));
}

/// Removing an entry from a duplicate-free sequence keeps it duplicate-free,
/// drops exactly that entry's value, and keeps every other value.
pub proof fn lemma_remove_no_dup<A>(s: Seq<A>, i: int)
    requires
        s.no_duplicates(),
        0 <= i < s.len(),
    ensures
        s.remove(i).no_duplicates(),
        !s.remove(i).contains(s[i]),
        forall|x: A| x != s[i] ==> (s.remove(i).contains(x) <==> s.contains(x)),
{
    let t = s.remove(i);
    assert forall|x: A| x != s[i] && s.contains(x) implies t.contains(x) by {
        let j = choose|j: int| 0 <= j < s.len() && s[j] == x;
        if j < i {
            assert(t[j] == x);
        } else {
            assert(t[j - 1] == x);
        }
    }
    if t.contains(s[i]) {
        let j = choose|j: int| 0 <= j < t.len() && t[j] == s[i];
        if j < i {
            assert(s[j] == s[i]);
        } else {
            assert(s[j + 1] == s[i]);
        }
    }
}

/// Among the integers `0 ..= s.len()` at least one is missing from `s`:
/// there are more candidates than entries.
pub proof fn lemma_missing_small_int(s: Seq<int>)
    ensures
        exists|c: int| 0 <= c <= s.len() && !s.contains(c),
{
    if forall|c: int| 0 <= c <= s.len() ==> #[trigger] s.contains(c) {
        let range = vstd::set_lib::set_int_range(0, s.len() as int + 1);
        vstd::set_lib::lemma_int_range(0, s.len() as int + 1);
        s.lemma_cardinality_of_set();
        assert(range.subset_of(s.to_set())) by {
            assert forall|c: int| range.contains(c) implies s.to_set().contains(c) by {
                assert(s.contains(c));
            }
        }
        vstd::set_lib::lemma_len_subset(range, s.to_set());
        assert(false);
    }
}

} // verus!
