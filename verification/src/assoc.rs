//! Association sequences: the shared model for adjacency data.
//!
//! Both the mutable graph store and the ordered adjacency mapping are
//! sequences of `(key, list)` pairs; `lookup` is first-match and total,
//! so an absent key simply yields the empty list.

use vstd::prelude::*;
use vstd::seq_lib::seq_to_set_is_finite;

verus! {

/// First-match lookup in an association sequence. A key that occurs in
/// no entry yields the empty list: absence is a normal state, not an error.
pub open spec fn lookup<K, V>(entries: Seq<(K, Seq<V>)>, key: K) -> Seq<V>
    decreases entries.len(),
{
    if entries.len() == 0 {
        Seq::empty()
    } else if entries.first().0 == key {
        entries.first().1
    } else {
        lookup(entries.drop_first(), key)
    }
}

/// No two entries carry the same key.
pub open spec fn keys_distinct<K, V>(entries: Seq<(K, Seq<V>)>) -> bool {
    forall|i: int, j: int|
        0 <= i < j < entries.len() ==> (#[trigger] entries[i]).0 != (#[trigger] entries[j]).0
}

/// Whether some entry carries `key`.
pub open spec fn has_key<K, V>(entries: Seq<(K, Seq<V>)>, key: K) -> bool {
    exists|i: int| 0 <= i < entries.len() && (#[trigger] entries[i]).0 == key
}

/// Every identifier the entries mention: keys and list elements alike.
pub open spec fn node_pool<K>(entries: Seq<(K, Seq<K>)>) -> Set<K>
    decreases entries.len(),
{
    if entries.len() == 0 {
        Set::empty()
    } else {
        node_pool(entries.drop_first()).insert(entries.first().0).union(
            entries.first().1.to_set(),
        )
    }
}

/// A key that no entry carries looks up to the empty list.
pub proof fn lemma_lookup_absent<K, V>(entries: Seq<(K, Seq<V>)>, key: K)
    requires
        !has_key(entries, key),
    ensures
        lookup(entries, key) == Seq::<V>::empty(),
    decreases entries.len(),
{
    if entries.len() > 0 {
        assert(entries[0].0 != key);
        assert forall|i: int| 0 <= i < entries.drop_first().len() implies (#[trigger] entries
            .drop_first()[i]).0 != key by {
            assert(entries.drop_first()[i] == entries[i + 1]);
        }
        lemma_lookup_absent(entries.drop_first(), key);
    }
}

/// Lookup returns the list of the first entry whose key matches.
pub proof fn lemma_lookup_index<K, V>(entries: Seq<(K, Seq<V>)>, i: int, key: K)
    requires
        0 <= i < entries.len(),
        entries[i].0 == key,
        forall|j: int| 0 <= j < i ==> (#[trigger] entries[j]).0 != key,
    ensures
        lookup(entries, key) == entries[i].1,
    decreases i,
{
    if i == 0 {
        assert(entries.first() == entries[0]);
    } else {
        assert(entries[0].0 != key);
        assert(entries.drop_first()[i - 1] == entries[i]);
        assert forall|j: int| 0 <= j < i - 1 implies (#[trigger] entries.drop_first()[j]).0
            != key by {
            assert(entries.drop_first()[j] == entries[j + 1]);
        }
        lemma_lookup_index(entries.drop_first(), i - 1, key);
    }
}

/// Replacing the list of the only entry that carries a key changes that
/// key's lookup and no other.
pub proof fn lemma_lookup_update<K, V>(entries: Seq<(K, Seq<V>)>, i: int, x: (K, Seq<V>))
    requires
        0 <= i < entries.len(),
        x.0 == entries[i].0,
        forall|j: int| 0 <= j < i ==> (#[trigger] entries[j]).0 != entries[i].0,
    ensures
        lookup(entries.update(i, x), entries[i].0) == x.1,
        forall|k: K| k != entries[i].0 ==> lookup(entries.update(i, x), k) == lookup(entries, k),
    decreases entries.len(),
{
    let updated = entries.update(i, x);
    assert(updated[i] == x);
    assert forall|j: int| 0 <= j < i implies (#[trigger] updated[j]).0 != entries[i].0 by {
        assert(updated[j] == entries[j]);
    }
    lemma_lookup_index(updated, i, entries[i].0);
    if i == 0 {
        assert forall|k: K| k != entries[0].0 implies lookup(updated, k) == lookup(entries, k) by {
            assert(updated.first().0 == x.0);
            assert(updated.drop_first() =~= entries.drop_first());
        }
    } else {
        assert(updated.first() == entries.first());
        assert(updated.drop_first() =~= entries.drop_first().update(i - 1, x));
        assert(entries.drop_first()[i - 1] == entries[i]);
        assert forall|j: int| 0 <= j < i - 1 implies (#[trigger] entries.drop_first()[j]).0
            != entries[i].0 by {
            assert(entries.drop_first()[j] == entries[j + 1]);
        }
        lemma_lookup_update(entries.drop_first(), i - 1, x);
        assert forall|k: K| k != entries[i].0 implies lookup(updated, k) == lookup(entries, k) by {
            if entries.first().0 != k {
                assert(lookup(updated, k) == lookup(updated.drop_first(), k));
                assert(lookup(entries, k) == lookup(entries.drop_first(), k));
            }
        }
    }
}

/// Appending an entry leaves every present key's lookup unchanged and
/// gives a fresh key the appended list.
pub proof fn lemma_lookup_push<K, V>(entries: Seq<(K, Seq<V>)>, e: (K, Seq<V>))
    ensures
        forall|k: K| has_key(entries, k) ==> lookup(entries.push(e), k) == lookup(entries, k),
        !has_key(entries, e.0) ==> lookup(entries.push(e), e.0) == e.1,
        forall|k: K|
            !has_key(entries, k) && k != e.0 ==> lookup(entries.push(e), k) == lookup(entries, k),
    decreases entries.len(),
{
    let pushed = entries.push(e);
    if entries.len() == 0 {
        assert(pushed.first() == e);
        assert(pushed.drop_first() =~= Seq::<(K, Seq<V>)>::empty());
        assert forall|k: K| !has_key(entries, k) && k != e.0 implies lookup(pushed, k) == lookup(
            entries,
            k,
        ) by {
            assert(lookup(pushed, k) == lookup(pushed.drop_first(), k));
        }
    } else {
        assert(pushed.first() == entries.first());
        assert(pushed.drop_first() =~= entries.drop_first().push(e));
        lemma_lookup_push(entries.drop_first(), e);
        assert forall|k: K| has_key(entries, k) implies lookup(pushed, k) == lookup(entries, k) by {
            if entries.first().0 != k {
                let i = choose|i: int|
                    0 <= i < entries.len() && (#[trigger] entries[i]).0 == k;
                assert(i != 0);
                assert(entries.drop_first()[i - 1] == entries[i]);
                assert(has_key(entries.drop_first(), k));
            }
        }
        if !has_key(entries, e.0) {
            assert(entries[0].0 != e.0);
            assert forall|i: int|
                0 <= i < entries.drop_first().len() implies (#[trigger] entries.drop_first()[i]).0
                != e.0 by {
                assert(entries.drop_first()[i] == entries[i + 1]);
            }
            assert(!has_key(entries.drop_first(), e.0));
        }
        assert forall|k: K| !has_key(entries, k) && k != e.0 implies lookup(pushed, k) == lookup(
            entries,
            k,
        ) by {
            assert(entries[0].0 != k);
            assert forall|i: int|
                0 <= i < entries.drop_first().len() implies (#[trigger] entries.drop_first()[i]).0
                != k by {
                assert(entries.drop_first()[i] == entries[i + 1]);
            }
            assert(!has_key(entries.drop_first(), k));
        }
    }
}

/// The node pool is a finite set.
pub proof fn lemma_node_pool_finite<K>(entries: Seq<(K, Seq<K>)>)
    ensures
        node_pool(entries).finite(),
    decreases entries.len(),
{
    if entries.len() == 0 {
    } else {
        lemma_node_pool_finite(entries.drop_first());
        seq_to_set_is_finite(entries.first().1);
    }
}

/// Every element of every looked-up list lies in the node pool.
pub proof fn lemma_node_pool_covers<K>(entries: Seq<(K, Seq<K>)>)
    ensures
        forall|k: K, v: K|
            #[trigger] lookup(entries, k).contains(v) ==> node_pool(entries).contains(v),
    decreases entries.len(),
{
    if entries.len() > 0 {
        lemma_node_pool_covers(entries.drop_first());
        assert forall|k: K, v: K| #[trigger] lookup(entries, k).contains(v) implies node_pool(
            entries,
        ).contains(v) by {
            if entries.first().0 == k {
                assert(entries.first().1.to_set().contains(v));
            } else {
                assert(lookup(entries.drop_first(), k).contains(v));
                assert(node_pool(entries.drop_first()).contains(v));
            }
        }
    }
}

} // verus!
