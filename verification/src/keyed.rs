//! Lookup by key in a sequence of keyed entries, where the first entry that
//! carries a key is the one that counts.

use vstd::prelude::*;

verus! {

/// Whether `i` is the first position in `entries` whose name is `name`.
pub open spec fn is_first_position<K, V>(entries: Seq<(K, V)>, name: K, i: int) -> bool {
    &&& 0 <= i < entries.len()
    &&& entries[i].0 == name
    &&& forall|j: int| 0 <= j < i ==> entries[j].0 != name
}

/// The first position in `entries` whose name is `name`, if any.
pub open spec fn position_of<K, V>(entries: Seq<(K, V)>, name: K) -> Option<int> {
    if exists|i: int| is_first_position(entries, name, i) {
        Some(choose|i: int| is_first_position(entries, name, i))
    } else {
        None
    }
}

/// The value stored under `name`, if any.
pub open spec fn lookup<K, V>(entries: Seq<(K, V)>, name: K) -> Option<V> {
    match position_of(entries, name) {
        Some(i) => Some(entries[i].1),
        None => None,
    }
}

/// Whether some entry is named `name`.
pub open spec fn has_key<K, V>(entries: Seq<(K, V)>, name: K) -> bool {
    exists|i: int| 0 <= i < entries.len() && entries[i].0 == name
}

/// A name is found at its first position, and the value there is what
/// `lookup` gives.
pub proof fn lemma_first_position<K, V>(entries: Seq<(K, V)>, name: K, i: int)
    requires
        is_first_position(entries, name, i),
    ensures
        position_of(entries, name) == Some(i),
        lookup(entries, name) == Some(entries[i].1),
        has_key(entries, name),
{
    let c = choose|k: int| is_first_position(entries, name, k);
    assert(is_first_position(entries, name, c));
    if c < i {
        assert(entries[c].0 != name);
    } else if c > i {
        assert(entries[i].0 != name);
    }
}

/// A name that no entry carries has no position.
pub proof fn lemma_absent<K, V>(entries: Seq<(K, V)>, name: K)
    requires
        forall|j: int| 0 <= j < entries.len() ==> entries[j].0 != name,
    ensures
        position_of(entries, name) is None,
        lookup(entries, name) is None,
        !has_key(entries, name),
{
}

/// A found position holds the name, and a name that has a value is carried
/// by some entry.
pub proof fn lemma_position_found<K, V>(entries: Seq<(K, V)>, name: K)
    requires
        position_of(entries, name) is Some,
    ensures
        is_first_position(entries, name, position_of(entries, name)->0),
        has_key(entries, name),
{
    let i = choose|k: int| is_first_position(entries, name, k);
    assert(is_first_position(entries, name, i));
}

/// Whether no key is carried by two entries.
pub open spec fn keys_unique<K, V>(entries: Seq<(K, V)>) -> bool {
    forall|i: int, j: int| 0 <= i < j < entries.len() ==> entries[i].0 != entries[j].0
}

/// Where no key is stored twice, every entry is what looking up its key gives.
pub proof fn lemma_entry_found<K, V>(entries: Seq<(K, V)>, i: int)
    requires
        keys_unique(entries),
        0 <= i < entries.len(),
    ensures
        lookup(entries, entries[i].0) == Some(entries[i].1),
        position_of(entries, entries[i].0) == Some(i),
{
    assert(is_first_position(entries, entries[i].0, i));
    lemma_first_position(entries, entries[i].0, i);
}

/// A key carried by some entry has a first position.
pub proof fn lemma_first_exists<K, V>(entries: Seq<(K, V)>, name: K, k: int)
    requires
        0 <= k < entries.len(),
        entries[k].0 == name,
    ensures
        position_of(entries, name) is Some,
    decreases k,
{
    if exists|j: int| 0 <= j < k && entries[j].0 == name {
        let j = choose|j: int| 0 <= j < k && entries[j].0 == name;
        lemma_first_exists(entries, name, j);
    } else {
        assert(is_first_position(entries, name, k));
    }
}

/// The entries after storing `node` under `key`: the first entry of `key`, if
/// there is one, is replaced in place; otherwise the entry is appended.
pub open spec fn inserted<K, N>(t: Seq<(K, N)>, key: K, node: N) -> Seq<(K, N)> {
    match position_of(t, key) {
        Some(i) => t.update(i, (key, node)),
        None => t.push((key, node)),
    }
}

/// The entries after removing the first entry of `key`, if there is one.
pub open spec fn removed<K, N>(t: Seq<(K, N)>, key: K) -> Seq<(K, N)> {
    match position_of(t, key) {
        Some(i) => t.remove(i),
        None => t,
    }
}

/// After a key is stored, looking it up gives what was stored.
pub proof fn law_insert_then_lookup<K, N>(t: Seq<(K, N)>, key: K, node: N)
    ensures
        lookup(inserted(t, key, node), key) == Some(node),
{
    let r = inserted(t, key, node);
    match position_of(t, key) {
        Some(i) => {
            lemma_position_found(t, key);
            assert(is_first_position(r, key, i));
            lemma_first_position(r, key, i);
        },
        None => {
            assert forall|j: int| 0 <= j < t.len() implies t[j].0 != key by {
                if t[j].0 == key {
                    lemma_first_exists(t, key, j);
                }
            }
            assert(is_first_position(r, key, t.len() as int));
            lemma_first_position(r, key, t.len() as int);
        },
    }
}

/// Storing a key leaves what every other key is stored with unchanged.
pub proof fn law_insert_keeps_others<K, N>(t: Seq<(K, N)>, key: K, node: N, other: K)
    requires
        other != key,
    ensures
        lookup(inserted(t, key, node), other) == lookup(t, other),
{
    let r = inserted(t, key, node);
    if position_of(t, key) is Some {
        lemma_position_found(t, key);
    }
    match position_of(t, other) {
        Some(p) => {
            lemma_position_found(t, other);
            assert(is_first_position(r, other, p));
            lemma_first_position(r, other, p);
        },
        None => {
            assert forall|j: int| 0 <= j < r.len() implies r[j].0 != other by {
                if j < t.len() && t[j].0 == other {
                    lemma_first_exists(t, other, j);
                }
            }
            lemma_absent(r, other);
        },
    }
}

/// Where no key is stored twice, a removed key is no longer found.
pub proof fn law_remove_removes<K, N>(t: Seq<(K, N)>, key: K)
    requires
        keys_unique(t),
    ensures
        lookup(removed(t, key), key) is None,
        !has_key(removed(t, key), key),
{
    let r = removed(t, key);
    match position_of(t, key) {
        Some(i) => {
            lemma_position_found(t, key);
            assert forall|j: int| 0 <= j < r.len() implies r[j].0 != key by {
                if j < i {
                } else {
                    assert(r[j] == t[j + 1]);
                }
            }
            lemma_absent(r, key);
        },
        None => {
            assert forall|j: int| 0 <= j < t.len() implies t[j].0 != key by {
                if t[j].0 == key {
                    lemma_first_exists(t, key, j);
                }
            }
            lemma_absent(r, key);
        },
    }
}

/// Removing a key leaves what every other key is stored with unchanged.
pub proof fn law_remove_keeps_others<K, N>(t: Seq<(K, N)>, key: K, other: K)
    requires
        other != key,
    ensures
        lookup(removed(t, key), other) == lookup(t, other),
{
    let r = removed(t, key);
    match position_of(t, key) {
        Some(i) => {
            lemma_position_found(t, key);
            match position_of(t, other) {
                Some(p) => {
                    lemma_position_found(t, other);
                    assert(p != i);
                    if p < i {
                        assert(is_first_position(r, other, p));
                        lemma_first_position(r, other, p);
                    } else {
                        assert(r[p - 1] == t[p]);
                        assert forall|j: int| 0 <= j < p - 1 implies r[j].0 != other by {
                            if j >= i {
                                assert(r[j] == t[j + 1]);
                            }
                        }
                        assert(is_first_position(r, other, p - 1));
                        lemma_first_position(r, other, p - 1);
                    }
                },
                None => {
                    assert forall|j: int| 0 <= j < r.len() implies r[j].0 != other by {
                        let k = if j < i { j } else { j + 1 };
                        assert(r[j] == t[k]);
                        if t[k].0 == other {
                            lemma_first_exists(t, other, k);
                        }
                    }
                    lemma_absent(r, other);
                },
            }
        },
        None => {},
    }
}

/// Storing a key that was not stored and then removing it gives back the
/// entries as they were.
pub proof fn law_insert_then_remove_restores<K, N>(t: Seq<(K, N)>, key: K, node: N)
    requires
        !has_key(t, key),
    ensures
        removed(inserted(t, key, node), key) == t,
{
    assert forall|j: int| 0 <= j < t.len() implies t[j].0 != key by {}
    lemma_absent(t, key);
    let r = inserted(t, key, node);
    assert(r == t.push((key, node)));
    assert(is_first_position(r, key, t.len() as int));
    lemma_first_position(r, key, t.len() as int);
    assert(r.remove(t.len() as int) =~= t);
}

/// Storing keeps every key stored at most once.
pub proof fn lemma_inserted_unique<K, N>(t: Seq<(K, N)>, key: K, node: N)
    requires
        keys_unique(t),
    ensures
        keys_unique(inserted(t, key, node)),
{
    let r = inserted(t, key, node);
    match position_of(t, key) {
        Some(i) => {
            lemma_position_found(t, key);
            assert forall|a: int, b: int| 0 <= a < b < r.len() implies r[a].0 != r[b].0 by {
                assert(t[i].0 == key);
            }
        },
        None => {
            assert forall|a: int, b: int| 0 <= a < b < r.len() implies r[a].0 != r[b].0 by {
                if b == t.len() && t[a].0 == key {
                    lemma_first_exists(t, key, a);
                }
            }
        },
    }
}

/// The life of a connection in a table where no key is stored twice: once
/// stored, the key is found with what was stored and nothing else changed;
/// once removed from any later table, it is gone and nothing else changed;
/// and storing then removing it right away gives back the table.
pub proof fn law_connection_lifecycle<K, N>(t: Seq<(K, N)>, key: K, node: N, later: Seq<(K, N)>)
    requires
        keys_unique(t),
        !has_key(t, key),
        keys_unique(later),
    ensures
        keys_unique(inserted(t, key, node)),
        lookup(inserted(t, key, node), key) == Some(node),
        forall|k: K| k != key ==> #[trigger] lookup(inserted(t, key, node), k) == lookup(t, k),
        lookup(removed(later, key), key) is None,
        forall|k: K| k != key ==> #[trigger] lookup(removed(later, key), k) == lookup(later, k),
        removed(inserted(t, key, node), key) == t,
{
    lemma_inserted_unique(t, key, node);
    law_insert_then_lookup(t, key, node);
    assert forall|k: K| k != key implies #[trigger] lookup(inserted(t, key, node), k) == lookup(t, k) by {
        law_insert_keeps_others(t, key, node, k);
    }
    law_remove_removes(later, key);
    assert forall|k: K| k != key implies #[trigger] lookup(removed(later, key), k) == lookup(later, k) by {
        law_remove_keeps_others(later, key, k);
    }
    law_insert_then_remove_restores(t, key, node);
}

} // verus!
