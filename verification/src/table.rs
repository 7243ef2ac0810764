//! Keyed tables kept as sequences of (key, value) pairs in insertion order.
//!
//! Packet tables (keyed by name) and the server's per-client tables (keyed by
//! address) both behave like this: inserting a key that is present replaces
//! its value where it stands, inserting a new key appends it.

use vstd::prelude::*;

verus! {

/// Position of the first pair whose key is `k`, or -1 when there is none.
pub open spec fn index_of<K, V>(s: Seq<(K, V)>, k: K) -> int
    decreases s.len(),
{
    if s.len() == 0 {
        -1
    } else if s[0].0 == k {
        0
    } else {
        let r = index_of(s.drop_first(), k);
        if r < 0 {
            -1
        } else {
            r + 1
        }
    }
}

/// The table after setting `k` to `v`.
pub open spec fn upsert<K, V>(s: Seq<(K, V)>, k: K, v: V) -> Seq<(K, V)> {
    let i = index_of(s, k);
    if i >= 0 {
        s.update(i, (k, v))
    } else {
        s.push((k, v))
    }
}

/// The value stored under `k`.
pub open spec fn lookup<K, V>(s: Seq<(K, V)>, k: K) -> Option<V> {
    let i = index_of(s, k);
    if i >= 0 {
        Some(s[i].1)
    } else {
        None
    }
}

/// No key occurs twice.
pub open spec fn keys_unique<K, V>(s: Seq<(K, V)>) -> bool {
    forall|i: int, j: int| 0 <= i < j < s.len() ==> #[trigger] s[i].0 != #[trigger] s[j].0
}

/// The keys, in order.
pub open spec fn keys<K, V>(s: Seq<(K, V)>) -> Seq<K> {
    s.map_values(|p: (K, V)| p.0)
}

/// The table built by setting each pair of `s` in turn, so that a later pair
/// with the same key wins.
pub open spec fn from_pairs<K, V>(s: Seq<(K, V)>) -> Seq<(K, V)>
    decreases s.len(),
{
    if s.len() == 0 {
        Seq::empty()
    } else {
        upsert(from_pairs(s.drop_last()), s.last().0, s.last().1)
    }
}

/// What `index_of` returns: the first position holding `k`, or -1 when no position does.
pub proof fn lemma_index_of<K, V>(s: Seq<(K, V)>, k: K)
    ensures
        -1 <= index_of(s, k) < s.len(),
        index_of(s, k) >= 0 ==> s[index_of(s, k)].0 == k,
        forall|j: int| 0 <= j < index_of(s, k) ==> #[trigger] s[j].0 != k,
        index_of(s, k) == -1 ==> forall|j: int| 0 <= j < s.len() ==> #[trigger] s[j].0 != k,
    decreases s.len(),
{
    if s.len() > 0 && s[0].0 != k {
        let r = s.drop_first();
        lemma_index_of(r, k);
        assert forall|j: int| 0 < j < s.len() implies s[j] == r[j - 1] by {}
    }
}

/// The first position holding `k` is `i`.
pub proof fn lemma_index_of_is<K, V>(s: Seq<(K, V)>, k: K, i: int)
    requires
        0 <= i < s.len(),
        s[i].0 == k,
        forall|j: int| 0 <= j < i ==> #[trigger] s[j].0 != k,
    ensures
        index_of(s, k) == i,
{
    lemma_index_of(s, k);
}

/// No position holds `k`.
pub proof fn lemma_index_of_none<K, V>(s: Seq<(K, V)>, k: K)
    requires
        forall|j: int| 0 <= j < s.len() ==> #[trigger] s[j].0 != k,
    ensures
        index_of(s, k) == -1,
{
    lemma_index_of(s, k);
}

/// Tables with the same keys at the same positions find a key at the same position.
pub proof fn lemma_index_of_same_keys<K, V>(s: Seq<(K, V)>, t: Seq<(K, V)>, k: K)
    requires
        s.len() == t.len(),
        forall|j: int| 0 <= j < s.len() ==> #[trigger] s[j].0 == t[j].0,
    ensures
        index_of(s, k) == index_of(t, k),
{
    lemma_index_of(s, k);
    lemma_index_of(t, k);
    let i = index_of(s, k);
    if i >= 0 {
        assert forall|j: int| 0 <= j < i implies #[trigger] t[j].0 != k by {
            assert(s[j].0 == t[j].0);
        }
        lemma_index_of_is(t, k, i);
    } else {
        assert forall|j: int| 0 <= j < t.len() implies #[trigger] t[j].0 != k by {
            assert(s[j].0 == t[j].0);
        }
        lemma_index_of_none(t, k);
    }
}

/// Reading a key after setting one: the new value for that key, the old lookup for any other.
pub proof fn law_upsert_lookup<K, V>(s: Seq<(K, V)>, k: K, v: V, k2: K)
    ensures
        lookup(upsert(s, k, v), k2) == (if k2 == k {
            Some(v)
        } else {
            lookup(s, k2)
        }),
{
    lemma_index_of(s, k);
    lemma_index_of(s, k2);
    let i = index_of(s, k);
    let t = upsert(s, k, v);
    if i >= 0 {
        assert forall|j: int| 0 <= j < s.len() implies #[trigger] s[j].0 == t[j].0 by {}
        lemma_index_of_same_keys(s, t, k2);
        lemma_index_of(t, k2);
    } else {
        if k2 == k {
            lemma_index_of_is(t, k, s.len() as int);
        } else {
            lemma_index_of(t, k2);
            let i2 = index_of(s, k2);
            if i2 >= 0 {
                lemma_index_of_is(t, k2, i2);
            } else {
                lemma_index_of_none(t, k2);
            }
        }
    }
}

/// Setting a key keeps keys unique.
pub proof fn law_upsert_keeps_keys_unique<K, V>(s: Seq<(K, V)>, k: K, v: V)
    requires
        keys_unique(s),
    ensures
        keys_unique(upsert(s, k, v)),
{
    lemma_index_of(s, k);
    let t = upsert(s, k, v);
    if index_of(s, k) >= 0 {
        assert forall|i: int, j: int| 0 <= i < j < t.len() implies #[trigger] t[i].0
            != #[trigger] t[j].0 by {
            assert(t[i].0 == s[i].0 && t[j].0 == s[j].0);
        }
    } else {
        assert forall|i: int, j: int| 0 <= i < j < t.len() implies #[trigger] t[i].0
            != #[trigger] t[j].0 by {
            if j < s.len() {
                assert(t[i] == s[i] && t[j] == s[j]);
            } else {
                assert(t[i] == s[i]);
            }
        }
    }
}

/// Setting a key to the value it was just set to changes nothing.
pub proof fn law_upsert_idempotent<K, V>(s: Seq<(K, V)>, k: K, v: V)
    ensures
        upsert(upsert(s, k, v), k, v) == upsert(s, k, v),
{
    lemma_index_of(s, k);
    let t = upsert(s, k, v);
    if index_of(s, k) >= 0 {
        assert forall|j: int| 0 <= j < s.len() implies #[trigger] s[j].0 == t[j].0 by {}
        lemma_index_of_same_keys(s, t, k);
        assert(t.update(index_of(s, k), (k, v)) =~= t);
    } else {
        lemma_index_of_is(t, k, s.len() as int);
        assert(t.update(s.len() as int, (k, v)) =~= t);
    }
}

/// Rebuilding a table whose keys are unique, pair by pair, gives the same table.
pub proof fn law_from_pairs_unique<K, V>(s: Seq<(K, V)>)
    requires
        keys_unique(s),
    ensures
        from_pairs(s) == s,
    decreases s.len(),
{
    if s.len() > 0 {
        let r = s.drop_last();
        assert(keys_unique(r));
        law_from_pairs_unique(r);
        assert forall|j: int| 0 <= j < r.len() implies #[trigger] r[j].0 != s.last().0 by {
            assert(s[j] == r[j]);
        }
        lemma_index_of_none(r, s.last().0);
        assert(r.push(s.last()) =~= s);
    }
}

/// Rebuilding any table pair by pair leaves its keys unique.
pub proof fn law_from_pairs_keys_unique<K, V>(s: Seq<(K, V)>)
    ensures
        keys_unique(from_pairs(s)),
    decreases s.len(),
{
    if s.len() > 0 {
        law_from_pairs_keys_unique(s.drop_last());
        law_upsert_keeps_keys_unique(from_pairs(s.drop_last()), s.last().0, s.last().1);
    }
}

/// Setting a key keeps every key where it stood: a key already present keeps
/// its place and the order is unchanged; a new key goes at the end.
pub proof fn law_upsert_keys<K, V>(s: Seq<(K, V)>, k: K, v: V)
    ensures
        keys(upsert(s, k, v)) == (if lookup(s, k) is Some {
            keys(s)
        } else {
            keys(s).push(k)
        }),
{
    lemma_index_of(s, k);
    let t = upsert(s, k, v);
    if index_of(s, k) >= 0 {
        assert(keys(t) =~= keys(s));
    } else {
        assert(keys(t) =~= keys(s).push(k));
    }
}

} // verus!
