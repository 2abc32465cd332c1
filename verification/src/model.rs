//! The ordered maps of this crate are specified as `Map`s. This module holds what their
//! contracts share, and the laws that follow for every one of them.

use crate::order::{lemma_transitive, lemma_trichotomy, lt, total_order};
use vstd::prelude::*;

verus! {

/// The value that `m` holds for `k`, if any.
pub open spec fn lookup<K, V>(m: Map<K, V>, k: K) -> Option<V> {
    if m.contains_key(k) {
        Some(m[k])
    } else {
        None
    }
}

/// 1 if `m` holds `k`, else 0.
pub open spec fn count_of<K, V>(m: Map<K, V>, k: K) -> nat {
    if m.contains_key(k) {
        1
    } else {
        0
    }
}

/// The keys of `s` ascend strictly.
pub open spec fn ascending<K: Ord, V>(s: Seq<(K, V)>) -> bool {
    forall|i: int, j: int| 0 <= i < j < s.len() ==> lt(#[trigger] s[i].0, #[trigger] s[j].0)
}

/// `s` holds the pairs of `m`, and nothing else.
pub open spec fn lists<K, V>(s: Seq<(K, V)>, m: Map<K, V>) -> bool {
    &&& forall|i: int| 0 <= i < s.len() ==> lookup(m, (#[trigger] s[i]).0) == Some(s[i].1)
    &&& forall|k: K| #[trigger]
        m.contains_key(k) ==> exists|i: int| 0 <= i < s.len() && (#[trigger] s[i]).0 == k
}

/// A change to a map: `Add` is what `add` does to the view of a map, `Remove` what
/// `remove` does to it.
pub enum Operation<K, V> {
    Add(K, V),
    Remove(K),
}

impl<K, V> Operation<K, V> {
    /// The key that the operation is about.
    pub open spec fn key(self) -> K {
        match self {
            Operation::Add(k, _) => k,
            Operation::Remove(k) => k,
        }
    }

    /// The map after the operation.
    pub open spec fn apply(self, m: Map<K, V>) -> Map<K, V> {
        match self {
            Operation::Add(k, v) => m.insert(k, v),
            Operation::Remove(k) => m.remove(k),
        }
    }
}

/// The map after a sequence of operations, the first applied first.
pub open spec fn after<K, V>(m: Map<K, V>, ops: Seq<Operation<K, V>>) -> Map<K, V>
    decreases ops.len(),
{
    if ops.len() == 0 {
        m
    } else {
        ops.last().apply(after(m, ops.drop_last()))
    }
}

/// The map after `keys[i]` has been mapped to `values[i]`, for each `i` in turn.
pub open spec fn add_all<K, V>(m: Map<K, V>, keys: Seq<K>, values: Seq<V>) -> Map<K, V>
    decreases keys.len(),
{
    if keys.len() == 0 {
        m
    } else {
        add_all(m, keys.drop_last(), values.drop_last()).insert(keys.last(), values.last())
    }
}

/// The map after the keys at the indices `order[0]`, .., `order[n - 1]` of `keys` have been
/// removed, in this order.
pub open spec fn remove_first<K, V>(m: Map<K, V>, keys: Seq<K>, order: Seq<int>, n: int) -> Map<
    K,
    V,
>
    decreases n,
{
    if n <= 0 {
        m
    } else {
        remove_first(m, keys, order, n - 1).remove(keys[order[n - 1]])
    }
}

/// `order` holds each index of a sequence of length `n` once.
pub open spec fn is_permutation(order: Seq<int>, n: nat) -> bool {
    &&& order.len() == n
    &&& order.no_duplicates()
    &&& forall|j: int| 0 <= j < n ==> 0 <= #[trigger] order[j] < n
    &&& forall|i: int| 0 <= i < n ==> #[trigger] order.contains(i)
}

/// Membership: a key that was added, and neither added again nor removed since, maps to
/// the value it was added with.
pub proof fn lemma_membership<K, V>(m: Map<K, V>, ops: Seq<Operation<K, V>>, i: int, k: K, v: V)
    requires
        0 <= i < ops.len(),
        ops[i] == Operation::Add(k, v),
        forall|j: int| i < j < ops.len() ==> (#[trigger] ops[j]).key() != k,
    ensures
        lookup(after(m, ops), k) == Some(v),
    decreases ops.len(),
{
    if i < ops.len() - 1 {
        let rest = ops.drop_last();
        assert(rest[i] == ops[i]);
        assert forall|j: int| i < j < rest.len() implies (#[trigger] rest[j]).key() != k by {
            assert(rest[j] == ops[j]);
        }
        lemma_membership(m, rest, i, k, v);
        assert(ops.last() == ops[ops.len() - 1]);
    } else {
        assert(ops.last() == ops[i]);
    }
}

/// A key that was removed, and not added again since, is not found.
pub proof fn lemma_removed_is_absent<K, V>(m: Map<K, V>, ops: Seq<Operation<K, V>>, i: int, k: K)
    requires
        0 <= i < ops.len(),
        ops[i] == Operation::<K, V>::Remove(k),
        forall|j: int| i < j < ops.len() ==> (#[trigger] ops[j]).key() != k,
    ensures
        lookup(after(m, ops), k) == None::<V>,
    decreases ops.len(),
{
    if i < ops.len() - 1 {
        let rest = ops.drop_last();
        assert(rest[i] == ops[i]);
        assert forall|j: int| i < j < rest.len() implies (#[trigger] rest[j]).key() != k by {
            assert(rest[j] == ops[j]);
        }
        lemma_removed_is_absent(m, rest, i, k);
        assert(ops.last() == ops[ops.len() - 1]);
    } else {
        assert(ops.last() == ops[i]);
    }
}

/// Idempotent replace: adding a new key twice returns nothing the first time and the first
/// value the second time, and the key then maps to the second value.
pub proof fn lemma_replace<K, V>(m: Map<K, V>, k: K, v1: V, v2: V)
    requires
        !m.contains_key(k),
    ensures
        lookup(m, k) == None::<V>,
        lookup(m.insert(k, v1), k) == Some(v1),
        lookup(m.insert(k, v1).insert(k, v2), k) == Some(v2),
        m.insert(k, v1).insert(k, v2) == m.insert(k, v2),
{
    assert(m.insert(k, v1).insert(k, v2) =~= m.insert(k, v2));
}

/// What `add_all` leaves in an empty map, where the keys differ from each other.
pub proof fn lemma_add_all<K, V>(keys: Seq<K>, values: Seq<V>)
    requires
        keys.no_duplicates(),
        keys.len() == values.len(),
    ensures
        forall|i: int|
            0 <= i < keys.len() ==> lookup(
                add_all(Map::<K, V>::empty(), keys, values),
                #[trigger] keys[i],
            ) == Some(values[i]),
        forall|k: K|
            add_all(Map::<K, V>::empty(), keys, values).contains_key(k) ==> keys.contains(k),
        add_all(Map::<K, V>::empty(), keys, values).dom().finite(),
        add_all(Map::<K, V>::empty(), keys, values).len() == keys.len(),
    decreases keys.len(),
{
    if keys.len() > 0 {
        let ks = keys.drop_last();
        let vs = values.drop_last();
        lemma_add_all(ks, vs);
        let m = add_all(Map::<K, V>::empty(), ks, vs);
        assert forall|i: int| 0 <= i < keys.len() implies lookup(
            m.insert(keys.last(), values.last()),
            #[trigger] keys[i],
        ) == Some(values[i]) by {
            if i < keys.len() - 1 {
                assert(ks[i] == keys[i] && vs[i] == values[i]);
                assert(keys[i] != keys[keys.len() - 1]);
            }
        }
        assert forall|k: K| m.insert(keys.last(), values.last()).contains_key(k) implies keys.contains(
            k,
        ) by {
            if k == keys.last() {
                assert(keys[keys.len() - 1] == k);
            } else {
                assert(ks.contains(k));
                let j = choose|j: int| 0 <= j < ks.len() && ks[j] == k;
                assert(keys[j] == k);
            }
        }
        assert(!m.contains_key(keys.last())) by {
            if m.contains_key(keys.last()) {
                assert(ks.contains(keys.last()));
                let j = choose|j: int| 0 <= j < ks.len() && ks[j] == keys.last();
                assert(keys[j] == keys[keys.len() - 1]);
            }
        }
    }
}

/// What `remove_first` leaves: the pairs whose key is not among the first `n` removed.
pub proof fn lemma_remove_first<K, V>(m: Map<K, V>, keys: Seq<K>, order: Seq<int>, n: int)
    requires
        0 <= n <= order.len(),
    ensures
        forall|k: K|
            #![trigger remove_first(m, keys, order, n).contains_key(k)]
            remove_first(m, keys, order, n).contains_key(k) <==> m.contains_key(k) && forall|
                j: int,
            |
                0 <= j < n ==> keys[#[trigger] order[j]] != k,
        forall|k: K|
            remove_first(m, keys, order, n).contains_key(k) ==> #[trigger] remove_first(
                m,
                keys,
                order,
                n,
            )[k] == m[k],
    decreases n,
{
    if n > 0 {
        lemma_remove_first(m, keys, order, n - 1);
        let prev = remove_first(m, keys, order, n - 1);
        let cur = remove_first(m, keys, order, n);
        assert forall|k: K| #![trigger cur.contains_key(k)] cur.contains_key(k) <==> m.contains_key(
            k,
        ) && forall|j: int| 0 <= j < n ==> keys[#[trigger] order[j]] != k by {
            if cur.contains_key(k) {
                assert(prev.contains_key(k));
                assert forall|j: int| 0 <= j < n implies keys[#[trigger] order[j]] != k by {
                    if j < n - 1 {
                    }
                }
            }
            if m.contains_key(k) && forall|j: int| 0 <= j < n ==> keys[#[trigger] order[j]] != k {
                assert(keys[order[n - 1]] != k);
                assert(prev.contains_key(k));
            }
        }
    }
}

/// Round trip: after keys that differ from each other have been added to an empty map, and
/// then removed in any order, each removal returns the value its key was added with, and the
/// map is empty again.
pub proof fn lemma_round_trip<K, V>(keys: Seq<K>, values: Seq<V>, order: Seq<int>)
    requires
        keys.no_duplicates(),
        keys.len() == values.len(),
        is_permutation(order, keys.len()),
    ensures
        forall|n: int|
            #![trigger order[n]]
            0 <= n < keys.len() ==> lookup(
                remove_first(add_all(Map::<K, V>::empty(), keys, values), keys, order, n),
                keys[order[n]],
            ) == Some(values[order[n]]),
        remove_first(
            add_all(Map::<K, V>::empty(), keys, values),
            keys,
            order,
            keys.len() as int,
        ) == Map::<K, V>::empty(),
{
    let full = add_all(Map::<K, V>::empty(), keys, values);
    lemma_add_all(keys, values);
    assert forall|n: int| #![trigger order[n]] 0 <= n < keys.len() implies lookup(
        remove_first(full, keys, order, n),
        keys[order[n]],
    ) == Some(values[order[n]]) by {
        lemma_remove_first(full, keys, order, n);
        let k = keys[order[n]];
        assert(lookup(full, k) == Some(values[order[n]]));
        assert forall|j: int| 0 <= j < n implies keys[#[trigger] order[j]] != k by {
            assert(order[j] != order[n]);
        }
        assert(remove_first(full, keys, order, n).contains_key(k));
    }
    let last = remove_first(full, keys, order, keys.len() as int);
    lemma_remove_first(full, keys, order, keys.len() as int);
    assert forall|k: K| !last.contains_key(k) by {
        if last.contains_key(k) {
            assert(full.contains_key(k));
            assert(keys.contains(k));
            let i = choose|i: int| 0 <= i < keys.len() && keys[i] == k;
            assert(order.contains(i));
            let j = choose|j: int| 0 <= j < order.len() && order[j] == i;
            assert(keys[order[j]] == k);
        }
    }
    assert(last =~= Map::<K, V>::empty());
}

/// The map that a sequence of pairs stands for: each key with the value of the first pair
/// that holds it.
pub open spec fn map_of_pairs<K, V>(s: Seq<(K, V)>) -> Map<K, V> {
    Map::new(
        |k: K| exists|i: int| 0 <= i < s.len() && (#[trigger] s[i]).0 == k,
        |k: K| s[choose|i: int| 0 <= i < s.len() && (#[trigger] s[i]).0 == k].1,
    )
}

/// The keys of a sequence of pairs.
pub open spec fn keys_of<K, V>(s: Seq<(K, V)>) -> Seq<K> {
    Seq::new(s.len(), |i: int| s[i].0)
}

/// A sequence of pairs that ascends holds each key once, and stands for a map with as many
/// keys as it has pairs.
pub proof fn lemma_map_of_pairs<K: Ord, V>(s: Seq<(K, V)>)
    requires
        total_order::<K>(),
        ascending(s),
    ensures
        lists(s, map_of_pairs(s)),
        map_of_pairs(s).dom().finite(),
        map_of_pairs(s).len() == s.len(),
        forall|i: int, j: int| 0 <= i < s.len() && 0 <= j < s.len() && i != j ==> s[i].0 != s[j].0,
{
    assert forall|i: int, j: int| 0 <= i < s.len() && 0 <= j < s.len() && i != j implies s[i].0
        != s[j].0 by {
        if i < j {
            lemma_trichotomy(s[i].0, s[j].0);
        } else {
            lemma_trichotomy(s[j].0, s[i].0);
        }
    }
    let m = map_of_pairs(s);
    assert forall|i: int| 0 <= i < s.len() implies lookup(m, (#[trigger] s[i]).0) == Some(
        s[i].1,
    ) by {
        let k = s[i].0;
        let c = choose|c: int| 0 <= c < s.len() && (#[trigger] s[c]).0 == k;
        assert(c == i);
    }
    let keys = keys_of(s);
    assert(keys.no_duplicates());
    keys.unique_seq_to_set();
    vstd::seq_lib::seq_to_set_is_finite(keys);
    assert(m.dom() =~= keys.to_set()) by {
        assert forall|k: K| m.dom().contains(k) <==> keys.to_set().contains(k) by {
            if m.dom().contains(k) {
                let i = choose|i: int| 0 <= i < s.len() && (#[trigger] s[i]).0 == k;
                assert(keys[i] == k);
            }
            if keys.to_set().contains(k) {
                let i = choose|i: int| 0 <= i < keys.len() && keys[i] == k;
                assert(s[i].0 == k);
            }
        }
    }
}

/// A map whose pairs a sequence that ascends lists has as many keys as the sequence has
/// pairs.
pub proof fn lemma_lists_len<K: Ord, V>(s: Seq<(K, V)>, m: Map<K, V>)
    requires
        total_order::<K>(),
        ascending(s),
        lists(s, m),
    ensures
        m == map_of_pairs(s),
        m.dom().finite(),
        m.len() == s.len(),
{
    lemma_map_of_pairs(s);
    let n = map_of_pairs(s);
    assert forall|k: K| m.contains_key(k) <==> n.contains_key(k) by {
        if n.contains_key(k) {
            let i = choose|i: int| 0 <= i < s.len() && (#[trigger] s[i]).0 == k;
            assert(lookup(m, s[i].0) == Some(s[i].1));
        }
    }
    assert forall|k: K| m.contains_key(k) implies m[k] == n[k] by {
        let i = choose|i: int| 0 <= i < s.len() && (#[trigger] s[i]).0 == k;
        assert(lookup(m, s[i].0) == Some(s[i].1));
        assert(lookup(n, s[i].0) == Some(s[i].1));
    }
    assert(m =~= n);
}

/// `after` is `before` with the pair (`key`, `value`) put in its place: between `a`, the
/// pairs with lesser keys, and `b`, those with greater keys, where `before` held either
/// nothing or the pair that is `replaced`.
pub open spec fn added<K: Ord, V>(
    before: Seq<(K, V)>,
    after: Seq<(K, V)>,
    a: Seq<(K, V)>,
    b: Seq<(K, V)>,
    key: K,
    value: V,
    replaced: Option<V>,
) -> bool {
    &&& after == a + seq![(key, value)] + b
    &&& match replaced {
        None => before == a + b,
        Some(v) => before == a + seq![(key, v)] + b,
    }
    &&& forall|i: int| 0 <= i < a.len() ==> lt((#[trigger] a[i]).0, key)
    &&& forall|j: int| 0 <= j < b.len() ==> lt(key, (#[trigger] b[j]).0)
}

/// `after` is `before` without the pair (`key`, `value`), which stood between `a` and `b`.
pub open spec fn removed<K: Ord, V>(
    before: Seq<(K, V)>,
    after: Seq<(K, V)>,
    a: Seq<(K, V)>,
    b: Seq<(K, V)>,
    key: K,
    value: V,
) -> bool {
    &&& before == a + seq![(key, value)] + b
    &&& after == a + b
}

/// `added` with more pairs before and behind.
pub proof fn lemma_added_within<K: Ord, V>(
    before: Seq<(K, V)>,
    after: Seq<(K, V)>,
    a: Seq<(K, V)>,
    b: Seq<(K, V)>,
    key: K,
    value: V,
    replaced: Option<V>,
    front: Seq<(K, V)>,
    back: Seq<(K, V)>,
)
    requires
        added(before, after, a, b, key, value, replaced),
        forall|i: int| 0 <= i < front.len() ==> lt((#[trigger] front[i]).0, key),
        forall|j: int| 0 <= j < back.len() ==> lt(key, (#[trigger] back[j]).0),
    ensures
        added(
            front + before + back,
            front + after + back,
            front + a,
            b + back,
            key,
            value,
            replaced,
        ),
{
    assert(front + after + back =~= (front + a) + seq![(key, value)] + (b + back));
    match replaced {
        None => {
            assert(front + before + back =~= (front + a) + (b + back));
        },
        Some(v) => {
            assert(front + before + back =~= (front + a) + seq![(key, v)] + (b + back));
        },
    }
}

/// What `added` means for the maps: the key maps to the value, and all else is as before.
pub proof fn lemma_added<K: Ord, V>(
    before: Seq<(K, V)>,
    after: Seq<(K, V)>,
    a: Seq<(K, V)>,
    b: Seq<(K, V)>,
    key: K,
    value: V,
    replaced: Option<V>,
)
    requires
        total_order::<K>(),
        ascending(before),
        added(before, after, a, b, key, value, replaced),
    ensures
        ascending(after),
        map_of_pairs(after) == map_of_pairs(before).insert(key, value),
        replaced == lookup(map_of_pairs(before), key),
        after.len() + count_of(map_of_pairs(before), key) == before.len() + 1,
{
    let new = seq![(key, value)];
    assert forall|i: int, j: int| 0 <= i < j < after.len() implies lt(
        (#[trigger] after[i]).0,
        (#[trigger] after[j]).0,
    ) by {
        let at = a.len() as int;
        if j < at {
            match replaced {
                None => {
                    assert(before[i] == a[i] && before[j] == a[j]);
                },
                Some(v) => {
                    assert(before[i] == a[i] && before[j] == a[j]);
                },
            }
        } else if i > at {
            match replaced {
                None => {
                    assert(before[i - 1] == after[i] && before[j - 1] == after[j]);
                },
                Some(v) => {
                    assert(before[i] == after[i] && before[j] == after[j]);
                },
            }
        } else if i == at {
            assert(after[j] == b[j - at - 1]);
        } else if j == at {
            assert(after[i] == a[i]);
        } else {
            assert(after[i] == a[i]);
            assert(after[j] == b[j - at - 1]);
            lemma_transitive(a[i].0, key, b[j - at - 1].0);
        }
    }
    lemma_map_of_pairs(before);
    lemma_map_of_pairs(after);
    let m0 = map_of_pairs(before);
    let m1 = map_of_pairs(after);
    let at = a.len() as int;
    assert(after[at] == (key, value));
    assert(lookup(m1, after[at].0) == Some(after[at].1));
    assert forall|k: K| m1.contains_key(k) <==> m0.insert(key, value).contains_key(k) by {
        if m1.contains_key(k) && k != key {
            let i = choose|i: int| 0 <= i < after.len() && (#[trigger] after[i]).0 == k;
            if i < at {
                assert(before[i].0 == k);
            } else {
                match replaced {
                    None => {
                        assert(before[i - 1].0 == k);
                    },
                    Some(v) => {
                        assert(before[i].0 == k);
                    },
                }
            }
        }
        if m0.contains_key(k) && k != key {
            let i = choose|i: int| 0 <= i < before.len() && (#[trigger] before[i]).0 == k;
            if i < at {
                assert(after[i].0 == k);
            } else {
                match replaced {
                    None => {
                        assert(after[i + 1].0 == k);
                    },
                    Some(v) => {
                        assert(after[i].0 == k);
                    },
                }
            }
        }
    }
    assert forall|k: K| m1.contains_key(k) implies m1[k] == m0.insert(key, value)[k] by {
        if k != key {
            let i = choose|i: int| 0 <= i < after.len() && (#[trigger] after[i]).0 == k;
            assert(lookup(m1, after[i].0) == Some(after[i].1));
            if i < at {
                assert(before[i] == after[i]);
                assert(lookup(m0, before[i].0) == Some(before[i].1));
            } else {
                match replaced {
                    None => {
                        assert(before[i - 1] == after[i]);
                        assert(lookup(m0, before[i - 1].0) == Some(before[i - 1].1));
                    },
                    Some(v) => {
                        assert(before[i] == after[i]);
                        assert(lookup(m0, before[i].0) == Some(before[i].1));
                    },
                }
            }
        }
    }
    assert(m1 =~= m0.insert(key, value));
    match replaced {
        None => {
            if m0.contains_key(key) {
                let i = choose|i: int| 0 <= i < before.len() && (#[trigger] before[i]).0 == key;
                if i < at {
                    assert(before[i] == a[i]);
                    lemma_trichotomy(a[i].0, key);
                } else {
                    assert(before[i] == b[i - at]);
                    lemma_trichotomy(key, b[i - at].0);
                }
            }
        },
        Some(v) => {
            assert(before[at] == (key, v));
            assert(lookup(m0, before[at].0) == Some(before[at].1));
        },
    }
}

/// What `removed` means for the maps: the key is gone, and all else is as before.
pub proof fn lemma_removed<K: Ord, V>(
    before: Seq<(K, V)>,
    after: Seq<(K, V)>,
    a: Seq<(K, V)>,
    b: Seq<(K, V)>,
    key: K,
    value: V,
)
    requires
        total_order::<K>(),
        ascending(before),
        removed(before, after, a, b, key, value),
    ensures
        ascending(after),
        map_of_pairs(after) == map_of_pairs(before).remove(key),
        lookup(map_of_pairs(before), key) == Some(value),
        after.len() + 1 == before.len(),
{
    let at = a.len() as int;
    assert forall|i: int, j: int| 0 <= i < j < after.len() implies lt(
        (#[trigger] after[i]).0,
        (#[trigger] after[j]).0,
    ) by {
        let p = if i < at {
            i
        } else {
            i + 1
        };
        let q = if j < at {
            j
        } else {
            j + 1
        };
        assert(before[p] == after[i] && before[q] == after[j]);
    }
    lemma_map_of_pairs(before);
    lemma_map_of_pairs(after);
    let m0 = map_of_pairs(before);
    let m1 = map_of_pairs(after);
    assert(before[at] == (key, value));
    assert(lookup(m0, before[at].0) == Some(before[at].1));
    assert forall|k: K| m1.contains_key(k) <==> m0.remove(key).contains_key(k) by {
        if m1.contains_key(k) {
            let i = choose|i: int| 0 <= i < after.len() && (#[trigger] after[i]).0 == k;
            let p = if i < at {
                i
            } else {
                i + 1
            };
            assert(before[p] == after[i]);
            assert(before[p].0 != before[at].0);
        }
        if m0.contains_key(k) && k != key {
            let i = choose|i: int| 0 <= i < before.len() && (#[trigger] before[i]).0 == k;
            let p = if i < at {
                i
            } else {
                i - 1
            };
            assert(after[p] == before[i]);
        }
    }
    assert forall|k: K| m1.contains_key(k) implies m1[k] == m0.remove(key)[k] by {
        let i = choose|i: int| 0 <= i < after.len() && (#[trigger] after[i]).0 == k;
        let p = if i < at {
            i
        } else {
            i + 1
        };
        assert(before[p] == after[i]);
        assert(lookup(m1, after[i].0) == Some(after[i].1));
        assert(lookup(m0, before[p].0) == Some(before[p].1));
    }
    assert(m1 =~= m0.remove(key));
}

/// A key that sorts between all of `a` and all of `b` is no key of `a + b`.
pub proof fn lemma_absent<K: Ord, V>(a: Seq<(K, V)>, b: Seq<(K, V)>, key: K)
    requires
        total_order::<K>(),
        forall|i: int| 0 <= i < a.len() ==> lt((#[trigger] a[i]).0, key),
        forall|j: int| 0 <= j < b.len() ==> lt(key, (#[trigger] b[j]).0),
    ensures
        !map_of_pairs(a + b).contains_key(key),
{
    let e = a + b;
    if map_of_pairs(e).contains_key(key) {
        let i = choose|i: int| 0 <= i < e.len() && (#[trigger] e[i]).0 == key;
        if i < a.len() {
            assert(e[i] == a[i]);
            lemma_trichotomy(a[i].0, key);
        } else {
            assert(e[i] == b[i - a.len()]);
            lemma_trichotomy(key, b[i - a.len()].0);
        }
    }
}

/// `before` holds no pair with the key `key`: it falls into `a`, the pairs with lesser keys,
/// and `b`, those with greater keys.
pub open spec fn absent<K: Ord, V>(before: Seq<(K, V)>, a: Seq<(K, V)>, b: Seq<(K, V)>, key: K) -> bool {
    &&& before == a + b
    &&& forall|i: int| 0 <= i < a.len() ==> lt((#[trigger] a[i]).0, key)
    &&& forall|j: int| 0 <= j < b.len() ==> lt(key, (#[trigger] b[j]).0)
}

/// `removed` with more pairs before and behind.
pub proof fn lemma_removed_within<K: Ord, V>(
    before: Seq<(K, V)>,
    after: Seq<(K, V)>,
    a: Seq<(K, V)>,
    b: Seq<(K, V)>,
    key: K,
    value: V,
    front: Seq<(K, V)>,
    back: Seq<(K, V)>,
)
    requires
        removed(before, after, a, b, key, value),
    ensures
        removed(front + before + back, front + after + back, front + a, b + back, key, value),
{
    assert(front + before + back =~= (front + a) + seq![(key, value)] + (b + back));
    assert(front + after + back =~= (front + a) + (b + back));
}

/// `absent` with more pairs before and behind.
pub proof fn lemma_absent_within<K: Ord, V>(
    before: Seq<(K, V)>,
    a: Seq<(K, V)>,
    b: Seq<(K, V)>,
    key: K,
    front: Seq<(K, V)>,
    back: Seq<(K, V)>,
)
    requires
        absent(before, a, b, key),
        forall|i: int| 0 <= i < front.len() ==> lt((#[trigger] front[i]).0, key),
        forall|j: int| 0 <= j < back.len() ==> lt(key, (#[trigger] back[j]).0),
    ensures
        absent(front + before + back, front + a, b + back, key),
{
    assert(front + before + back =~= (front + a) + (b + back));
}

} // verus!
