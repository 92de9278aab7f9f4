use vstd::prelude::*;

verus! {

/// The position of the first entry of `m` with key `k`, if there is one.
pub open spec fn key_index<K, V>(m: Seq<(K, V)>, k: K) -> Option<int> {
    if exists|i: int| 0 <= i < m.len() && m[i].0 == k {
        Some(
            choose|i: int|
                0 <= i < m.len() && m[i].0 == k && forall|j: int| 0 <= j < i ==> m[j].0 != k,
        )
    } else {
        None
    }
}

/// The value of key `k` in the table `m`.
pub open spec fn kv_get<K, V>(m: Seq<(K, V)>, k: K) -> Option<V> {
    match key_index(m, k) {
        Some(i) => Some(m[i].1),
        None => None,
    }
}

/// The table `m` where key `k` is given the value `v`: it replaces the value of `k`, or
/// comes last where `k` has none.
pub open spec fn kv_insert<K, V>(m: Seq<(K, V)>, k: K, v: V) -> Seq<(K, V)> {
    match key_index(m, k) {
        Some(i) => m.update(i, (k, v)),
        None => m.push((k, v)),
    }
}

/// The table made by inserting the pairs of `pairs` in order.
pub open spec fn kv_fold<K, V>(pairs: Seq<(K, V)>) -> Seq<(K, V)>
    decreases pairs.len(),
{
    if pairs.len() == 0 {
        seq![]
    } else {
        kv_insert(kv_fold(pairs.drop_last()), pairs.last().0, pairs.last().1)
    }
}

/// No key occurs twice in `m`.
pub open spec fn keys_distinct<K, V>(m: Seq<(K, V)>) -> bool {
    forall|i: int, j: int| 0 <= i < j < m.len() ==> #[trigger] m[i].0 != #[trigger] m[j].0
}

/// The first entry with key `k` is the one that `key_index` names.
pub proof fn lemma_key_index<K, V>(m: Seq<(K, V)>, k: K, i: int)
    requires
        0 <= i < m.len(),
        m[i].0 == k,
        forall|j: int| 0 <= j < i ==> m[j].0 != k,
    ensures
        key_index(m, k) == Some(i),
{
    let c = choose|c: int| 0 <= c < m.len() && m[c].0 == k && forall|j: int| 0 <= j < c ==> m[j].0 != k;
    assert(0 <= c < m.len() && m[c].0 == k && forall|j: int| 0 <= j < c ==> m[j].0 != k);
    if c < i {
        assert(m[c].0 != k);
    }
    if i < c {
        assert(m[i].0 != k);
    }
}

/// Inserting into a table whose keys are distinct keeps them distinct.
pub proof fn lemma_kv_insert_distinct<K, V>(m: Seq<(K, V)>, k: K, v: V)
    requires
        keys_distinct(m),
    ensures
        keys_distinct(kv_insert(m, k, v)),
        kv_get(kv_insert(m, k, v), k) == Some(v),
{
    let r = kv_insert(m, k, v);
    match key_index(m, k) {
        Some(i) => {
            let c = choose|c: int| 0 <= c < m.len() && m[c].0 == k && forall|j: int| 0 <= j < c ==> m[j].0 != k;
            assert(c == i);
            assert forall|a: int, b: int| 0 <= a < b < r.len() implies #[trigger] r[a].0 != #[trigger] r[b].0 by {
                assert(r[a].0 == m[a].0);
                assert(r[b].0 == m[b].0);
            }
            lemma_key_index(r, k, i);
        },
        None => {
            assert forall|a: int, b: int| 0 <= a < b < r.len() implies #[trigger] r[a].0 != #[trigger] r[b].0 by {
                if b < m.len() {
                    assert(r[a].0 == m[a].0);
                    assert(r[b].0 == m[b].0);
                } else {
                    assert(r[a].0 == m[a].0);
                }
            }
            lemma_key_index(r, k, m.len() as int);
        },
    }
}

/// Whatever pairs a table is built from, no key occurs twice in it.
pub proof fn lemma_kv_fold_distinct<K, V>(pairs: Seq<(K, V)>)
    ensures
        keys_distinct(kv_fold(pairs)),
    decreases pairs.len(),
{
    if pairs.len() > 0 {
        lemma_kv_fold_distinct(pairs.drop_last());
        lemma_kv_insert_distinct(kv_fold(pairs.drop_last()), pairs.last().0, pairs.last().1);
    }
}

/// The value of the last pair of `pairs` with key `k`, if there is one.
pub open spec fn last_value<K, V>(pairs: Seq<(K, V)>, k: K) -> Option<V>
    decreases pairs.len(),
{
    if pairs.len() == 0 {
        None
    } else if pairs.last().0 == k {
        Some(pairs.last().1)
    } else {
        last_value(pairs.drop_last(), k)
    }
}

proof fn lemma_minimal_witness<K, V>(m: Seq<(K, V)>, k: K, i0: int)
    requires
        0 <= i0 < m.len(),
        m[i0].0 == k,
    ensures
        exists|i: int| 0 <= i < m.len() && m[i].0 == k && forall|j: int| 0 <= j < i ==> m[j].0 != k,
    decreases i0,
{
    if exists|j: int| 0 <= j < i0 && m[j].0 == k {
        let j = choose|j: int| 0 <= j < i0 && m[j].0 == k;
        lemma_minimal_witness(m, k, j);
    } else {
        assert(forall|j: int| 0 <= j < i0 ==> m[j].0 != k);
    }
}

/// `key_index` names the first entry with key `k`, or says that there is none.
pub proof fn lemma_key_index_found<K, V>(m: Seq<(K, V)>, k: K)
    ensures
        key_index(m, k) matches Some(i) ==> 0 <= i < m.len() && m[i].0 == k && forall|j: int|
            0 <= j < i ==> m[j].0 != k,
        key_index(m, k) is None ==> forall|j: int| 0 <= j < m.len() ==> m[j].0 != k,
{
    if exists|i: int| 0 <= i < m.len() && m[i].0 == k {
        let i0 = choose|i: int| 0 <= i < m.len() && m[i].0 == k;
        lemma_minimal_witness(m, k, i0);
    }
}

/// Inserting key `k2` leaves the value of any other key as it was.
pub proof fn lemma_kv_insert_other<K, V>(m: Seq<(K, V)>, k2: K, v: V, k: K)
    requires
        k != k2,
    ensures
        kv_get(kv_insert(m, k2, v), k) == kv_get(m, k),
{
    let r = kv_insert(m, k2, v);
    lemma_key_index_found(m, k2);
    lemma_key_index_found(m, k);
    assert(forall|j: int| 0 <= j < m.len() ==> #[trigger] r[j].0 == m[j].0);
    match key_index(m, k) {
        Some(i) => {
            assert(forall|j: int| 0 <= j < i ==> r[j].0 != k);
            lemma_key_index(r, k, i);
            assert(r[i] == m[i]);
        },
        None => {
            assert forall|j: int| 0 <= j < r.len() implies r[j].0 != k by {
                if j < m.len() {
                    assert(r[j].0 == m[j].0);
                }
            }
            lemma_key_index_found(r, k);
        },
    }
}

/// In a table built from pairs, a key holds the value of its last pair.
pub proof fn lemma_kv_fold_last<K, V>(pairs: Seq<(K, V)>, k: K)
    ensures
        kv_get(kv_fold(pairs), k) == last_value(pairs, k),
    decreases pairs.len(),
{
    if pairs.len() > 0 {
        let m = kv_fold(pairs.drop_last());
        lemma_kv_fold_last(pairs.drop_last(), k);
        lemma_kv_fold_distinct(pairs.drop_last());
        if pairs.last().0 == k {
            lemma_kv_insert_distinct(m, k, pairs.last().1);
        } else {
            lemma_kv_insert_other(m, pairs.last().0, pairs.last().1, k);
        }
    }
}

/// Every value of a table built from pairs is the value of one of the pairs: what holds of
/// each value of the pairs holds of each value of the table.
pub proof fn lemma_kv_fold_values<K, V>(pairs: Seq<(K, V)>, p: spec_fn(V) -> bool)
    requires
        forall|j: int| 0 <= j < pairs.len() ==> p(#[trigger] pairs[j].1),
    ensures
        forall|i: int| 0 <= i < kv_fold(pairs).len() ==> p(#[trigger] kv_fold(pairs)[i].1),
    decreases pairs.len(),
{
    if pairs.len() > 0 {
        let d = pairs.drop_last();
        assert forall|j: int| 0 <= j < d.len() implies p(#[trigger] d[j].1) by {
            assert(d[j] == pairs[j]);
        }
        lemma_kv_fold_values(d, p);
        let m = kv_fold(d);
        let r = kv_fold(pairs);
        assert(p(pairs[pairs.len() - 1].1));
        lemma_key_index_found(m, pairs.last().0);
        assert forall|i: int| 0 <= i < r.len() implies p(#[trigger] r[i].1) by {
            if i < m.len() && r[i] == m[i] {
            } else {
                assert(r[i] == (pairs.last().0, pairs.last().1));
            }
        }
    }
}

} // verus!
