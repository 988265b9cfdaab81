//! Rows with unique keys, seen as a map from key to row.
use vstd::prelude::*;

verus! {

/// No two rows share a key.
pub open spec fn unique_keys<K, V>(rows: Seq<V>, key: spec_fn(V) -> K) -> bool {
    forall|i: int, j: int|
        0 <= i < rows.len() && 0 <= j < rows.len() && i != j ==> key(#[trigger] rows[i]) != key(
            #[trigger] rows[j],
        )
}

/// Some row has key `k`.
pub open spec fn has_key<K, V>(rows: Seq<V>, key: spec_fn(V) -> K, k: K) -> bool {
    exists|i: int| 0 <= i < rows.len() && key(#[trigger] rows[i]) == k
}

/// The rows as a map from key to row.
pub open spec fn keyed<K, V>(rows: Seq<V>, key: spec_fn(V) -> K) -> Map<K, V> {
    Map::new(
        |k: K| has_key(rows, key, k),
        |k: K| rows[choose|i: int| 0 <= i < rows.len() && key(#[trigger] rows[i]) == k],
    )
}

/// The row at `i` is what the map gives for its key.
pub proof fn lemma_keyed_index<K, V>(rows: Seq<V>, key: spec_fn(V) -> K, i: int)
    requires
        unique_keys(rows, key),
        0 <= i < rows.len(),
    ensures
        keyed(rows, key).contains_key(key(rows[i])),
        keyed(rows, key)[key(rows[i])] == rows[i],
{
    let k = key(rows[i]);
    assert(has_key(rows, key, k));
    let c = choose|c: int| 0 <= c < rows.len() && key(#[trigger] rows[c]) == k;
    if c != i {
        assert(key(rows[c]) != key(rows[i]));
    }
}

/// Replacing a row by one with the same key replaces the key's entry.
pub proof fn lemma_keyed_update<K, V>(rows: Seq<V>, key: spec_fn(V) -> K, i: int, v: V)
    requires
        unique_keys(rows, key),
        0 <= i < rows.len(),
        key(v) == key(rows[i]),
    ensures
        unique_keys(rows.update(i, v), key),
        keyed(rows.update(i, v), key) == keyed(rows, key).insert(key(v), v),
{
    let new = rows.update(i, v);
    assert forall|a: int, b: int|
        0 <= a < new.len() && 0 <= b < new.len() && a != b implies key(#[trigger] new[a]) != key(
        #[trigger] new[b],
    ) by {
        assert(key(new[a]) == key(rows[a]));
        assert(key(new[b]) == key(rows[b]));
    }
    let m1 = keyed(new, key);
    let m2 = keyed(rows, key).insert(key(v), v);
    assert forall|k: K| m1.contains_key(k) <==> m2.contains_key(k) by {
        if m1.contains_key(k) {
            let c = choose|c: int| 0 <= c < new.len() && key(#[trigger] new[c]) == k;
            assert(key(rows[c]) == k);
        }
        if m2.contains_key(k) && k != key(v) {
            let c = choose|c: int| 0 <= c < rows.len() && key(#[trigger] rows[c]) == k;
            assert(key(new[c]) == k);
        }
        if k == key(v) {
            assert(key(new[i]) == k);
        }
    }
    assert forall|k: K| #[trigger] m1.contains_key(k) implies m1[k] == m2[k] by {
        let c = choose|c: int| 0 <= c < new.len() && key(#[trigger] new[c]) == k;
        lemma_keyed_index(new, key, c);
        if c == i {
        } else {
            assert(key(rows[c]) == k);
            lemma_keyed_index(rows, key, c);
        }
    }
    assert(m1 =~= m2);
}

/// Inserting a row with a new key anywhere adds the key's entry.
pub proof fn lemma_keyed_insert<K, V>(rows: Seq<V>, key: spec_fn(V) -> K, p: int, v: V)
    requires
        unique_keys(rows, key),
        0 <= p <= rows.len(),
        !has_key(rows, key, key(v)),
    ensures
        unique_keys(rows.insert(p, v), key),
        keyed(rows.insert(p, v), key) == keyed(rows, key).insert(key(v), v),
{
    let new = rows.insert(p, v);
    assert forall|a: int, b: int|
        0 <= a < new.len() && 0 <= b < new.len() && a != b implies key(#[trigger] new[a]) != key(
        #[trigger] new[b],
    ) by {
        if a != p && b != p {
            let a0 = if a < p { a } else { a - 1 };
            let b0 = if b < p { b } else { b - 1 };
            assert(new[a] == rows[a0]);
            assert(new[b] == rows[b0]);
        } else if a == p {
            let b0 = if b < p { b } else { b - 1 };
            assert(new[b] == rows[b0]);
        } else {
            let a0 = if a < p { a } else { a - 1 };
            assert(new[a] == rows[a0]);
        }
    }
    let m1 = keyed(new, key);
    let m2 = keyed(rows, key).insert(key(v), v);
    assert forall|k: K| m1.contains_key(k) <==> m2.contains_key(k) by {
        if m1.contains_key(k) && k != key(v) {
            let c = choose|c: int| 0 <= c < new.len() && key(#[trigger] new[c]) == k;
            let c0 = if c < p { c } else { c - 1 };
            assert(new[c] == rows[c0]);
        }
        if m2.contains_key(k) && k != key(v) {
            let c = choose|c: int| 0 <= c < rows.len() && key(#[trigger] rows[c]) == k;
            let c1 = if c < p { c } else { c + 1 };
            assert(new[c1] == rows[c]);
        }
        if k == key(v) {
            assert(new[p] == v);
        }
    }
    assert forall|k: K| #[trigger] m1.contains_key(k) implies m1[k] == m2[k] by {
        let c = choose|c: int| 0 <= c < new.len() && key(#[trigger] new[c]) == k;
        lemma_keyed_index(new, key, c);
        if c != p {
            let c0 = if c < p { c } else { c - 1 };
            assert(new[c] == rows[c0]);
            lemma_keyed_index(rows, key, c0);
        }
    }
    assert(m1 =~= m2);
}

/// Appending a row with a new key adds the key's entry.
pub proof fn lemma_keyed_push<K, V>(rows: Seq<V>, key: spec_fn(V) -> K, v: V)
    requires
        unique_keys(rows, key),
        !has_key(rows, key, key(v)),
    ensures
        unique_keys(rows.push(v), key),
        keyed(rows.push(v), key) == keyed(rows, key).insert(key(v), v),
{
    assert(rows.push(v) =~= rows.insert(rows.len() as int, v));
    lemma_keyed_insert(rows, key, rows.len() as int, v);
}

/// No rows, no entries.
pub proof fn lemma_keyed_empty<K, V>(key: spec_fn(V) -> K)
    ensures
        unique_keys(Seq::<V>::empty(), key),
        keyed(Seq::<V>::empty(), key) == Map::<K, V>::empty(),
{
    assert(keyed(Seq::<V>::empty(), key) =~= Map::<K, V>::empty());
}

/// With unique keys there are as many entries as rows.
pub proof fn lemma_keyed_len<K, V>(rows: Seq<V>, key: spec_fn(V) -> K)
    requires
        unique_keys(rows, key),
    ensures
        keyed(rows, key).dom().finite(),
        keyed(rows, key).len() == rows.len(),
{
    let ks = rows.map_values(key);
    assert(keyed(rows, key).dom() =~= ks.to_set()) by {
        assert forall|k: K| keyed(rows, key).dom().contains(k) implies ks.to_set().contains(k) by {
            let c = choose|c: int| 0 <= c < rows.len() && key(#[trigger] rows[c]) == k;
            assert(ks[c] == k);
        }
        assert forall|k: K| ks.to_set().contains(k) implies keyed(rows, key).dom().contains(k) by {
            let c = choose|c: int| 0 <= c < ks.len() && ks[c] == k;
            assert(key(rows[c]) == k);
        }
    }
    assert(ks.no_duplicates()) by {
        assert forall|i: int, j: int| 0 <= i < ks.len() && 0 <= j < ks.len() && i != j implies ks[i]
            != ks[j] by {
            assert(key(rows[i]) != key(rows[j]));
        }
    }
    ks.unique_seq_to_set();
    vstd::seq_lib::seq_to_set_is_finite(ks);
}

/// The rows kept from `rows`, in their order (`src` gives where each came
/// from), are the entries whose row satisfies `keep`.
pub proof fn lemma_keyed_subseq<K, V>(
    rows: Seq<V>,
    key: spec_fn(V) -> K,
    sub: Seq<V>,
    src: Seq<int>,
    keep: spec_fn(V) -> bool,
)
    requires
        unique_keys(rows, key),
        src.len() == sub.len(),
        forall|a: int| 0 <= a < src.len() ==> 0 <= #[trigger] src[a] < rows.len(),
        forall|a: int| 0 <= a < src.len() ==> #[trigger] sub[a] == rows[src[a]],
        forall|a: int, b: int| 0 <= a < b < src.len() ==> #[trigger] src[a] < #[trigger] src[b],
        forall|a: int| 0 <= a < sub.len() ==> keep(#[trigger] sub[a]),
        forall|j: int|
            0 <= j < rows.len() && keep(#[trigger] rows[j]) ==> exists|a: int| 0 <= a < src.len() && src[a] == j,
    ensures
        unique_keys(sub, key),
        keyed(sub, key) == Map::new(
            |k: K| keyed(rows, key).contains_key(k) && keep(keyed(rows, key)[k]),
            |k: K| keyed(rows, key)[k],
        ),
{
    let m = keyed(rows, key);
    assert forall|a: int, b: int| 0 <= a < sub.len() && 0 <= b < sub.len() && a != b implies key(
        #[trigger] sub[a],
    ) != key(#[trigger] sub[b]) by {
        if a < b {
            assert(src[a] < src[b]);
        } else {
            assert(src[b] < src[a]);
        }
    }
    let ms = keyed(sub, key);
    let target = Map::new(|k: K| m.contains_key(k) && keep(m[k]), |k: K| m[k]);
    assert forall|k: K| ms.contains_key(k) <==> target.contains_key(k) by {
        if ms.contains_key(k) {
            let a = choose|a: int| 0 <= a < sub.len() && key(#[trigger] sub[a]) == k;
            lemma_keyed_index(rows, key, src[a]);
        }
        if target.contains_key(k) {
            let c = choose|c: int| 0 <= c < rows.len() && key(#[trigger] rows[c]) == k;
            lemma_keyed_index(rows, key, c);
            let a = choose|a: int| 0 <= a < src.len() && src[a] == c;
            assert(key(sub[a]) == k);
        }
    }
    assert forall|k: K| #[trigger] ms.contains_key(k) implies ms[k] == target[k] by {
        let a = choose|a: int| 0 <= a < sub.len() && key(#[trigger] sub[a]) == k;
        lemma_keyed_index(sub, key, a);
        lemma_keyed_index(rows, key, src[a]);
    }
    assert(ms =~= target);
}

} // verus!
