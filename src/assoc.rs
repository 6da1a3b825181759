use vstd::prelude::*;

verus! {

/// The map that parallel lists of keys and values stand for; a later key
/// shadows an earlier equal one.
pub open spec fn assoc<K, V>(keys: Seq<K>, vals: Seq<V>) -> Map<K, V>
    decreases keys.len(),
{
    if keys.len() == 0 || vals.len() == 0 {
        Map::empty()
    } else {
        assoc(keys.drop_last(), vals.drop_last()).insert(keys.last(), vals.last())
    }
}

/// No key occurs twice.
pub open spec fn keys_unique<K>(keys: Seq<K>) -> bool {
    forall|i: int, j: int| 0 <= i < j < keys.len() ==> keys[i] != keys[j]
}

pub proof fn lemma_assoc_push<K, V>(keys: Seq<K>, vals: Seq<V>, k: K, v: V)
    requires
        keys.len() == vals.len(),
    ensures
        assoc(keys.push(k), vals.push(v)) == assoc(keys, vals).insert(k, v),
{
    assert(keys.push(k).drop_last() =~= keys);
    assert(vals.push(v).drop_last() =~= vals);
}

/// A key that occurs nowhere in the list is not in the map.
pub proof fn lemma_assoc_absent<K, V>(keys: Seq<K>, vals: Seq<V>, k: K)
    requires
        keys.len() == vals.len(),
        forall|i: int| 0 <= i < keys.len() ==> keys[i] != k,
    ensures
        !assoc(keys, vals).contains_key(k),
    decreases keys.len(),
{
    if keys.len() > 0 {
        lemma_assoc_absent(keys.drop_last(), vals.drop_last(), k);
    }
}

/// With unique keys, the map sends the key at `i` to the value at `i`.
pub proof fn lemma_assoc_at<K, V>(keys: Seq<K>, vals: Seq<V>, i: int)
    requires
        keys.len() == vals.len(),
        keys_unique(keys),
        0 <= i < keys.len(),
    ensures
        assoc(keys, vals).contains_key(keys[i]),
        assoc(keys, vals)[keys[i]] == vals[i],
    decreases keys.len(),
{
    if i < keys.len() - 1 {
        lemma_assoc_at(keys.drop_last(), vals.drop_last(), i);
    }
}

/// With unique keys, changing the value at `i` changes the map at that key alone.
pub proof fn lemma_assoc_update<K, V>(keys: Seq<K>, vals: Seq<V>, i: int, v: V)
    requires
        keys.len() == vals.len(),
        keys_unique(keys),
        0 <= i < keys.len(),
    ensures
        assoc(keys, vals.update(i, v)) == assoc(keys, vals).insert(keys[i], v),
    decreases keys.len(),
{
    let nv = vals.update(i, v);
    if i == keys.len() - 1 {
        assert(nv.drop_last() =~= vals.drop_last());
        assert(assoc(keys, nv) =~= assoc(keys, vals).insert(keys[i], v));
    } else {
        assert(nv.drop_last() =~= vals.drop_last().update(i, v));
        lemma_assoc_update(keys.drop_last(), vals.drop_last(), i, v);
        assert(keys.last() != keys[i]);
        assert(assoc(keys, nv) =~= assoc(keys, vals).insert(keys[i], v));
    }
}

} // verus!
