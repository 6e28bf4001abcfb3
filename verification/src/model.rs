use vstd::prelude::*;

verus! {

use crate::cache::CacheEntry;
use crate::keys::CacheKey;
use crate::keys::CacheValue;

/// The contents that a sequence of entries represents: each key's view is
/// mapped to the stored value's view and the stamp of its last touch.
/// A later entry with the same key view overrides an earlier one.
pub open spec fn map_of<K: CacheKey, V: CacheValue>(s: Seq<(K, CacheEntry<V>)>) -> Map<
    K::V,
    (V::V, u64),
>
    decreases s.len(),
{
    if s.len() == 0 {
        Map::empty()
    } else {
        map_of(s.drop_last()).insert(
            s.last().0@,
            (s.last().1.value@, s.last().1.sequence),
        )
    }
}

/// No two entries of the sequence share a key view.
pub open spec fn keys_distinct<K: CacheKey, V: CacheValue>(s: Seq<(K, CacheEntry<V>)>) -> bool {
    forall|i: int, j: int| 0 <= i < j < s.len() ==> s[i].0@ != s[j].0@
}

/// Every stamp recorded in the contents lies at or below the counter `c`.
pub open spec fn stamps_bounded<KV, VV>(m: Map<KV, (VV, u64)>, c: u64) -> bool {
    forall|k: KV| #[trigger] m.contains_key(k) ==> m[k].1 <= c
}

/// No two entries of the contents share a stamp.
pub open spec fn stamps_distinct<KV, VV>(m: Map<KV, (VV, u64)>) -> bool {
    forall|k1: KV, k2: KV|
        #![trigger m.contains_key(k1), m.contains_key(k2)]
        m.contains_key(k1) && m.contains_key(k2) && k1 != k2 ==> m[k1].1 != m[k2].1
}

/// The key `k` carries the smallest stamp in `m`: it marks the least
/// recently touched entry, the one the eviction policy selects.
pub open spec fn is_least_recent<KV, VV>(m: Map<KV, (VV, u64)>, k: KV) -> bool {
    &&& m.contains_key(k)
    &&& forall|k2: KV| #[trigger] m.contains_key(k2) ==> m[k].1 <= m[k2].1
}

/// A key view is in the contents exactly when some entry of the sequence
/// carries it.
pub proof fn lemma_map_of_contains<K: CacheKey, V: CacheValue>(
    s: Seq<(K, CacheEntry<V>)>,
    k: K::V,
)
    ensures
        map_of(s).contains_key(k) <==> exists|i: int| 0 <= i < s.len() && s[i].0@ == k,
    decreases s.len(),
{
    if s.len() > 0 {
        lemma_map_of_contains(s.drop_last(), k);
        if s.last().0@ == k {
            assert(s[s.len() - 1].0@ == k);
        } else if map_of(s).contains_key(k) {
            let i = choose|i: int| 0 <= i < s.drop_last().len() && s.drop_last()[i].0@ == k;
            assert(s[i].0@ == k);
        } else if exists|i: int| 0 <= i < s.len() && s[i].0@ == k {
            let i = choose|i: int| 0 <= i < s.len() && s[i].0@ == k;
            assert(s.drop_last()[i].0@ == k);
        }
    }
}

/// With distinct keys, the contents at an entry's key are that entry's
/// value view and stamp.
pub proof fn lemma_map_of_index<K: CacheKey, V: CacheValue>(s: Seq<(K, CacheEntry<V>)>, i: int)
    requires
        keys_distinct(s),
        0 <= i < s.len(),
    ensures
        map_of(s).contains_key(s[i].0@),
        map_of(s)[s[i].0@] == (s[i].1.value@, s[i].1.sequence),
    decreases s.len(),
{
    if i < s.len() - 1 {
        assert(keys_distinct(s.drop_last()));
        lemma_map_of_index(s.drop_last(), i);
        assert(s.drop_last()[i] == s[i]);
        assert(s.last().0@ != s[i].0@);
    }
}

/// Appending an entry inserts its record into the contents.
pub proof fn lemma_map_of_push<K: CacheKey, V: CacheValue>(
    s: Seq<(K, CacheEntry<V>)>,
    p: (K, CacheEntry<V>),
)
    ensures
        map_of(s.push(p)) == map_of(s).insert(p.0@, (p.1.value@, p.1.sequence)),
{
    assert(s.push(p).drop_last() =~= s);
    assert(s.push(p).last() == p);
}

/// Removing an entry keeps the remaining keys distinct, and no remaining
/// entry carries the removed entry's key view.
pub proof fn lemma_remove_keeps_distinct<K: CacheKey, V: CacheValue>(
    s: Seq<(K, CacheEntry<V>)>,
    i: int,
)
    requires
        keys_distinct(s),
        0 <= i < s.len(),
    ensures
        keys_distinct(s.remove(i)),
        forall|j: int| 0 <= j < s.remove(i).len() ==> s.remove(i)[j].0@ != s[i].0@,
{
    assert forall|j: int| 0 <= j < s.remove(i).len() implies s.remove(i)[j].0@ != s[i].0@ by {
        if j < i {
            assert(s.remove(i)[j] == s[j]);
        } else {
            assert(s.remove(i)[j] == s[j + 1]);
        }
    }
}

/// With distinct keys, removing an entry removes exactly its record from
/// the contents.
pub proof fn lemma_map_of_remove<K: CacheKey, V: CacheValue>(s: Seq<(K, CacheEntry<V>)>, i: int)
    requires
        keys_distinct(s),
        0 <= i < s.len(),
    ensures
        map_of(s.remove(i)) == map_of(s).remove(s[i].0@),
    decreases s.len(),
{
    let k = s[i].0@;
    if i == s.len() - 1 {
        assert(s.remove(i) =~= s.drop_last());
        lemma_map_of_contains(s.drop_last(), k);
        assert(forall|j: int|
            0 <= j < s.drop_last().len() ==> s.drop_last()[j] == s[j] && s[j].0@ != k);
        assert(!map_of(s.drop_last()).contains_key(k));
        assert(map_of(s).remove(k) =~= map_of(s.drop_last()));
    } else {
        assert(keys_distinct(s.drop_last()));
        lemma_map_of_remove(s.drop_last(), i);
        assert(s.remove(i).drop_last() =~= s.drop_last().remove(i));
        assert(s.remove(i).last() == s.last());
        assert(s.drop_last()[i] == s[i]);
        assert(s.last().0@ != k);
        assert(map_of(s.remove(i)) == map_of(s.drop_last().remove(i)).insert(
            s.last().0@,
            (s.last().1.value@, s.last().1.sequence),
        ));
        assert(map_of(s.drop_last()).remove(k).insert(
            s.last().0@,
            (s.last().1.value@, s.last().1.sequence),
        ) =~= map_of(s).remove(k));
    }
}

/// With distinct keys, the contents hold exactly one record per entry:
/// the domain is finite and as large as the sequence.
pub proof fn lemma_map_of_dom_len<K: CacheKey, V: CacheValue>(s: Seq<(K, CacheEntry<V>)>)
    requires
        keys_distinct(s),
    ensures
        map_of(s).dom().finite(),
        map_of(s).dom().len() == s.len(),
    decreases s.len(),
{
    if s.len() == 0 {
        assert(map_of(s).dom() =~= Set::<K::V>::empty());
    } else {
        assert(keys_distinct(s.drop_last()));
        lemma_map_of_dom_len(s.drop_last());
        lemma_map_of_contains(s.drop_last(), s.last().0@);
        assert(forall|j: int|
            0 <= j < s.drop_last().len() ==> s.drop_last()[j] == s[j] && s[j].0@ != s.last().0@);
        assert(!map_of(s.drop_last()).contains_key(s.last().0@));
        assert(map_of(s).dom() =~= map_of(s.drop_last()).dom().insert(s.last().0@));
    }
}

/// When every entry's stamp lies at or below `c`, so does every stamp in
/// the contents.
pub proof fn lemma_map_of_bounded<K: CacheKey, V: CacheValue>(s: Seq<(K, CacheEntry<V>)>, c: u64)
    requires
        forall|i: int| 0 <= i < s.len() ==> #[trigger] s[i].1.sequence <= c,
    ensures
        stamps_bounded(map_of(s), c),
    decreases s.len(),
{
    if s.len() > 0 {
        assert(forall|i: int|
            0 <= i < s.drop_last().len() ==> #[trigger] s.drop_last()[i].1.sequence <= c);
        lemma_map_of_bounded(s.drop_last(), c);
        assert(s[s.len() - 1].1.sequence <= c);
    }
}

} // verus!
