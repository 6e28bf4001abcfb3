use vstd::prelude::*;

verus! {

use crate::keys::CacheKey;
use crate::keys::CacheValue;
use crate::model::is_least_recent;
use crate::model::keys_distinct;
use crate::model::lemma_map_of_bounded;
use crate::model::lemma_map_of_contains;
use crate::model::lemma_map_of_index;
use crate::model::lemma_map_of_push;
use crate::model::lemma_map_of_remove;
use crate::model::lemma_remove_keeps_distinct;
use crate::model::map_of;
use crate::model::stamps_bounded;
use crate::model::stamps_distinct;
use crate::digits::to_decimal;
use crate::snapshot::LineParse;
use crate::snapshot::apply_records;
use crate::snapshot::lemma_apply_push;
use crate::snapshot::lemma_max_stamp_push;
use crate::snapshot::lemma_render_push;
use crate::snapshot::line_text;
use crate::snapshot::max_stamp;
use crate::snapshot::parse_line_exec;
use crate::snapshot::parse_records;
use crate::snapshot::records_list;
use crate::snapshot::render;
use crate::text::PersistText;
use crate::text::find_ch;
use crate::text::find_char;
use vstd::string::StrSliceExecFns;
use vstd::string::StringExecFns;

/// Internal record storing a value together with the stamp of its last
/// access or insertion.
pub struct CacheEntry<V> {
    pub value: V,
    pub sequence: u64,
}

/// The errors the cache itself can raise. Failures of the surrounding
/// input and output channels are the owner's to report.
#[derive(Clone, Copy, PartialEq, Eq, Structural, Debug)]
pub enum CacheError {
    /// A snapshot was requested but no persist location is configured.
    PersistenceNotConfigured,
    /// A persisted record carried a key, value, or stamp field that does
    /// not decode; the whole load is abandoned.
    ParseFailure,
}

/// The eviction-tracked map interface: an associative store kept in sync
/// with an access-order tracker driven by a logical clock.
pub trait CacheLRU<K: CacheKey, V: CacheValue>: Sized {
    /// The structural invariant: keys are distinct and no stamp exceeds
    /// the counter.
    spec fn inv(&self) -> bool;

    /// The contents: each present key's view mapped to the stored value's
    /// view and the stamp of its last touch.
    spec fn contents(&self) -> Map<K::V, (V::V, u64)>;

    /// The logical clock; it never decreases, and every touch stamps the
    /// touched entry with a fresh, strictly larger value.
    spec fn counter(&self) -> u64;

    /// How many entries the store currently holds.
    spec fn entry_count(&self) -> nat;

    /// The fixed bound on the number of entries at rest.
    spec fn capacity_of(&self) -> nat;

    /// A hit advances the clock, restamps the entry as most recently
    /// used, and hands out a copy of its value; a miss changes nothing.
    fn on_get(&mut self, key: &K) -> (r: Option<V>)
        requires
            old(self).inv(),
            old(self).counter() < u64::MAX,
        ensures
            final(self).inv(),
            final(self).capacity_of() == old(self).capacity_of(),
            final(self).entry_count() == old(self).entry_count(),
            match r {
                Some(v) => {
                    &&& old(self).contents().contains_key(key@)
                    &&& v@ == old(self).contents()[key@].0
                    &&& final(self).counter() == old(self).counter() + 1
                    &&& final(self).contents() == old(self).contents().insert(
                        key@,
                        (v@, final(self).counter()),
                    )
                },
                None => {
                    &&& !old(self).contents().contains_key(key@)
                    &&& *final(self) == *old(self)
                },
            },
            stamps_bounded(final(self).contents(), final(self).counter()),
            stamps_distinct(old(self).contents()) ==> stamps_distinct(final(self).contents()),
    ;

    /// Advances the clock and stores the value under the key, stamped as
    /// most recently used. Returns the previous value when the key was
    /// already present. When a fresh key pushes the store past capacity,
    /// exactly one least recently used entry is evicted.
    fn on_put(&mut self, key: K, value: V) -> (r: Option<V>)
        requires
            old(self).inv(),
            old(self).counter() < u64::MAX,
        ensures
            final(self).inv(),
            final(self).capacity_of() == old(self).capacity_of(),
            final(self).counter() == old(self).counter() + 1,
            ({
                let stamped = old(self).contents().insert(
                    key@,
                    (value@, final(self).counter()),
                );
                if old(self).contents().contains_key(key@) {
                    &&& match r {
                        Some(p) => p@ == old(self).contents()[key@].0,
                        None => false,
                    }
                    &&& final(self).contents() == stamped
                    &&& final(self).entry_count() == old(self).entry_count()
                } else if old(self).entry_count() + 1 <= old(self).capacity_of() {
                    &&& r is None
                    &&& final(self).contents() == stamped
                    &&& final(self).entry_count() == old(self).entry_count() + 1
                } else {
                    &&& r is None
                    &&& exists|victim: K::V|
                        {
                            &&& #[trigger] is_least_recent(stamped, victim)
                            &&& final(self).contents() == stamped.remove(victim)
                        }
                    &&& final(self).entry_count() == old(self).entry_count()
                }
            }),
            old(self).entry_count() <= old(self).capacity_of() ==> final(self).entry_count()
                <= final(self).capacity_of(),
            stamps_bounded(final(self).contents(), final(self).counter()),
            stamps_distinct(old(self).contents()) ==> stamps_distinct(final(self).contents()),
    ;

    /// Removes the entry carrying the smallest stamp and returns its key,
    /// or returns nothing when the store is empty. The clock is not
    /// advanced.
    fn remove_least_recently_used(&mut self) -> (r: Option<K>)
        requires
            old(self).inv(),
        ensures
            final(self).inv(),
            final(self).counter() == old(self).counter(),
            final(self).capacity_of() == old(self).capacity_of(),
            match r {
                Some(k) => {
                    &&& is_least_recent(old(self).contents(), k@)
                    &&& final(self).contents() == old(self).contents().remove(k@)
                    &&& final(self).entry_count() + 1 == old(self).entry_count()
                },
                None => {
                    &&& old(self).entry_count() == 0
                    &&& *final(self) == *old(self)
                },
            },
    ;
}

/// A key/value cache with a fixed capacity, least-recently-used eviction,
/// and an optional persist location for flat-file snapshots.
pub struct Cache<K: CacheKey, V: CacheValue> {
    entries: Vec<(K, CacheEntry<V>)>,
    capacity: usize,
    sequence: u64,
    persist_path: Option<String>,
}

impl<K: CacheKey, V: CacheValue> Cache<K, V> {
    /// The configured persist location, as a sequence of characters.
    pub closed spec fn spec_path(&self) -> Option<Seq<char>> {
        match self.persist_path {
            Some(p) => Some(p@),
            None => None,
        }
    }

    /// Creates an empty cache bounded by `capacity`, with no persist
    /// location.
    pub fn new(capacity: usize) -> (r: Self)
        ensures
            r.inv(),
            r.contents() == Map::<K::V, (V::V, u64)>::empty(),
            r.counter() == 0,
            r.entry_count() == 0,
            r.capacity_of() == capacity,
            r.spec_path() is None,
    {
        Cache { entries: Vec::new(), capacity, sequence: 0, persist_path: None }
    }

    /// Creates an empty cache bounded by `capacity` that will snapshot to
    /// `path`. The file at `path` is not read.
    pub fn new_persistent(capacity: usize, path: &str) -> (r: Self)
        ensures
            r.inv(),
            r.contents() == Map::<K::V, (V::V, u64)>::empty(),
            r.counter() == 0,
            r.entry_count() == 0,
            r.capacity_of() == capacity,
            r.spec_path() == Some(path@),
    {
        Cache { entries: Vec::new(), capacity, sequence: 0, persist_path: Some(path.to_owned()) }
    }

    /// The entry count is the size of the contents: with distinct keys,
    /// each entry shows up in the contents exactly once, so the capacity
    /// bound on the count bounds the contents themselves.
    pub proof fn lemma_entry_count_is_contents_size(&self)
        requires
            self.inv(),
        ensures
            self.contents().dom().finite(),
            self.entry_count() == self.contents().dom().len(),
    {
        crate::model::lemma_map_of_dom_len(self.entries@);
    }

    /// The configured persist location, if any.
    pub fn persist_location(&self) -> (r: Option<&String>)
        ensures
            match r {
                Some(p) => self.spec_path() == Some(p@),
                None => self.spec_path() is None,
            },
    {
        self.persist_path.as_ref()
    }

    /// Looks for the entry whose key view matches `key`.
    fn find_index(&self, key: &K) -> (r: Option<usize>)
        ensures
            match r {
                Some(i) => i < self.entries@.len() && self.entries@[i as int].0@ == key@,
                None => forall|j: int| 0 <= j < self.entries@.len() ==> self.entries@[j].0@ != key@,
            },
    {
        let mut i: usize = 0;
        while i < self.entries.len()
            invariant
                i <= self.entries@.len(),
                forall|j: int| 0 <= j < i ==> self.entries@[j].0@ != key@,
            decreases self.entries@.len() - i,
        {
            if self.entries[i].0.key_eq(key) {
                return Some(i);
            }
            i = i + 1;
        }
        None
    }

    /// Looks the key up. A hit advances the clock, restamps the entry as
    /// most recently used, and returns a copy of the stored value; a miss
    /// leaves the cache untouched.
    pub fn get(&mut self, key: &K) -> (r: Option<V>)
        requires
            old(self).inv(),
            old(self).counter() < u64::MAX,
        ensures
            final(self).inv(),
            final(self).capacity_of() == old(self).capacity_of(),
            final(self).spec_path() == old(self).spec_path(),
            final(self).entry_count() == old(self).entry_count(),
            match r {
                Some(v) => {
                    &&& old(self).contents().contains_key(key@)
                    &&& v@ == old(self).contents()[key@].0
                    &&& final(self).counter() == old(self).counter() + 1
                    &&& final(self).contents() == old(self).contents().insert(
                        key@,
                        (v@, final(self).counter()),
                    )
                },
                None => {
                    &&& !old(self).contents().contains_key(key@)
                    &&& *final(self) == *old(self)
                },
            },
            stamps_bounded(final(self).contents(), final(self).counter()),
            stamps_distinct(old(self).contents()) ==> stamps_distinct(final(self).contents()),
    {
        let ghost s0 = self.entries@;
        let ghost m0 = map_of(s0);
        let ghost c0 = self.sequence;
        match self.find_index(key) {
            None => {
                proof {
                    lemma_map_of_contains(s0, key@);
                    lemma_map_of_bounded(s0, c0);
                }
                None
            },
            Some(i) => {
                proof {
                    lemma_map_of_contains(s0, key@);
                    lemma_map_of_index(s0, i as int);
                    lemma_map_of_bounded(s0, c0);
                }
                let c = self.sequence + 1;
                self.sequence = c;
                let (k0, entry0) = self.entries.remove(i);
                let out = entry0.value.duplicate();
                self.entries.push((k0, CacheEntry { value: entry0.value, sequence: c }));
                proof {
                    self.lemma_after_restamp(s0, m0, i as int, c0);
                }
                Some(out)
            },
        }
    }

    /// Proof that removing entry `i` and appending it again with the
    /// fresh stamp yields the restamped contents and keeps the invariant.
    proof fn lemma_after_restamp(
        &self,
        s0: Seq<(K, CacheEntry<V>)>,
        m0: Map<K::V, (V::V, u64)>,
        i: int,
        c0: u64,
    )
        requires
            keys_distinct(s0),
            forall|j: int| 0 <= j < s0.len() ==> #[trigger] s0[j].1.sequence <= c0,
            c0 < u64::MAX,
            0 <= i < s0.len(),
            m0 == map_of(s0),
            self.sequence == c0 + 1,
            self.entries@.len() == s0.len(),
            self.entries@ == s0.remove(i).push(self.entries@.last()),
            self.entries@.last().0@ == s0[i].0@,
            self.entries@.last().1.sequence == c0 + 1,
        ensures
            self.inv(),
            self.contents() == m0.insert(
                s0[i].0@,
                (self.entries@.last().1.value@, (c0 + 1) as u64),
            ),
            stamps_bounded(self.contents(), self.sequence),
            stamps_distinct(m0) ==> stamps_distinct(self.contents()),
    {
        let k = s0[i].0@;
        let s1 = s0.remove(i);
        let p = self.entries@.last();
        lemma_remove_keeps_distinct(s0, i);
        lemma_map_of_remove(s0, i);
        lemma_map_of_push(s1, p);
        lemma_map_of_bounded(s0, c0);
        // the appended key is fresh in the shortened sequence
        assert forall|a: int, b: int| 0 <= a < b < self.entries@.len() implies self.entries@[a].0@
            != self.entries@[b].0@ by {
            if b == self.entries@.len() - 1 {
                assert(self.entries@[a] == s1[a]);
            } else {
                assert(self.entries@[a] == s1[a] && self.entries@[b] == s1[b]);
            }
        }
        assert forall|j: int| 0 <= j < self.entries@.len() implies #[trigger] self.entries@[j].1.sequence
            <= self.sequence by {
            if j < self.entries@.len() - 1 {
                if j < i {
                    assert(s1[j] == s0[j]);
                } else {
                    assert(s1[j] == s0[j + 1]);
                }
            }
        }
        assert(self.contents() == map_of(s1).insert(k, (p.1.value@, p.1.sequence)));
        assert(m0.remove(k).insert(k, (p.1.value@, p.1.sequence)) =~= m0.insert(
            k,
            (p.1.value@, p.1.sequence),
        ));
        lemma_map_of_bounded(self.entries@, self.sequence);
        if stamps_distinct(m0) {
            assert forall|k1: K::V, k2: K::V|
                self.contents().contains_key(k1) && self.contents().contains_key(k2) && k1
                    != k2 implies self.contents()[k1].1 != self.contents()[k2].1 by {
                if k1 != k && k2 != k {
                    assert(m0.contains_key(k1) && m0.contains_key(k2));
                } else if k1 == k {
                    assert(m0.contains_key(k2) && m0[k2].1 <= c0);
                } else {
                    assert(m0.contains_key(k1) && m0[k1].1 <= c0);
                }
            }
        }
    }

    /// Advances the clock and stores the value under the key, stamped as
    /// most recently used. Returns the previous value when the key was
    /// already present. When a fresh key pushes the store past capacity,
    /// exactly one least recently used entry is evicted before returning;
    /// with capacity zero that is the fresh entry itself, so the cache
    /// stays empty.
    pub fn put(&mut self, key: K, value: V) -> (r: Option<V>)
        requires
            old(self).inv(),
            old(self).counter() < u64::MAX,
        ensures
            final(self).inv(),
            final(self).capacity_of() == old(self).capacity_of(),
            final(self).spec_path() == old(self).spec_path(),
            final(self).counter() == old(self).counter() + 1,
            ({
                let stamped = old(self).contents().insert(
                    key@,
                    (value@, final(self).counter()),
                );
                if old(self).contents().contains_key(key@) {
                    &&& match r {
                        Some(p) => p@ == old(self).contents()[key@].0,
                        None => false,
                    }
                    &&& final(self).contents() == stamped
                    &&& final(self).entry_count() == old(self).entry_count()
                } else if old(self).entry_count() + 1 <= old(self).capacity_of() {
                    &&& r is None
                    &&& final(self).contents() == stamped
                    &&& final(self).entry_count() == old(self).entry_count() + 1
                } else {
                    &&& r is None
                    &&& exists|victim: K::V|
                        {
                            &&& #[trigger] is_least_recent(stamped, victim)
                            &&& final(self).contents() == stamped.remove(victim)
                        }
                    &&& final(self).entry_count() == old(self).entry_count()
                }
            }),
            old(self).entry_count() <= old(self).capacity_of() ==> final(self).entry_count()
                <= final(self).capacity_of(),
            stamps_bounded(final(self).contents(), final(self).counter()),
            stamps_distinct(old(self).contents()) ==> stamps_distinct(final(self).contents()),
    {
        let ghost s0 = self.entries@;
        let ghost m0 = map_of(s0);
        let ghost c0 = self.sequence;
        let ghost kview = key@;
        let ghost vview = value@;
        let c = self.sequence + 1;
        self.sequence = c;
        match self.find_index(&key) {
            Some(i) => {
                proof {
                    lemma_map_of_contains(s0, kview);
                    lemma_map_of_index(s0, i as int);
                }
                let (k0, entry0) = self.entries.remove(i);
                self.entries.push((k0, CacheEntry { value, sequence: c }));
                proof {
                    self.lemma_after_restamp(s0, m0, i as int, c0);
                }
                Some(entry0.value)
            },
            None => {
                proof {
                    lemma_map_of_contains(s0, kview);
                    lemma_map_of_bounded(s0, c0);
                }
                self.entries.push((key, CacheEntry { value, sequence: c }));
                let ghost stamped = m0.insert(kview, (vview, c));
                proof {
                    lemma_map_of_push(s0, self.entries@.last());
                    assert(map_of(self.entries@) == stamped);
                    assert forall|a: int, b: int|
                        0 <= a < b < self.entries@.len() implies self.entries@[a].0@
                        != self.entries@[b].0@ by {
                        if b == self.entries@.len() - 1 {
                            assert(self.entries@[a] == s0[a]);
                        } else {
                            assert(self.entries@[a] == s0[a] && self.entries@[b] == s0[b]);
                        }
                    }
                    assert forall|j: int|
                        0 <= j < self.entries@.len() implies #[trigger] self.entries@[j].1.sequence
                        <= self.sequence by {
                        if j < self.entries@.len() - 1 {
                            assert(self.entries@[j] == s0[j]);
                        }
                    }
                    lemma_map_of_bounded(self.entries@, self.sequence);
                    if stamps_distinct(m0) {
                        lemma_fresh_stamp_distinct(m0, c0, stamped, kview, vview);
                    }
                }
                if self.entries.len() > self.capacity {
                    let evicted = self.remove_lru_entry();
                    proof {
                        match evicted {
                            Some(k2) => {
                                assert(is_least_recent(stamped, k2@));
                                if stamps_distinct(m0) {
                                    assert forall|k1: K::V, k3: K::V|
                                        #![trigger self.contents().contains_key(k1), self.contents().contains_key(k3)]
                                        self.contents().contains_key(k1)
                                            && self.contents().contains_key(k3) && k1
                                            != k3 implies self.contents()[k1].1
                                        != self.contents()[k3].1 by {
                                        assert(stamped.contains_key(k1)
                                            && stamped.contains_key(k3));
                                    }
                                }
                            },
                            None => {
                                assert(false);
                            },
                        }
                    }
                }
                None
            },
        }
    }

    /// Scans for the entry with the smallest stamp, removes it, and
    /// returns its key; returns nothing when the cache is empty. When
    /// several entries share the smallest stamp, which can only happen
    /// in a cache rebuilt from a hand-edited snapshot, the one stored
    /// earliest is taken.
    pub fn remove_lru_entry(&mut self) -> (r: Option<K>)
        requires
            old(self).inv(),
        ensures
            final(self).inv(),
            final(self).counter() == old(self).counter(),
            final(self).capacity_of() == old(self).capacity_of(),
            final(self).spec_path() == old(self).spec_path(),
            match r {
                Some(k) => {
                    &&& is_least_recent(old(self).contents(), k@)
                    &&& final(self).contents() == old(self).contents().remove(k@)
                    &&& final(self).entry_count() + 1 == old(self).entry_count()
                },
                None => {
                    &&& old(self).entry_count() == 0
                    &&& *final(self) == *old(self)
                },
            },
    {
        let ghost s0 = self.entries@;
        let ghost m0 = map_of(s0);
        if self.entries.len() == 0 {
            return None;
        }
        let mut best: usize = 0;
        let mut i: usize = 1;
        while i < self.entries.len()
            invariant
                0 < i <= self.entries@.len(),
                best < i,
                forall|j: int|
                    0 <= j < i ==> self.entries@[best as int].1.sequence
                        <= #[trigger] self.entries@[j].1.sequence,
            decreases self.entries@.len() - i,
        {
            if self.entries[i].1.sequence < self.entries[best].1.sequence {
                best = i;
            }
            i = i + 1;
        }
        proof {
            lemma_map_of_index(s0, best as int);
            lemma_remove_keeps_distinct(s0, best as int);
            lemma_map_of_remove(s0, best as int);
            // minimality over the contents follows from minimality over entries
            assert forall|k2: K::V| #[trigger] m0.contains_key(k2) implies m0[s0[best as int].0@].1
                <= m0[k2].1 by {
                lemma_map_of_contains(s0, k2);
                let j = choose|j: int| 0 <= j < s0.len() && s0[j].0@ == k2;
                lemma_map_of_index(s0, j);
            }
        }
        let (k, _dropped) = self.entries.remove(best);
        proof {
            assert forall|j: int|
                0 <= j < self.entries@.len() implies #[trigger] self.entries@[j].1.sequence
                <= self.sequence by {
            }
        }
        Some(k)
    }

    /// Stores a record under an explicit stamp, overriding any entry
    /// with the same key view; the clock is not consulted. Loading a
    /// snapshot rebuilds entries this way.
    fn store_record(&mut self, key: K, value: V, stamp: u64)
        requires
            keys_distinct(old(self).entries@),
        ensures
            keys_distinct(final(self).entries@),
            map_of(final(self).entries@) == map_of(old(self).entries@).insert(
                key@,
                (value@, stamp),
            ),
            final(self).capacity == old(self).capacity,
            final(self).sequence == old(self).sequence,
            final(self).persist_path == old(self).persist_path,
    {
        let ghost s0 = self.entries@;
        let ghost kview = key@;
        match self.find_index(&key) {
            Some(i) => {
                proof {
                    lemma_map_of_index(s0, i as int);
                    lemma_remove_keeps_distinct(s0, i as int);
                    lemma_map_of_remove(s0, i as int);
                }
                let (k0, _old_entry) = self.entries.remove(i);
                self.entries.push((k0, CacheEntry { value, sequence: stamp }));
                proof {
                    let s1 = s0.remove(i as int);
                    lemma_map_of_push(s1, self.entries@.last());
                    assert forall|a: int, b: int|
                        0 <= a < b < self.entries@.len() implies self.entries@[a].0@
                        != self.entries@[b].0@ by {
                        if b == self.entries@.len() - 1 {
                            assert(self.entries@[a] == s1[a]);
                        } else {
                            assert(self.entries@[a] == s1[a] && self.entries@[b] == s1[b]);
                        }
                    }
                    assert(map_of(s0).remove(kview).insert(kview, (self.entries@.last().1.value@, stamp))
                        =~= map_of(s0).insert(kview, (self.entries@.last().1.value@, stamp)));
                }
            },
            None => {
                self.entries.push((key, CacheEntry { value, sequence: stamp }));
                proof {
                    lemma_map_of_push(s0, self.entries@.last());
                    assert forall|a: int, b: int|
                        0 <= a < b < self.entries@.len() implies self.entries@[a].0@
                        != self.entries@[b].0@ by {
                        if b == self.entries@.len() - 1 {
                            assert(self.entries@[a] == s0[a]);
                        } else {
                            assert(self.entries@[a] == s0[a] && self.entries@[b] == s0[b]);
                        }
                    }
                }
            },
        }
    }
}

impl<K: CacheKey + PersistText, V: CacheValue + PersistText> Cache<K, V> {
    /// Serializes the contents, oldest stamp first, one
    /// `key=value<TAB>stamp` line per entry. Fails when no persist
    /// location is configured. The owner writes the returned text over
    /// the file at the configured location, replacing it whole.
    pub fn snapshot(&self) -> (r: Result<String, CacheError>)
        requires
            self.inv(),
        ensures
            match r {
                Ok(text) => self.spec_path() is Some && exists|es: Seq<(K::V, V::V, u64)>|
                    #[trigger] records_list(self.contents(), es) && text@ == render::<K, V>(es),
                Err(e) => {
                    &&& e == CacheError::PersistenceNotConfigured
                    &&& self.spec_path() is None
                },
            },
    {
        if self.persist_path.is_none() {
            return Err(CacheError::PersistenceNotConfigured);
        }
        let ghost s0 = self.entries@;
        let ghost m0 = map_of(s0);
        let mut rows: Vec<(String, String, u64)> = Vec::new();
        let mut i: usize = 0;
        while i < self.entries.len()
            invariant
                i <= self.entries@.len(),
                rows@.len() == i,
                forall|j: int|
                    0 <= j < i ==> (#[trigger] rows@[j]).0@ == K::text_of(self.entries@[j].0@)
                        && rows@[j].1@ == V::text_of(self.entries@[j].1.value@) && rows@[j].2
                        == self.entries@[j].1.sequence,
            decreases self.entries@.len() - i,
        {
            let kt = self.entries[i].0.to_text();
            let vt = self.entries[i].1.value.to_text();
            rows.push((kt, vt, self.entries[i].1.sequence));
            i = i + 1;
        }
        let ghost mut gw = Seq::new(
            s0.len(),
            |j: int| (s0[j].0@, s0[j].1.value@, s0[j].1.sequence),
        );
        let ghost mut gs = Seq::<(K::V, V::V, u64)>::empty();
        proof {
            assert forall|j: int|
                0 <= j < gw.len() implies m0.contains_key(#[trigger] gw[j].0) && m0[gw[j].0] == (
                gw[j].1,
                gw[j].2,
            ) by {
                lemma_map_of_index(s0, j);
            }
            assert forall|k: K::V| #[trigger]
                m0.contains_key(k) implies exists|j: int| 0 <= j < gw.len() && gw[j].0 == k by {
                lemma_map_of_contains(s0, k);
                let j = choose|j: int| 0 <= j < s0.len() && s0[j].0@ == k;
                assert(gw[j].0 == k);
            }
        }
        let mut out = String::new();
        while rows.len() > 0
            invariant
                rows@.len() == gw.len(),
                forall|j: int|
                    0 <= j < gw.len() ==> (#[trigger] rows@[j]).0@ == K::text_of(gw[j].0)
                        && rows@[j].1@ == V::text_of(gw[j].1) && rows@[j].2 == gw[j].2,
                out@ == render::<K, V>(gs),
                forall|j: int|
                    0 <= j < gs.len() ==> m0.contains_key(#[trigger] gs[j].0) && m0[gs[j].0] == (
                        gs[j].1,
                        gs[j].2,
                    ),
                forall|j: int|
                    0 <= j < gw.len() ==> m0.contains_key(#[trigger] gw[j].0) && m0[gw[j].0] == (
                        gw[j].1,
                        gw[j].2,
                    ),
                forall|a: int, b: int| 0 <= a < b < gs.len() ==> gs[a].0 != gs[b].0,
                forall|a: int, b: int| 0 <= a < b < gw.len() ==> gw[a].0 != gw[b].0,
                forall|a: int, b: int|
                    0 <= a < gs.len() && 0 <= b < gw.len() ==> gs[a].0 != gw[b].0,
                forall|a: int, b: int| 0 <= a < b < gs.len() ==> gs[a].2 <= gs[b].2,
                forall|a: int, b: int|
                    0 <= a < gs.len() && 0 <= b < gw.len() ==> gs[a].2 <= gw[b].2,
                forall|k: K::V| #[trigger]
                    m0.contains_key(k) ==> (exists|j: int| 0 <= j < gs.len() && gs[j].0 == k)
                        || (exists|j: int| 0 <= j < gw.len() && gw[j].0 == k),
            decreases rows@.len(),
        {
            let mut best: usize = 0;
            let mut j: usize = 1;
            while j < rows.len()
                invariant
                    rows@.len() > 0,
                    0 < j <= rows@.len(),
                    best < j,
                    forall|a: int| 0 <= a < j ==> rows@[best as int].2 <= (#[trigger] rows@[a]).2,
                decreases rows@.len() - j,
            {
                if rows[j].2 < rows[best].2 {
                    best = j;
                }
                j = j + 1;
            }
            let ghost gw0 = gw;
            let ghost gs0 = gs;
            let ghost rows0 = rows@;
            let ghost e = gw[best as int];
            let row = rows.remove(best);
            out.append(row.0.as_str());
            out.append("=");
            out.append(row.1.as_str());
            out.append("\t");
            let ds = to_decimal(row.2);
            out.append(ds.as_str());
            out.append("\n");
            proof {
                reveal_strlit("=");
                reveal_strlit("\t");
                reveal_strlit("\n");
                lemma_render_push::<K, V>(gs0, e);
                assert(out@ =~= render::<K, V>(gs0) + line_text::<K, V>(e));
                gs = gs0.push(e);
                gw = gw0.remove(best as int);
                gw0.remove_ensures(best as int);
                assert forall|a: int, b: int|
                    0 <= a < gs.len() && 0 <= b < gw.len() implies gs[a].0 != gw[b].0 by {
                    if a < gs.len() - 1 {
                        if b < best {
                            assert(gw[b] == gw0[b]);
                        } else {
                            assert(gw[b] == gw0[b + 1]);
                        }
                    } else {
                        if b < best {
                            assert(gw[b] == gw0[b]);
                        } else {
                            assert(gw[b] == gw0[b + 1]);
                        }
                    }
                }
                assert forall|a: int, b: int|
                    0 <= a < gs.len() && 0 <= b < gw.len() implies gs[a].2 <= gw[b].2 by {
                    let idx: int = if b < best { b } else { b + 1 };
                    assert(gw[b] == gw0[idx]);
                    assert(rows0[idx].2 == gw0[idx].2);
                    assert(rows0[best as int].2 <= rows0[idx].2);
                    if a < gs.len() - 1 {
                        assert(gs[a] == gs0[a]);
                    } else {
                        assert(gs[a] == e);
                        assert(e.2 == rows0[best as int].2);
                    }
                }
                assert forall|k: K::V| #[trigger]
                    m0.contains_key(k) implies (exists|jj: int|
                    0 <= jj < gs.len() && gs[jj].0 == k) || (exists|jj: int|
                    0 <= jj < gw.len() && gw[jj].0 == k) by {
                    if exists|jj: int| 0 <= jj < gw0.len() && gw0[jj].0 == k {
                        let jj = choose|jj: int| 0 <= jj < gw0.len() && gw0[jj].0 == k;
                        if jj == best {
                            assert(gs[gs.len() - 1].0 == k);
                        } else if jj < best {
                            assert(gw[jj] == gw0[jj]);
                        } else {
                            assert(gw[jj - 1] == gw0[jj]);
                        }
                    } else {
                        let jj = choose|jj: int| 0 <= jj < gs0.len() && gs0[jj].0 == k;
                        assert(gs[jj].0 == k);
                    }
                }
            }
        }
        proof {
            assert(gw.len() == 0);
            assert(records_list(m0, gs));
            assert(records_list(self.contents(), gs) && out@ == render::<K, V>(gs));
        }
        Ok(out)
    }

    /// Rebuilds a cache bounded by `capacity` that snapshots to `path`,
    /// from the text of a persisted snapshot, or from nothing when no
    /// file exists at that location. Parsed entries keep their stamps
    /// and the counter resumes past the largest stamp seen, so later
    /// touches stay strictly more recent. Loading does not trim entries
    /// beyond `capacity`.
    pub fn load_from(capacity: usize, path: &str, contents: Option<&str>) -> (r: Result<
        Self,
        CacheError,
    >)
        ensures
            match r {
                Ok(c) => {
                    &&& c.inv()
                    &&& c.capacity_of() == capacity
                    &&& c.spec_path() == Some(path@)
                    &&& match contents {
                        None => {
                            &&& c.contents() == Map::<K::V, (V::V, u64)>::empty()
                            &&& c.counter() == 0
                            &&& c.entry_count() == 0
                        },
                        Some(t) => parse_records::<K, V>(t@) matches Some(es)
                            && c.contents() == apply_records(
                            Map::<K::V, (V::V, u64)>::empty(),
                            es,
                        ) && c.counter() == max_stamp(0, es),
                    }
                },
                Err(err) => {
                    &&& err == CacheError::ParseFailure
                    &&& match contents {
                        Some(t) => parse_records::<K, V>(t@) is None,
                        None => false,
                    }
                },
            },
    {
        let mut cache = Self::new_persistent(capacity, path);
        let text: &str = match contents {
            None => {
                return Ok(cache);
            },
            Some(t) => t,
        };
        let ghost full = text@;
        let mut rem: &str = text;
        let mut len_rem = text.unicode_len();
        let mut maxs: u64 = 0;
        let ghost mut done = Seq::<(K::V, V::V, u64)>::empty();
        while len_rem > 0
            invariant
                len_rem == rem@.len(),
                keys_distinct(cache.entries@),
                cache.capacity_of() == capacity,
                cache.spec_path() == Some(path@),
                map_of(cache.entries@) == apply_records(Map::<K::V, (V::V, u64)>::empty(), done),
                maxs == max_stamp(0, done),
                stamps_bounded(map_of(cache.entries@), maxs),
                match contents {
                    Some(t) => t@ == full,
                    None => false,
                },
                parse_records::<K, V>(full) == (match parse_records::<K, V>(rem@) {
                    None => None::<Seq<(K::V, V::V, u64)>>,
                    Some(ts) => Some(done + ts),
                }),
            decreases rem@.len(),
        {
            let ghost prev_rem = rem@;
            let nl = find_char(rem, '\n');
            let line = rem.substring_char(0, nl);
            let parsed = parse_line_exec::<K, V>(line);
            if nl == len_rem {
                rem = rem.substring_char(len_rem, len_rem);
                len_rem = 0;
                proof {
                    assert(rem@ =~= Seq::<char>::empty());
                }
            } else {
                rem = rem.substring_char(nl + 1, len_rem);
                len_rem = len_rem - (nl + 1);
            }
            proof {
                assert(prev_rem.take(find_ch(prev_rem, '\n')) == line@);
            }
            match parsed {
                LineParse::Fail => {
                    proof {
                        assert(parse_records::<K, V>(prev_rem) is None);
                        assert(parse_records::<K, V>(full) is None);
                    }
                    return Err(CacheError::ParseFailure);
                },
                LineParse::Skip => {
                    proof {
                        assert(parse_records::<K, V>(prev_rem) == parse_records::<K, V>(rem@));
                    }
                },
                LineParse::Entry(k, v, q) => {
                    let ghost e = (k@, v@, q);
                    if q > maxs {
                        maxs = q;
                    }
                    cache.store_record(k, v, q);
                    proof {
                        lemma_apply_push(Map::<K::V, (V::V, u64)>::empty(), done, e);
                        lemma_max_stamp_push(0, done, e);
                        done = done.push(e);
                        match parse_records::<K, V>(rem@) {
                            Some(ts) => {
                                assert(parse_records::<K, V>(prev_rem) == Some(seq![e] + ts));
                                assert(done.drop_last() + (seq![e] + ts) =~= done + ts);
                            },
                            None => {},
                        }
                    }
                },
            }
        }
        proof {
            assert(rem@.len() == 0);
            assert(parse_records::<K, V>(rem@) == Some(Seq::<(K::V, V::V, u64)>::empty()));
            assert(done + Seq::<(K::V, V::V, u64)>::empty() =~= done);
            assert forall|i: int|
                0 <= i < cache.entries@.len() implies #[trigger] cache.entries@[i].1.sequence
                <= maxs by {
                lemma_map_of_index(cache.entries@, i);
            }
        }
        cache.sequence = maxs;
        Ok(cache)
    }
}

impl<K: CacheKey, V: CacheValue> CacheLRU<K, V> for Cache<K, V> {
    closed spec fn inv(&self) -> bool {
        &&& keys_distinct(self.entries@)
        &&& forall|i: int|
            0 <= i < self.entries@.len() ==> #[trigger] self.entries@[i].1.sequence
                <= self.sequence
    }

    closed spec fn contents(&self) -> Map<K::V, (V::V, u64)> {
        map_of(self.entries@)
    }

    closed spec fn counter(&self) -> u64 {
        self.sequence
    }

    closed spec fn entry_count(&self) -> nat {
        self.entries@.len()
    }

    closed spec fn capacity_of(&self) -> nat {
        self.capacity as nat
    }

    fn on_get(&mut self, key: &K) -> (r: Option<V>) {
        self.get(key)
    }

    fn on_put(&mut self, key: K, value: V) -> (r: Option<V>) {
        self.put(key, value)
    }

    fn remove_least_recently_used(&mut self) -> (r: Option<K>) {
        self.remove_lru_entry()
    }
}

/// Inserting a record stamped strictly above every stamp of `m0` keeps
/// stamps pairwise distinct.
proof fn lemma_fresh_stamp_distinct<KV, VV>(
    m0: Map<KV, (VV, u64)>,
    c0: u64,
    m1: Map<KV, (VV, u64)>,
    k: KV,
    v: VV,
)
    requires
        stamps_distinct(m0),
        stamps_bounded(m0, c0),
        c0 < u64::MAX,
        m1 == m0.insert(k, (v, (c0 + 1) as u64)),
    ensures
        stamps_distinct(m1),
{
    assert forall|k1: KV, k2: KV|
        #![trigger m1.contains_key(k1), m1.contains_key(k2)]
        m1.contains_key(k1) && m1.contains_key(k2) && k1 != k2 implies m1[k1].1 != m1[k2].1 by {
        if k1 != k && k2 != k {
            assert(m0.contains_key(k1) && m0.contains_key(k2));
        } else if k1 == k {
            assert(m0.contains_key(k2) && m0[k2].1 <= c0);
        } else {
            assert(m0.contains_key(k1) && m0[k1].1 <= c0);
        }
    }
}

/// Recency correctness: when stamps are pairwise distinct, the least
/// recently touched entry is unique, so the eviction victim on overflow
/// is exactly the entry with the globally smallest stamp.
pub proof fn lemma_least_recent_unique<KV, VV>(m: Map<KV, (VV, u64)>, k1: KV, k2: KV)
    requires
        stamps_distinct(m),
        is_least_recent(m, k1),
        is_least_recent(m, k2),
    ensures
        k1 == k2,
{
    assert(m[k1].1 <= m[k2].1 && m[k2].1 <= m[k1].1);
}

/// Update counts as access: the entry stamped with the current counter is
/// strictly more recent than every other entry, so a re-inserted or
/// freshly read key is the last to be evicted.
pub proof fn lemma_touched_is_most_recent<KV, VV>(m: Map<KV, (VV, u64)>, c: u64, k: KV)
    requires
        stamps_bounded(m, c),
        stamps_distinct(m),
        m.contains_key(k),
        m[k].1 == c,
    ensures
        forall|k2: KV| #[trigger] m.contains_key(k2) && k2 != k ==> m[k2].1 < m[k].1,
{
}

} // verus!
