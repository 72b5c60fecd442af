//! A map from keys of the chain (words, or pairs of words) to values, with
//! lookups in expected constant time.
//!
//! The entries stand in two vectors, in the order in which their keys first
//! came. A hash table leads from the fingerprint of a key to the positions of
//! the entries whose keys have that fingerprint.

use std::collections::HashMap;
use vstd::prelude::*;

verus! {

broadcast use vstd::std_specs::hash::group_hash_axioms;

/// What a type offers to serve as the key of a [`KeyMap`].
pub trait Key: Sized {
    /// The number by which the key is filed. Equal keys have equal
    /// fingerprints; different keys may share one.
    spec fn spec_fingerprint(&self) -> u64;

    /// Computes the fingerprint of the key.
    fn fingerprint(&self) -> (f: u64)
        ensures
            f == self.spec_fingerprint(),
    ;

    /// Tells whether two keys are the same key.
    fn same(&self, other: &Self) -> (b: bool)
        ensures
            b == (*self == *other),
    ;
}

/// A map from keys to values.
pub struct KeyMap<K, V> {
    keys: Vec<K>,
    values: Vec<V>,
    buckets: HashMap<u64, Vec<usize>>,
}

impl<K: Key, V> View for KeyMap<K, V> {
    type V = Map<K, V>;

    /// The map as a mathematical map: its keys are the keys that were
    /// inserted, each with the value that was inserted for it last.
    closed spec fn view(&self) -> Map<K, V> {
        Map::new(
            |k: K| self.keys@.contains(k),
            |k: K| self.values@[self.keys@.index_of(k)],
        )
    }
}

impl<K: Key, V> KeyMap<K, V> {
    /// Whether the entry at position `i` is filed under the fingerprint of its key.
    spec fn filed(&self, i: int) -> bool {
        let f = self.keys@[i].spec_fingerprint();
        self.buckets@.contains_key(f) && self.buckets@[f]@.contains(i as usize)
    }

    /// Whether the `j`-th position filed under `f` is that of an entry whose
    /// key has the fingerprint `f`.
    spec fn bucket_entry_ok(&self, f: u64, j: int) -> bool {
        let p = self.buckets@[f]@[j];
        p < self.keys@.len() && self.keys@[p as int].spec_fingerprint() == f
    }

    /// The invariant of the map: no key occurs twice, and the hash table
    /// files exactly the positions of the entries.
    pub closed spec fn wf(&self) -> bool {
        &&& self.keys@.len() == self.values@.len()
        &&& self.keys@.no_duplicates()
        &&& forall|i: int| 0 <= i < self.keys@.len() ==> #[trigger] self.filed(i)
        &&& forall|f: u64, j: int|
            self.buckets@.contains_key(f) && 0 <= j < self.buckets@[f]@.len()
                ==> #[trigger] self.bucket_entry_ok(f, j)
    }

    /// The number of entries.
    pub closed spec fn spec_len(&self) -> nat {
        self.keys@.len()
    }

    /// The keys in the order in which they first came.
    pub closed spec fn spec_keys(&self) -> Seq<K> {
        self.keys@
    }

    /// The keys of the map are the keys of its view, each once; so the
    /// number of entries is the number of keys of the view.
    pub proof fn lemma_keys(&self)
        requires
            self.wf(),
        ensures
            self.spec_keys().no_duplicates(),
            self.spec_keys().len() == self.spec_len(),
            forall|k: K| self.spec_keys().contains(k) <==> self@.contains_key(k),
            self@.dom().finite(),
            self@.dom().len() == self.spec_len(),
    {
        self.keys@.unique_seq_to_set();
        assert(self@.dom() =~= self.keys@.to_set());
    }

    /// A map without entries.
    pub fn new() -> (m: Self)
        ensures
            m.wf(),
            m@ == Map::<K, V>::empty(),
            m.spec_len() == 0,
    {
        let m = KeyMap { keys: Vec::new(), values: Vec::new(), buckets: HashMap::new() };
        assert(m@ =~= Map::<K, V>::empty());
        m
    }

    /// The number of entries.
    pub fn len(&self) -> (n: usize)
        ensures
            n == self.spec_len(),
    {
        self.keys.len()
    }

    /// The position of the entry with the given key.
    fn find(&self, key: &K) -> (r: Option<usize>)
        requires
            self.wf(),
        ensures
            match r {
                Some(p) => p < self.keys@.len() && self.keys@[p as int] == *key,
                None => !self.keys@.contains(*key),
            },
    {
        let f = key.fingerprint();
        let n = self.keys.len();
        match self.buckets.get(&f) {
            None => {
                proof {
                    if self.keys@.contains(*key) {
                        assert(self.filed(self.keys@.index_of(*key)));
                    }
                }
                None
            },
            Some(bucket) => {
                let mut j: usize = 0;
                while j < bucket.len()
                    invariant
                        j <= bucket.len(),
                        self.wf(),
                        self.buckets@.contains_key(f),
                        *bucket == self.buckets@[f],
                        f == key.spec_fingerprint(),
                        n == self.keys@.len(),
                        forall|t: int|
                            0 <= t < j ==> bucket@[t] < n && self.keys@[bucket@[t] as int] != *key,
                    decreases bucket.len() - j,
                {
                    let p = bucket[j];
                    assert(self.bucket_entry_ok(f, j as int));
                    if self.keys[p].same(key) {
                        return Some(p);
                    }
                    j = j + 1;
                }
                proof {
                    if self.keys@.contains(*key) {
                        let i = self.keys@.index_of(*key);
                        assert(self.filed(i));
                        let t = bucket@.index_of(i as usize);
                        assert(bucket@[t] == i as usize);
                    }
                }
                None
            },
        }
    }

    /// Whether the map has an entry for the key.
    pub fn contains_key(&self, key: &K) -> (found: bool)
        requires
            self.wf(),
        ensures
            found == self@.contains_key(*key),
    {
        self.find(key).is_some()
    }

    /// The value that the map holds for the key.
    pub fn get(&self, key: &K) -> (found: Option<&V>)
        requires
            self.wf(),
        ensures
            match found {
                Some(v) => self@.contains_key(*key) && *v == self@[*key],
                None => !self@.contains_key(*key),
            },
    {
        match self.find(key) {
            Some(p) => {
                proof {
                    assert(self.keys@.index_of(*key) == p);
                }
                Some(&self.values[p])
            },
            None => None,
        }
    }

    /// Sets the value for the key, whether or not the map had one for it.
    pub fn insert(&mut self, key: K, value: V)
        requires
            old(self).wf(),
        ensures
            final(self).wf(),
            final(self)@ == old(self)@.insert(key, value),
            final(self).spec_len() == old(self).spec_len() + (if old(self)@.contains_key(key) {
                0int
            } else {
                1int
            }),
    {
        match self.find(&key) {
            Some(p) => {
                self.values.set(p, value);
                proof {
                    assert forall|i: int| 0 <= i < self.keys@.len() implies #[trigger] self.filed(
                        i,
                    ) by {
                        assert(old(self).filed(i));
                    }
                    assert forall|f: u64, j: int|
                        self.buckets@.contains_key(f) && 0 <= j < self.buckets@[f]@.len()
                        implies #[trigger] self.bucket_entry_ok(f, j) by {
                        assert(old(self).bucket_entry_ok(f, j));
                    }
                    assert(self@ =~= old(self)@.insert(key, value));
                }
            },
            None => {
                let f = key.fingerprint();
                let p = self.keys.len();
                self.keys.push(key);
                self.values.push(value);
                let mut bucket = match self.buckets.remove(&f) {
                    Some(b) => b,
                    None => Vec::new(),
                };
                let ghost before = bucket@;
                bucket.push(p);
                self.buckets.insert(f, bucket);
                proof {
                    assert(bucket@[before.len() as int] == p);
                    assert forall|i: int| 0 <= i < self.keys@.len() implies #[trigger] self.filed(
                        i,
                    ) by {
                        if i < p {
                            assert(old(self).filed(i));
                            let g = old(self).keys@[i].spec_fingerprint();
                            if g == f {
                                let t = before.index_of(i as usize);
                                assert(bucket@[t] == i as usize);
                            }
                        }
                    }
                    assert forall|g: u64, j: int|
                        self.buckets@.contains_key(g) && 0 <= j < self.buckets@[g]@.len()
                        implies #[trigger] self.bucket_entry_ok(g, j) by {
                        if g == f {
                            if j < before.len() {
                                assert(old(self).bucket_entry_ok(g, j));
                            }
                        } else {
                            assert(old(self).bucket_entry_ok(g, j));
                        }
                    }
                    assert forall|k: K| self.keys@.contains(k) <==> (k == key || old(
                        self,
                    ).keys@.contains(k)) by {
                        if old(self).keys@.contains(k) {
                            let i = old(self).keys@.index_of(k);
                            assert(self.keys@[i] == k);
                        }
                        if k == key {
                            assert(self.keys@[p as int] == k);
                        }
                    }
                    assert forall|k: K| old(self).keys@.contains(k) implies self.keys@.index_of(k)
                        == old(self).keys@.index_of(k) by {
                        let i = old(self).keys@.index_of(k);
                        assert(self.keys@[i] == k);
                    }
                    assert(self.keys@.index_of(key) == p) by {
                        assert(self.keys@[p as int] == key);
                    }
                    assert(self@ =~= old(self)@.insert(key, value));
                }
            },
        }
    }

    /// Sets each of `entries` in the map, from the first to the last.
    pub fn insert_all(&mut self, entries: &Vec<(K, V)>) where K: Copy, V: Copy
        requires
            old(self).wf(),
        ensures
            final(self).wf(),
            final(self)@ == inserted_all(old(self)@, entries@),
    {
        let mut i: usize = 0;
        while i < entries.len()
            invariant
                i <= entries.len(),
                self.wf(),
                self@ == inserted_all(old(self)@, entries@.take(i as int)),
            decreases entries.len() - i,
        {
            let (k, v) = entries[i];
            self.insert(k, v);
            proof {
                assert(entries@.take(i + 1).drop_last() =~= entries@.take(i as int));
            }
            i = i + 1;
        }
        proof {
            assert(entries@.take(entries.len() as int) =~= entries@);
        }
    }

    /// Takes every entry of `other` into this map. Where both have a value
    /// for a key, that of `other` stays.
    pub fn absorb(&mut self, other: KeyMap<K, V>)
        requires
            old(self).wf(),
            other.wf(),
        ensures
            final(self).wf(),
            final(self)@ == old(self)@.union_prefer_right(other@),
    {
        let ghost all_keys = other.keys@;
        let ghost all_values = other.values@;
        let KeyMap { keys, values, buckets: _ } = other;
        let mut keys = keys;
        let mut values = values;
        while keys.len() > 0
            invariant
                self.wf(),
                all_keys.no_duplicates(),
                all_keys.len() == all_values.len(),
                keys@.len() == values@.len(),
                keys@.len() <= all_keys.len(),
                keys@ == all_keys.subrange(0, keys@.len() as int),
                values@ == all_values.subrange(0, keys@.len() as int),
                forall|k: K|
                    self@.contains_key(k) <==> (old(self)@.contains_key(k) || taken(
                        all_keys,
                        keys@.len() as int,
                        k,
                    )),
                forall|k: K|
                    taken(all_keys, keys@.len() as int, k) ==> self@[k] == all_values[all_keys.index_of(
                        k,
                    )],
                forall|k: K|
                    old(self)@.contains_key(k) && !taken(all_keys, keys@.len() as int, k)
                        ==> self@[k] == old(self)@[k],
            decreases keys.len(),
        {
            let ghost n = keys@.len() as int;
            let ghost before = self@;
            let k = keys.pop().unwrap();
            let v = values.pop().unwrap();
            proof {
                assert(all_keys[n - 1] == k);
                assert(all_values[n - 1] == v);
                assert(all_keys.index_of(k) == n - 1);
                assert(!taken(all_keys, n, k)) by {
                    if taken(all_keys, n, k) {
                        let i = choose|i: int| n <= i < all_keys.len() && all_keys[i] == k;
                        assert(all_keys[i] == all_keys[n - 1]);
                    }
                }
                assert forall|q: K| taken(all_keys, n - 1, q) <==> (q == k || taken(
                    all_keys,
                    n,
                    q,
                )) by {
                    if taken(all_keys, n - 1, q) {
                        let i = choose|i: int| n - 1 <= i < all_keys.len() && all_keys[i] == q;
                        if i != n - 1 {
                            assert(n <= i < all_keys.len() && all_keys[i] == q);
                        }
                    }
                    if taken(all_keys, n, q) {
                        let i = choose|i: int| n <= i < all_keys.len() && all_keys[i] == q;
                        assert(n - 1 <= i < all_keys.len() && all_keys[i] == q);
                    }
                    if q == k {
                        assert(n - 1 <= n - 1 < all_keys.len() && all_keys[n - 1] == q);
                    }
                }
            }
            self.insert(k, v);
            proof {
                assert(keys@ =~= all_keys.subrange(0, n - 1));
                assert(values@ =~= all_values.subrange(0, n - 1));
                assert(self@ == before.insert(k, v));
                assert forall|q: K|
                    self@.contains_key(q) <==> (old(self)@.contains_key(q) || taken(
                        all_keys,
                        n - 1,
                        q,
                    )) by {
                    assert(taken(all_keys, n - 1, q) <==> (q == k || taken(all_keys, n, q)));
                    assert(before.contains_key(q) <==> (old(self)@.contains_key(q) || taken(
                        all_keys,
                        n,
                        q,
                    )));
                }
            }
        }
        proof {
            assert forall|k: K| taken(all_keys, 0, k) <==> all_keys.contains(k) by {
                if taken(all_keys, 0, k) {
                    let i = choose|i: int| 0 <= i < all_keys.len() && all_keys[i] == k;
                    assert(all_keys[i] == k);
                }
                if all_keys.contains(k) {
                    let i = all_keys.index_of(k);
                    assert(0 <= i < all_keys.len() && all_keys[i] == k);
                }
            }
            assert(keys@.len() == 0);
            assert forall|k: K|
                self@.contains_key(k) <==> (old(self)@.contains_key(k) || other@.contains_key(
                    k,
                )) by {
                assert(taken(all_keys, 0, k) <==> all_keys.contains(k));
            }
            assert forall|k: K| self@.contains_key(k) implies self@[k] == (if other@.contains_key(
                k,
            ) {
                other@[k]
            } else {
                old(self)@[k]
            }) by {
                assert(taken(all_keys, 0, k) <==> all_keys.contains(k));
            }
            assert(self@ =~= old(self)@.union_prefer_right(other@));
        }
    }
}

/// The map `m` after each of `entries` was set in it, from the first to the
/// last: where a key occurs twice, its last value stays.
pub open spec fn inserted_all<K, V>(m: Map<K, V>, entries: Seq<(K, V)>) -> Map<K, V>
    decreases entries.len(),
{
    if entries.len() == 0 {
        m
    } else {
        inserted_all(m, entries.drop_last()).insert(entries.last().0, entries.last().1)
    }
}

/// Whether one of `entries` is for `key`.
pub open spec fn touches<K, V>(entries: Seq<(K, V)>, key: K) -> bool {
    exists|i: int| 0 <= i < entries.len() && (#[trigger] entries[i]).0 == key
}

/// Setting entries changes nothing at a key that none of them is for, and
/// leaves a value at every key that one of them is for.
pub proof fn lemma_inserted_all<K, V>(m: Map<K, V>, entries: Seq<(K, V)>, key: K)
    ensures
        !touches(entries, key) ==> (inserted_all(m, entries).contains_key(key) <==> m.contains_key(
            key,
        )),
        !touches(entries, key) && m.contains_key(key) ==> inserted_all(m, entries)[key] == m[key],
        touches(entries, key) ==> inserted_all(m, entries).contains_key(key),
        m.contains_key(key) ==> inserted_all(m, entries).contains_key(key),
    decreases entries.len(),
{
    if entries.len() > 0 {
        let rest = entries.drop_last();
        lemma_inserted_all(m, rest, key);
        if touches(rest, key) {
            let i = choose|i: int| 0 <= i < rest.len() && (#[trigger] rest[i]).0 == key;
            assert(entries[i].0 == key);
        }
        if touches(entries, key) {
            let i = choose|i: int| 0 <= i < entries.len() && (#[trigger] entries[i]).0 == key;
            if i < rest.len() {
                assert(rest[i].0 == key);
            }
        } else {
            assert(entries[entries.len() - 1].0 != key);
        }
    }
}

/// Setting one list of entries and then another is setting the two lists
/// joined.
pub proof fn lemma_inserted_all_joined<K, V>(m: Map<K, V>, first: Seq<(K, V)>, second: Seq<(K, V)>)
    ensures
        inserted_all(m, first + second) == inserted_all(inserted_all(m, first), second),
    decreases second.len(),
{
    if second.len() == 0 {
        assert(first + second =~= first);
    } else {
        lemma_inserted_all_joined(m, first, second.drop_last());
        assert((first + second).drop_last() =~= first + second.drop_last());
        assert((first + second).last() == second.last());
    }
}

/// Whether `key` stands in `keys` at position `from` or later.
pub open spec fn taken<K>(keys: Seq<K>, from: int, key: K) -> bool {
    exists|i: int| from <= i < keys.len() && keys[i] == key
}

} // verus!
