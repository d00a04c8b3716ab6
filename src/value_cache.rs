//! A least-recently used cache of values, keyed by content identity.
//!
//! The entries are kept by `lru::LruCache`. Its contents are seen here as a
//! sequence of (key, value) pairs from the least recently used to the most
//! recently used one.

use std::num::NonZeroUsize;

use lru::LruCache;
use vstd::prelude::*;

verus! {

/// A content identity: a 32-byte hash as four words.
pub type CacheKey = (u64, u64, u64, u64);

/// The default cache size.
pub const DEFAULT_VALUE_CACHE_SIZE: usize = 10000;

#[verifier::external_type_specification]
#[verifier::external_body]
#[verifier::reject_recursive_types(K)]
#[verifier::reject_recursive_types(V)]
#[verifier::reject_recursive_types(S)]
pub struct ExLruCache<K, V, S>(LruCache<K, V, S>);

#[verifier::external_type_specification]
#[verifier::external_body]
pub struct ExDefaultHasher(lru::DefaultHasher);

/// The entries of an LRU cache, from the least recently used to the most recently
/// used one.
pub uninterp spec fn lru_entries(cache: LruCache<CacheKey, Vec<u8>>) -> Seq<(CacheKey, Seq<u8>)>;

/// The capacity that an LRU cache was created with.
pub uninterp spec fn lru_capacity(cache: LruCache<CacheKey, Vec<u8>>) -> nat;

/// Whether some entry of `s` has the key `k`.
pub open spec fn has_key(s: Seq<(CacheKey, Seq<u8>)>, k: CacheKey) -> bool {
    exists|i: int| 0 <= i < s.len() && (#[trigger] s[i]).0 == k
}

/// The position of the entry with key `k`.
pub open spec fn key_position(s: Seq<(CacheKey, Seq<u8>)>, k: CacheKey) -> int {
    choose|i: int| 0 <= i < s.len() && (#[trigger] s[i]).0 == k
}

/// The value stored under `k`.
pub open spec fn value_of(s: Seq<(CacheKey, Seq<u8>)>, k: CacheKey) -> Seq<u8> {
    s[key_position(s, k)].1
}

/// No two entries have the same key.
pub open spec fn keys_unique(s: Seq<(CacheKey, Seq<u8>)>) -> bool {
    forall|i: int, j: int| 0 <= i < j < s.len() ==> (#[trigger] s[i]).0 != (#[trigger] s[j]).0
}

/// The entries after `k` was used: its entry, if any, becomes the most recent.
pub open spec fn promoted(s: Seq<(CacheKey, Seq<u8>)>, k: CacheKey) -> Seq<(CacheKey, Seq<u8>)> {
    if has_key(s, k) {
        s.remove(key_position(s, k)).push(s[key_position(s, k)])
    } else {
        s
    }
}

/// The entries after the one with key `k`, if any, was removed.
pub open spec fn without(s: Seq<(CacheKey, Seq<u8>)>, k: CacheKey) -> Seq<(CacheKey, Seq<u8>)> {
    if has_key(s, k) {
        s.remove(key_position(s, k))
    } else {
        s
    }
}

/// The entries after `(k, v)` was pushed into a cache of capacity `cap`: an entry
/// with key `k` is replaced; otherwise, when the cache is full, the least recently
/// used entry is evicted. The new entry is the most recent.
pub open spec fn pushed(s: Seq<(CacheKey, Seq<u8>)>, k: CacheKey, v: Seq<u8>, cap: nat) -> Seq<
    (CacheKey, Seq<u8>),
> {
    if has_key(s, k) {
        s.remove(key_position(s, k)).push((k, v))
    } else if s.len() >= cap {
        s.drop_first().push((k, v))
    } else {
        s.push((k, v))
    }
}

/// The keys from the most recently used to the least recently used one.
pub open spec fn keys_by_recency(s: Seq<(CacheKey, Seq<u8>)>) -> Seq<CacheKey> {
    Seq::new(s.len(), |i: int| s[s.len() - 1 - i].0)
}

/// The entries after each of `ks` was used, in order.
pub open spec fn promoted_all(s: Seq<(CacheKey, Seq<u8>)>, ks: Seq<CacheKey>) -> Seq<(CacheKey, Seq<u8>)>
    decreases ks.len(),
{
    if ks.len() == 0 {
        s
    } else {
        promoted(promoted_all(s, ks.drop_last()), ks.last())
    }
}

/// The entries after each of `values` whose key was absent was pushed, in order.
pub open spec fn inserted_all(s: Seq<(CacheKey, Seq<u8>)>, values: Seq<(CacheKey, Seq<u8>)>, cap: nat) -> Seq<
    (CacheKey, Seq<u8>),
>
    decreases values.len(),
{
    if values.len() == 0 {
        s
    } else {
        let before = inserted_all(s, values.drop_last(), cap);
        if has_key(before, values.last().0) {
            before
        } else {
            pushed(before, values.last().0, values.last().1, cap)
        }
    }
}

/// Relies on `LruCache::new`: a new cache is empty and keeps `capacity`.
#[verifier::external_body]
fn lru_new(capacity: usize) -> (r: LruCache<CacheKey, Vec<u8>>)
    requires
        capacity >= 1,
    ensures
        lru_entries(r) == Seq::<(CacheKey, Seq<u8>)>::empty(),
        lru_capacity(r) == capacity,
{
    LruCache::new(NonZeroUsize::new(capacity).unwrap())
}

/// Relies on `LruCache::contains`: whether the key is present, without changing
/// the order of use.
#[verifier::external_body]
fn lru_contains(cache: &LruCache<CacheKey, Vec<u8>>, key: CacheKey) -> (r: bool)
    ensures
        r == has_key(lru_entries(*cache), key),
{
    cache.contains(&key)
}

/// Relies on `LruCache::promote`: the entry of the key, if any, becomes the most
/// recently used.
#[verifier::external_body]
fn lru_promote(cache: &mut LruCache<CacheKey, Vec<u8>>, key: CacheKey)
    ensures
        lru_entries(*final(cache)) == promoted(lru_entries(*old(cache)), key),
        lru_capacity(*final(cache)) == lru_capacity(*old(cache)),
{
    cache.promote(&key)
}

/// Relies on `LruCache::push`: replaces the entry of the key, or else evicts the
/// least recently used entry when the cache is full; the new entry is the most
/// recent. Returns the key of the entry that was replaced or evicted.
#[verifier::external_body]
fn lru_push(cache: &mut LruCache<CacheKey, Vec<u8>>, key: CacheKey, value: Vec<u8>) -> (r: Option<CacheKey>)
    ensures
        lru_entries(*final(cache)) == pushed(
            lru_entries(*old(cache)),
            key,
            value@,
            lru_capacity(*old(cache)),
        ),
        lru_capacity(*final(cache)) == lru_capacity(*old(cache)),
        r == (if has_key(lru_entries(*old(cache)), key) {
            Some(key)
        } else if lru_entries(*old(cache)).len() >= lru_capacity(*old(cache)) {
            Some(lru_entries(*old(cache))[0].0)
        } else {
            None
        }),
{
    cache.push(key, value).map(|(k, _)| k)
}

/// Relies on `LruCache::get`: returns a copy of the value of the key, if any,
/// whose entry becomes the most recently used.
#[verifier::external_body]
fn lru_get(cache: &mut LruCache<CacheKey, Vec<u8>>, key: CacheKey) -> (r: Option<Vec<u8>>)
    ensures
        lru_entries(*final(cache)) == promoted(lru_entries(*old(cache)), key),
        lru_capacity(*final(cache)) == lru_capacity(*old(cache)),
        r is Some <==> has_key(lru_entries(*old(cache)), key),
        r matches Some(v) ==> v@ == value_of(lru_entries(*old(cache)), key),
{
    cache.get(&key).cloned()
}

/// Relies on `LruCache::pop`: removes the entry of the key and returns its value.
#[verifier::external_body]
fn lru_pop(cache: &mut LruCache<CacheKey, Vec<u8>>, key: CacheKey) -> (r: Option<Vec<u8>>)
    ensures
        lru_entries(*final(cache)) == without(lru_entries(*old(cache)), key),
        lru_capacity(*final(cache)) == lru_capacity(*old(cache)),
        r is Some <==> has_key(lru_entries(*old(cache)), key),
        r matches Some(v) ==> v@ == value_of(lru_entries(*old(cache)), key),
{
    cache.pop(&key)
}

/// Relies on `LruCache::iter`, which visits the entries from the most recently
/// used one: returns their keys in that order.
#[verifier::external_body]
fn lru_keys(cache: &LruCache<CacheKey, Vec<u8>>) -> (r: Vec<CacheKey>)
    ensures
        r@ == keys_by_recency(lru_entries(*cache)),
{
    cache.iter().map(|(key, _)| *key).collect()
}

/// With unique keys, the entry with key `k` is the one at position `i`.
proof fn lemma_position(s: Seq<(CacheKey, Seq<u8>)>, k: CacheKey, i: int)
    requires
        keys_unique(s),
        0 <= i < s.len(),
        s[i].0 == k,
    ensures
        has_key(s, k),
        key_position(s, k) == i,
        value_of(s, k) == s[i].1,
{
    assert(has_key(s, k));
    let j = key_position(s, k);
    if j < i {
        assert(s[j].0 != s[i].0);
    } else if i < j {
        assert(s[i].0 != s[j].0);
    }
}

/// Using a present key only reorders the entries: the same keys hold the same
/// values, and the number of entries stays.
pub proof fn lemma_promoted_keeps_contents(s: Seq<(CacheKey, Seq<u8>)>, k: CacheKey)
    requires
        keys_unique(s),
    ensures
        keys_unique(promoted(s, k)),
        promoted(s, k).len() == s.len(),
        forall|x: CacheKey| #[trigger]
            has_key(promoted(s, k), x) == has_key(s, x),
        forall|x: CacheKey|
            has_key(s, x) ==> #[trigger] value_of(promoted(s, k), x) == value_of(s, x),
        has_key(s, k) ==> promoted(s, k).last().0 == k,
{
    if has_key(s, k) {
        let p = key_position(s, k);
        let t = promoted(s, k);
        assert(t == s.remove(p).push(s[p]));
        assert forall|i: int, j: int| 0 <= i < j < t.len() implies (#[trigger] t[i]).0
            != (#[trigger] t[j]).0 by {
            let si = if i < p { i } else { i + 1 };
            if j == t.len() - 1 {
                assert(t[j] == s[p]);
                assert(t[i] == s[si]);
            } else {
                let sj = if j < p { j } else { j + 1 };
                assert(t[i] == s[si]);
                assert(t[j] == s[sj]);
            }
        }
        assert forall|x: CacheKey| #[trigger] has_key(t, x) == has_key(s, x) by {
            if has_key(s, x) {
                let q = key_position(s, x);
                if q == p {
                    assert(t[t.len() - 1].0 == x);
                } else if q < p {
                    assert(t[q] == s[q]);
                } else {
                    assert(t[q - 1] == s[q]);
                }
            }
            if has_key(t, x) {
                let q = key_position(t, x);
                if q == t.len() - 1 {
                    assert(s[p].0 == x);
                } else if q < p {
                    assert(t[q] == s[q]);
                } else {
                    assert(t[q] == s[q + 1]);
                }
            }
        }
        assert forall|x: CacheKey| has_key(s, x) implies #[trigger] value_of(t, x) == value_of(s, x) by {
            let q = key_position(s, x);
            lemma_position(s, x, q);
            if q == p {
                lemma_position(t, x, t.len() - 1);
            } else if q < p {
                assert(t[q] == s[q]);
                lemma_position(t, x, q);
            } else {
                assert(t[q - 1] == s[q]);
                lemma_position(t, x, q - 1);
            }
        }
    }
}

/// Pushing a new key keeps the keys unique and the entries within capacity.
proof fn lemma_pushed_new_key(s: Seq<(CacheKey, Seq<u8>)>, k: CacheKey, v: Seq<u8>, cap: nat)
    requires
        keys_unique(s),
        s.len() <= cap,
        cap >= 1,
        !has_key(s, k),
    ensures
        keys_unique(pushed(s, k, v, cap)),
        pushed(s, k, v, cap).len() <= cap,
        has_key(pushed(s, k, v, cap), k),
        value_of(pushed(s, k, v, cap), k) == v,
        s.len() < cap ==> pushed(s, k, v, cap).len() == s.len() + 1,
{
    let t = pushed(s, k, v, cap);
    let base = if s.len() >= cap {
        s.drop_first()
    } else {
        s
    };
    assert(t == base.push((k, v)));
    assert forall|i: int, j: int| 0 <= i < j < t.len() implies (#[trigger] t[i]).0
        != (#[trigger] t[j]).0 by {
        let off: int = if s.len() >= cap {
            1
        } else {
            0
        };
        assert(t[i] == s[i + off]);
        if j == t.len() - 1 {
            assert(t[j].0 == k);
        } else {
            assert(t[j] == s[j + off]);
        }
    }
    lemma_position(t, k, t.len() - 1);
}

/// Removing a key keeps the keys unique.
proof fn lemma_without(s: Seq<(CacheKey, Seq<u8>)>, k: CacheKey)
    requires
        keys_unique(s),
    ensures
        keys_unique(without(s, k)),
        without(s, k).len() <= s.len(),
        !has_key(without(s, k), k),
{
    if has_key(s, k) {
        let p = key_position(s, k);
        let t = without(s, k);
        assert forall|i: int, j: int| 0 <= i < j < t.len() implies (#[trigger] t[i]).0
            != (#[trigger] t[j]).0 by {
            let si = if i < p { i } else { i + 1 };
            let sj = if j < p { j } else { j + 1 };
            assert(t[i] == s[si]);
            assert(t[j] == s[sj]);
        }
        if has_key(t, k) {
            let q = key_position(t, k);
            if q < p {
                assert(t[q] == s[q]);
            } else {
                assert(t[q] == s[q + 1]);
            }
        }
    }
}

/// A bounded cache from content identities to the bytes of their content, with
/// counters of the lookups that found a value and of those that did not.
pub struct ValueCache {
    cache: LruCache<CacheKey, Vec<u8>>,
    hits: u64,
    misses: u64,
}

impl View for ValueCache {
    type V = Seq<(CacheKey, Seq<u8>)>;

    /// The entries, from the least recently used to the most recently used one.
    closed spec fn view(&self) -> Seq<(CacheKey, Seq<u8>)> {
        lru_entries(self.cache)
    }
}

impl ValueCache {
    /// The number of entries that this cache holds at most.
    pub closed spec fn capacity(&self) -> nat {
        lru_capacity(self.cache)
    }

    /// The number of lookups that found a value.
    pub closed spec fn hits(&self) -> nat {
        self.hits as nat
    }

    /// The number of lookups that found nothing.
    pub closed spec fn misses(&self) -> nat {
        self.misses as nat
    }

    /// Keys are unique and the entries fit the capacity.
    pub open spec fn wf(&self) -> bool {
        &&& keys_unique(self@)
        &&& self@.len() <= self.capacity()
        &&& self.capacity() >= 1
    }

    /// Creates an empty cache that holds at most `capacity` entries.
    pub fn new(capacity: usize) -> (r: Self)
        requires
            capacity >= 1,
        ensures
            r.wf(),
            r@ == Seq::<(CacheKey, Seq<u8>)>::empty(),
            r.capacity() == capacity,
            r.hits() == 0,
            r.misses() == 0,
    {
        ValueCache { cache: lru_new(capacity), hits: 0, misses: 0 }
    }

    /// The number of lookups that found a value.
    pub fn hit_count(&self) -> (r: u64)
        ensures
            r == self.hits(),
    {
        self.hits
    }

    /// The number of lookups that found nothing.
    pub fn miss_count(&self) -> (r: u64)
        ensures
            r == self.misses(),
    {
        self.misses
    }

    /// Returns the keys in the cache, from the most recently used one.
    pub fn keys(&self) -> (r: Vec<CacheKey>)
        ensures
            r@ == keys_by_recency(self@),
    {
        lru_keys(&self.cache)
    }

    /// Returns `true` if the cache holds a value for `key`. The order of use does
    /// not change.
    pub fn contains(&self, key: &CacheKey) -> (r: bool)
        ensures
            r == has_key(self@, *key),
    {
        lru_contains(&self.cache, *key)
    }

    /// Inserts `value` under `key` if the key is absent, and returns whether it
    /// was. A present key is only promoted to most recently used: values are
    /// content-addressed, so its value is the same.
    pub fn insert_owned(&mut self, key: &CacheKey, value: Vec<u8>) -> (r: bool)
        requires
            old(self).wf(),
        ensures
            final(self).wf(),
            r == !has_key(old(self)@, *key),
            final(self).capacity() == old(self).capacity(),
            final(self).hits() == old(self).hits(),
            final(self).misses() == old(self).misses(),
            r ==> final(self)@ == pushed(old(self)@, *key, value@, old(self).capacity()),
            !r ==> final(self)@ == promoted(old(self)@, *key),
    {
        if lru_contains(&self.cache, *key) {
            proof {
                lemma_promoted_keeps_contents(self@, *key);
            }
            lru_promote(&mut self.cache, *key);
            false
        } else {
            proof {
                lemma_pushed_new_key(self@, *key, value@, self.capacity());
            }
            lru_push(&mut self.cache, *key, value);
            true
        }
    }

    /// Inserts a copy of `value` under `key` if the key is absent, and returns
    /// whether it was; the value is only copied when it is inserted. A present key
    /// is only promoted to most recently used.
    pub fn insert(&mut self, key: &CacheKey, value: &Vec<u8>) -> (r: bool)
        requires
            old(self).wf(),
        ensures
            final(self).wf(),
            r == !has_key(old(self)@, *key),
            final(self).capacity() == old(self).capacity(),
            final(self).hits() == old(self).hits(),
            final(self).misses() == old(self).misses(),
            r ==> final(self)@ == pushed(old(self)@, *key, value@, old(self).capacity()),
            !r ==> final(self)@ == promoted(old(self)@, *key),
    {
        if lru_contains(&self.cache, *key) {
            proof {
                lemma_promoted_keeps_contents(self@, *key);
            }
            lru_promote(&mut self.cache, *key);
            false
        } else {
            let owned = value.clone();
            assert(owned@ =~= value@);
            proof {
                lemma_pushed_new_key(self@, *key, value@, self.capacity());
            }
            lru_push(&mut self.cache, *key, owned);
            true
        }
    }

    /// Inserts each of `values` whose key is absent, in order. Present keys are
    /// skipped and keep their place in the order of use.
    pub fn insert_all(&mut self, values: &Vec<(CacheKey, Vec<u8>)>)
        requires
            old(self).wf(),
        ensures
            final(self).wf(),
            final(self).capacity() == old(self).capacity(),
            final(self).hits() == old(self).hits(),
            final(self).misses() == old(self).misses(),
            final(self)@ == inserted_all(
                old(self)@,
                values@.map_values(|e: (CacheKey, Vec<u8>)| (e.0, e.1@)),
                old(self).capacity(),
            ),
    {
        let ghost entries = values@.map_values(|e: (CacheKey, Vec<u8>)| (e.0, e.1@));
        let mut i: usize = 0;
        while i < values.len()
            invariant
                i <= values@.len(),
                entries == values@.map_values(|e: (CacheKey, Vec<u8>)| (e.0, e.1@)),
                self.wf(),
                self.capacity() == old(self).capacity(),
                self.hits() == old(self).hits(),
                self.misses() == old(self).misses(),
                self@ == inserted_all(old(self)@, entries.take(i as int), old(self).capacity()),
            decreases values@.len() - i,
        {
            let key = values[i].0;
            proof {
                assert(entries.take(i + 1).drop_last() =~= entries.take(i as int));
                assert(entries.take(i + 1).last() == (key, values@[i as int].1@));
            }
            if !lru_contains(&self.cache, key) {
                let owned = values[i].1.clone();
                assert(owned@ =~= values@[i as int].1@);
                proof {
                    lemma_pushed_new_key(self@, key, owned@, self.capacity());
                }
                lru_push(&mut self.cache, key, owned);
            }
            i = i + 1;
        }
        assert(entries.take(values@.len() as int) =~= entries);
    }

    fn track_cache_usage(&mut self, maybe_value: Option<Vec<u8>>) -> (r: Option<Vec<u8>>)
        ensures
            r == maybe_value,
            final(self)@ == old(self)@,
            final(self).capacity() == old(self).capacity(),
            final(self).hits() == (if maybe_value is Some && old(self).hits() < u64::MAX {
                old(self).hits() + 1
            } else {
                old(self).hits()
            }),
            final(self).misses() == (if maybe_value is None && old(self).misses() < u64::MAX {
                old(self).misses() + 1
            } else {
                old(self).misses()
            }),
    {
        if maybe_value.is_some() {
            if self.hits < u64::MAX {
                self.hits = self.hits + 1;
            }
        } else {
            if self.misses < u64::MAX {
                self.misses = self.misses + 1;
            }
        }
        maybe_value
    }

    /// Removes the value of `hash` from the cache and returns it, if present.
    pub fn remove(&mut self, hash: &CacheKey) -> (r: Option<Vec<u8>>)
        requires
            old(self).wf(),
        ensures
            final(self).wf(),
            final(self)@ == without(old(self)@, *hash),
            final(self).capacity() == old(self).capacity(),
            r is Some <==> has_key(old(self)@, *hash),
            r matches Some(v) ==> v@ == value_of(old(self)@, *hash),
            final(self).hits() == (if r is Some && old(self).hits() < u64::MAX {
                old(self).hits() + 1
            } else {
                old(self).hits()
            }),
            final(self).misses() == (if r is None && old(self).misses() < u64::MAX {
                old(self).misses() + 1
            } else {
                old(self).misses()
            }),
    {
        proof {
            lemma_without(self@, *hash);
        }
        let value = lru_pop(&mut self.cache, *hash);
        self.track_cache_usage(value)
    }

    /// Returns a copy of the value of `hash`, if present, and makes it the most
    /// recently used.
    pub fn get(&mut self, hash: &CacheKey) -> (r: Option<Vec<u8>>)
        requires
            old(self).wf(),
        ensures
            final(self).wf(),
            final(self)@ == promoted(old(self)@, *hash),
            final(self).capacity() == old(self).capacity(),
            r is Some <==> has_key(old(self)@, *hash),
            r matches Some(v) ==> v@ == value_of(old(self)@, *hash),
            final(self).hits() == (if r is Some && old(self).hits() < u64::MAX {
                old(self).hits() + 1
            } else {
                old(self).hits()
            }),
            final(self).misses() == (if r is None && old(self).misses() < u64::MAX {
                old(self).misses() + 1
            } else {
                old(self).misses()
            }),
    {
        proof {
            lemma_promoted_keeps_contents(self@, *hash);
        }
        let value = lru_get(&mut self.cache, *hash);
        self.track_cache_usage(value)
    }

    /// Looks up many keys at once: returns the keys found, with a copy of their
    /// values, and the keys not found, each in the order of `keys`. Each found key
    /// becomes the most recently used, in that order.
    pub fn try_get_many(&mut self, keys: Vec<CacheKey>) -> (r: (Vec<(CacheKey, Vec<u8>)>, Vec<CacheKey>))
        requires
            old(self).wf(),
        ensures
            final(self).wf(),
            final(self).capacity() == old(self).capacity(),
            final(self).hits() == old(self).hits(),
            final(self).misses() == old(self).misses(),
            r.0@.map_values(|p: (CacheKey, Vec<u8>)| p.0) == found_keys(old(self)@, keys@),
            r.1@ == missing_keys(old(self)@, keys@),
            forall|i: int|
                0 <= i < r.0@.len() ==> (#[trigger] r.0@[i]).1@ == value_of(old(self)@, r.0@[i].0),
            final(self)@ == promoted_all(old(self)@, found_keys(old(self)@, keys@)),
    {
        let ghost start = self@;
        let ghost found_pred = |x: CacheKey| has_key(start, x);
        let ghost missing_pred = |x: CacheKey| !has_key(start, x);
        let mut found: Vec<(CacheKey, Vec<u8>)> = Vec::new();
        let mut not_found: Vec<CacheKey> = Vec::new();
        let mut i: usize = 0;
        while i < keys.len()
            invariant
                i <= keys@.len(),
                start == old(self)@,
                found_pred == (|x: CacheKey| has_key(start, x)),
                missing_pred == (|x: CacheKey| !has_key(start, x)),
                self.wf(),
                self.capacity() == old(self).capacity(),
                self.hits() == old(self).hits(),
                self.misses() == old(self).misses(),
                forall|x: CacheKey| #[trigger] has_key(self@, x) == has_key(start, x),
                forall|x: CacheKey| has_key(start, x) ==> #[trigger] value_of(self@, x) == value_of(start, x),
                found@.map_values(|p: (CacheKey, Vec<u8>)| p.0) == keys@.take(i as int).filter(found_pred),
                not_found@ == keys@.take(i as int).filter(missing_pred),
                forall|j: int|
                    0 <= j < found@.len() ==> (#[trigger] found@[j]).1@ == value_of(start, found@[j].0),
                self@ == promoted_all(start, keys@.take(i as int).filter(found_pred)),
            decreases keys@.len() - i,
        {
            let key = keys[i];
            let ghost done = keys@.take(i as int);
            proof {
                assert(keys@.take(i + 1) =~= done.push(key));
                done.lemma_filter_push(key, found_pred);
                done.lemma_filter_push(key, missing_pred);
            }
            if lru_contains(&self.cache, key) {
                proof {
                    assert(found_pred(key));
                    assert(!missing_pred(key));
                    lemma_promoted_keeps_contents(self@, key);
                    assert(done.filter(found_pred).push(key).drop_last() =~= done.filter(found_pred));
                }
                let value = lru_get(&mut self.cache, key);
                match value {
                    Some(v) => {
                        proof {
                            let f = |p: (CacheKey, Vec<u8>)| p.0;
                            assert(found@.push((key, v)).map_values(f) =~= found@.map_values(f).push(
                                key,
                            ));
                        }
                        found.push((key, v));
                    },
                    None => {},
                }
            } else {
                assert(!found_pred(key));
                assert(missing_pred(key));
                not_found.push(key);
            }
            i = i + 1;
        }
        proof {
            assert(keys@.take(keys@.len() as int) =~= keys@);
            assert(found_keys(start, keys@) == keys@.filter(found_pred));
            assert(missing_keys(start, keys@) == keys@.filter(missing_pred));
        }
        (found, not_found)
    }

    /// Returns the items whose key, as `key_extractor` gives it, has no entry in
    /// the cache, in their order. The order of use does not change.
    pub fn subtract_cached_items_from<Item, F: Fn(&Item) -> CacheKey>(
        &self,
        items: Vec<Item>,
        key_extractor: F,
    ) -> (r: Vec<Item>)
        requires
            forall|item: &Item| #[trigger] key_extractor.requires((item,)),
            forall|item: &Item, k1: CacheKey, k2: CacheKey|
                #[trigger] key_extractor.ensures((item,), k1) && #[trigger] key_extractor.ensures(
                    (item,),
                    k2,
                ) ==> k1 == k2,
        ensures
            r@ == items@.filter(|item: Item| !cached_by(self@, key_extractor, item)),
    {
        let ghost input = items@;
        let ghost keep = |item: Item| !cached_by(self@, key_extractor, item);
        let mut out: Vec<Item> = Vec::new();
        for item in it: items.into_iter()
            invariant
                it.seq() == input,
                keep == (|item: Item| !cached_by(self@, key_extractor, item)),
                forall|item: &Item| #[trigger] key_extractor.requires((item,)),
                forall|item: &Item, k1: CacheKey, k2: CacheKey|
                    #[trigger] key_extractor.ensures((item,), k1) && #[trigger] key_extractor.ensures(
                        (item,),
                        k2,
                    ) ==> k1 == k2,
                out@ == input.take(it.index() as int).filter(keep),
        {
            let ghost done = input.take(it.index() as int);
            proof {
                assert(item == input[it.index() as int]);
                assert(input.take(it.index() + 1) =~= done.push(item));
                done.lemma_filter_push(item, keep);
            }
            let key = key_extractor(&item);
            if !lru_contains(&self.cache, key) {
                assert(keep(item));
                out.push(item);
            } else {
                assert(!keep(item));
            }
        }
        proof {
            assert(input.take(input.len() as int) =~= input);
        }
        out
    }
}

impl Default for ValueCache {
    /// An empty cache of `DEFAULT_VALUE_CACHE_SIZE` entries.
    fn default() -> (r: Self)
        ensures
            r.wf(),
            r@ == Seq::<(CacheKey, Seq<u8>)>::empty(),
            r.capacity() == DEFAULT_VALUE_CACHE_SIZE,
    {
        ValueCache::new(DEFAULT_VALUE_CACHE_SIZE)
    }
}

/// The keys of `keys` that have an entry in `s`, in order.
pub open spec fn found_keys(s: Seq<(CacheKey, Seq<u8>)>, keys: Seq<CacheKey>) -> Seq<CacheKey> {
    keys.filter(|x: CacheKey| has_key(s, x))
}

/// The keys of `keys` that have no entry in `s`, in order.
pub open spec fn missing_keys(s: Seq<(CacheKey, Seq<u8>)>, keys: Seq<CacheKey>) -> Seq<CacheKey> {
    keys.filter(|x: CacheKey| !has_key(s, x))
}

/// Whether the key that `key_extractor` gives for `item` has an entry in `s`.
pub open spec fn cached_by<Item, F: Fn(&Item) -> CacheKey>(
    s: Seq<(CacheKey, Seq<u8>)>,
    key_extractor: F,
    item: Item,
) -> bool {
    exists|k: CacheKey| #[trigger] key_extractor.ensures((&item,), k) && has_key(s, k)
}

/// Pushing a new key into a full cache evicts exactly its least recently used
/// entry: that key is gone, while every other entry and the new key are present,
/// and the size stays at capacity.
pub proof fn lemma_full_cache_evicts_least_recent(
    s: Seq<(CacheKey, Seq<u8>)>,
    k: CacheKey,
    v: Seq<u8>,
    cap: nat,
)
    requires
        keys_unique(s),
        cap >= 1,
        s.len() == cap,
        !has_key(s, k),
    ensures
        pushed(s, k, v, cap).len() == cap,
        !has_key(pushed(s, k, v, cap), s[0].0),
        has_key(pushed(s, k, v, cap), k),
        forall|i: int| 1 <= i < s.len() ==> has_key(pushed(s, k, v, cap), #[trigger] s[i].0),
{
    let t = pushed(s, k, v, cap);
    assert(t == s.drop_first().push((k, v)));
    assert(t[t.len() - 1].0 == k);
    assert forall|i: int| 1 <= i < s.len() implies has_key(t, #[trigger] s[i].0) by {
        assert(t[i - 1] == s[i]);
    }
    if has_key(t, s[0].0) {
        let q = key_position(t, s[0].0);
        if q == t.len() - 1 {
            assert(s[0].0 == k);
            assert(has_key(s, k));
        } else {
            assert(t[q] == s[q + 1]);
            assert(s[0].0 != s[q + 1].0);
        }
    }
}

/// A lookup protects an entry from the next eviction: in a full cache of capacity
/// at least two, after `a` is used, pushing a new key keeps `a`.
pub proof fn lemma_get_protects_from_eviction(
    s: Seq<(CacheKey, Seq<u8>)>,
    a: CacheKey,
    k: CacheKey,
    v: Seq<u8>,
    cap: nat,
)
    requires
        keys_unique(s),
        cap >= 2,
        s.len() == cap,
        has_key(s, a),
        !has_key(s, k),
    ensures
        has_key(pushed(promoted(s, a), k, v, cap), a),
{
    lemma_promoted_keeps_contents(s, a);
    let p = promoted(s, a);
    assert(!has_key(p, k));
    let t = pushed(p, k, v, cap);
    assert(t == p.drop_first().push((k, v)));
    assert(t[p.len() - 2] == p[p.len() - 1]);
}

/// A lookup of many keys partitions them: each requested key is found or not
/// found, never both; nothing else is returned; and each found key had an entry.
pub proof fn lemma_try_get_many_partition(s: Seq<(CacheKey, Seq<u8>)>, keys: Seq<CacheKey>)
    ensures
        forall|k: CacheKey|
            keys.contains(k) ==> (#[trigger] found_keys(s, keys).contains(k)
                <==> !missing_keys(s, keys).contains(k)),
        forall|k: CacheKey|
            #[trigger] found_keys(s, keys).contains(k) ==> keys.contains(k)
                && has_key(s, k),
        forall|k: CacheKey|
            #[trigger] missing_keys(s, keys).contains(k) ==> keys.contains(k)
                && !has_key(s, k),
{
    let found = |x: CacheKey| has_key(s, x);
    let missing = |x: CacheKey| !has_key(s, x);
    assert(found_keys(s, keys) == keys.filter(found));
    assert(missing_keys(s, keys) == keys.filter(missing));
    broadcast use vstd::seq_lib::group_filter_ensures;

    assert forall|k: CacheKey| #[trigger] keys.filter(found).contains(k) implies keys.contains(k)
        && has_key(s, k) by {
        keys.lemma_filter_contains_rev(found, k);
    }
    assert forall|k: CacheKey| #[trigger] keys.filter(missing).contains(k) implies keys.contains(k)
        && !has_key(s, k) by {
        keys.lemma_filter_contains_rev(missing, k);
    }
    assert forall|k: CacheKey| keys.contains(k) implies (#[trigger] keys.filter(found).contains(k)
        <==> !keys.filter(missing).contains(k)) by {
        let i = choose|i: int| 0 <= i < keys.len() && keys[i] == k;
        if has_key(s, k) {
            assert(keys.filter(found).contains(keys[i]));
            if keys.filter(missing).contains(k) {
                keys.lemma_filter_contains_rev(missing, k);
            }
        } else {
            assert(keys.filter(missing).contains(keys[i]));
            if keys.filter(found).contains(k) {
                keys.lemma_filter_contains_rev(found, k);
            }
        }
    }
}

proof fn lemma_fill_without_eviction(values: Seq<(CacheKey, Seq<u8>)>, cap: nat, k: int)
    requires
        keys_unique(values),
        0 <= k <= values.len(),
        k <= cap,
    ensures
        inserted_all(Seq::empty(), values.take(k), cap) == values.take(k),
    decreases k,
{
    if k > 0 {
        let prev = values.take(k - 1);
        lemma_fill_without_eviction(values, cap, k - 1);
        assert(values.take(k).drop_last() =~= prev);
        assert(values.take(k).last() == values[k - 1]);
        if has_key(prev, values[k - 1].0) {
            let q = choose|q: int| 0 <= q < prev.len() && (#[trigger] prev[q]).0 == values[k - 1].0;
            assert(prev[q] == values[q]);
        }
        assert(values.take(k) =~= prev.push(values[k - 1]));
    }
}

/// LRU law: inserting `cap + 1` distinct keys, one after the other, into an empty
/// cache of capacity `cap` evicts exactly the first key, the least recently used
/// one, and keeps the others.
pub proof fn lemma_overfill_evicts_first(values: Seq<(CacheKey, Seq<u8>)>, cap: nat)
    requires
        cap >= 1,
        values.len() == cap + 1,
        keys_unique(values),
    ensures
        inserted_all(Seq::empty(), values, cap) == values.drop_first(),
        !has_key(inserted_all(Seq::empty(), values, cap), values[0].0),
        forall|i: int|
            1 <= i <= cap ==> has_key(inserted_all(Seq::empty(), values, cap), #[trigger] values[i].0),
{
    let prev = values.take(cap as int);
    lemma_fill_without_eviction(values, cap, cap as int);
    assert(values.drop_last() =~= prev);
    if has_key(prev, values[cap as int].0) {
        let q = choose|q: int| 0 <= q < prev.len() && (#[trigger] prev[q]).0 == values[cap as int].0;
        assert(prev[q] == values[q]);
    }
    assert(prev.drop_first().push(values[cap as int]) =~= values.drop_first());
    let t = values.drop_first();
    assert forall|i: int| 1 <= i <= cap implies has_key(t, #[trigger] values[i].0) by {
        assert(t[i - 1] == values[i]);
    }
    if has_key(t, values[0].0) {
        let q = choose|q: int| 0 <= q < t.len() && (#[trigger] t[q]).0 == values[0].0;
        assert(t[q] == values[q + 1]);
    }
}

} // verus!
