//! A bounded least-recently-used cache of fetched source bytes, keyed by a
//! fingerprint of the source URL.
use vstd::prelude::*;
use lru::LruCache;
use std::hash::{BuildHasher, BuildHasherDefault, DefaultHasher};
use std::num::NonZeroUsize;

verus! {

#[verifier::external_type_specification]
#[verifier::external_body]
#[verifier::reject_recursive_types(K)]
#[verifier::reject_recursive_types(V)]
#[verifier::reject_recursive_types(S)]
pub struct ExLruCache<K, V, S>(LruCache<K, V, S>);

#[verifier::external_type_specification]
#[verifier::external_body]
pub struct ExLruHasher(lru::DefaultHasher);

/// The entries of an lru cache, from least to most recently used.
pub uninterp spec fn lru_entries(c: LruCache<u64, Vec<u8>>) -> Seq<(u64, Seq<u8>)>;

/// The capacity that an lru cache was made with.
pub uninterp spec fn lru_capacity(c: LruCache<u64, Vec<u8>>) -> nat;

/// The fingerprint of a URL.
pub uninterp spec fn url_fingerprint(url: Seq<char>) -> u64;

/// A cache's entries as (key, bytes) pairs, least recently used first.
pub type Entries = Seq<(u64, Seq<u8>)>;

pub open spec fn has_key(m: Entries, k: u64) -> bool {
    exists|i: int| 0 <= i < m.len() && (#[trigger] m[i]).0 == k
}

pub open spec fn key_index(m: Entries, k: u64) -> int {
    choose|i: int| 0 <= i < m.len() && (#[trigger] m[i]).0 == k
}

pub open spec fn keys_unique(m: Entries) -> bool {
    forall|i: int, j: int|
        0 <= i < m.len() && 0 <= j < m.len() && (#[trigger] m[i]).0 == (#[trigger] m[j]).0 ==> i
            == j
}

/// The bytes stored under `k`, if any.
pub open spec fn lookup_spec(m: Entries, k: u64) -> Option<Seq<u8>> {
    if has_key(m, k) {
        Some(m[key_index(m, k)].1)
    } else {
        None
    }
}

/// A lookup of `k` makes its entry the most recently used one.
pub open spec fn touch_spec(m: Entries, k: u64) -> Entries {
    if has_key(m, k) {
        m.remove(key_index(m, k)).push(m[key_index(m, k)])
    } else {
        m
    }
}

/// Storing `v` under `k`: an existing entry is replaced and becomes the most
/// recently used; a new one evicts the least recently used entry when the
/// cache is full.
pub open spec fn put_spec(m: Entries, cap: nat, k: u64, v: Seq<u8>) -> Entries {
    if has_key(m, k) {
        m.remove(key_index(m, k)).push((k, v))
    } else if m.len() >= cap {
        m.drop_first().push((k, v))
    } else {
        m.push((k, v))
    }
}

/// Relies on lru::LruCache::new: an empty cache that holds at most `cap` entries.
#[verifier::external_body]
fn lru_new(cap: usize) -> (r: LruCache<u64, Vec<u8>>)
    requires
        cap > 0,
    ensures
        lru_entries(r) == Seq::<(u64, Seq<u8>)>::empty(),
        lru_capacity(r) == cap,
{
    LruCache::new(NonZeroUsize::new(cap).unwrap())
}

/// Relies on lru::LruCache::get: returns the value under `k` and moves its
/// entry to the most recently used end; a miss changes nothing.
#[verifier::external_body]
fn lru_get(c: &mut LruCache<u64, Vec<u8>>, k: u64) -> (r: Option<Vec<u8>>)
    ensures
        r matches Some(v) ==> lookup_spec(lru_entries(*old(c)), k) == Some(v@),
        r is None ==> lookup_spec(lru_entries(*old(c)), k) is None,
        lru_entries(*final(c)) == touch_spec(lru_entries(*old(c)), k),
        lru_capacity(*final(c)) == lru_capacity(*old(c)),
{
    c.get(&k).cloned()
}

/// Relies on lru::LruCache::put: replaces the value of an existing key and
/// makes it most recently used, or adds a new entry, first removing the least
/// recently used one when the cache is full.
#[verifier::external_body]
fn lru_put(c: &mut LruCache<u64, Vec<u8>>, k: u64, v: Vec<u8>)
    ensures
        lru_entries(*final(c)) == put_spec(lru_entries(*old(c)), lru_capacity(*old(c)), k, v@),
        lru_capacity(*final(c)) == lru_capacity(*old(c)),
{
    c.put(k, v);
}

/// Relies on lru::LruCache::contains: whether `k` has an entry, without
/// changing the recency order.
#[verifier::external_body]
fn lru_contains(c: &LruCache<u64, Vec<u8>>, k: u64) -> (r: bool)
    ensures
        r == has_key(lru_entries(*c), k),
{
    c.contains(&k)
}

/// Relies on std's BuildHasher::hash_one over an unkeyed DefaultHasher: the
/// same string always gets the same 64-bit fingerprint.
#[verifier::external_body]
fn fingerprint(url: &str) -> (r: u64)
    ensures
        r == url_fingerprint(url@),
{
    BuildHasherDefault::<DefaultHasher>::default().hash_one(url)
}

/// Why fetching a source failed.
#[derive(Clone, Copy, Debug, PartialEq, Eq, Structural)]
pub enum FetchError {
    /// The origin could not be reached or the body could not be read.
    Network,
    /// The origin answered with a status other than success.
    Status { code: u16 },
    /// The origin did not answer in time.
    Timeout,
}

/// Reads an origin's status code: only a code in `200..=299` is a success;
/// any other is the failure `Status` with that code.
pub fn check_status(code: u16) -> (r: Result<(), FetchError>)
    ensures
        r is Ok <==> 200 <= code <= 299,
        r is Err ==> r == Err::<(), FetchError>(FetchError::Status { code }),
{
    if 200 <= code && code <= 299 {
        Ok(())
    } else {
        Err(FetchError::Status { code })
    }
}

/// Fetched source bytes, kept under the fingerprint of their URL.
pub struct FetchCache {
    entries: LruCache<u64, Vec<u8>>,
}

impl FetchCache {
    /// The entries, least recently used first.
    pub closed spec fn view(&self) -> Entries {
        lru_entries(self.entries)
    }

    pub closed spec fn capacity(&self) -> nat {
        lru_capacity(self.entries)
    }

    pub open spec fn wf(&self) -> bool {
        keys_unique(self@) && self@.len() <= self.capacity() && self.capacity() > 0
    }

    /// An empty cache that holds at most `capacity` entries.
    pub fn new(capacity: usize) -> (r: FetchCache)
        requires
            capacity > 0,
        ensures
            r.wf(),
            r@ == Seq::<(u64, Seq<u8>)>::empty(),
            r.capacity() == capacity,
    {
        FetchCache { entries: lru_new(capacity) }
    }

    /// The cached bytes of `url`, if any; a hit makes the entry the most
    /// recently used.
    pub fn lookup(&mut self, url: &str) -> (r: Option<Vec<u8>>)
        requires
            old(self).wf(),
        ensures
            final(self).wf(),
            r matches Some(v) ==> lookup_spec(old(self)@, url_fingerprint(url@)) == Some(v@),
            r is None ==> lookup_spec(old(self)@, url_fingerprint(url@)) is None,
            final(self)@ == touch_spec(old(self)@, url_fingerprint(url@)),
            final(self).capacity() == old(self).capacity(),
    {
        let key = fingerprint(url);
        let r = lru_get(&mut self.entries, key);
        proof {
            lemma_touch_wf(old(self)@, key);
        }
        r
    }

    /// Stores the bytes fetched for `url`, evicting the least recently used
    /// entry when the cache is full.
    pub fn store(&mut self, url: &str, bytes: Vec<u8>)
        requires
            old(self).wf(),
        ensures
            final(self).wf(),
            final(self)@ == put_spec(old(self)@, old(self).capacity(), url_fingerprint(url@), bytes@),
            final(self).capacity() == old(self).capacity(),
    {
        let key = fingerprint(url);
        proof {
            lemma_put_wf(self@, self.capacity(), key, bytes@);
        }
        lru_put(&mut self.entries, key, bytes);
    }

    /// Whether `url` has an entry; the recency order is left as it is.
    pub fn contains(&self, url: &str) -> (r: bool)
        ensures
            r == has_key(self@, url_fingerprint(url@)),
    {
        lru_contains(&self.entries, fingerprint(url))
    }

    /// Records the outcome of fetching `url` after a miss: fetched bytes are
    /// stored and handed back; a failure is handed back and leaves the cache
    /// exactly as it was, so that a later request fetches again.
    pub fn complete_fetch(&mut self, url: &str, outcome: Result<Vec<u8>, FetchError>) -> (r: Result<
        Vec<u8>,
        FetchError,
    >)
        requires
            old(self).wf(),
        ensures
            final(self).wf(),
            final(self).capacity() == old(self).capacity(),
            match outcome {
                Ok(v) => r matches Ok(w) && w@ == v@ && final(self)@ == put_spec(
                    old(self)@,
                    old(self).capacity(),
                    url_fingerprint(url@),
                    v@,
                ),
                Err(e) => r == Err::<Vec<u8>, FetchError>(e) && final(self)@ == old(self)@,
            },
    {
        match outcome {
            Ok(bytes) => {
                let kept = bytes.clone();
                assert(kept@ =~= bytes@);
                self.store(url, kept);
                Ok(bytes)
            },
            Err(e) => Err(e),
        }
    }
}

proof fn lemma_remove_unique(m: Entries, i: int)
    requires
        keys_unique(m),
        0 <= i < m.len(),
    ensures
        keys_unique(m.remove(i)),
        !has_key(m.remove(i), m[i].0),
        forall|j: int| 0 <= j < m.len() && j != i ==> has_key(m.remove(i), (#[trigger] m[j]).0),
{
    let r = m.remove(i);
    assert forall|a: int, b: int|
        0 <= a < r.len() && 0 <= b < r.len() && (#[trigger] r[a]).0 == (#[trigger] r[b]).0 implies a
        == b by {
        let a1 = if a < i { a } else { a + 1 };
        let b1 = if b < i { b } else { b + 1 };
        assert(r[a] == m[a1] && r[b] == m[b1]);
    }
    if has_key(r, m[i].0) {
        let a = choose|a: int| 0 <= a < r.len() && (#[trigger] r[a]).0 == m[i].0;
        let a1 = if a < i { a } else { a + 1 };
        assert(r[a] == m[a1]);
    }
    assert forall|j: int| 0 <= j < m.len() && j != i implies has_key(r, (#[trigger] m[j]).0) by {
        let j1 = if j < i { j } else { j - 1 };
        assert(r[j1] == m[j]);
    }
}

proof fn lemma_push_unique(m: Entries, e: (u64, Seq<u8>))
    requires
        keys_unique(m),
        !has_key(m, e.0),
    ensures
        keys_unique(m.push(e)),
{
    let r = m.push(e);
    assert forall|a: int, b: int|
        0 <= a < r.len() && 0 <= b < r.len() && (#[trigger] r[a]).0 == (#[trigger] r[b]).0 implies a
        == b by {
        if a < m.len() && b == m.len() {
            assert(m[a].0 == e.0);
        } else if b < m.len() && a == m.len() {
            assert(m[b].0 == e.0);
        } else if a < m.len() && b < m.len() {
            assert(r[a] == m[a] && r[b] == m[b]);
        }
    }
}

proof fn lemma_touch_wf(m: Entries, k: u64)
    requires
        keys_unique(m),
    ensures
        keys_unique(touch_spec(m, k)),
        touch_spec(m, k).len() == m.len(),
{
    if has_key(m, k) {
        let i = key_index(m, k);
        lemma_remove_unique(m, i);
        lemma_push_unique(m.remove(i), m[i]);
    }
}

proof fn lemma_put_wf(m: Entries, cap: nat, k: u64, v: Seq<u8>)
    requires
        keys_unique(m),
        m.len() <= cap,
        cap > 0,
    ensures
        keys_unique(put_spec(m, cap, k, v)),
        put_spec(m, cap, k, v).len() <= cap,
{
    if has_key(m, k) {
        let i = key_index(m, k);
        lemma_remove_unique(m, i);
        lemma_push_unique(m.remove(i), (k, v));
    } else if m.len() >= cap {
        let r = m.drop_first();
        assert(r =~= m.remove(0));
        lemma_remove_unique(m, 0);
        if has_key(r, k) {
            let a = choose|a: int| 0 <= a < r.len() && (#[trigger] r[a]).0 == k;
            assert(r[a] == m[a + 1]);
        }
        lemma_push_unique(r, (k, v));
    } else {
        lemma_push_unique(m, (k, v));
    }
}

/// A failed fetch leaves the entries as they were, so a key that was absent
/// still misses on the next lookup and is fetched again.
pub proof fn lemma_failed_fetch_refetches(m: Entries, k: u64)
    requires
        !has_key(m, k),
    ensures
        lookup_spec(m, k) is None,
        touch_spec(m, k) == m,
{
}

/// Stores each (key, bytes) pair of `kvs` in order.
pub open spec fn put_all(m: Entries, cap: nat, kvs: Entries) -> Entries
    decreases kvs.len(),
{
    if kvs.len() == 0 {
        m
    } else {
        put_spec(put_all(m, cap, kvs.drop_last()), cap, kvs.last().0, kvs.last().1)
    }
}

proof fn lemma_drop_last_unique(m: Entries)
    requires
        keys_unique(m),
        m.len() > 0,
    ensures
        keys_unique(m.drop_last()),
        !has_key(m.drop_last(), m.last().0),
{
    let r = m.drop_last();
    assert forall|a: int, b: int|
        0 <= a < r.len() && 0 <= b < r.len() && (#[trigger] r[a]).0 == (#[trigger] r[b]).0 implies a
        == b by {
        assert(r[a] == m[a] && r[b] == m[b]);
    }
    if has_key(r, m.last().0) {
        let a = choose|a: int| 0 <= a < r.len() && (#[trigger] r[a]).0 == m.last().0;
        assert(r[a] == m[a]);
    }
}

proof fn lemma_fill(cap: nat, kvs: Entries)
    requires
        kvs.len() <= cap,
        keys_unique(kvs),
    ensures
        put_all(Seq::<(u64, Seq<u8>)>::empty(), cap, kvs) == kvs,
    decreases kvs.len(),
{
    if kvs.len() > 0 {
        lemma_drop_last_unique(kvs);
        lemma_fill(cap, kvs.drop_last());
        assert(kvs.drop_last().push((kvs.last().0, kvs.last().1)) =~= kvs);
    }
}

/// Storing a new key into a full cache removes exactly the least recently
/// used entry: every other entry stays, and the new one is added.
pub proof fn lemma_full_put_evicts_lru(m: Entries, cap: nat, k: u64, v: Seq<u8>)
    requires
        keys_unique(m),
        m.len() == cap,
        cap > 0,
        !has_key(m, k),
    ensures
        put_spec(m, cap, k, v) == m.drop_first().push((k, v)),
        !has_key(put_spec(m, cap, k, v), m[0].0),
        forall|j: int| 1 <= j < m.len() ==> has_key(put_spec(m, cap, k, v), (#[trigger] m[j]).0),
        has_key(put_spec(m, cap, k, v), k),
{
    let r = m.drop_first();
    let p = r.push((k, v));
    assert(r =~= m.remove(0));
    lemma_remove_unique(m, 0);
    assert(p[r.len() as int].0 == k);
    if has_key(p, m[0].0) {
        let a = choose|a: int| 0 <= a < p.len() && (#[trigger] p[a]).0 == m[0].0;
        assert(a < r.len() ==> p[a] == r[a]);
    }
    assert forall|j: int| 1 <= j < m.len() implies has_key(p, (#[trigger] m[j]).0) by {
        assert(p[j - 1] == m[j]);
    }
}

/// A hit makes its entry the most recently used one, so that storing a new
/// key into the full cache right after it evicts some other entry.
pub proof fn lemma_hit_refreshes(m: Entries, cap: nat, k: u64, k2: u64, v: Seq<u8>)
    requires
        keys_unique(m),
        m.len() == cap,
        cap > 1,
        has_key(m, k),
        !has_key(m, k2),
    ensures
        touch_spec(m, k).last().0 == k,
        has_key(put_spec(touch_spec(m, k), cap, k2, v), k),
{
    let i = key_index(m, k);
    let t = touch_spec(m, k);
    lemma_touch_wf(m, k);
    if has_key(t, k2) {
        let a = choose|a: int| 0 <= a < t.len() && (#[trigger] t[a]).0 == k2;
        if a < t.len() - 1 {
            let a1 = if a < i { a } else { a + 1 };
            assert(t[a] == m[a1]);
        }
    }
    lemma_full_put_evicts_lru(t, cap, k2, v);
    assert(t[t.len() - 1].0 == k);
}

/// Storing `cap + 1` distinct keys, one after another, into an empty cache
/// of capacity `cap` keeps the last `cap` of them: exactly the first one
/// stored, the least recently used, is evicted.
pub proof fn lemma_overfill_evicts_first(cap: nat, kvs: Entries)
    requires
        cap > 0,
        kvs.len() == cap + 1,
        keys_unique(kvs),
    ensures
        put_all(Seq::<(u64, Seq<u8>)>::empty(), cap, kvs) == kvs.drop_first(),
        !has_key(put_all(Seq::<(u64, Seq<u8>)>::empty(), cap, kvs), kvs[0].0),
{
    let prefix = kvs.drop_last();
    lemma_drop_last_unique(kvs);
    lemma_fill(cap, prefix);
    lemma_full_put_evicts_lru(prefix, cap, kvs.last().0, kvs.last().1);
    assert(prefix.drop_first().push((kvs.last().0, kvs.last().1)) =~= kvs.drop_first());
    assert(prefix[0] == kvs[0]);
}

} // verus!
