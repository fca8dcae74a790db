//! The content store: a cache of Data by name with a time to live for each
//! entry and least-recently-used eviction. Tier 2 is a concurrent map of
//! all the entries by their numbers; tier 1 orders the numbers of the
//! hottest, and its order of use decides what is evicted. Times and times to
//! live are in milliseconds on one monotonic clock.

use vstd::prelude::*;
use crate::name::Name;
use crate::ndn::{Data, DataView};

verus! {

/// Entries of a store that is given no capacity.
pub const DEFAULT_CAPACITY: usize = 10000;

/// Time to live, in seconds, of an entry that is given none.
pub const DEFAULT_TTL_SECONDS: u64 = 3600;

/// The same in milliseconds, the unit of the store's clock.
pub const DEFAULT_TTL_MS: u64 = 3600000;

/// A counter that is not exported.
#[derive(Debug, Clone, Copy, PartialEq, Eq, Structural)]
pub struct DummyCounter;

/// A gauge that is not exported.
#[derive(Debug, Clone, Copy, PartialEq, Eq, Structural)]
pub struct DummyGauge;

impl DummyCounter {
    /// Counts one event; nothing is kept.
    pub fn inc(&self) -> (r: ())
        ensures
            r == (),
    {
    }
}

impl DummyGauge {
    /// Sets the gauge, in thousandths; nothing is kept.
    pub fn set_milli(&self, _value: u64) -> (r: ())
        ensures
            r == (),
    {
    }
}

/// The keys of a tier-1 cache, from the least to the most recently used.
pub uninterp spec fn lru_order(c: lru::LruCache<u64, ()>) -> Seq<u64>;

/// The number of keys that a tier-1 cache was made for.
pub uninterp spec fn lru_cap(c: lru::LruCache<u64, ()>) -> nat;

/// The cache type of the `lru` crate; nothing is known of a value but what
/// the wrappers below say of its keys.
#[verifier::external_type_specification]
#[verifier::external_body]
#[verifier::reject_recursive_types(K)]
#[verifier::reject_recursive_types(V)]
#[verifier::reject_recursive_types(S)]
pub struct ExLruCache<K, V, S>(lru::LruCache<K, V, S>);

/// The hasher that an `lru` cache is built with by default; opaque.
#[verifier::external_type_specification]
#[verifier::external_body]
pub struct ExLruHasher(lru::DefaultHasher);

/// `s` without the key `k`.
pub open spec fn without<T>(s: Seq<T>, k: T) -> Seq<T>
    decreases s.len(),
{
    if s.len() == 0 {
        Seq::empty()
    } else if s.last() == k {
        without(s.drop_last(), k)
    } else {
        without(s.drop_last(), k).push(s.last())
    }
}

/// The order of use after `k` was put into a cache made for `cap` keys: `k`
/// is the most recent; where it is new and the cache is full, the least
/// recent key has left.
pub open spec fn order_after_put<T>(s: Seq<T>, k: T, cap: nat) -> Seq<T> {
    if s.contains(k) {
        without(s, k).push(k)
    } else if s.len() >= cap {
        s.skip(1).push(k)
    } else {
        s.push(k)
    }
}

/// Makes a tier-1 cache with `LruCache::new`: it is empty and made for `cap`
/// keys.
#[verifier::external_body]
fn lru_new(cap: usize) -> (c: lru::LruCache<u64, ()>)
    requires
        cap >= 1,
    ensures
        lru_order(c) == Seq::<u64>::empty(),
        lru_cap(c) == cap,
{
    lru::LruCache::new(std::num::NonZeroUsize::new(cap).unwrap())
}

/// Puts a key with `LruCache::put`: a key already held becomes the most
/// recently used; a new key is added as the most recently used, after the
/// least recently used one has left where the cache is full. No key is held
/// twice.
#[verifier::external_body]
fn lru_put(c: &mut lru::LruCache<u64, ()>, k: u64)
    ensures
        lru_order(*final(c)) == order_after_put(lru_order(*old(c)), k, lru_cap(*old(c))),
        lru_cap(*final(c)) == lru_cap(*old(c)),
        lru_order(*final(c)).no_duplicates(),
{
    c.put(k, ());
}

/// Removes a key with `LruCache::pop` and says whether it was held; the
/// order of the other keys stays.
#[verifier::external_body]
fn lru_pop(c: &mut lru::LruCache<u64, ()>, k: u64) -> (r: bool)
    ensures
        r == lru_order(*old(c)).contains(k),
        lru_order(*final(c)) == without(lru_order(*old(c)), k),
        lru_cap(*final(c)) == lru_cap(*old(c)),
        lru_order(*final(c)).no_duplicates(),
{
    c.pop(&k).is_some()
}

/// Removes the least recently used key with `LruCache::pop_lru` and gives
/// it; `None` from an empty cache.
#[verifier::external_body]
fn lru_pop_lru(c: &mut lru::LruCache<u64, ()>) -> (r: Option<u64>)
    ensures
        lru_order(*old(c)).len() == 0 ==> r is None && lru_order(*final(c)) == lru_order(*old(c)),
        lru_order(*old(c)).len() > 0 ==> r == Some(lru_order(*old(c))[0]) && lru_order(*final(c)) == lru_order(
            *old(c),
        ).skip(1),
        lru_cap(*final(c)) == lru_cap(*old(c)),
        lru_order(*final(c)).no_duplicates(),
{
    c.pop_lru().map(|kv| kv.0)
}

/// Empties the cache with `LruCache::clear`.
#[verifier::external_body]
fn lru_clear(c: &mut lru::LruCache<u64, ()>)
    ensures
        lru_order(*final(c)) == Seq::<u64>::empty(),
        lru_cap(*final(c)) == lru_cap(*old(c)),
{
    c.clear();
}

/// What the store holds for a name.
pub struct CachedView {
    pub data: DataView,
    pub created_at: u64,
    pub ttl: u64,
}

/// Whether an entry is past its time to live at `now`: more than `ttl`
/// milliseconds after it was stored.
pub open spec fn expired(e: CachedView, now: u64) -> bool {
    now >= e.created_at && now - e.created_at > e.ttl
}

/// The milliseconds that an entry has left at `now`.
pub open spec fn remaining(e: CachedView, now: u64) -> int {
    if now >= e.created_at {
        e.ttl - (now - e.created_at)
    } else {
        e.ttl as int
    }
}

/// The number of tier-1 entries of a store: a tenth of the capacity, rounded
/// up, and at least one.
pub open spec fn tier1_capacity(capacity: usize) -> int {
    if capacity <= 10 {
        1
    } else if capacity % 10 == 0 {
        capacity as int / 10
    } else {
        capacity as int / 10 + 1
    }
}


/// An entry of tier 2: Data with its number, its name and its times.
pub struct CacheEntry {
    id: u64,
    name: Name,
    data: Data,
    created_at: u64,
    ttl: u64,
}

impl CacheEntry {
    /// A copy of the entry.
    fn duplicate(&self) -> (r: CacheEntry)
        ensures
            r.id == self.id,
            r.name@ == self.name@,
            r.data@ == self.data@,
            r.created_at == self.created_at,
            r.ttl == self.ttl,
    {
        CacheEntry {
            id: self.id,
            name: self.name.duplicate(),
            data: self.data.duplicate(),
            created_at: self.created_at,
            ttl: self.ttl,
        }
    }

    /// Whether the entry is held under `name`, and its times.
    fn probe(&self, name: &Name) -> (r: (bool, u64, u64))
        ensures
            r.0 == (self.name@ == name@),
            r.1 == self.created_at,
            r.2 == self.ttl,
    {
        (self.name.same(name), self.created_at, self.ttl)
    }
}

/// The entries that a tier-2 map holds, by their numbers.
pub uninterp spec fn tier2_contents(m: dashmap::DashMap<u64, CacheEntry>) -> Map<u64, CacheEntry>;

/// The contents of an empty tier 2.
pub open spec fn no_cached() -> Map<u64, CacheEntry> {
    Map::empty()
}

/// Makes a tier-2 map with `DashMap::new`: it is empty.
#[verifier::external_body]
fn tier2_new() -> (table: dashmap::DashMap<u64, CacheEntry>)
    ensures
        tier2_contents(table) == no_cached(),
{
    dashmap::DashMap::new()
}

/// Stores an entry with `DashMap::insert`: afterwards the map holds it under
/// the key, in place of any held there before; every other key keeps its
/// entry.
#[verifier::external_body]
fn tier2_insert(m: &mut dashmap::DashMap<u64, CacheEntry>, k: u64, v: CacheEntry)
    ensures
        tier2_contents(*final(m)) == tier2_contents(*old(m)).insert(k, v),
{
    m.insert(k, v);
}

/// Removes an entry with `DashMap::remove` and says whether one was held
/// under the key; every other key keeps its entry.
#[verifier::external_body]
fn tier2_remove(m: &mut dashmap::DashMap<u64, CacheEntry>, k: u64) -> (r: bool)
    ensures
        r == tier2_contents(*old(m)).contains_key(k),
        tier2_contents(*final(m)) == tier2_contents(*old(m)).remove(k),
{
    m.remove(&k).is_some()
}

/// Empties the map with `DashMap::clear`.
#[verifier::external_body]
fn tier2_clear(m: &mut dashmap::DashMap<u64, CacheEntry>)
    ensures
        tier2_contents(*final(m)) == no_cached(),
{
    m.clear();
}

/// Lists the keys with `DashMap::iter`: every key once, in no particular
/// order.
#[verifier::external_body]
fn tier2_keys(m: &dashmap::DashMap<u64, CacheEntry>) -> (r: Vec<u64>)
    ensures
        r@.no_duplicates(),
        forall|k: u64| r@.contains(k) <==> tier2_contents(*m).contains_key(k),
{
    m.iter().map(|e| *e.key()).collect()
}

/// The number of entries, as `DashMap::len` gives it.
#[verifier::external_body]
fn tier2_len(m: &dashmap::DashMap<u64, CacheEntry>) -> (r: usize)
    ensures
        r == tier2_contents(*m).dom().len(),
{
    m.len()
}

/// Reads an entry with `DashMap::get`: a copy of the one held under the key,
/// made by [`CacheEntry::duplicate`], or `None` where none is held.
#[verifier::external_body]
fn tier2_read(m: &dashmap::DashMap<u64, CacheEntry>, k: u64) -> (r: Option<CacheEntry>)
    ensures
        tier2_contents(*m).contains_key(k) ==> r is Some && r->0.id == tier2_contents(*m)[k].id && r->0.name@
            == tier2_contents(*m)[k].name@ && r->0.data@ == tier2_contents(*m)[k].data@ && r->0.created_at
            == tier2_contents(*m)[k].created_at && r->0.ttl == tier2_contents(*m)[k].ttl,
        !tier2_contents(*m).contains_key(k) ==> r is None,
{
    m.get(&k).map(|e| e.value().duplicate())
}

/// Looks at an entry with `DashMap::get`: what [`CacheEntry::probe`] says of
/// the one held under the key, or `None` where none is held.
#[verifier::external_body]
fn tier2_probe(m: &dashmap::DashMap<u64, CacheEntry>, k: u64, name: &Name) -> (r: Option<(bool, u64, u64)>)
    ensures
        tier2_contents(*m).contains_key(k) ==> r == Some(
            (
                tier2_contents(*m)[k].name@ == name@,
                tier2_contents(*m)[k].created_at,
                tier2_contents(*m)[k].ttl,
            ),
        ),
        !tier2_contents(*m).contains_key(k) ==> r is None,
{
    m.get(&k).map(|e| e.value().probe(name))
}

spec fn view_of(e: CacheEntry) -> CachedView {
    CachedView { data: e.data@, created_at: e.created_at, ttl: e.ttl }
}

spec fn unique(m: Map<u64, CacheEntry>) -> bool {
    &&& forall|k: u64| m.contains_key(k) ==> (#[trigger] m[k]).id == k
    &&& forall|a: u64, b: u64|
        m.contains_key(a) && m.contains_key(b) && a != b ==> (#[trigger] m[a]).name@ != (#[trigger] m[b]).name@
}

spec fn holds(m: Map<u64, CacheEntry>, n: Seq<Seq<u8>>) -> bool {
    exists|k: u64| m.contains_key(k) && (#[trigger] m[k]).name@ == n
}

spec fn lookup_in(m: Map<u64, CacheEntry>, n: Seq<Seq<u8>>) -> Option<CachedView> {
    if holds(m, n) {
        Some(view_of(m[choose|k: u64| m.contains_key(k) && (#[trigger] m[k]).name@ == n]))
    } else {
        None
    }
}

proof fn lemma_lookup_at(m: Map<u64, CacheEntry>, k: u64)
    requires
        unique(m),
        m.contains_key(k),
    ensures
        holds(m, m[k].name@),
        lookup_in(m, m[k].name@) == Some(view_of(m[k])),
{
    let n = m[k].name@;
    let j = choose|j: u64| m.contains_key(j) && (#[trigger] m[j]).name@ == n;
    assert(j == k);
}

proof fn lemma_insert(m: Map<u64, CacheEntry>, e: CacheEntry)
    requires
        unique(m),
        m.contains_key(e.id) ==> m[e.id].name@ == e.name@,
        !m.contains_key(e.id) ==> !holds(m, e.name@),
    ensures
        unique(m.insert(e.id, e)),
        forall|n: Seq<Seq<u8>>| #[trigger]
            lookup_in(m.insert(e.id, e), n) == if n == e.name@ {
                Some(view_of(e))
            } else {
                lookup_in(m, n)
            },
{
    let after = m.insert(e.id, e);
    assert(unique(after)) by {
        assert forall|a: u64, b: u64| after.contains_key(a) && after.contains_key(b) && a != b implies (
        #[trigger] after[a]).name@ != (#[trigger] after[b]).name@ by {
            if a == e.id {
                if m.contains_key(e.id) {
                    assert(m[a].name@ != m[b].name@);
                } else {
                    assert(m[b].name@ != e.name@);
                }
            } else if b == e.id {
                if m.contains_key(e.id) {
                    assert(m[a].name@ != m[b].name@);
                } else {
                    assert(m[a].name@ != e.name@);
                }
            } else {
                assert(m[a].name@ != m[b].name@);
            }
        }
    }
    assert forall|n: Seq<Seq<u8>>| #[trigger]
        lookup_in(after, n) == if n == e.name@ {
            Some(view_of(e))
        } else {
            lookup_in(m, n)
        } by {
        if n == e.name@ {
            lemma_lookup_at(after, e.id);
        } else if holds(m, n) {
            let k = choose|k: u64| m.contains_key(k) && (#[trigger] m[k]).name@ == n;
            assert(k != e.id);
            assert(after[k] == m[k]);
            lemma_lookup_at(after, k);
            lemma_lookup_at(m, k);
        } else {
            if holds(after, n) {
                let k = choose|k: u64| after.contains_key(k) && (#[trigger] after[k]).name@ == n;
                assert(after[k] == m[k]);
            }
        }
    }
}

proof fn lemma_remove(m: Map<u64, CacheEntry>, k: u64)
    requires
        unique(m),
        m.contains_key(k),
    ensures
        unique(m.remove(k)),
        forall|n: Seq<Seq<u8>>| #[trigger]
            lookup_in(m.remove(k), n) == if n == m[k].name@ {
                None
            } else {
                lookup_in(m, n)
            },
{
    let after = m.remove(k);
    assert(unique(after)) by {
        assert forall|a: u64, b: u64| after.contains_key(a) && after.contains_key(b) && a != b implies (
        #[trigger] after[a]).name@ != (#[trigger] after[b]).name@ by {
            assert(m[a].name@ != m[b].name@);
        }
    }
    assert forall|n: Seq<Seq<u8>>| #[trigger]
        lookup_in(after, n) == if n == m[k].name@ {
            None
        } else {
            lookup_in(m, n)
        } by {
        if holds(after, n) {
            let j = choose|j: u64| after.contains_key(j) && (#[trigger] after[j]).name@ == n;
            assert(after[j] == m[j]);
            assert(m[j].name@ != m[k].name@);
            lemma_lookup_at(after, j);
            lemma_lookup_at(m, j);
        } else if holds(m, n) {
            let j = choose|j: u64| m.contains_key(j) && (#[trigger] m[j]).name@ == n;
            if j != k {
                assert(after[j] == m[j]);
            } else {
                lemma_lookup_at(m, k);
            }
        }
    }
}

proof fn lemma_without<T>(s: Seq<T>, k: T)
    ensures
        !without(s, k).contains(k),
        forall|x: T| x != k ==> (#[trigger] without(s, k).contains(x) <==> s.contains(x)),
        without(s, k).len() <= s.len(),
        s.contains(k) ==> without(s, k).len() < s.len(),
    decreases s.len(),
{
    if s.len() > 0 {
        let front = s.drop_last();
        lemma_without(front, k);
        let w = without(front, k);
        assert forall|x: T| x != k implies (#[trigger] without(s, k).contains(x) <==> s.contains(x)) by {
            if s.contains(x) {
                let i = choose|i: int| 0 <= i < s.len() && s[i] == x;
                if i < front.len() {
                    assert(front[i] == x);
                    assert(front.contains(x));
                    assert(without(front, k).contains(x));
                    let j = choose|j: int| 0 <= j < w.len() && w[j] == x;
                    if s.last() != k {
                        assert(w.push(s.last())[j] == x);
                    }
                } else {
                    assert(s.last() == x);
                    assert(w.push(x)[w.len() as int] == x);
                }
            }
            if without(s, k).contains(x) {
                let j = choose|j: int| 0 <= j < without(s, k).len() && without(s, k)[j] == x;
                if s.last() == k || j < w.len() {
                    assert(w[j] == x);
                    assert(without(front, k).contains(x));
                    assert(front.contains(x));
                    let i = choose|i: int| 0 <= i < front.len() && front[i] == x;
                    assert(s[i] == x);
                } else {
                    assert(s[s.len() - 1] == x);
                }
            }
        }
        if without(s, k).contains(k) {
            let j = choose|j: int| 0 <= j < without(s, k).len() && without(s, k)[j] == k;
            if s.last() == k || j < w.len() {
                assert(w[j] == k);
                assert(w.contains(k));
            }
        }
        if s.contains(k) && s.last() != k {
            let i = choose|i: int| 0 <= i < s.len() && s[i] == k;
            assert(front[i] == k);
            assert(front.contains(k));
        }
    }
}

proof fn lemma_order_after_put<T>(s: Seq<T>, k: T, cap: nat)
    requires
        cap >= 1,
        s.len() <= cap,
    ensures
        order_after_put(s, k, cap).len() >= 1,
        order_after_put(s, k, cap).len() <= cap,
        order_after_put(s, k, cap).last() == k,
        forall|x: T| #[trigger] order_after_put(s, k, cap).contains(x) ==> x == k || s.contains(x),
{
    let r = order_after_put(s, k, cap);
    lemma_without(s, k);
    assert forall|x: T| #[trigger] r.contains(x) implies x == k || s.contains(x) by {
        let j = choose|j: int| 0 <= j < r.len() && r[j] == x;
        if j < r.len() - 1 {
            if s.contains(k) {
                assert(without(s, k)[j] == x);
                assert(without(s, k).contains(x));
            } else if s.len() >= cap {
                assert(s.skip(1)[j] == x);
                assert(s[j + 1] == x);
            } else {
                assert(s[j] == x);
            }
        }
    }
}

proof fn lemma_without_absent<T>(s: Seq<T>, k: T)
    requires
        !s.contains(k),
    ensures
        without(s, k) == s,
    decreases s.len(),
{
    if s.len() > 0 {
        let front = s.drop_last();
        assert(s[s.len() - 1] == s.last());
        assert forall|i: int| 0 <= i < front.len() implies front[i] != k by {
            assert(s[i] == front[i]);
        }
        lemma_without_absent(front, k);
        assert(front.push(s.last()) =~= s);
    } else {
        assert(without(s, k) =~= s);
    }
}


spec fn names_of(m: Map<u64, CacheEntry>, order: Seq<u64>) -> Seq<Seq<Seq<u8>>> {
    Seq::new(order.len(), |k: int| m[order[k]].name@)
}

spec fn all_held(m: Map<u64, CacheEntry>, order: Seq<u64>) -> bool {
    forall|x: u64| #[trigger] order.contains(x) ==> m.contains_key(x)
}

proof fn lemma_names_without(m: Map<u64, CacheEntry>, order: Seq<u64>, id: u64)
    requires
        unique(m),
        m.contains_key(id),
        all_held(m, order),
    ensures
        names_of(m, without(order, id)) == without(names_of(m, order), m[id].name@),
        order.contains(id) <==> names_of(m, order).contains(m[id].name@),
    decreases order.len(),
{
    let names = names_of(m, order);
    let n = m[id].name@;
    if order.len() == 0 {
        assert(names_of(m, without(order, id)) =~= without(names, n));
    } else {
        let front = order.drop_last();
        assert(order[order.len() - 1] == order.last());
        assert(order.contains(order.last()));
        assert forall|x: u64| #[trigger] front.contains(x) implies m.contains_key(x) by {
            let i = choose|i: int| 0 <= i < front.len() && front[i] == x;
            assert(order[i] == x);
            assert(order.contains(x));
        }
        lemma_names_without(m, front, id);
        assert(names.drop_last() =~= names_of(m, front));
        assert(names.last() == m[order.last()].name@);
        if order.last() != id {
            assert(m[order.last()].name@ != m[id].name@);
            assert(names_of(m, without(front, id).push(order.last())) =~= names_of(m, without(front, id)).push(
                names.last(),
            ));
        }
        if order.contains(id) {
            let i = choose|i: int| 0 <= i < order.len() && order[i] == id;
            assert(names[i] == n);
        }
        if names.contains(n) {
            let i = choose|i: int| 0 <= i < names.len() && names[i] == n;
            if order[i] != id {
                assert(order.contains(order[i]));
                assert(m[order[i]].name@ != m[id].name@);
            }
        }
    }
}

proof fn lemma_names_after_put(m: Map<u64, CacheEntry>, order: Seq<u64>, id: u64, cap: nat)
    requires
        cap >= 1,
        unique(m),
        m.contains_key(id),
        all_held(m, order),
    ensures
        names_of(m, order_after_put(order, id, cap)) == order_after_put(names_of(m, order), m[id].name@, cap),
{
    lemma_names_without(m, order, id);
    let names = names_of(m, order);
    let n = m[id].name@;
    if order.contains(id) {
        assert(names_of(m, without(order, id).push(id)) =~= names_of(m, without(order, id)).push(n));
    } else if order.len() >= cap {
        assert(names_of(m, order.skip(1).push(id)) =~= names.skip(1).push(n));
    } else {
        assert(names_of(m, order.push(id)) =~= names.push(n));
    }
}

proof fn lemma_names_same(before: Map<u64, CacheEntry>, after: Map<u64, CacheEntry>, order: Seq<u64>)
    requires
        forall|x: u64| #[trigger] order.contains(x) ==> after[x].name@ == before[x].name@,
    ensures
        names_of(after, order) == names_of(before, order),
{
    assert forall|k: int| 0 <= k < order.len() implies after[order[k]].name@ == before[order[k]].name@ by {
        assert(order.contains(order[k]));
    }
    assert(names_of(after, order) =~= names_of(before, order));
}

/// A cache of Data by name.
pub struct ContentStore {
    lru: lru::LruCache<u64, ()>,
    map: dashmap::DashMap<u64, CacheEntry>,
    capacity: usize,
    default_ttl: u64,
    next_id: u64,
}

spec fn least_in(m: Map<u64, CacheEntry>, k: u64) -> bool {
    m.contains_key(k) && forall|j: u64| m.contains_key(j) ==> k <= j
}

impl ContentStore {
    /// The most entries that the store holds.
    pub closed spec fn capacity(&self) -> usize {
        self.capacity
    }

    /// The time to live, in milliseconds, of an entry stored without one.
    pub closed spec fn ttl_default(&self) -> u64 {
        self.default_ttl
    }

    /// The number of entries in tier 2, that is in the store.
    pub closed spec fn size(&self) -> nat {
        tier2_contents(self.map).dom().len()
    }

    /// What the store holds for the name `n`.
    pub closed spec fn lookup(&self, n: Seq<Seq<u8>>) -> Option<CachedView> {
        lookup_in(tier2_contents(self.map), n)
    }

    /// The names in tier 1, from the least to the most recently used.
    pub closed spec fn hot(&self) -> Seq<Seq<Seq<u8>>> {
        names_of(tier2_contents(self.map), lru_order(self.lru))
    }

    /// The name that leaves when room is needed: the least recently used of
    /// tier 1, or, where tier 1 is empty, the entry with the lowest number.
    pub closed spec fn victim(&self) -> Seq<Seq<u8>> {
        if lru_order(self.lru).len() > 0 {
            tier2_contents(self.map)[lru_order(self.lru)[0]].name@
        } else {
            tier2_contents(self.map)[choose|k: u64| least_in(tier2_contents(self.map), k)].name@
        }
    }

    /// How many entries the store has numbered since it was made or last
    /// emptied: every new name takes a number, a name stored again keeps its
    /// own.
    pub closed spec fn ids_used(&self) -> u64 {
        self.next_id
    }

    /// Whether the store can still number a new entry. In a store that
    /// cannot, a new entry takes the number of the victim, which leaves; an
    /// empty one starts numbering afresh.
    pub open spec fn ids_left(&self) -> bool {
        self.ids_used() < u64::MAX
    }

    /// The store is in order: no name is held twice, tier 2 is within the
    /// capacity, and tier 1 holds only entries of tier 2, within its own
    /// capacity.
    pub closed spec fn wf(&self) -> bool {
        &&& tier2_contents(self.map).dom().finite()
        &&& tier2_contents(self.map).dom().len() <= self.capacity
        &&& unique(tier2_contents(self.map))
        &&& forall|k: u64| #[trigger] tier2_contents(self.map).contains_key(k) ==> k < self.next_id
        &&& lru_order(self.lru).no_duplicates()
        &&& all_held(tier2_contents(self.map), lru_order(self.lru))
        &&& lru_cap(self.lru) == tier1_capacity(self.capacity)
        &&& lru_order(self.lru).len() <= lru_cap(self.lru)
    }

    /// An empty store for `capacity` entries, a tenth of them in tier 1.
    pub fn new(capacity: usize) -> (r: Self)
        ensures
            r.wf(),
            r.capacity() == capacity,
            r.ttl_default() == DEFAULT_TTL_MS,
            r.size() == 0,
            r.hot().len() == 0,
            r.ids_used() == 0,
            forall|n: Seq<Seq<u8>>| #[trigger] r.lookup(n) is None,
    {
        let tier1: usize = if capacity <= 10 {
            1
        } else if capacity % 10 == 0 {
            capacity / 10
        } else {
            capacity / 10 + 1
        };
        let r = ContentStore {
            lru: lru_new(tier1),
            map: tier2_new(),
            capacity,
            default_ttl: DEFAULT_TTL_MS,
            next_id: 0,
        };
        assert(lru_order(r.lru).no_duplicates());
        assert(tier2_contents(r.map).dom() =~= Set::<u64>::empty());
        r
    }

    /// An empty store for 10000 entries.
    pub fn with_default_capacity() -> (r: Self)
        ensures
            r.wf(),
            r.capacity() == DEFAULT_CAPACITY,
            r.ttl_default() == DEFAULT_TTL_MS,
            r.size() == 0,
            r.ids_used() == 0,
            forall|n: Seq<Seq<u8>>| #[trigger] r.lookup(n) is None,
    {
        ContentStore::new(DEFAULT_CAPACITY)
    }

    /// Sets the time to live, in milliseconds, of entries stored without one.
    pub fn set_default_ttl(&mut self, ttl: u64)
        requires
            old(self).wf(),
        ensures
            final(self).wf(),
            final(self).ttl_default() == ttl,
            final(self).capacity() == old(self).capacity(),
            final(self).size() == old(self).size(),
            final(self).hot() == old(self).hot(),
            final(self).ids_used() == old(self).ids_used(),
            forall|n: Seq<Seq<u8>>| #[trigger] final(self).lookup(n) == old(self).lookup(n),
    {
        self.default_ttl = ttl;
    }

    /// The time to live, in milliseconds, of entries stored without one.
    pub fn default_ttl(&self) -> (r: u64)
        ensures
            r == self.ttl_default(),
    {
        self.default_ttl
    }

    /// Number of entries.
    pub fn len(&self) -> (r: usize)
        ensures
            r == self.size(),
    {
        tier2_len(&self.map)
    }

    /// Whether the store is empty.
    pub fn is_empty(&self) -> (r: bool)
        ensures
            r == (self.size() == 0),
    {
        tier2_len(&self.map) == 0
    }

    fn find(&self, name: &Name) -> (r: Option<(u64, u64, u64)>)
        ensures
            match r {
                Some(f) => tier2_contents(self.map).contains_key(f.0) && tier2_contents(self.map)[f.0].name@ == name@
                    && f.1 == tier2_contents(self.map)[f.0].created_at && f.2 == tier2_contents(self.map)[f.0].ttl,
                None => !holds(tier2_contents(self.map), name@),
            },
    {
        let keys = tier2_keys(&self.map);
        let ghost m = tier2_contents(self.map);
        let mut i: usize = 0;
        while i < keys.len()
            invariant
                0 <= i <= keys@.len(),
                m == tier2_contents(self.map),
                forall|k: u64| keys@.contains(k) <==> m.contains_key(k),
                forall|j: int| 0 <= j < i ==> m[#[trigger] keys@[j]].name@ != name@,
            decreases keys@.len() - i,
        {
            let k = keys[i];
            assert(keys@.contains(k));
            match tier2_probe(&self.map, k, name) {
                Some(p) => {
                    if p.0 {
                        return Some((k, p.1, p.2));
                    }
                },
                None => {},
            }
            i += 1;
        }
        proof {
            if holds(m, name@) {
                let k = choose|k: u64| m.contains_key(k) && (#[trigger] m[k]).name@ == name@;
                assert(keys@.contains(k));
                let j = choose|j: int| 0 <= j < keys@.len() && keys@[j] == k;
                assert(m[keys@[j]].name@ != name@);
            }
        }
        None
    }

    fn least_key(&self) -> (r: u64)
        requires
            self.wf(),
            tier2_contents(self.map).dom().len() > 0,
        ensures
            least_in(tier2_contents(self.map), r),
    {
        let keys = tier2_keys(&self.map);
        let ghost m = tier2_contents(self.map);
        proof {
            let any = m.dom().choose();
            assert(m.dom().contains(any));
            assert(keys@.contains(any));
        }
        let mut best: u64 = keys[0];
        assert(keys@.contains(keys@[0]));
        let mut i: usize = 1;
        while i < keys.len()
            invariant
                1 <= i <= keys@.len(),
                keys@.contains(best),
                forall|j: int| 0 <= j < i ==> best <= #[trigger] keys@[j],
            decreases keys@.len() - i,
        {
            if keys[i] < best {
                best = keys[i];
                assert(keys@.contains(keys@[i as int]));
            }
            i += 1;
        }
        proof {
            assert forall|j: u64| m.contains_key(j) implies best <= j by {
                assert(keys@.contains(j));
                let x = choose|x: int| 0 <= x < keys@.len() && keys@[x] == j;
                assert(best <= keys@[x]);
            }
        }
        best
    }

    fn remove_at(&mut self, k: u64)
        requires
            old(self).wf(),
            tier2_contents(old(self).map).contains_key(k),
        ensures
            final(self).wf(),
            final(self).capacity() == old(self).capacity(),
            final(self).ttl_default() == old(self).ttl_default(),
            final(self).next_id == old(self).next_id,
            tier2_contents(final(self).map) == tier2_contents(old(self).map).remove(k),
            final(self).size() == old(self).size() - 1,
            final(self).hot() == without(old(self).hot(), tier2_contents(old(self).map)[k].name@),
            forall|n: Seq<Seq<u8>>| #[trigger]
                final(self).lookup(n) == if n == tier2_contents(old(self).map)[k].name@ {
                    None
                } else {
                    old(self).lookup(n)
                },
    {
        let ghost before = tier2_contents(self.map);
        let ghost order = lru_order(self.lru);
        proof {
            lemma_remove(before, k);
            lemma_without(order, k);
            lemma_names_without(before, order, k);
        }
        let _ = lru_pop(&mut self.lru, k);
        let _ = tier2_remove(&mut self.map, k);
        proof {
            let after = tier2_contents(self.map);
            assert forall|x: u64| #[trigger] lru_order(self.lru).contains(x) implies after.contains_key(x) by {
                assert(order.contains(x));
            }
            assert forall|x: u64| #[trigger] lru_order(self.lru).contains(x) implies after[x].name@
                == before[x].name@ by {
                assert(order.contains(x));
            }
            lemma_names_same(before, after, lru_order(self.lru));
        }
    }

    /// Whether the store holds an entry for `name`, expired or not.
    pub fn contains(&self, name: &Name) -> (r: bool)
        ensures
            r == self.lookup(name@) is Some,
    {
        self.find(name).is_some()
    }

    /// Removes the entry for `name` and says whether there was one.
    pub fn remove(&mut self, name: &Name) -> (r: bool)
        requires
            old(self).wf(),
        ensures
            final(self).wf(),
            final(self).capacity() == old(self).capacity(),
            final(self).ttl_default() == old(self).ttl_default(),
            final(self).ids_used() == old(self).ids_used(),
            r == old(self).lookup(name@) is Some,
            final(self).size() == if r {
                old(self).size() - 1
            } else {
                old(self).size() as int
            },
            final(self).hot() == if r {
                without(old(self).hot(), name@)
            } else {
                old(self).hot()
            },
            forall|n: Seq<Seq<u8>>| #[trigger]
                final(self).lookup(n) == if n == name@ {
                    None
                } else {
                    old(self).lookup(n)
                },
    {
        match self.find(name) {
            Some(found) => {
                proof {
                    lemma_lookup_at(tier2_contents(self.map), found.0);
                }
                self.remove_at(found.0);
                true
            },
            None => false,
        }
    }

    /// Removes every entry.
    pub fn clear(&mut self)
        requires
            old(self).wf(),
        ensures
            final(self).wf(),
            final(self).capacity() == old(self).capacity(),
            final(self).ttl_default() == old(self).ttl_default(),
            final(self).size() == 0,
            final(self).hot().len() == 0,
            final(self).ids_used() == 0,
            forall|n: Seq<Seq<u8>>| #[trigger] final(self).lookup(n) is None,
    {
        lru_clear(&mut self.lru);
        tier2_clear(&mut self.map);
        self.next_id = 0;
        assert(lru_order(self.lru).no_duplicates());
        assert(tier2_contents(self.map).dom() =~= Set::<u64>::empty());
    }

    fn evict_one(&mut self) -> (gone: u64)
        requires
            old(self).wf(),
            tier2_contents(old(self).map).dom().len() > 0,
        ensures
            final(self).wf(),
            !tier2_contents(final(self).map).contains_key(gone),
            gone < old(self).next_id,
            final(self).capacity() == old(self).capacity(),
            final(self).ttl_default() == old(self).ttl_default(),
            final(self).next_id == old(self).next_id,
            final(self).size() == old(self).size() - 1,
            final(self).hot() == if old(self).hot().len() > 0 {
                old(self).hot().skip(1)
            } else {
                old(self).hot()
            },
            old(self).lookup(old(self).victim()) is Some,
            forall|n: Seq<Seq<u8>>| #[trigger]
                final(self).lookup(n) == if n == old(self).victim() {
                    None
                } else {
                    old(self).lookup(n)
                },
    {
        let ghost order = lru_order(self.lru);
        let ghost m = tier2_contents(self.map);
        let gone: u64 = if order_is_empty(&self.lru) {
            let k = self.least_key();
            proof {
                let c = choose|c: u64| least_in(m, c);
                assert(least_in(m, k));
                assert(c == k);
            }
            k
        } else {
            match lru_pop_lru(&mut self.lru) {
                Some(id) => {
                    assert(order.contains(order[0]));
                    assert forall|x: u64| #[trigger] lru_order(self.lru).contains(x) implies m.contains_key(x) by {
                        let j = choose|j: int| 0 <= j < order.skip(1).len() && order.skip(1)[j] == x;
                        assert(order[j + 1] == x);
                        assert(order.contains(x));
                    }
                    id
                },
                None => 0,
            }
        };
        proof {
            lemma_lookup_at(m, gone);
        }
        let ghost mid = *self;
        self.remove_at(gone);
        proof {
            let names = mid.hot();
            let gone_name = m[gone].name@;
            if order.len() > 0 {
                assert(names =~= old(self).hot().skip(1));
                assert(!order.skip(1).contains(order[0])) by {
                    if order.skip(1).contains(order[0]) {
                        let j = choose|j: int| 0 <= j < order.skip(1).len() && order.skip(1)[j] == order[0];
                        assert(order[j + 1] == order[0]);
                    }
                }
                assert(all_held(m, order.skip(1)));
                lemma_names_without(m, order.skip(1), order[0]);
            } else {
                assert(names =~= old(self).hot());
            }
            lemma_without_absent(names, gone_name);
        }
        gone
    }

    /// Stores `data` under `name` with the default time to live, counted
    /// from `now`.
    pub fn insert(&mut self, name: Name, data: Data, now: u64)
        requires
            old(self).wf(),
        ensures
            stored(*old(self), *final(self), name@, data@, old(self).ttl_default(), now),
    {
        let ttl = self.default_ttl;
        self.insert_with_ttl(name, data, ttl, now);
    }

    /// Stores `data` under `name` with a time to live of `ttl` milliseconds,
    /// counted from `now`. See [`stored`].
    pub fn insert_with_ttl(&mut self, name: Name, data: Data, ttl: u64, now: u64)
        requires
            old(self).wf(),
        ensures
            stored(*old(self), *final(self), name@, data@, ttl, now),
    {
        if self.capacity == 0 {
            return ;
        }
        let ghost new_view = CachedView { data: data@, created_at: now, ttl };
        let ghost name_view = name@;
        let ghost mut settled = *self;
        let id: u64;
        match self.find(&name) {
            Some(found) => {
                id = found.0;
                proof {
                    lemma_lookup_at(tier2_contents(self.map), id);
                }
            },
            None => {
                let exhausted = self.next_id == u64::MAX;
                let size = tier2_len(&self.map);
                let mut reused: Option<u64> = None;
                if size > 0 && (exhausted || size >= self.capacity) {
                    let gone = self.evict_one();
                    if exhausted {
                        reused = Some(gone);
                    }
                }
                assert(self.lookup(name_view) is None);
                assert(!holds(tier2_contents(self.map), name_view));
                proof {
                    settled = *self;
                }
                match reused {
                    Some(gone) => {
                        id = gone;
                    },
                    None => {
                        if exhausted {
                            assert(lru_order(self.lru).len() == 0) by {
                                if lru_order(self.lru).len() > 0 {
                                    assert(lru_order(self.lru).contains(lru_order(self.lru)[0]));
                                    let x = lru_order(self.lru)[0];
                                    assert(tier2_contents(self.map).dom().contains(x));
                                }
                            }
                            assert(tier2_contents(self.map).dom() =~= Set::<u64>::empty());
                            self.next_id = 0;
                        }
                        id = self.next_id;
                        self.next_id = id + 1;
                    },
                }
            },
        }
        let entry = CacheEntry { id, name, data, created_at: now, ttl };
        let ghost m1 = tier2_contents(self.map);
        let ghost order1 = lru_order(self.lru);
        proof {
            lemma_insert(m1, entry);
            lemma_order_after_put(order1, id, lru_cap(self.lru));
        }
        tier2_insert(&mut self.map, id, entry);
        proof {
            let m2 = tier2_contents(self.map);
            assert forall|x: u64| #[trigger] order1.contains(x) implies m2[x].name@ == m1[x].name@ by {
                assert(m1.contains_key(x));
            }
            lemma_names_same(m1, m2, order1);
            assert(all_held(m2, order1)) by {
                assert forall|x: u64| #[trigger] order1.contains(x) implies m2.contains_key(x) by {
                    assert(m1.contains_key(x));
                }
            }
            lemma_names_after_put(m2, order1, id, lru_cap(self.lru));
            assert(m2.dom() =~= m1.dom().insert(id));
        }
        lru_put(&mut self.lru, id);
        proof {
            let m2 = tier2_contents(self.map);
            assert forall|x: u64| #[trigger] lru_order(self.lru).contains(x) implies m2.contains_key(x) by {
                if x != id {
                    assert(order1.contains(x));
                    assert(m1.contains_key(x));
                }
            }
            assert(self.hot() == order_after_put(settled.hot(), name_view, tier1_capacity(self.capacity) as nat));
            assert forall|n: Seq<Seq<u8>>| #[trigger]
                self.lookup(n) == if n == name_view {
                    Some(new_view)
                } else {
                    settled.lookup(n)
                } by {
                assert(lookup_in(m1, n) == settled.lookup(n));
            }
        }
    }

    /// The Data stored under `name`, unless the entry is past its time to
    /// live at `now`: such an entry is removed. A hit makes the entry the
    /// most recently used. See [`fetched`].
    pub fn get(&mut self, name: &Name, now: u64) -> (r: Option<Data>)
        requires
            old(self).wf(),
        ensures
            fetched(*old(self), *final(self), name@, now, r),
    {
        match self.find(name) {
            Some(found) => {
                let id = found.0;
                proof {
                    lemma_lookup_at(tier2_contents(self.map), id);
                }
                if now >= found.1 && now - found.1 > found.2 {
                    self.remove_at(id);
                    None
                } else {
                    match tier2_read(&self.map, id) {
                        Some(entry) => {
                            proof {
                                lemma_order_after_put(lru_order(self.lru), id, lru_cap(self.lru));
                                lemma_names_after_put(
                                    tier2_contents(self.map),
                                    lru_order(self.lru),
                                    id,
                                    lru_cap(self.lru),
                                );
                            }
                            lru_put(&mut self.lru, id);
                            assert(self.hot().last() == name@);
                            Some(entry.data)
                        },
                        None => None,
                    }
                }
            },
            None => None,
        }
    }

    /// The milliseconds that the entry for `name` has left at `now`; `None`
    /// where there is no entry or it is past its time to live.
    pub fn get_ttl(&self, name: &Name, now: u64) -> (r: Option<u64>)
        requires
            self.wf(),
        ensures
            match self.lookup(name@) {
                Some(e) => if expired(e, now) {
                    r is None
                } else {
                    r == Some(remaining(e, now) as u64)
                },
                None => r is None,
            },
    {
        match self.find(name) {
            Some(found) => {
                proof {
                    lemma_lookup_at(tier2_contents(self.map), found.0);
                }
                if now >= found.1 {
                    if now - found.1 > found.2 {
                        None
                    } else {
                        Some(found.2 - (now - found.1))
                    }
                } else {
                    Some(found.2)
                }
            },
            None => None,
        }
    }

    /// Removes the entries that are past their time to live at `now` and
    /// says how many they were.
    pub fn expire_old_entries(&mut self, now: u64) -> (r: usize)
        requires
            old(self).wf(),
        ensures
            final(self).wf(),
            final(self).capacity() == old(self).capacity(),
            final(self).ttl_default() == old(self).ttl_default(),
            final(self).ids_used() == old(self).ids_used(),
            r == old(self).size() - final(self).size(),
            forall|n: Seq<Seq<u8>>| #[trigger]
                final(self).lookup(n) == if old(self).lookup(n) is Some && !expired(old(self).lookup(n)->0, now) {
                    old(self).lookup(n)
                } else {
                    None
                },
    {
        let keys = tier2_keys(&self.map);
        let ghost m0 = tier2_contents(self.map);
        let total: usize = tier2_len(&self.map);
        let mut removed: usize = 0;
        let mut i: usize = 0;
        let nobody = Name::new();
        assert forall|j: int| 0 <= j < keys@.len() implies m0.contains_key(#[trigger] keys@[j]) by {
            assert(keys@.contains(keys@[j]));
        }
        while i < keys.len()
            invariant
                self.wf(),
                self.capacity == old(self).capacity,
                self.default_ttl == old(self).default_ttl,
                self.next_id == old(self).next_id,
                m0 == tier2_contents(old(self).map),
                unique(m0),
                0 <= i <= keys@.len(),
                keys@.no_duplicates(),
                forall|k: u64| keys@.contains(k) <==> m0.contains_key(k),
                total == m0.dom().len(),
                removed + tier2_contents(self.map).dom().len() == total,
                forall|k: u64| #[trigger]
                    tier2_contents(self.map).contains_key(k) ==> m0.contains_key(k) && tier2_contents(self.map)[k]
                        == m0[k],
                forall|j: int|
                    0 <= j < i ==> (tier2_contents(self.map).contains_key(#[trigger] keys@[j]) <==> !expired(
                        view_of(m0[keys@[j]]),
                        now,
                    )),
                forall|j: int| i <= j < keys@.len() ==> tier2_contents(self.map).contains_key(#[trigger] keys@[j]),
            decreases keys@.len() - i,
        {
            let k = keys[i];
            assert(keys@.contains(k));
            assert(tier2_contents(self.map).contains_key(keys@[i as int]));
            let late = match tier2_probe(&self.map, k, &nobody) {
                Some(p) => now >= p.1 && now - p.1 > p.2,
                None => false,
            };
            if late {
                self.remove_at(k);
                removed += 1;
            }
            proof {
                assert forall|j: int| 0 <= j < keys@.len() && j != i implies keys@[j] != k by {}
            }
            i += 1;
        }
        proof {
            let m = tier2_contents(self.map);
            assert forall|n: Seq<Seq<u8>>| #[trigger]
                self.lookup(n) == if old(self).lookup(n) is Some && !expired(old(self).lookup(n)->0, now) {
                    old(self).lookup(n)
                } else {
                    None
                } by {
                if holds(m, n) {
                    let k = choose|k: u64| m.contains_key(k) && (#[trigger] m[k]).name@ == n;
                    lemma_lookup_at(m, k);
                    assert(m0.contains_key(k) && m[k] == m0[k]);
                    lemma_lookup_at(m0, k);
                    assert(keys@.contains(k));
                    let j = choose|j: int| 0 <= j < keys@.len() && keys@[j] == k;
                    assert(m.contains_key(keys@[j]));
                } else if holds(m0, n) {
                    let k = choose|k: u64| m0.contains_key(k) && (#[trigger] m0[k]).name@ == n;
                    lemma_lookup_at(m0, k);
                    assert(keys@.contains(k));
                    let j = choose|j: int| 0 <= j < keys@.len() && keys@[j] == k;
                    if m.contains_key(k) {
                        assert(m[k] == m0[k]);
                        assert(m[k].name@ == n);
                    }
                    assert(!m.contains_key(keys@[j]));
                }
            }
        }
        removed
    }
}


fn order_is_empty(c: &lru::LruCache<u64, ()>) -> (r: bool)
    ensures
        r == (lru_order(*c).len() == 0),
{
    lru_len(c) == 0
}

/// The number of keys held, as `LruCache::len` gives it.
#[verifier::external_body]
fn lru_len(c: &lru::LruCache<u64, ()>) -> (r: usize)
    ensures
        r == lru_order(*c).len(),
{
    c.len()
}

/// What storing an entry does to a store.
///
/// A store of capacity zero stays empty. Otherwise the entry is held under
/// its name afterwards, in place of any held before, and is the most
/// recently used. Where the name is new and the store is full or can number
/// no more entries, exactly the [`ContentStore::victim`] leaves; in all
/// other cases every other entry stays. The store never holds more than its
/// capacity.
pub open spec fn stored(
    before: ContentStore,
    after: ContentStore,
    name: Seq<Seq<u8>>,
    data: DataView,
    ttl: u64,
    now: u64,
) -> bool {
    let entry = CachedView { data: data, created_at: now, ttl: ttl };
    let is_new = before.lookup(name) is None;
    &&& after.wf()
    &&& after.capacity() == before.capacity()
    &&& after.ttl_default() == before.ttl_default()
    &&& after.size() <= after.capacity()
    &&& after.ids_used() == if before.capacity() == 0 || !is_new {
        before.ids_used()
    } else if before.ids_left() {
        (before.ids_used() + 1) as u64
    } else if before.size() == 0 {
        1u64
    } else {
        before.ids_used()
    }
    &&& before.capacity() == 0 ==> after.size() == before.size() && after.hot() == before.hot() && forall|
        n: Seq<Seq<u8>>,
    | #[trigger] after.lookup(n) == before.lookup(n)
    &&& before.capacity() > 0 ==> after.hot().len() > 0 && after.hot().last() == name && after.hot()
        == order_after_put(
        if makes_room(before, name) && before.hot().len() > 0 {
            before.hot().skip(1)
        } else {
            before.hot()
        },
        name,
        tier1_capacity(before.capacity()) as nat,
    )
    &&& before.capacity() > 0 && !is_new ==> after.size() == before.size() && forall|n: Seq<Seq<u8>>| #[trigger]
        after.lookup(n) == if n == name {
            Some(entry)
        } else {
            before.lookup(n)
        }
    &&& before.capacity() > 0 && makes_room(before, name) ==> after.size() == before.size() && before.lookup(
        before.victim(),
    ) is Some && forall|n: Seq<Seq<u8>>| #[trigger]
        after.lookup(n) == if n == name {
            Some(entry)
        } else if n == before.victim() {
            None
        } else {
            before.lookup(n)
        }
    &&& before.capacity() > 0 && is_new && !makes_room(before, name) ==> after.size() == before.size() + 1
        && forall|n: Seq<Seq<u8>>| #[trigger]
        after.lookup(n) == if n == name {
            Some(entry)
        } else {
            before.lookup(n)
        }
}

/// Whether storing `name` makes the victim leave: the name is new, the store
/// holds something, and it is full or can number no more entries. In the
/// second case the new entry takes the victim's number.
pub open spec fn makes_room(before: ContentStore, name: Seq<Seq<u8>>) -> bool {
    before.lookup(name) is None && before.size() > 0 && (before.size() >= before.capacity() || !before.ids_left())
}

/// What looking a name up does to a store, and what it gives.
///
/// Where nothing is held under the name the result is `None` and nothing
/// changes. An entry past its time to live is removed and the result is
/// `None`. Any other entry is a hit: the result is its Data, every entry
/// stays, and the entry is the most recently used.
pub open spec fn fetched(
    before: ContentStore,
    after: ContentStore,
    name: Seq<Seq<u8>>,
    now: u64,
    r: Option<Data>,
) -> bool {
    &&& after.wf()
    &&& after.capacity() == before.capacity()
    &&& after.ttl_default() == before.ttl_default()
    &&& after.ids_used() == before.ids_used()
    &&& after.size() <= after.capacity()
    &&& match before.lookup(name) {
        None => r is None && after.size() == before.size() && after.hot() == before.hot() && forall|
            n: Seq<Seq<u8>>,
        | #[trigger] after.lookup(n) == before.lookup(n),
        Some(e) => if expired(e, now) {
            r is None && after.size() == before.size() - 1 && after.hot() == without(before.hot(), name)
                && forall|n: Seq<Seq<u8>>| #[trigger]
                after.lookup(n) == if n == name {
                    None
                } else {
                    before.lookup(n)
                }
        } else {
            r is Some && r->0@ == e.data && after.size() == before.size() && after.hot() == order_after_put(
                before.hot(),
                name,
                tier1_capacity(before.capacity()) as nat,
            ) && after.hot().len() > 0 && after.hot().last() == name && forall|n: Seq<Seq<u8>>| #[trigger]
                after.lookup(n) == before.lookup(n)
        },
    }
}

/// Content store capacity: a store that is in order holds no more entries
/// than its capacity, and every operation leaves it in order.
pub proof fn lemma_size_bounded(store: ContentStore)
    requires
        store.wf(),
    ensures
        store.size() <= store.capacity(),
{
}

/// The victim is the least recently used name of tier 1, where tier 1 is not
/// empty; and tier 1 is within its capacity.
pub proof fn lemma_victim_is_least_recent(store: ContentStore)
    requires
        store.wf(),
    ensures
        store.hot().len() > 0 ==> store.victim() == store.hot()[0],
        store.hot().len() <= tier1_capacity(store.capacity()),
{
}

/// Tier 1 is part of tier 2: every name in tier 1 is held by the store.
pub proof fn lemma_hot_is_held(store: ContentStore, k: int)
    requires
        store.wf(),
        0 <= k < store.hot().len(),
    ensures
        store.lookup(store.hot()[k]) is Some,
{
    let id = lru_order(store.lru)[k];
    assert(lru_order(store.lru).contains(id));
    lemma_lookup_at(tier2_contents(store.map), id);
}

/// Content store time to live: an entry is served at `now` exactly while no
/// more than its time to live has passed; away from the very instant at which
/// it runs out, that is exactly while less than its time to live has passed.
pub proof fn lemma_served_while_fresh(e: CachedView, now: u64)
    requires
        now >= e.created_at,
    ensures
        !expired(e, now) <==> now - e.created_at <= e.ttl,
        now - e.created_at != e.ttl ==> (!expired(e, now) <==> now - e.created_at < e.ttl),
{
}

} // verus!
