//! The bounded, expiring key-value store and its mathematical model.
//!
//! A [`Lru`] is modelled as a finite map from keys to pairs `(value,
//! expire_at)`, where `expire_at` is an absolute instant in whole seconds.
//! The exec container stores its entries in a vector of key/entry pairs whose
//! keys are pairwise distinct and whose length never exceeds the capacity.

use vstd::prelude::*;
use vstd::std_specs::cmp::PartialEqSpec;

verus! {

/// An entry is expired at `now` iff `now` has reached its expiration instant.
pub open spec fn is_expired_at(expire_at: u64, now: u64) -> bool {
    now >= expire_at
}

/// The expiration instant of an entry stored at `now` with time-to-live
/// `ttl_seconds`: their sum, saturating at the largest representable instant.
pub open spec fn expiry_time(now: u64, ttl_seconds: u64) -> u64 {
    if now + ttl_seconds <= u64::MAX {
        (now + ttl_seconds) as u64
    } else {
        u64::MAX
    }
}

/// Some key of `m` is bound to an entry that is expired at `now`.
pub open spec fn has_expired_entry<K, V>(m: Map<K, (V, u64)>, now: u64) -> bool {
    exists|k: K| #[trigger] m.dom().contains(k) && is_expired_at(m[k].1, now)
}

/// What a lookup at instant `now` does: the binding for `k`, if any, is
/// removed whatever its state, and the stored value is returned exactly when
/// the binding existed and had not yet expired.
pub open spec fn get_post<K, V>(
    pre: Map<K, (V, u64)>,
    post: Map<K, (V, u64)>,
    k: K,
    now: u64,
    result: Option<V>,
) -> bool {
    &&& post == pre.remove(k)
    &&& result == (if pre.dom().contains(k) && !is_expired_at(pre[k].1, now) {
        Some(pre[k].0)
    } else {
        None::<V>
    })
}

/// What a write at instant `now` does. Below capacity the new binding is
/// stored unconditionally, overwriting any previous binding for `k`. At full
/// capacity, some entry already expired at `now` — which one is not specified
/// — is evicted to make room; if none is expired the store is unchanged and
/// the write is rejected.
pub open spec fn put_post<K, V>(
    pre: Map<K, (V, u64)>,
    post: Map<K, (V, u64)>,
    capacity: usize,
    k: K,
    v: V,
    ttl_seconds: u64,
    now: u64,
    admitted: bool,
) -> bool {
    if pre.len() < capacity {
        &&& admitted
        &&& post == pre.insert(k, (v, expiry_time(now, ttl_seconds)))
    } else if has_expired_entry(pre, now) {
        &&& admitted
        &&& exists|victim: K|
            #[trigger] pre.dom().contains(victim) && is_expired_at(pre[victim].1, now) && post
                == pre.remove(victim).insert(k, (v, expiry_time(now, ttl_seconds)))
    } else {
        &&& !admitted
        &&& post == pre
    }
}

/// The exec equality test on `K` agrees with spec equality. This holds of the
/// primitive types (vstd ties their `==` to spec equality) and is what lets a
/// verified caller relate a key it searched for to a key in the model.
pub open spec fn key_eq_reflects<K: PartialEq>() -> bool {
    &&& K::obeys_eq_spec()
    &&& forall|a: K, b: K| #[trigger] a.eq_spec(&b) <==> a == b
}

/// One stored value together with its absolute expiration instant.
pub struct Entry<V> {
    value: V,
    expire_at: u64,
}

impl<V> Entry<V> {
    /// The cached payload.
    pub closed spec fn spec_value(self) -> V {
        self.value
    }

    /// The absolute instant, in seconds, at which this entry expires.
    pub closed spec fn spec_expire_at(self) -> u64 {
        self.expire_at
    }

    /// Whether this entry is expired at the instant `now`.
    pub fn is_expired(&self, now: u64) -> (expired: bool)
        ensures
            expired == is_expired_at(self.spec_expire_at(), now),
    {
        now >= self.expire_at
    }
}

/// A bounded key-value store with per-entry expiration. Reads are
/// destructive, and writes at full capacity succeed only by evicting an
/// already-expired entry.
pub struct Lru<K, V> {
    capacity: usize,
    entries: Vec<(K, Entry<V>)>,
}

/// The map described by a sequence of key/entry pairs: each pair contributes
/// its key, bound to the entry's value and expiration instant. Later pairs
/// win, though the store only ever holds pairwise-distinct keys.
pub closed spec fn map_of<K, V>(s: Seq<(K, Entry<V>)>) -> Map<K, (V, u64)>
    decreases s.len(),
{
    if s.len() == 0 {
        Map::empty()
    } else {
        map_of(s.drop_last()).insert(s.last().0, (s.last().1.value, s.last().1.expire_at))
    }
}

/// The keys of a sequence of key/entry pairs are pairwise distinct.
pub open spec fn keys_distinct<K, V>(s: Seq<(K, Entry<V>)>) -> bool {
    forall|i: int, j: int|
        0 <= i < s.len() && 0 <= j < s.len() && i != j ==> s[i].0 != s[j].0
}

impl<Key, Value> View for Lru<Key, Value> {
    type V = Map<Key, (Value, u64)>;

    closed spec fn view(&self) -> Map<Key, (Value, u64)> {
        map_of(self.entries@)
    }
}

impl<K, V> Lru<K, V> {
    /// The fixed capacity chosen at construction.
    pub closed spec fn spec_capacity(&self) -> usize {
        self.capacity
    }

    /// Well-formedness: the stored keys are pairwise distinct and the number
    /// of entries never exceeds the capacity. Constructed stores satisfy this
    /// and every operation preserves it.
    pub closed spec fn wf(&self) -> bool {
        &&& keys_distinct(self.entries@)
        &&& self.entries@.len() <= self.capacity
    }
}

impl<K, V> Lru<K, V> where K: core::hash::Hash + Eq + Clone, V: Clone {
    /// Constructs an empty store that will never hold more than `capacity`
    /// entries at once.
    pub fn new(capacity: usize) -> (store: Self)
        ensures
            store.wf(),
            store.spec_capacity() == capacity,
            store@ == Map::<K, (V, u64)>::empty(),
    {
        Lru { capacity, entries: Vec::new() }
    }

    /// The number of entries currently held.
    pub fn len(&self) -> (n: usize)
        requires
            self.wf(),
        ensures
            n == self@.len(),
    {
        proof {
            lemma_map_of_props(self.entries@);
        }
        self.entries.len()
    }

    /// The fixed capacity chosen at construction.
    pub fn capacity(&self) -> (c: usize)
        ensures
            c == self.spec_capacity(),
    {
        self.capacity
    }

    /// The index of the pair holding `k`, if one is stored.
    fn index_of(&self, k: &K) -> (found: Option<usize>)
        requires
            key_eq_reflects::<K>(),
        ensures
            match found {
                Some(i) => i < self.entries@.len() && self.entries@[i as int].0 == *k,
                None => forall|j: int| 0 <= j < self.entries@.len() ==> self.entries@[j].0 != *k,
            },
    {
        let n = self.entries.len();
        let mut i: usize = 0;
        while i < n
            invariant
                key_eq_reflects::<K>(),
                n == self.entries@.len(),
                i <= n,
                forall|j: int| 0 <= j < i ==> self.entries@[j].0 != *k,
            decreases n - i,
        {
            if self.entries[i].0 == *k {
                return Some(i);
            }
            i = i + 1;
        }
        None
    }

    /// The index of some pair whose entry is expired at `now`, if one is
    /// stored.
    fn find_expired(&self, now: u64) -> (found: Option<usize>)
        ensures
            match found {
                Some(i) => i < self.entries@.len() && is_expired_at(
                    self.entries@[i as int].1.spec_expire_at(),
                    now,
                ),
                None => forall|j: int|
                    0 <= j < self.entries@.len() ==> !is_expired_at(
                        self.entries@[j].1.spec_expire_at(),
                        now,
                    ),
            },
    {
        let n = self.entries.len();
        let mut i: usize = 0;
        while i < n
            invariant
                n == self.entries@.len(),
                i <= n,
                forall|j: int|
                    0 <= j < i ==> !is_expired_at(self.entries@[j].1.spec_expire_at(), now),
            decreases n - i,
        {
            if self.entries[i].1.is_expired(now) {
                return Some(i);
            }
            i = i + 1;
        }
        None
    }

    /// Stores the binding `k -> (v, expire_at)`, replacing any pair already
    /// holding `k`.
    fn insert_entry(&mut self, k: K, v: V, expire_at: u64)
        requires
            key_eq_reflects::<K>(),
            keys_distinct(old(self).entries@),
        ensures
            keys_distinct(final(self).entries@),
            final(self).spec_capacity() == old(self).spec_capacity(),
            final(self)@ == old(self)@.insert(k, (v, expire_at)),
            old(self)@.dom().contains(k) ==> final(self).entries@.len() == old(
                self,
            ).entries@.len(),
            !old(self)@.dom().contains(k) ==> final(self).entries@.len() == old(
                self,
            ).entries@.len() + 1,
    {
        proof {
            lemma_map_of_props(self.entries@);
        }
        let entry = Entry { value: v, expire_at };
        match self.index_of(&k) {
            Some(i) => {
                proof {
                    lemma_map_of_remove(self.entries@, i as int);
                }
                self.entries.remove(i);
                proof {
                    lemma_map_of_push(self.entries@, k, entry);
                    assert(old(self)@.remove(k).insert(k, (v, expire_at)) =~= old(self)@.insert(
                        k,
                        (v, expire_at),
                    ));
                }
                self.entries.push((k, entry));
            }
            None => {
                proof {
                    lemma_map_of_push(self.entries@, k, entry);
                }
                self.entries.push((k, entry));
            }
        }
    }

    /// Destructive lookup at the instant `now`: whatever the outcome, the
    /// binding for `k`, if present, is removed. The stored value is returned
    /// exactly when the binding was present and not yet expired at `now`.
    pub fn get_at(&mut self, k: &K, now: u64) -> (result: Option<V>)
        requires
            key_eq_reflects::<K>(),
            old(self).wf(),
        ensures
            final(self).wf(),
            final(self).spec_capacity() == old(self).spec_capacity(),
            final(self)@.len() <= final(self).spec_capacity(),
            get_post(old(self)@, final(self)@, *k, now, result),
    {
        proof {
            lemma_map_of_props(self.entries@);
        }
        match self.index_of(k) {
            Some(i) => {
                proof {
                    lemma_map_of_remove(self.entries@, i as int);
                    lemma_map_of_props(self.entries@.remove(i as int));
                }
                let pair = self.entries.remove(i);
                let entry = pair.1;
                if now >= entry.expire_at {
                    None
                } else {
                    Some(entry.value)
                }
            }
            None => {
                proof {
                    assert(old(self)@.remove(*k) =~= old(self)@);
                }
                None
            }
        }
    }

    /// Attempts to admit the binding `k -> v` with time-to-live `ttl_seconds`
    /// counted from the instant `now`. Below capacity the write always
    /// succeeds; at full capacity it succeeds only by evicting some entry
    /// already expired at `now`, and otherwise leaves the store unchanged.
    pub fn put_at(&mut self, k: K, v: V, ttl_seconds: u64, now: u64) -> (admitted: bool)
        requires
            key_eq_reflects::<K>(),
            old(self).wf(),
        ensures
            final(self).wf(),
            final(self).spec_capacity() == old(self).spec_capacity(),
            final(self)@.len() <= final(self).spec_capacity(),
            put_post(
                old(self)@,
                final(self)@,
                old(self).spec_capacity(),
                k,
                v,
                ttl_seconds,
                now,
                admitted,
            ),
    {
        proof {
            lemma_map_of_props(self.entries@);
        }
        let expire_at = if ttl_seconds <= u64::MAX - now {
            now + ttl_seconds
        } else {
            u64::MAX
        };
        assert(expire_at == expiry_time(now, ttl_seconds));
        if self.entries.len() == self.capacity {
            match self.find_expired(now) {
                Some(j) => {
                    let ghost pre = self@;
                    proof {
                        lemma_map_of_remove(self.entries@, j as int);
                        lemma_map_of_props(self.entries@.remove(j as int));
                    }
                    let victim = self.entries.remove(j);
                    proof {
                        assert(pre.dom().contains(victim.0) && is_expired_at(
                            pre[victim.0].1,
                            now,
                        ));
                    }
                    self.insert_entry(k, v, expire_at);
                    proof {
                        assert(pre.dom().contains(victim.0) && is_expired_at(pre[victim.0].1, now)
                            && self@ == pre.remove(victim.0).insert(
                            k,
                            (v, expiry_time(now, ttl_seconds)),
                        ));
                    }
                    true
                }
                None => {
                    proof {
                        assert(!has_expired_entry(self@, now)) by {
                            if has_expired_entry(self@, now) {
                                let k2 = choose|k2: K|
                                    #[trigger] self@.dom().contains(k2) && is_expired_at(
                                        self@[k2].1,
                                        now,
                                    );
                                let i = choose|i: int|
                                    0 <= i < self.entries@.len() && self.entries@[i].0 == k2;
                                assert(self@[self.entries@[i].0] == (
                                    self.entries@[i].1.spec_value(),
                                    self.entries@[i].1.spec_expire_at(),
                                ));
                            }
                        }
                    }
                    false
                }
            }
        } else {
            self.insert_entry(k, v, expire_at);
            true
        }
    }

    /// Destructive lookup against the wall clock: reads the current time once
    /// and behaves as [`Lru::get_at`] at that instant. Since the clock is
    /// ambient, only the time-independent part of the outcome is promised:
    /// the binding for `k`, if present, is removed, and a value is returned
    /// only if it was stored under `k`.
    pub fn get(&mut self, k: &K) -> (result: Option<V>)
        requires
            key_eq_reflects::<K>(),
            old(self).wf(),
        ensures
            final(self).wf(),
            final(self).spec_capacity() == old(self).spec_capacity(),
            final(self)@ == old(self)@.remove(*k),
            final(self)@.len() <= final(self).spec_capacity(),
            !old(self)@.dom().contains(*k) ==> final(self)@ == old(self)@ && result is None,
            result is Some ==> old(self)@.dom().contains(*k) && result == Some(old(self)@[*k].0),
            exists|now: u64| get_post(old(self)@, final(self)@, *k, now, result),
    {
        let now = crate::clock::timestamp();
        let result = self.get_at(k, now);
        proof {
            assert(get_post(old(self)@, self@, *k, now, result));
            if !old(self)@.dom().contains(*k) {
                assert(old(self)@.remove(*k) =~= old(self)@);
            }
        }
        result
    }

    /// Write against the wall clock: reads the current time once and behaves
    /// as [`Lru::put_at`] at that instant. Since the clock is ambient, only
    /// the time-independent part of the outcome is promised: below capacity
    /// the write succeeds, a rejected write leaves the store unchanged, and
    /// an admitted write stores `v` under `k`.
    pub fn put(&mut self, k: K, v: V, ttl_seconds: u64) -> (admitted: bool)
        requires
            key_eq_reflects::<K>(),
            old(self).wf(),
        ensures
            final(self).wf(),
            final(self).spec_capacity() == old(self).spec_capacity(),
            final(self)@.len() <= final(self).spec_capacity(),
            old(self)@.len() < old(self).spec_capacity() ==> admitted,
            admitted ==> final(self)@.dom().contains(k) && final(self)@[k].0 == v,
            !admitted ==> final(self)@ == old(self)@ && old(self)@.len() >= old(
                self,
            ).spec_capacity(),
            exists|now: u64|
                put_post(
                    old(self)@,
                    final(self)@,
                    old(self).spec_capacity(),
                    k,
                    v,
                    ttl_seconds,
                    now,
                    admitted,
                ),
    {
        let now = crate::clock::timestamp();
        let admitted = self.put_at(k, v, ttl_seconds, now);
        proof {
            assert(put_post(
                old(self)@,
                self@,
                old(self).spec_capacity(),
                k,
                v,
                ttl_seconds,
                now,
                admitted,
            ));
        }
        admitted
    }
}

/// With pairwise-distinct keys, the map described by a sequence of key/entry
/// pairs is finite, has one binding per pair, and binds each stored key to
/// the value and expiration instant stored beside it.
pub proof fn lemma_map_of_props<K, V>(s: Seq<(K, Entry<V>)>)
    requires
        keys_distinct(s),
    ensures
        map_of(s).dom().finite(),
        map_of(s).len() == s.len(),
        forall|k: K|
            map_of(s).dom().contains(k) <==> exists|i: int| 0 <= i < s.len() && s[i].0 == k,
        forall|i: int|
            0 <= i < s.len() ==> map_of(s).dom().contains(#[trigger] s[i].0) && map_of(s)[s[i].0]
                == (s[i].1.spec_value(), s[i].1.spec_expire_at()),
    decreases s.len(),
{
    if s.len() == 0 {
    } else {
        let butlast = s.drop_last();
        assert(keys_distinct(butlast));
        lemma_map_of_props(butlast);
        let m0 = map_of(butlast);
        let last = s.last();
        // The last key is fresh: it differs from every earlier key.
        assert(!m0.dom().contains(last.0)) by {
            if m0.dom().contains(last.0) {
                let i = choose|i: int| 0 <= i < butlast.len() && butlast[i].0 == last.0;
                assert(s[i].0 == s[s.len() - 1].0);
            }
        }
        assert(map_of(s) == m0.insert(last.0, (last.1.value, last.1.expire_at)));
        vstd::map::axiom_map_insert_domain(m0, last.0, (last.1.value, last.1.expire_at));
        vstd::set::axiom_set_insert_finite(m0.dom(), last.0);
        vstd::set::axiom_set_insert_len(m0.dom(), last.0);
        assert(map_of(s).len() == s.len());
        assert forall|k: K| map_of(s).dom().contains(k) implies exists|i: int|
            0 <= i < s.len() && s[i].0 == k by {
            if k == last.0 {
                assert(s[s.len() - 1].0 == k);
            } else {
                let i = choose|i: int| 0 <= i < butlast.len() && butlast[i].0 == k;
                assert(s[i].0 == k);
            }
        }
        assert forall|k: K| (exists|i: int| 0 <= i < s.len() && s[i].0 == k) implies map_of(
            s,
        ).dom().contains(k) by {
            let i = choose|i: int| 0 <= i < s.len() && s[i].0 == k;
            if i < s.len() - 1 {
                assert(butlast[i].0 == k);
            }
        }
        assert forall|i: int| 0 <= i < s.len() implies map_of(s).dom().contains(
            #[trigger] s[i].0,
        ) && map_of(s)[s[i].0] == (s[i].1.spec_value(), s[i].1.spec_expire_at()) by {
            if i < s.len() - 1 {
                assert(butlast[i].0 == s[i].0 && butlast[i].1 == s[i].1);
                assert(s[i].0 != last.0);
            }
        }
    }
}

/// Appending a pair with a fresh key adds exactly its binding to the map and
/// keeps the keys pairwise distinct.
proof fn lemma_map_of_push<K, V>(s: Seq<(K, Entry<V>)>, k: K, e: Entry<V>)
    requires
        keys_distinct(s),
        forall|j: int| 0 <= j < s.len() ==> s[j].0 != k,
    ensures
        keys_distinct(s.push((k, e))),
        map_of(s.push((k, e))) == map_of(s).insert(k, (e.spec_value(), e.spec_expire_at())),
{
    let s2 = s.push((k, e));
    assert(s2.drop_last() =~= s);
    assert(s2.last() == (k, e));
    assert(map_of(s2) == map_of(s).insert(k, (e.spec_value(), e.spec_expire_at())));
    assert forall|i: int, j: int|
        0 <= i < s2.len() && 0 <= j < s2.len() && i != j implies s2[i].0 != s2[j].0 by {
        if i < s.len() && j < s.len() {
            assert(s[i].0 != s[j].0);
        }
    }
}

/// Removing the pair at index `i` removes exactly the binding of its key from
/// the map and keeps the keys pairwise distinct.
proof fn lemma_map_of_remove<K, V>(s: Seq<(K, Entry<V>)>, i: int)
    requires
        keys_distinct(s),
        0 <= i < s.len(),
    ensures
        keys_distinct(s.remove(i)),
        map_of(s.remove(i)) == map_of(s).remove(s[i].0),
{
    let s1 = s.remove(i);
    s.remove_ensures(i);
    assert forall|p: int, q: int|
        0 <= p < s1.len() && 0 <= q < s1.len() && p != q implies s1[p].0 != s1[q].0 by {
        let p0 = if p < i { p } else { p + 1 };
        let q0 = if q < i { q } else { q + 1 };
        assert(s1[p] == s[p0] && s1[q] == s[q0]);
        assert(s[p0].0 != s[q0].0);
    }
    lemma_map_of_props(s);
    lemma_map_of_props(s1);
    let m = map_of(s);
    let m1 = map_of(s1);
    assert forall|x: K| m1.dom().contains(x) implies m.remove(s[i].0).dom().contains(x) by {
        let j = choose|j: int| 0 <= j < s1.len() && s1[j].0 == x;
        let j0 = if j < i { j } else { j + 1 };
        assert(s1[j] == s[j0]);
        assert(s[j0].0 == x);
        assert(s[j0].0 != s[i].0);
    }
    assert forall|x: K| m.remove(s[i].0).dom().contains(x) implies m1.dom().contains(x) by {
        let j0 = choose|j0: int| 0 <= j0 < s.len() && s[j0].0 == x;
        assert(j0 != i);
        let j = if j0 < i { j0 } else { j0 - 1 };
        assert(s1[j] == s[j0]);
    }
    assert forall|x: K| m1.dom().contains(x) implies m1[x] == m.remove(s[i].0)[x] by {
        let j = choose|j: int| 0 <= j < s1.len() && s1[j].0 == x;
        let j0 = if j < i { j } else { j + 1 };
        assert(s1[j] == s[j0]);
        assert(m1[x] == (s1[j].1.spec_value(), s1[j].1.spec_expire_at()));
        assert(m[s[j0].0] == (s[j0].1.spec_value(), s[j0].1.spec_expire_at()));
        assert(s[j0].0 != s[i].0);
    }
    assert(m1 =~= m.remove(s[i].0));
}

} // verus!
