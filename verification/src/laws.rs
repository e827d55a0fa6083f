//! Laws relating sequences of store operations.
//!
//! Each law is stated over the model predicates [`get_post`] and
//! [`put_post`] that the contracts of [`crate::Lru::get_at`] and
//! [`crate::Lru::put_at`] establish, so it applies to any run of the store:
//! each `mN` below is the model of the store between two calls.

use crate::store::expiry_time;
use crate::store::get_post;
use crate::store::put_post;
use vstd::prelude::*;

verus! {

/// Destructive read: once a write for `k` was admitted, a first lookup made
/// before the stored expiration instant returns the stored value, and a
/// second lookup — at any instant at all, however soon — returns nothing,
/// because the first lookup consumed the binding.
pub proof fn lemma_destructive_read<K, V>(
    m0: Map<K, (V, u64)>,
    m1: Map<K, (V, u64)>,
    m2: Map<K, (V, u64)>,
    m3: Map<K, (V, u64)>,
    capacity: usize,
    k: K,
    v: V,
    ttl_seconds: u64,
    now: u64,
    now1: u64,
    now2: u64,
    r1: Option<V>,
    r2: Option<V>,
)
    requires
        put_post(m0, m1, capacity, k, v, ttl_seconds, now, true),
        get_post(m1, m2, k, now1, r1),
        now1 < expiry_time(now, ttl_seconds),
        get_post(m2, m3, k, now2, r2),
    ensures
        r1 == Some(v),
        r2 == None::<V>,
{
    lemma_admitted_binding(m0, m1, capacity, k, v, ttl_seconds, now);
    assert(!m2.dom().contains(k));
}

/// Immediate expiry: a write admitted with a time-to-live of zero expires the
/// instant it is stored, so any lookup at or after the instant of the write
/// returns nothing.
pub proof fn lemma_zero_ttl_never_returned<K, V>(
    m0: Map<K, (V, u64)>,
    m1: Map<K, (V, u64)>,
    m2: Map<K, (V, u64)>,
    capacity: usize,
    k: K,
    v: V,
    now: u64,
    now1: u64,
    r: Option<V>,
)
    requires
        put_post(m0, m1, capacity, k, v, 0, now, true),
        now1 >= now,
        get_post(m1, m2, k, now1, r),
    ensures
        r == None::<V>,
{
    lemma_admitted_binding(m0, m1, capacity, k, v, 0, now);
    assert(expiry_time(now, 0) == now);
}

/// Positive expiry: a write admitted with a time-to-live of one second is
/// still returned by a lookup at the very instant of the write, and no
/// longer returned by a lookup any later than that instant. The two lookups
/// each start from the state the write left behind.
pub proof fn lemma_unit_ttl_expiry<K, V>(
    m0: Map<K, (V, u64)>,
    m1: Map<K, (V, u64)>,
    m_live: Map<K, (V, u64)>,
    m_late: Map<K, (V, u64)>,
    capacity: usize,
    k: K,
    v: V,
    now: u64,
    late: u64,
    r_now: Option<V>,
    r_late: Option<V>,
)
    requires
        now + 1 <= u64::MAX,
        put_post(m0, m1, capacity, k, v, 1, now, true),
        get_post(m1, m_live, k, now, r_now),
        get_post(m1, m_late, k, late, r_late),
        late > now,
    ensures
        r_now == Some(v),
        r_late == None::<V>,
{
    lemma_admitted_binding(m0, m1, capacity, k, v, 1, now);
    assert(expiry_time(now, 1) == now + 1);
}

/// Miss on an empty store: a lookup in the empty store returns nothing and
/// leaves the store empty, at every instant and for every key.
pub proof fn lemma_miss_on_empty<K, V>(m2: Map<K, (V, u64)>, k: K, now: u64, r: Option<V>)
    requires
        get_post(Map::<K, (V, u64)>::empty(), m2, k, now, r),
    ensures
        r == None::<V>,
        m2 == Map::<K, (V, u64)>::empty(),
{
    assert(Map::<K, (V, u64)>::empty().remove(k) =~= Map::<K, (V, u64)>::empty());
}

/// Idempotent absence: once `k` has no binding — never stored, consumed by a
/// lookup, or evicted — a lookup for `k` returns nothing and changes
/// nothing, so repeated lookups keep doing the same.
pub proof fn lemma_absent_stays_absent<K, V>(
    m: Map<K, (V, u64)>,
    m2: Map<K, (V, u64)>,
    k: K,
    now: u64,
    r: Option<V>,
)
    requires
        !m.dom().contains(k),
        get_post(m, m2, k, now, r),
    ensures
        r == None::<V>,
        m2 == m,
        !m2.dom().contains(k),
{
    assert(m.remove(k) =~= m);
}

/// An admitted write binds `k` to `v` with the expiration instant computed
/// from `now` and the time-to-live, whichever admission path was taken.
proof fn lemma_admitted_binding<K, V>(
    m0: Map<K, (V, u64)>,
    m1: Map<K, (V, u64)>,
    capacity: usize,
    k: K,
    v: V,
    ttl_seconds: u64,
    now: u64,
)
    requires
        put_post(m0, m1, capacity, k, v, ttl_seconds, now, true),
    ensures
        m1.dom().contains(k),
        m1[k] == (v, expiry_time(now, ttl_seconds)),
{
    if m0.len() < capacity {
    } else {
        let victim = choose|victim: K|
            #[trigger] m0.dom().contains(victim) && crate::store::is_expired_at(m0[victim].1, now)
                && m1 == m0.remove(victim).insert(k, (v, expiry_time(now, ttl_seconds)));
    }
}

} // verus!
