//! Laws the cache obeys, proved over the same map model that the
//! operations' contracts use.

use vstd::prelude::*;

verus! {

use vstd::set_lib::lemma_len_subset;
use vstd::set_lib::lemma_set_disjoint_lens;
use crate::cache::EntrySpec;
use crate::cache::after_get;
use crate::cache::expiry_at;
use crate::cache::live_part;
use crate::cache::lookup;

/// The keys of `m` whose entries are already stale at `now`: exactly the
/// keys a purge at `now` removes.
pub open spec fn expired_keys(m: Map<Seq<char>, EntrySpec>, now: u64) -> Set<Seq<char>> {
    m.dom().filter(|k: Seq<char>| now > m[k].expires_at)
}

/// A freshly inserted entry is found again: on any store, inserting `k`
/// with value `v` at instant `now` and looking `k` up at that same
/// instant yields `v`.
pub proof fn lemma_insert_then_get(
    m: Map<Seq<char>, EntrySpec>,
    k: Seq<char>,
    v: Seq<char>,
    ttl: u64,
    now: u64,
)
    requires
        ttl > 0,
    ensures
        lookup(m.insert(k, EntrySpec { value: v, expires_at: expiry_at(now, ttl) }), k, now)
            == Some(v),
        after_get(m.insert(k, EntrySpec { value: v, expires_at: expiry_at(now, ttl) }), k, now)
            == m.insert(k, EntrySpec { value: v, expires_at: expiry_at(now, ttl) }),
{
}

/// Overwrite semantics: inserting `k` a second time replaces the first
/// entry wholesale, so the store equals one where only the second
/// insertion ever happened, and a lookup of `k` at any instant reflects
/// only the second value and expiry.
pub proof fn lemma_overwrite(
    m: Map<Seq<char>, EntrySpec>,
    k: Seq<char>,
    e1: EntrySpec,
    e2: EntrySpec,
    q: u64,
)
    ensures
        m.insert(k, e1).insert(k, e2) == m.insert(k, e2),
        lookup(m.insert(k, e1).insert(k, e2), k, q) == lookup(m.insert(k, e2), k, q),
{
    assert(m.insert(k, e1).insert(k, e2) =~= m.insert(k, e2));
}

/// Expiry boundary: after inserting `k` at instant `now` with lifetime
/// `ttl`, a lookup of `k` at an instant no later than the expiry instant
/// yields the value, and a lookup strictly after it yields nothing. While
/// `now + ttl` does not overflow, the expiry instant is exactly `now + ttl`,
/// and the boundary is inclusive: the value is still returned there.
pub proof fn lemma_expiry_boundary(
    m: Map<Seq<char>, EntrySpec>,
    k: Seq<char>,
    v: Seq<char>,
    ttl: u64,
    now: u64,
    q: u64,
)
    ensures
        now + ttl <= u64::MAX ==> expiry_at(now, ttl) == now + ttl,
        q <= expiry_at(now, ttl) ==> lookup(
            m.insert(k, EntrySpec { value: v, expires_at: expiry_at(now, ttl) }),
            k,
            q,
        ) == Some(v),
        q > expiry_at(now, ttl) ==> lookup(
            m.insert(k, EntrySpec { value: v, expires_at: expiry_at(now, ttl) }),
            k,
            q,
        ) == None::<Seq<char>>,
{
}

/// Lazy removal: when a lookup of `k` at `now` finds the entry stale, it
/// returns nothing and leaves a store without `k`, holding one entry
/// fewer; the entries live at `now` are exactly those live before.
pub proof fn lemma_lazy_removal(m: Map<Seq<char>, EntrySpec>, k: Seq<char>, now: u64)
    requires
        m.dom().finite(),
        m.contains_key(k),
        now > m[k].expires_at,
    ensures
        lookup(m, k, now) == None::<Seq<char>>,
        after_get(m, k, now) == m.remove(k),
        !after_get(m, k, now).contains_key(k),
        after_get(m, k, now).dom().len() + 1 == m.dom().len(),
        live_part(after_get(m, k, now), now) == live_part(m, now),
{
    assert(live_part(m.remove(k), now) =~= live_part(m, now));
}

/// Purge correctness: on a store of finitely many entries, the purge at
/// `now` removes exactly the stale keys — the live count plus the stale
/// count is the whole count — and a lookup at `now` on what is left
/// returns exactly what it returned on the whole store: live entries stay
/// retrievable, stale and absent keys yield nothing either way.
pub proof fn lemma_purge_correctness(m: Map<Seq<char>, EntrySpec>, now: u64)
    requires
        m.dom().finite(),
    ensures
        live_part(m, now).dom().finite(),
        live_part(m, now).dom().len() + expired_keys(m, now).len() == m.dom().len(),
        forall|k: Seq<char>| lookup(live_part(m, now), k, now) == lookup(m, k, now),
{
    let live = live_part(m, now).dom();
    let expired = expired_keys(m, now);
    lemma_len_subset(live, m.dom());
    lemma_len_subset(expired, m.dom());
    assert(live.disjoint(expired));
    lemma_set_disjoint_lens(live, expired);
    assert(live + expired =~= m.dom());
}

/// Missing-key idempotence: a lookup of a key the store does not hold
/// returns nothing and leaves the store exactly as it was, however often
/// it is repeated and whatever the instant.
pub proof fn lemma_missing_key(m: Map<Seq<char>, EntrySpec>, k: Seq<char>, now: u64)
    requires
        !m.contains_key(k),
    ensures
        lookup(m, k, now) == None::<Seq<char>>,
        after_get(m, k, now) == m,
{
}

/// Zero lifetime: an entry inserted at instant `now` with lifetime 0
/// expires at `now` itself, so a lookup at any later instant yields
/// nothing and removes the entry on the spot.
pub proof fn lemma_zero_ttl(
    m: Map<Seq<char>, EntrySpec>,
    k: Seq<char>,
    v: Seq<char>,
    now: u64,
    q: u64,
)
    requires
        q > now,
    ensures
        expiry_at(now, 0) == now,
        lookup(m.insert(k, EntrySpec { value: v, expires_at: expiry_at(now, 0) }), k, q)
            == None::<Seq<char>>,
        after_get(m.insert(k, EntrySpec { value: v, expires_at: expiry_at(now, 0) }), k, q)
            == m.insert(k, EntrySpec { value: v, expires_at: expiry_at(now, 0) }).remove(k),
{
}

} // verus!
