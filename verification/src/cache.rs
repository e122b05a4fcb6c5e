//! The cache itself: entries, the map model, and the three operations
//! (insert, expiry-aware lookup, bulk purge).

use vstd::prelude::*;

verus! {

use vstd::pervasive::VecAdditionalExecFns;

/// One stored value together with the absolute instant, in milliseconds,
/// after which it is stale. The expiry is fixed at creation; re-inserting
/// a key replaces the whole entry.
#[derive(Clone)]
pub struct CacheEntry {
    pub value: String,
    pub expires_at: u64,
}

/// The mathematical image of an entry: the stored character sequence and
/// the instant after which it is stale.
pub ghost struct EntrySpec {
    pub value: Seq<char>,
    pub expires_at: u64,
}

impl View for CacheEntry {
    type V = EntrySpec;

    open spec fn view(&self) -> EntrySpec {
        EntrySpec { value: self.value@, expires_at: self.expires_at }
    }
}

/// The expiry instant of an entry inserted at `now` with lifetime `ttl`:
/// `now + ttl`, saturating at the end of the time axis (an entry whose
/// expiry would overflow simply never expires).
pub open spec fn expiry_at(now: u64, ttl: u64) -> u64 {
    if now + ttl <= u64::MAX {
        (now + ttl) as u64
    } else {
        u64::MAX
    }
}

/// What a lookup of `k` at instant `now` returns on the map `m`: the stored
/// value while the entry is live (the boundary is inclusive: an entry is
/// still live exactly at its expiry instant), nothing when the key is
/// absent or the entry is stale.
pub open spec fn lookup(m: Map<Seq<char>, EntrySpec>, k: Seq<char>, now: u64) -> Option<Seq<char>> {
    if m.contains_key(k) && now <= m[k].expires_at {
        Some(m[k].value)
    } else {
        None
    }
}

/// The store after a lookup of `k` at instant `now`: a stale entry found
/// by the lookup is removed on the spot; otherwise nothing changes.
pub open spec fn after_get(m: Map<Seq<char>, EntrySpec>, k: Seq<char>, now: u64) -> Map<
    Seq<char>,
    EntrySpec,
> {
    if m.contains_key(k) && now > m[k].expires_at {
        m.remove(k)
    } else {
        m
    }
}

/// The sub-map of `m` holding exactly the entries still live at `now`.
pub open spec fn live_part(m: Map<Seq<char>, EntrySpec>, now: u64) -> Map<Seq<char>, EntrySpec> {
    Map::new(|k: Seq<char>| m.contains_key(k) && now <= m[k].expires_at, |k: Seq<char>| m[k])
}

/// The view of an optional owned string as an optional character sequence.
pub open spec fn view_opt(o: Option<String>) -> Option<Seq<char>> {
    match o {
        Some(s) => Some(s@),
        None => None,
    }
}

/// No two slots of the backing sequence hold the same key.
pub open spec fn keys_distinct(s: Seq<(String, CacheEntry)>) -> bool {
    forall|i: int, j: int| 0 <= i < j < s.len() ==> s[i].0@ != s[j].0@
}

/// The map that a backing sequence of key/entry pairs denotes.
pub closed spec fn map_of(s: Seq<(String, CacheEntry)>) -> Map<Seq<char>, EntrySpec>
    decreases s.len(),
{
    if s.len() == 0 {
        Map::empty()
    } else {
        map_of(s.drop_last()).insert(s.last().0@, s.last().1@)
    }
}

proof fn lemma_map_of_contains(s: Seq<(String, CacheEntry)>, k: Seq<char>)
    ensures
        map_of(s).contains_key(k) <==> (exists|i: int| 0 <= i < s.len() && s[i].0@ == k),
    decreases s.len(),
{
    if s.len() > 0 {
        let sub = s.drop_last();
        lemma_map_of_contains(sub, k);
        if s.last().0@ == k {
            assert(s[s.len() - 1].0@ == k);
        } else {
            if exists|i: int| 0 <= i < s.len() && s[i].0@ == k {
                let i = choose|i: int| 0 <= i < s.len() && s[i].0@ == k;
                assert(sub[i].0@ == k);
            }
            if exists|i: int| 0 <= i < sub.len() && sub[i].0@ == k {
                let i = choose|i: int| 0 <= i < sub.len() && sub[i].0@ == k;
                assert(s[i].0@ == k);
            }
        }
    }
}

proof fn lemma_map_of_index(s: Seq<(String, CacheEntry)>, i: int)
    requires
        keys_distinct(s),
        0 <= i < s.len(),
    ensures
        map_of(s).contains_key(s[i].0@),
        map_of(s)[s[i].0@] == s[i].1@,
    decreases s.len(),
{
    if i < s.len() - 1 {
        let sub = s.drop_last();
        assert(keys_distinct(sub));
        lemma_map_of_index(sub, i);
        assert(s[i].0@ != s.last().0@);
    }
}

proof fn lemma_map_of_len(s: Seq<(String, CacheEntry)>)
    requires
        keys_distinct(s),
    ensures
        map_of(s).dom().finite(),
        map_of(s).dom().len() == s.len(),
    decreases s.len(),
{
    if s.len() > 0 {
        let sub = s.drop_last();
        assert(keys_distinct(sub));
        lemma_map_of_len(sub);
        lemma_map_of_contains(sub, s.last().0@);
    }
}

proof fn lemma_map_of_update(s: Seq<(String, CacheEntry)>, i: int, p: (String, CacheEntry))
    requires
        keys_distinct(s),
        0 <= i < s.len(),
        p.0@ == s[i].0@,
    ensures
        keys_distinct(s.update(i, p)),
        map_of(s.update(i, p)) == map_of(s).insert(p.0@, p.1@),
    decreases s.len(),
{
    let t = s.update(i, p);
    assert forall|x: int, y: int| 0 <= x < y < t.len() implies t[x].0@ != t[y].0@ by {
        assert(s[x].0@ != s[y].0@);
    }
    if i == s.len() - 1 {
        assert(t.drop_last() =~= s.drop_last());
        assert(map_of(s).insert(p.0@, p.1@) =~= map_of(s.drop_last()).insert(p.0@, p.1@));
    } else {
        let sub = s.drop_last();
        assert(keys_distinct(sub));
        lemma_map_of_update(sub, i, p);
        assert(t.drop_last() =~= sub.update(i, p));
        assert(t.last() == s.last());
        assert(p.0@ != s.last().0@);
        assert(map_of(sub).insert(p.0@, p.1@).insert(s.last().0@, s.last().1@) =~= map_of(
            sub,
        ).insert(s.last().0@, s.last().1@).insert(p.0@, p.1@));
    }
}

proof fn lemma_map_of_remove(s: Seq<(String, CacheEntry)>, i: int)
    requires
        keys_distinct(s),
        0 <= i < s.len(),
    ensures
        keys_distinct(s.remove(i)),
        map_of(s.remove(i)) == map_of(s).remove(s[i].0@),
    decreases s.len(),
{
    let t = s.remove(i);
    assert forall|x: int, y: int| 0 <= x < y < t.len() implies t[x].0@ != t[y].0@ by {
        let sx: int = if x < i {
            x
        } else {
            x + 1
        };
        let sy: int = if y < i {
            y
        } else {
            y + 1
        };
        assert(t[x] == s[sx]);
        assert(t[y] == s[sy]);
        assert(s[sx].0@ != s[sy].0@);
    }
    if i == s.len() - 1 {
        assert(t =~= s.drop_last());
        lemma_map_of_contains(s.drop_last(), s[i].0@);
        assert(map_of(s.drop_last()) =~= map_of(s.drop_last()).insert(s[i].0@, s[i].1@).remove(
            s[i].0@,
        ));
    } else {
        let sub = s.drop_last();
        assert(keys_distinct(sub));
        lemma_map_of_remove(sub, i);
        assert(t.drop_last() =~= sub.remove(i));
        assert(t.last() == s.last());
        assert(s[i].0@ != s.last().0@);
        assert(map_of(sub).remove(s[i].0@).insert(s.last().0@, s.last().1@) =~= map_of(sub).insert(
            s.last().0@,
            s.last().1@,
        ).remove(s[i].0@));
    }
}

proof fn lemma_map_of_all_live(s: Seq<(String, CacheEntry)>, now: u64)
    requires
        keys_distinct(s),
        forall|i: int| 0 <= i < s.len() ==> now <= s[i].1@.expires_at,
    ensures
        map_of(s) == live_part(map_of(s), now),
{
    let m = map_of(s);
    assert forall|k: Seq<char>| m.contains_key(k) implies now <= m[k].expires_at by {
        lemma_map_of_contains(s, k);
        let i = choose|i: int| 0 <= i < s.len() && s[i].0@ == k;
        lemma_map_of_index(s, i);
    }
    assert(m =~= live_part(m, now));
}

proof fn lemma_live_part_remove_expired(m: Map<Seq<char>, EntrySpec>, k: Seq<char>, now: u64)
    requires
        m.contains_key(k),
        now > m[k].expires_at,
    ensures
        live_part(m.remove(k), now) == live_part(m, now),
{
    assert(live_part(m.remove(k), now) =~= live_part(m, now));
}

/// Relies on std's `SystemTime::now` and `duration_since` against
/// `UNIX_EPOCH`: the wall clock's current instant, in milliseconds since
/// the Unix epoch (0 should the clock read earlier than the epoch).
/// Nothing is promised of the value: every caller states what holds
/// whatever instant comes back.
#[verifier::external_body]
fn now_millis() -> u64 {
    match std::time::SystemTime::now().duration_since(std::time::UNIX_EPOCH) {
        Ok(d) => d.as_millis() as u64,
        Err(_) => 0,
    }
}

/// An associative store from string keys to string values, each entry
/// tagged with an absolute expiry instant. A key is unique: inserting it
/// again replaces its entry wholesale. Expired entries are removed lazily
/// by `get` or in bulk by `purge_expired`; there is no background sweep.
pub struct TtlCache {
    entries: Vec<(String, CacheEntry)>,
}

impl View for TtlCache {
    type V = Map<Seq<char>, EntrySpec>;

    closed spec fn view(&self) -> Map<Seq<char>, EntrySpec> {
        map_of(self.entries@)
    }
}

impl TtlCache {
    /// The cache's internal invariant: its slots hold pairwise distinct keys.
    pub closed spec fn wf(&self) -> bool {
        keys_distinct(self.entries@)
    }

    /// Produces an empty cache.
    pub fn new() -> (r: TtlCache)
        ensures
            r.wf(),
            r@ == Map::<Seq<char>, EntrySpec>::empty(),
    {
        TtlCache { entries: Vec::new() }
    }

    /// The slot holding `key`, if any.
    fn find_index(&self, key: &String) -> (r: Option<usize>)
        ensures
            match r {
                Some(i) => i < self.entries@.len() && self.entries@[i as int].0@ == key@,
                None => forall|j: int| 0 <= j < self.entries@.len() ==> self.entries@[j].0@ != key@,
            },
    {
        let mut i: usize = 0;
        while i < self.entries.len()
            invariant
                i <= self.entries@.len(),
                forall|j: int| 0 <= j < i ==> self.entries@[j].0@ != key@,
            decreases self.entries@.len() - i,
        {
            if self.entries[i].0 == *key {
                return Some(i);
            }
            i = i + 1;
        }
        None
    }

    /// Stores `value` under `key` with expiry instant `now + ttl`
    /// (saturating), replacing any prior entry for `key` wholesale.
    pub fn insert_at(&mut self, key: String, value: String, ttl: u64, now: u64)
        requires
            old(self).wf(),
        ensures
            final(self).wf(),
            final(self)@ == old(self)@.insert(
                key@,
                EntrySpec { value: value@, expires_at: expiry_at(now, ttl) },
            ),
    {
        let expires_at: u64 = if now <= u64::MAX - ttl {
            now + ttl
        } else {
            u64::MAX
        };
        let entry = CacheEntry { value, expires_at };
        let ghost s0 = self.entries@;
        match self.find_index(&key) {
            Some(i) => {
                self.entries.set(i, (key, entry));
                proof {
                    lemma_map_of_update(s0, i as int, self.entries@[i as int]);
                }
            },
            None => {
                self.entries.push((key, entry));
                proof {
                    assert(self.entries@.drop_last() =~= s0);
                    assert forall|x: int, y: int|
                        0 <= x < y < self.entries@.len() implies self.entries@[x].0@
                        != self.entries@[y].0@ by {
                        if y < self.entries@.len() - 1 {
                            assert(s0[x].0@ != s0[y].0@);
                        } else {
                            assert(s0[x].0@ != self.entries@[y].0@);
                        }
                    }
                }
            },
        }
    }

    /// Looks `key` up at instant `now`. A live entry's value is returned
    /// as a copy and the entry is left untouched; a stale entry is removed
    /// on the spot and nothing is returned; an absent key returns nothing
    /// and changes nothing.
    pub fn get_at(&mut self, key: &str, now: u64) -> (r: Option<String>)
        requires
            old(self).wf(),
        ensures
            final(self).wf(),
            view_opt(r) == lookup(old(self)@, key@, now),
            final(self)@ == after_get(old(self)@, key@, now),
    {
        let k: String = key.to_owned();
        match self.find_index(&k) {
            None => {
                proof {
                    lemma_map_of_contains(self.entries@, k@);
                }
                None
            },
            Some(i) => {
                proof {
                    lemma_map_of_index(self.entries@, i as int);
                }
                if now <= self.entries[i].1.expires_at {
                    Some(self.entries[i].1.value.clone())
                } else {
                    proof {
                        lemma_map_of_remove(self.entries@, i as int);
                    }
                    self.entries.remove(i);
                    None
                }
            },
        }
    }

    /// Removes every entry already stale at instant `now` and returns how
    /// many were removed; the entries still live at `now` are kept as they
    /// are.
    pub fn purge_expired_at(&mut self, now: u64) -> (r: usize)
        requires
            old(self).wf(),
        ensures
            final(self).wf(),
            final(self)@ == live_part(old(self)@, now),
            final(self)@.dom().finite(),
            r + final(self)@.dom().len() == old(self)@.dom().len(),
    {
        proof {
            lemma_map_of_len(self.entries@);
        }
        let ghost m0 = self@;
        let n0: usize = self.entries.len();
        let mut i: usize = 0;
        let mut removed: usize = 0;
        while i < self.entries.len()
            invariant
                keys_distinct(self.entries@),
                i <= self.entries@.len(),
                removed + self.entries@.len() == n0,
                forall|j: int| 0 <= j < i ==> now <= self.entries@[j].1@.expires_at,
                live_part(map_of(self.entries@), now) == live_part(m0, now),
            decreases self.entries@.len() - i,
        {
            if now <= self.entries[i].1.expires_at {
                i = i + 1;
            } else {
                proof {
                    lemma_map_of_index(self.entries@, i as int);
                    lemma_map_of_remove(self.entries@, i as int);
                    lemma_live_part_remove_expired(
                        map_of(self.entries@),
                        self.entries@[i as int].0@,
                        now,
                    );
                }
                self.entries.remove(i);
                removed = removed + 1;
            }
        }
        proof {
            lemma_map_of_all_live(self.entries@, now);
            lemma_map_of_len(self.entries@);
        }
        removed
    }

    /// Stores `value` under `key` for the next `ttl` milliseconds of wall
    /// clock, replacing any prior entry for `key`. The expiry instant is
    /// `ttl` past whatever instant the clock reads now.
    pub fn insert(&mut self, key: String, value: String, ttl: u64)
        requires
            old(self).wf(),
        ensures
            final(self).wf(),
            exists|t: u64|
                final(self)@ == old(self)@.insert(
                    key@,
                    EntrySpec { value: value@, expires_at: expiry_at(t, ttl) },
                ),
    {
        let ghost k = key@;
        let ghost v = value@;
        let now = now_millis();
        self.insert_at(key, value, ttl, now);
        proof {
            assert(self@ == old(self)@.insert(
                k,
                EntrySpec { value: v, expires_at: expiry_at(now, ttl) },
            ));
        }
    }

    /// Looks `key` up against the wall clock: whatever instant the clock
    /// reads, the result and the store afterwards are those of a lookup at
    /// that instant.
    pub fn get(&mut self, key: &str) -> (r: Option<String>)
        requires
            old(self).wf(),
        ensures
            final(self).wf(),
            exists|t: u64|
                view_opt(r) == lookup(old(self)@, key@, t) && final(self)@ == after_get(
                    old(self)@,
                    key@,
                    t,
                ),
    {
        let now = now_millis();
        self.get_at(key, now)
    }

    /// Removes every entry stale against the wall clock and returns how
    /// many were removed: whatever instant the clock reads, the store
    /// afterwards is the part of the old store live at that instant.
    pub fn purge_expired(&mut self) -> (r: usize)
        requires
            old(self).wf(),
        ensures
            final(self).wf(),
            final(self)@.dom().finite(),
            r + final(self)@.dom().len() == old(self)@.dom().len(),
            exists|t: u64| final(self)@ == live_part(old(self)@, t),
    {
        let now = now_millis();
        let r = self.purge_expired_at(now);
        proof {
            assert(self@ == live_part(old(self)@, now));
        }
        r
    }

    /// How many entries the cache holds, live or stale.
    pub fn len(&self) -> (r: usize)
        requires
            self.wf(),
        ensures
            r == self@.dom().len(),
    {
        proof {
            lemma_map_of_len(self.entries@);
        }
        self.entries.len()
    }
}

} // verus!
