//! The resolution cache: two bounded, time-bounded mapping stores, one
//! from domain name to address and one from address to domain name. Every
//! entry carries the expiry instant computed when it was inserted; a
//! lookup only returns entries that are still live, and inserting into a
//! full store evicts the oldest entry.

use crate::addr::Ipv4;
use vstd::prelude::*;

verus! {

/// How many entries each direction of the cache may hold.
pub const CACHE_CAPACITY: usize = 1000;

/// How long an inserted mapping stays live, in seconds.
pub const CACHE_TTL_SECS: u64 = 3600;

/// The expiry instant of an entry inserted at `now`: the fixed
/// time-to-live later, saturating at the end of time.
pub open spec fn spec_expiry(now: u64, ttl: u64) -> u64 {
    if now + ttl > u64::MAX {
        u64::MAX
    } else {
        (now + ttl) as u64
    }
}

/// The forward entries without the given name.
pub open spec fn remove_fwd_key(s: Seq<(Seq<char>, Ipv4, u64)>, key: Seq<char>) -> Seq<
    (Seq<char>, Ipv4, u64),
>
    decreases s.len(),
{
    if s.len() == 0 {
        Seq::empty()
    } else if s[0].0 == key {
        remove_fwd_key(s.skip(1), key)
    } else {
        seq![s[0]] + remove_fwd_key(s.skip(1), key)
    }
}

/// The reverse entries without the given address.
pub open spec fn remove_rev_key(s: Seq<(Ipv4, Seq<char>, u64)>, key: Ipv4) -> Seq<
    (Ipv4, Seq<char>, u64),
>
    decreases s.len(),
{
    if s.len() == 0 {
        Seq::empty()
    } else if s[0].0 == key {
        remove_rev_key(s.skip(1), key)
    } else {
        seq![s[0]] + remove_rev_key(s.skip(1), key)
    }
}

/// The address the first live forward entry for `key` maps to.
pub open spec fn lookup_fwd(s: Seq<(Seq<char>, Ipv4, u64)>, key: Seq<char>, now: u64) -> Option<
    Ipv4,
>
    decreases s.len(),
{
    if s.len() == 0 {
        None
    } else if s[0].0 == key && now < s[0].2 {
        Some(s[0].1)
    } else {
        lookup_fwd(s.skip(1), key, now)
    }
}

/// The name the first live reverse entry for `key` maps to.
pub open spec fn lookup_rev(s: Seq<(Ipv4, Seq<char>, u64)>, key: Ipv4, now: u64) -> Option<
    Seq<char>,
>
    decreases s.len(),
{
    if s.len() == 0 {
        None
    } else if s[0].0 == key && now < s[0].2 {
        Some(s[0].1)
    } else {
        lookup_rev(s.skip(1), key, now)
    }
}

/// The bounded, time-bounded store of resolved mappings. Entries are kept
/// oldest first; the caller supplies the clock as plain seconds.
pub struct ResolutionCache {
    forward: Vec<(String, Ipv4, u64)>,
    reverse: Vec<(Ipv4, String, u64)>,
    capacity: usize,
    ttl: u64,
}

impl ResolutionCache {
    /// The forward entries: name text, address, expiry, oldest first.
    pub closed spec fn spec_forward(self) -> Seq<(Seq<char>, Ipv4, u64)> {
        self.forward@.map_values(|e: (String, Ipv4, u64)| (e.0@, e.1, e.2))
    }

    /// The reverse entries: address, name text, expiry, oldest first.
    pub closed spec fn spec_reverse(self) -> Seq<(Ipv4, Seq<char>, u64)> {
        self.reverse@.map_values(|e: (Ipv4, String, u64)| (e.0, e.1@, e.2))
    }

    /// The configured entry ceiling.
    pub closed spec fn spec_capacity(self) -> usize {
        self.capacity
    }

    /// The configured time-to-live.
    pub closed spec fn spec_ttl(self) -> u64 {
        self.ttl
    }

    /// Both directions respect the ceiling and the ceiling is positive.
    pub closed spec fn wf(self) -> bool {
        &&& self.capacity >= 1
        &&& self.forward@.len() <= self.capacity
        &&& self.reverse@.len() <= self.capacity
    }

    /// An empty cache with the fixed ceiling and time-to-live.
    pub fn new() -> (c: ResolutionCache)
        ensures
            c.wf(),
            c.spec_forward() == Seq::<(Seq<char>, Ipv4, u64)>::empty(),
            c.spec_reverse() == Seq::<(Ipv4, Seq<char>, u64)>::empty(),
            c.spec_capacity() == CACHE_CAPACITY,
            c.spec_ttl() == CACHE_TTL_SECS,
    {
        let c = ResolutionCache {
            forward: Vec::new(),
            reverse: Vec::new(),
            capacity: CACHE_CAPACITY,
            ttl: CACHE_TTL_SECS,
        };
        proof {
            assert(c.spec_forward() =~= Seq::<(Seq<char>, Ipv4, u64)>::empty());
            assert(c.spec_reverse() =~= Seq::<(Ipv4, Seq<char>, u64)>::empty());
        }
        c
    }

    /// Looks a name up at time `now`: the address of the first entry for
    /// it that has not expired, with no side effect.
    pub fn get_forward(&self, name: &String, now: u64) -> (r: Option<Ipv4>)
        ensures
            r == lookup_fwd(self.spec_forward(), name@, now),
    {
        let ghost model = self.spec_forward();
        let mut i: usize = 0;
        proof {
            assert(model.skip(0) =~= model);
        }
        while i < self.forward.len()
            invariant
                i <= self.forward@.len(),
                model == self.spec_forward(),
                model.len() == self.forward@.len(),
                forall|k: int| 0 <= k < model.len() ==> model[k] == (
                    self.forward@[k].0@,
                    self.forward@[k].1,
                    self.forward@[k].2,
                ),
                lookup_fwd(model, name@, now) == lookup_fwd(model.skip(i as int), name@, now),
            decreases self.forward@.len() - i,
        {
            proof {
                assert(model.skip(i as int)[0] == model[i as int]);
                assert(model.skip(i as int).skip(1) =~= model.skip(i + 1));
            }
            let entry = &self.forward[i];
            if entry.0.eq(name) && now < entry.2 {
                return Some(entry.1);
            }
            i += 1;
        }
        proof {
            assert(model.skip(model.len() as int).len() == 0);
        }
        None
    }

    /// Looks an address up at time `now`: the name of the first entry for
    /// it that has not expired, with no side effect.
    pub fn get_reverse(&self, addr: &Ipv4, now: u64) -> (r: Option<String>)
        ensures
            match r {
                Some(s) => lookup_rev(self.spec_reverse(), *addr, now) == Some(s@),
                None => lookup_rev(self.spec_reverse(), *addr, now) is None,
            },
    {
        let ghost model = self.spec_reverse();
        let mut i: usize = 0;
        proof {
            assert(model.skip(0) =~= model);
        }
        while i < self.reverse.len()
            invariant
                i <= self.reverse@.len(),
                model == self.spec_reverse(),
                model.len() == self.reverse@.len(),
                forall|k: int| 0 <= k < model.len() ==> model[k] == (
                    self.reverse@[k].0,
                    self.reverse@[k].1@,
                    self.reverse@[k].2,
                ),
                lookup_rev(model, *addr, now) == lookup_rev(model.skip(i as int), *addr, now),
            decreases self.reverse@.len() - i,
        {
            proof {
                assert(model.skip(i as int)[0] == model[i as int]);
                assert(model.skip(i as int).skip(1) =~= model.skip(i + 1));
            }
            let entry = &self.reverse[i];
            if entry.0 == *addr && now < entry.2 {
                return Some(entry.1.clone());
            }
            i += 1;
        }
        proof {
            assert(model.skip(model.len() as int).len() == 0);
        }
        None
    }

    /// Records that `name` resolved to `addr` at time `now`. Any earlier
    /// entry for the name goes away; if the store is still full, the
    /// oldest entry is evicted; the new entry is appended with its expiry
    /// a fixed time-to-live ahead.
    pub fn insert_forward(&mut self, name: String, addr: Ipv4, now: u64)
        requires
            old(self).wf(),
        ensures
            final(self).wf(),
            final(self).spec_capacity() == old(self).spec_capacity(),
            final(self).spec_ttl() == old(self).spec_ttl(),
            final(self).spec_reverse() == old(self).spec_reverse(),
            final(self).spec_forward() == ({
                let cleaned = remove_fwd_key(old(self).spec_forward(), name@);
                let trimmed = if cleaned.len() >= old(self).spec_capacity() {
                    cleaned.skip(1)
                } else {
                    cleaned
                };
                trimmed + seq![(name@, addr, spec_expiry(now, old(self).spec_ttl()))]
            }),
    {
        let ghost model = self.spec_forward();
        let mut kept: Vec<(String, Ipv4, u64)> = Vec::new();
        let mut i: usize = 0;
        proof {
            assert(model.skip(0) =~= model);
            assert(kept@.map_values(|e: (String, Ipv4, u64)| (e.0@, e.1, e.2)) =~= Seq::<
                (Seq<char>, Ipv4, u64),
            >::empty());
        }
        while i < self.forward.len()
            invariant
                i <= self.forward@.len(),
                model == self.spec_forward(),
                model.len() == self.forward@.len(),
                forall|k: int| 0 <= k < model.len() ==> model[k] == (
                    self.forward@[k].0@,
                    self.forward@[k].1,
                    self.forward@[k].2,
                ),
                kept@.len() <= i,
                remove_fwd_key(model, name@) == kept@.map_values(
                    |e: (String, Ipv4, u64)| (e.0@, e.1, e.2),
                ) + remove_fwd_key(model.skip(i as int), name@),
            decreases self.forward@.len() - i,
        {
            proof {
                assert(model.skip(i as int)[0] == model[i as int]);
                assert(model.skip(i as int).skip(1) =~= model.skip(i + 1));
            }
            let entry = &self.forward[i];
            if !entry.0.eq(&name) {
                let ghost prev = kept@.map_values(|e: (String, Ipv4, u64)| (e.0@, e.1, e.2));
                kept.push((entry.0.clone(), entry.1, entry.2));
                proof {
                    assert(kept@.map_values(|e: (String, Ipv4, u64)| (e.0@, e.1, e.2)) =~= prev
                        + seq![model[i as int]]);
                    assert(forall|a: Seq<(Seq<char>, Ipv4, u64)>, b: Seq<(Seq<char>, Ipv4, u64)>, c: Seq<(Seq<char>, Ipv4, u64)>|
                        (a + b) + c =~= a + (b + c));
                }
            }
            i += 1;
        }
        proof {
            assert(model.skip(model.len() as int).len() == 0);
            assert(remove_fwd_key(model.skip(model.len() as int), name@) =~= Seq::<
                (Seq<char>, Ipv4, u64),
            >::empty());
            assert(kept@.map_values(|e: (String, Ipv4, u64)| (e.0@, e.1, e.2)) + Seq::<
                (Seq<char>, Ipv4, u64),
            >::empty() =~= kept@.map_values(|e: (String, Ipv4, u64)| (e.0@, e.1, e.2)));
        }
        if kept.len() >= self.capacity {
            let ghost before = kept@.map_values(|e: (String, Ipv4, u64)| (e.0@, e.1, e.2));
            kept.remove(0);
            proof {
                assert(kept@.map_values(|e: (String, Ipv4, u64)| (e.0@, e.1, e.2)) =~= before.skip(
                    1,
                ));
            }
        }
        let expiry = if now > u64::MAX - self.ttl {
            u64::MAX
        } else {
            now + self.ttl
        };
        let ghost trimmed = kept@.map_values(|e: (String, Ipv4, u64)| (e.0@, e.1, e.2));
        kept.push((name, addr, expiry));
        self.forward = kept;
        proof {
            assert(self.spec_forward() =~= trimmed + seq![
                (self.forward@.last().0@, addr, spec_expiry(now, self.ttl)),
            ]);
        }
    }

    /// Records that `addr` resolved back to `name` at time `now`, with the
    /// same replacement, eviction and expiry rule as the forward store.
    pub fn insert_reverse(&mut self, addr: Ipv4, name: String, now: u64)
        requires
            old(self).wf(),
        ensures
            final(self).wf(),
            final(self).spec_capacity() == old(self).spec_capacity(),
            final(self).spec_ttl() == old(self).spec_ttl(),
            final(self).spec_forward() == old(self).spec_forward(),
            final(self).spec_reverse() == ({
                let cleaned = remove_rev_key(old(self).spec_reverse(), addr);
                let trimmed = if cleaned.len() >= old(self).spec_capacity() {
                    cleaned.skip(1)
                } else {
                    cleaned
                };
                trimmed + seq![(addr, name@, spec_expiry(now, old(self).spec_ttl()))]
            }),
    {
        let ghost model = self.spec_reverse();
        let mut kept: Vec<(Ipv4, String, u64)> = Vec::new();
        let mut i: usize = 0;
        proof {
            assert(model.skip(0) =~= model);
            assert(kept@.map_values(|e: (Ipv4, String, u64)| (e.0, e.1@, e.2)) =~= Seq::<
                (Ipv4, Seq<char>, u64),
            >::empty());
        }
        while i < self.reverse.len()
            invariant
                i <= self.reverse@.len(),
                model == self.spec_reverse(),
                model.len() == self.reverse@.len(),
                forall|k: int| 0 <= k < model.len() ==> model[k] == (
                    self.reverse@[k].0,
                    self.reverse@[k].1@,
                    self.reverse@[k].2,
                ),
                kept@.len() <= i,
                remove_rev_key(model, addr) == kept@.map_values(
                    |e: (Ipv4, String, u64)| (e.0, e.1@, e.2),
                ) + remove_rev_key(model.skip(i as int), addr),
            decreases self.reverse@.len() - i,
        {
            proof {
                assert(model.skip(i as int)[0] == model[i as int]);
                assert(model.skip(i as int).skip(1) =~= model.skip(i + 1));
            }
            let entry = &self.reverse[i];
            if !(entry.0 == addr) {
                let ghost prev = kept@.map_values(|e: (Ipv4, String, u64)| (e.0, e.1@, e.2));
                kept.push((entry.0, entry.1.clone(), entry.2));
                proof {
                    assert(kept@.map_values(|e: (Ipv4, String, u64)| (e.0, e.1@, e.2)) =~= prev
                        + seq![model[i as int]]);
                    assert(forall|a: Seq<(Ipv4, Seq<char>, u64)>, b: Seq<(Ipv4, Seq<char>, u64)>, c: Seq<(Ipv4, Seq<char>, u64)>|
                        (a + b) + c =~= a + (b + c));
                }
            }
            i += 1;
        }
        proof {
            assert(model.skip(model.len() as int).len() == 0);
            assert(remove_rev_key(model.skip(model.len() as int), addr) =~= Seq::<
                (Ipv4, Seq<char>, u64),
            >::empty());
            assert(kept@.map_values(|e: (Ipv4, String, u64)| (e.0, e.1@, e.2)) + Seq::<
                (Ipv4, Seq<char>, u64),
            >::empty() =~= kept@.map_values(|e: (Ipv4, String, u64)| (e.0, e.1@, e.2)));
        }
        if kept.len() >= self.capacity {
            let ghost before = kept@.map_values(|e: (Ipv4, String, u64)| (e.0, e.1@, e.2));
            kept.remove(0);
            proof {
                assert(kept@.map_values(|e: (Ipv4, String, u64)| (e.0, e.1@, e.2)) =~= before.skip(
                    1,
                ));
            }
        }
        let expiry = if now > u64::MAX - self.ttl {
            u64::MAX
        } else {
            now + self.ttl
        };
        let ghost trimmed = kept@.map_values(|e: (Ipv4, String, u64)| (e.0, e.1@, e.2));
        kept.push((addr, name, expiry));
        self.reverse = kept;
        proof {
            assert(self.spec_reverse() =~= trimmed + seq![
                (addr, self.reverse@.last().1@, spec_expiry(now, self.ttl)),
            ]);
        }
    }
}

/// Appending a fresh forward entry makes the name found: looking the key
/// up before the entry expires yields exactly the stored address, however
/// many unrelated entries stand before it.
pub proof fn lemma_fwd_hit_after_insert(
    s: Seq<(Seq<char>, Ipv4, u64)>,
    key: Seq<char>,
    addr: Ipv4,
    expiry: u64,
    now: u64,
)
    requires
        forall|i: int| 0 <= i < s.len() ==> (#[trigger] s[i]).0 != key,
        now < expiry,
    ensures
        lookup_fwd(s + seq![(key, addr, expiry)], key, now) == Some(addr),
    decreases s.len(),
{
    let whole = s + seq![(key, addr, expiry)];
    if s.len() == 0 {
        assert(whole[0] == (key, addr, expiry));
    } else {
        assert(whole[0] == s[0]);
        lemma_fwd_hit_after_insert(s.skip(1), key, addr, expiry, now);
        assert(whole.skip(1) =~= s.skip(1) + seq![(key, addr, expiry)]);
    }
}

/// Two resolutions of one name within the time-to-live need one walk:
/// after an insert at time `now`, a lookup at any `t` before the entry's
/// expiry returns the inserted address straight from the store,
/// whatever entries were there before.
pub proof fn lemma_cached_resolution(
    s: Seq<(Seq<char>, Ipv4, u64)>,
    key: Seq<char>,
    addr: Ipv4,
    now: u64,
    t: u64,
    ttl: u64,
    cap: usize,
)
    requires
        t < spec_expiry(now, ttl),
        cap >= 1,
    ensures
        ({
            let cleaned = remove_fwd_key(s, key);
            let trimmed = if cleaned.len() >= cap {
                cleaned.skip(1)
            } else {
                cleaned
            };
            lookup_fwd(trimmed + seq![(key, addr, spec_expiry(now, ttl))], key, t) == Some(addr)
        }),
{
    let cleaned = remove_fwd_key(s, key);
    lemma_remove_fwd_key_gone(s, key);
    let trimmed = if cleaned.len() >= cap {
        cleaned.skip(1)
    } else {
        cleaned
    };
    assert forall|i: int| 0 <= i < trimmed.len() implies (#[trigger] trimmed[i]).0 != key by {
        if cleaned.len() >= cap {
            assert(trimmed[i] == cleaned[i + 1]);
        }
    }
    lemma_fwd_hit_after_insert(trimmed, key, addr, spec_expiry(now, ttl), t);
}

/// The forward entries left after removing a key never carry that key.
pub proof fn lemma_remove_fwd_key_gone(s: Seq<(Seq<char>, Ipv4, u64)>, key: Seq<char>)
    ensures
        forall|i: int|
            0 <= i < remove_fwd_key(s, key).len() ==> (#[trigger] remove_fwd_key(s, key)[i]).0
                != key,
    decreases s.len(),
{
    if s.len() == 0 {
        assert(remove_fwd_key(s, key).len() == 0);
    } else {
        lemma_remove_fwd_key_gone(s.skip(1), key);
        if s[0].0 == key {
            assert(remove_fwd_key(s, key) == remove_fwd_key(s.skip(1), key));
        }
        if s[0].0 != key {
            assert forall|i: int|
                0 <= i < remove_fwd_key(s, key).len() implies (#[trigger] remove_fwd_key(
                s,
                key,
            )[i]).0 != key by {
                if i > 0 {
                    assert(remove_fwd_key(s, key)[i] == remove_fwd_key(s.skip(1), key)[i - 1]);
                }
            }
        }
    }
}

} // verus!
