//! Route-back cache: a bounded map from opaque request hashes to the
//! peer the request came from, so that a reply can travel back without
//! the replier knowing the originator.  Entries are consumed on lookup,
//! expire after a timeout, and no single peer may occupy more than its
//! configured share of the capacity.
use crate::vmap::UMap;
use vstd::prelude::*;

verus! {

/// How many entries of the sequence belong to `p`.
pub open spec fn count_for(s: Seq<(u64, (u64, i64))>, p: u64) -> nat
    decreases s.len(),
{
    if s.len() == 0 {
        0
    } else {
        count_for(s.drop_last(), p) + (if s.last().1.0 == p {
            1nat
        } else {
            0nat
        })
    }
}

pub struct RouteBackCache {
    capacity: usize,
    evict_timeout: i64,
    per_peer_limit: usize,
    entries: UMap<(u64, i64)>,
}

impl RouteBackCache {
    /// The stored routes: hash to (peer, insertion time).
    pub closed spec fn view(&self) -> Map<u64, (u64, i64)> {
        self.entries@
    }

    pub closed spec fn spec_capacity(&self) -> usize {
        self.capacity
    }

    pub closed spec fn spec_evict_timeout(&self) -> i64 {
        self.evict_timeout
    }

    pub closed spec fn spec_per_peer_limit(&self) -> usize {
        self.per_peer_limit
    }

    /// How many entries the cache holds.
    pub closed spec fn size(&self) -> nat {
        self.entries.sq().len()
    }

    /// How many entries the cache holds for `p`.
    pub closed spec fn peer_load(&self, p: u64) -> nat {
        count_for(self.entries.sq(), p)
    }

    pub open spec fn wf(&self) -> bool {
        &&& self.inner_wf()
        &&& self.spec_capacity() > 0
        &&& self.spec_per_peer_limit() > 0
        &&& self.spec_evict_timeout() >= 0
        &&& self.size() <= self.spec_capacity() as nat
    }

    pub closed spec fn inner_wf(&self) -> bool {
        self.entries.wf()
    }

    pub fn new(capacity: usize, evict_timeout: i64, per_peer_limit: usize) -> (r: RouteBackCache)
        requires
            capacity > 0,
            per_peer_limit > 0,
            evict_timeout >= 0,
        ensures
            r.wf(),
            r@ == Map::<u64, (u64, i64)>::empty(),
            r.spec_capacity() == capacity,
            r.spec_evict_timeout() == evict_timeout,
            r.spec_per_peer_limit() == per_peer_limit,
    {
        RouteBackCache { capacity, evict_timeout, per_peer_limit, entries: UMap::new() }
    }

    /// Records that a reply to the request identified by `hash` should go
    /// back to `peer`.  An entry leaves only under pressure: the peer's
    /// oldest when the peer's share is met, the globally oldest when the
    /// cache is full; the entry count never exceeds the capacity.
    pub fn insert(&mut self, hash: u64, peer: u64, now: i64)
        requires
            old(self).wf(),
        ensures
            final(self).wf(),
            final(self).spec_capacity() == old(self).spec_capacity(),
            final(self).spec_evict_timeout() == old(self).spec_evict_timeout(),
            final(self).spec_per_peer_limit() == old(self).spec_per_peer_limit(),
            final(self).size() <= final(self).spec_capacity() as nat,
            final(self)@.contains_key(hash) && final(self)@[hash] == (peer, now),
            forall|h: u64| #[trigger]
                final(self)@.contains_key(h) && h != hash ==> old(self)@.contains_key(h)
                    && final(self)@[h] == old(self)@[h],
            forall|h: u64| #[trigger]
                old(self)@.contains_key(h) && h != hash && !final(self)@.contains_key(h) ==> (
                old(self).peer_load(peer) >= old(self).spec_per_peer_limit() as nat && old(
                    self,
                )@[h].0 == peer && (forall|h2: u64| #[trigger]
                    old(self)@.contains_key(h2) && old(self)@[h2].0 == peer ==> old(self)@[h].1
                        <= old(self)@[h2].1)) || (old(self).size() >= old(
                    self,
                ).spec_capacity() as nat && (forall|h2: u64| #[trigger]
                    old(self)@.contains_key(h2) ==> old(self)@[h].1 <= old(self)@[h2].1)),
    {
        // Oldest entry of this peer, its entry count, and the globally
        // oldest entry.
        let n = self.entries.len();
        proof {
            assert(self.entries.sq().take(0) =~= Seq::<(u64, (u64, i64))>::empty());
        }
        let mut peer_count: usize = 0;
        let mut peer_oldest: Option<u64> = None;
        let mut global_oldest: Option<u64> = None;
        let mut i: usize = 0;
        while i < n
            invariant
                self.inner_wf(),
                n == self.entries.sq().len(),
                i <= n,
                peer_count <= i,
                peer_count as nat == count_for(self.entries.sq().take(i as int), peer),
                match peer_oldest {
                    Some(h) => self@.contains_key(h) && self@[h].0 == peer && (forall|j: int|
                        0 <= j < i && (#[trigger] self.entries.sq()[j]).1.0 == peer
                            ==> self@[h].1 <= self.entries.sq()[j].1.1),
                    None => forall|j: int|
                        0 <= j < i ==> (#[trigger] self.entries.sq()[j]).1.0 != peer,
                },
                match global_oldest {
                    Some(h) => self@.contains_key(h) && (forall|j: int|
                        0 <= j < i ==> self@[h].1 <= (#[trigger] self.entries.sq()[j]).1.1),
                    None => i == 0,
                },
            decreases n - i,
        {
            let kv = self.entries.get_at(i);
            let h = kv.0;
            let v = kv.1;
            proof {
                crate::vmap::lemma_key_at(self.entries.sq(), i as int);
            }
            proof {
                assert(self.entries.sq().take(i + 1).drop_last() =~= self.entries.sq().take(
                    i as int,
                ));
                assert(self.entries.sq().take(i + 1).last() == self.entries.sq()[i as int]);
            }
            if v.0 == peer {
                peer_count += 1;
                let replace = match peer_oldest {
                    Some(ph) => match self.entries.get(ph) {
                        Some(pv) => v.1 < pv.1,
                        None => true,
                    },
                    None => true,
                };
                if replace {
                    peer_oldest = Some(h);
                }
            }
            let replace_g = match global_oldest {
                Some(gh) => match self.entries.get(gh) {
                    Some(gv) => v.1 < gv.1,
                    None => true,
                },
                None => true,
            };
            if replace_g {
                global_oldest = Some(h);
            }
            i += 1;
        }
        proof {
            assert forall|h2: u64| #[trigger]
                self@.contains_key(h2) implies exists|j: int|
                0 <= j < self.entries.sq().len() && (#[trigger] self.entries.sq()[j]).0 == h2
                    && self.entries.sq()[j].1 == self@[h2] by {
                let j = crate::vmap::seq_key_index(self.entries.sq(), h2);
                crate::vmap::lemma_key_at(self.entries.sq(), j);
            }
        }
        proof {
            assert(self.entries.sq().take(n as int) =~= self.entries.sq());
            assert(peer_count as nat == old(self).peer_load(peer));
        }
        if peer_count >= self.per_peer_limit {
            if let Some(h) = peer_oldest {
                self.entries.remove(h);
            }
        }
        let full = self.entries.len() >= self.capacity;
        proof {
            if full {
                assert(old(self).size() >= old(self).spec_capacity() as nat) by {
                    assert(self.entries.sq().len() <= old(self).size());
                }
            }
        }
        if full {
            if let Some(h) = global_oldest {
                if self.entries.contains_key(h) {
                    self.entries.remove(h);
                }
            }
        }
        proof {
            // The insert below grows the count by at most one, and only
            // after the capacity eviction made room.
            if self.entries.sq().len() >= self.capacity as int {
                assert(self.entries.sq().len() == old(self).size());
                assert(old(self).size() == self.capacity as nat);
                match global_oldest {
                    Some(h) => {
                        assert(self@.contains_key(h));
                        assert(false);
                    }
                    None => {
                        assert(n == 0);
                        assert(false);
                    }
                }
            }
        }
        self.entries.insert(hash, (peer, now));
    }

    /// Looks up and consumes the route back for `hash`.  Returns the
    /// originating peer only if the entry exists and has not expired;
    /// an expired entry is dropped and yields nothing.
    pub fn remove(&mut self, now: i64, hash: u64) -> (r: Option<u64>)
        requires
            old(self).wf(),
            0 <= now,
        ensures
            final(self).wf(),
            final(self).spec_capacity() == old(self).spec_capacity(),
            final(self).spec_evict_timeout() == old(self).spec_evict_timeout(),
            final(self).spec_per_peer_limit() == old(self).spec_per_peer_limit(),
            final(self)@ == old(self)@.remove(hash),
            match r {
                Some(p) => old(self)@.contains_key(hash) && old(self)@[hash].0 == p
                    && old(self)@[hash].1 >= now - old(self).spec_evict_timeout(),
                None => !old(self)@.contains_key(hash) || old(self)@[hash].1 < now - old(self).spec_evict_timeout(),
            },
    {
        match self.entries.remove(hash) {
            Some(v) => {
                if v.1 >= now - self.evict_timeout {
                    Some(v.0)
                } else {
                    None
                }
            }
            None => {
                proof {
                    assert(final (self)@ =~= old(self)@.remove(hash));
                }
                None
            }
        }
    }

    /// Whether the route back for `hash` points at `peer`, without
    /// consuming it.
    pub fn peek_matches(&self, hash: u64, peer: u64) -> (r: bool)
        requires
            self.wf(),
        ensures
            r == (self@.contains_key(hash) && self@[hash].0 == peer),
    {
        match self.entries.get(hash) {
            Some(v) => v.0 == peer,
            None => false,
        }
    }
}

} // verus!
