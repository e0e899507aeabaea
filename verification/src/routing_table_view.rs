//! Consumer-facing view of the routing data: the latest next-hop table,
//! the edges adjacent to this node, announced account owners, and the
//! general-mesh route-back entries.
use crate::network_protocol::{Edge, PeerId, PeerIdOrHash};
use crate::route_back_cache::RouteBackCache;
use crate::vmap::UMap;
use vstd::prelude::*;

verus! {

/// A signed announcement that an account is currently served by a peer.
#[derive(Clone, Copy, PartialEq, Eq, Structural, Debug)]
pub struct AnnounceAccount {
    pub account_id: u64,
    pub peer_id: PeerId,
    pub epoch_id: u64,
}

/// The announcement-merge fold: what the owner table looks like after
/// the announcements are merged in order, and which of them were new.
pub open spec fn owners_fold(m: Map<u64, AnnounceAccount>, anns: Seq<AnnounceAccount>) -> (
    Map<u64, AnnounceAccount>,
    Seq<AnnounceAccount>,
)
    decreases anns.len(),
{
    if anns.len() == 0 {
        (m, Seq::empty())
    } else {
        let pre = owners_fold(m, anns.drop_last());
        let a = anns.last();
        if !pre.0.contains_key(a.account_id) || pre.0[a.account_id] != a {
            (pre.0.insert(a.account_id, a), pre.1.push(a))
        } else {
            pre
        }
    }
}

/// Every announcement the fold reports as new is a key of the folded
/// table.
pub proof fn lemma_owners_fold_accepted(m: Map<u64, AnnounceAccount>, anns: Seq<AnnounceAccount>)
    ensures
        forall|i: int|
            0 <= i < owners_fold(m, anns).1.len() ==> owners_fold(m, anns).0.contains_key(
                (#[trigger] owners_fold(m, anns).1[i]).account_id,
            ),
    decreases anns.len(),
{
    if anns.len() > 0 {
        lemma_owners_fold_accepted(m, anns.drop_last());
        let pre = owners_fold(m, anns.drop_last());
        let full = owners_fold(m, anns);
        let a = anns.last();
        assert forall|i: int| 0 <= i < full.1.len() implies full.0.contains_key(
            (#[trigger] full.1[i]).account_id,
        ) by {
            if !pre.0.contains_key(a.account_id) || pre.0[a.account_id] != a {
                if i < full.1.len() - 1 {
                    assert(full.1[i] == pre.1[i]);
                }
            } else {
                assert(full.1[i] == pre.1[i]);
            }
        }
    }
}

/// Why no route could be found.
#[derive(Clone, Copy, PartialEq, Eq, Structural, Debug)]
pub enum FindRouteError {
    PeerUnreachable,
    RouteBackNotFound,
}

pub struct RoutingTableView {
    me: PeerId,
    next_hops: UMap<Vec<u64>>,
    local_edges: UMap<Edge>,
    account_owners: UMap<AnnounceAccount>,
    route_back: RouteBackCache,
}

impl RoutingTableView {
    pub closed spec fn spec_me(&self) -> PeerId {
        self.me
    }

    /// The latest published next-hop table.
    pub closed spec fn nh(&self) -> Map<u64, Vec<u64>> {
        self.next_hops@
    }

    /// The edges adjacent to this node, by the opposite endpoint.
    pub closed spec fn local(&self) -> Map<u64, Edge> {
        self.local_edges@
    }

    /// The announced owner of each account.
    pub closed spec fn owners(&self) -> Map<u64, AnnounceAccount> {
        self.account_owners@
    }

    /// The pending route-back entries.
    pub closed spec fn rb(&self) -> Map<u64, (u64, i64)> {
        self.route_back@
    }

    pub open spec fn wf(&self) -> bool {
        self.inner_wf()
    }

    pub closed spec fn inner_wf(&self) -> bool {
        &&& self.next_hops.wf()
        &&& self.local_edges.wf()
        &&& self.account_owners.wf()
        &&& self.route_back.wf()
    }

    pub fn new(me: PeerId, rb_capacity: usize, rb_evict_timeout: i64, rb_per_peer_limit: usize) -> (r: RoutingTableView)
        requires
            rb_capacity > 0,
            rb_per_peer_limit > 0,
            rb_evict_timeout >= 0,
        ensures
            r.wf(),
            r.spec_me() == me,
            r.nh() == Map::<u64, Vec<u64>>::empty(),
            r.local() == Map::<u64, Edge>::empty(),
            r.owners() == Map::<u64, AnnounceAccount>::empty(),
            r.rb() == Map::<u64, (u64, i64)>::empty(),
    {
        RoutingTableView {
            me,
            next_hops: UMap::new(),
            local_edges: UMap::new(),
            account_owners: UMap::new(),
            route_back: RouteBackCache::new(rb_capacity, rb_evict_timeout, rb_per_peer_limit),
        }
    }

    /// Replaces the next-hop table with a freshly computed one.
    pub fn update(&mut self, next_hops: UMap<Vec<u64>>)
        requires
            old(self).wf(),
            next_hops.wf(),
        ensures
            final(self).wf(),
            final(self).spec_me() == old(self).spec_me(),
            final(self).nh() == next_hops@,
            final(self).local() == old(self).local(),
            final(self).owners() == old(self).owners(),
            final(self).rb() == old(self).rb(),
    {
        self.next_hops = next_hops;
    }

    /// Picks the wire peer for a routed message: the first listed next
    /// hop for a peer target, or the recorded (and consumed) route back
    /// for a hash target.
    pub fn find_route(&mut self, now: i64, target: &PeerIdOrHash) -> (r: Result<
        PeerId,
        FindRouteError,
    >)
        requires
            old(self).wf(),
            0 <= now,
        ensures
            final(self).wf(),
            final(self).spec_me() == old(self).spec_me(),
            final(self).nh() == old(self).nh(),
            final(self).local() == old(self).local(),
            final(self).owners() == old(self).owners(),
            match *target {
                PeerIdOrHash::Peer(p) => final(self).rb() == old(self).rb() && (match r {
                    Ok(hop) => old(self).nh().contains_key(p.0) && old(self).nh()[p.0]@.len() > 0
                        && hop.0 == old(self).nh()[p.0]@[0],
                    Err(e) => e == FindRouteError::PeerUnreachable && (!old(
                        self,
                    ).nh().contains_key(p.0) || old(self).nh()[p.0]@.len() == 0),
                }),
                PeerIdOrHash::Hash(h) => final(self).rb() == old(self).rb().remove(h.0) && (
                match r {
                    Ok(hop) => old(self).rb().contains_key(h.0) && old(self).rb()[h.0].0 == hop.0,
                    Err(e) => e == FindRouteError::RouteBackNotFound,
                }),
            },
    {
        match target {
            PeerIdOrHash::Peer(p) => {
                match self.next_hops.get(p.0) {
                    Some(hops) => {
                        if hops.len() > 0 {
                            Ok(PeerId(hops[0]))
                        } else {
                            Err(FindRouteError::PeerUnreachable)
                        }
                    }
                    None => Err(FindRouteError::PeerUnreachable),
                }
            }
            PeerIdOrHash::Hash(h) => {
                match self.route_back.remove(now, h.0) {
                    Some(p) => Ok(PeerId(p)),
                    None => Err(FindRouteError::RouteBackNotFound),
                }
            }
        }
    }

    /// Records that a reply to `hash` should come back to `peer`.
    pub fn add_route_back(&mut self, now: i64, hash: u64, peer: PeerId)
        requires
            old(self).wf(),
        ensures
            final(self).wf(),
            final(self).spec_me() == old(self).spec_me(),
            final(self).nh() == old(self).nh(),
            final(self).local() == old(self).local(),
            final(self).owners() == old(self).owners(),
            final(self).rb().contains_key(hash) && final(self).rb()[hash] == (peer.0, now),
    {
        self.route_back.insert(hash, peer.0, now);
    }

    /// Whether the route back for `hash` points at `peer`.
    pub fn compare_route_back(&self, hash: u64, peer: PeerId) -> (r: bool)
        requires
            self.wf(),
        ensures
            r == (self.rb().contains_key(hash) && self.rb()[hash].0 == peer.0),
    {
        self.route_back.peek_matches(hash, peer.0)
    }

    /// Stores the edges adjacent to this node, keyed by the opposite
    /// endpoint; edges not incident to this node are ignored, and every
    /// stored value is an input edge between this node and its key (or
    /// an entry kept from before).
    pub fn add_local_edges(&mut self, edges: &Vec<Edge>)
        requires
            old(self).wf(),
            forall|i: int| 0 <= i < edges@.len() ==> (#[trigger] edges@[i]).key_ok(),
        ensures
            final(self).wf(),
            final(self).spec_me() == old(self).spec_me(),
            final(self).nh() == old(self).nh(),
            final(self).owners() == old(self).owners(),
            final(self).rb() == old(self).rb(),
            forall|p: u64| #[trigger]
                old(self).local().contains_key(p) ==> final(self).local().contains_key(p),
            forall|i: int|
                0 <= i < edges@.len() && (#[trigger] edges@[i]).a.0 == old(self).spec_me().0
                    ==> final(self).local().contains_key(edges@[i].b.0),
            forall|i: int|
                0 <= i < edges@.len() && (#[trigger] edges@[i]).b.0 == old(self).spec_me().0
                    ==> final(self).local().contains_key(edges@[i].a.0),
            forall|p: u64| #[trigger]
                final(self).local().contains_key(p) ==> (old(self).local().contains_key(p)
                    && final(self).local()[p] == old(self).local()[p]) || (exists|i: int|
                    0 <= i < edges@.len() && final(self).local()[p] == (#[trigger] edges@[i]) && (
                    (edges@[i].a.0 == old(self).spec_me().0 && edges@[i].b.0 == p) || (
                    edges@[i].b.0 == old(self).spec_me().0 && edges@[i].a.0 == p))),
    {
        let n = edges.len();
        let mut i: usize = 0;
        while i < n
            invariant
                n == edges@.len(),
                i <= n,
                forall|j: int| 0 <= j < n ==> (#[trigger] edges@[j]).key_ok(),
                self.wf(),
                self.spec_me() == old(self).spec_me(),
                self.nh() == old(self).nh(),
                self.owners() == old(self).owners(),
                self.rb() == old(self).rb(),
                forall|p: u64| #[trigger]
                    old(self).local().contains_key(p) ==> self.local().contains_key(p),
                forall|j: int|
                    0 <= j < i && (#[trigger] edges@[j]).a.0 == old(self).spec_me().0
                        ==> self.local().contains_key(edges@[j].b.0),
                forall|j: int|
                    0 <= j < i && (#[trigger] edges@[j]).b.0 == old(self).spec_me().0
                        ==> self.local().contains_key(edges@[j].a.0),
                forall|p: u64| #[trigger]
                    self.local().contains_key(p) ==> (old(self).local().contains_key(p)
                        && self.local()[p] == old(self).local()[p]) || (exists|j: int|
                        0 <= j < i && self.local()[p] == (#[trigger] edges@[j]) && ((edges@[j].a.0
                            == old(self).spec_me().0 && edges@[j].b.0 == p) || (edges@[j].b.0
                            == old(self).spec_me().0 && edges@[j].a.0 == p))),
            decreases n - i,
        {
            let e = edges[i];
            match e.other(self.me) {
                Some(other) => {
                    let ghost lp = self.local();
                    self.local_edges.insert(other.0, e);
                    proof {
                        assert(self.local() == lp.insert(other.0, e));
                        assert forall|p: u64| #[trigger]
                            self.local().contains_key(p) implies (old(self).local().contains_key(p)
                            && self.local()[p] == old(self).local()[p]) || (exists|j: int|
                            0 <= j < i + 1 && self.local()[p] == (#[trigger] edges@[j]) && ((
                            edges@[j].a.0 == old(self).spec_me().0 && edges@[j].b.0 == p) || (
                            edges@[j].b.0 == old(self).spec_me().0 && edges@[j].a.0 == p))) by {
                            if p == other.0 {
                                assert(self.local()[p] == edges@[i as int]);
                                assert((edges@[i as int].a.0 == old(self).spec_me().0
                                    && edges@[i as int].b.0 == p) || (edges@[i as int].b.0 == old(
                                    self,
                                ).spec_me().0 && edges@[i as int].a.0 == p));
                            } else {
                                assert(self.local()[p] == lp[p]);
                                if !(old(self).local().contains_key(p) && lp[p] == old(
                                    self,
                                ).local()[p]) {
                                    let j = choose|j: int|
                                        0 <= j < i && lp[p] == (#[trigger] edges@[j]) && ((
                                        edges@[j].a.0 == old(self).spec_me().0 && edges@[j].b.0
                                            == p) || (edges@[j].b.0 == old(self).spec_me().0
                                            && edges@[j].a.0 == p));
                                }
                            }
                        }
                    }
                }
                None => {},
            }
            i += 1;
        }
    }

    /// The nonce of the stored local edge towards `p`, if any.
    pub open spec fn spec_local_nonce(&self, p: PeerId) -> Option<u64> {
        if self.local().contains_key(p.0) {
            Some(self.local()[p.0].nonce)
        } else {
            Option::None
        }
    }

    /// The stored edge between this node and `peer`, if any.
    pub fn get_local_edge(&self, peer: PeerId) -> (r: Option<&Edge>)
        requires
            self.wf(),
        ensures
            match r {
                Some(e) => self.local().contains_key(peer.0) && *e == self.local()[peer.0],
                None => !self.local().contains_key(peer.0),
            },
    {
        self.local_edges.get(peer.0)
    }

    /// Merges account announcements: for each account the latest
    /// announcement wins, and exactly the announcements that changed the
    /// table are returned, in order, for broadcast.
    pub fn add_accounts(&mut self, accounts: Vec<AnnounceAccount>) -> (r: Vec<AnnounceAccount>)
        requires
            old(self).wf(),
        ensures
            final(self).wf(),
            final(self).spec_me() == old(self).spec_me(),
            final(self).nh() == old(self).nh(),
            final(self).local() == old(self).local(),
            final(self).rb() == old(self).rb(),
            final(self).owners() == owners_fold(old(self).owners(), accounts@).0,
            r@ == owners_fold(old(self).owners(), accounts@).1,
    {
        let n = accounts.len();
        let mut fresh: Vec<AnnounceAccount> = Vec::new();
        let mut i: usize = 0;
        while i < n
            invariant
                n == accounts@.len(),
                i <= n,
                self.wf(),
                self.spec_me() == old(self).spec_me(),
                self.nh() == old(self).nh(),
                self.local() == old(self).local(),
                self.rb() == old(self).rb(),
                self.owners() == owners_fold(old(self).owners(), accounts@.take(i as int)).0,
                fresh@ == owners_fold(old(self).owners(), accounts@.take(i as int)).1,
            decreases n - i,
        {
            let ann = accounts[i];
            proof {
                assert(accounts@.take(i + 1).drop_last() =~= accounts@.take(i as int));
                assert(accounts@.take(i + 1).last() == accounts@[i as int]);
            }
            let keep = match self.account_owners.get(ann.account_id) {
                Some(prev) => !(*prev == ann),
                None => true,
            };
            if keep {
                self.account_owners.insert(ann.account_id, ann);
                fresh.push(ann);
            }
            i += 1;
        }
        proof {
            assert(accounts@.take(n as int) =~= accounts@);
        }
        fresh
    }

    /// The announced owner of `account_id`, if any.
    pub fn account_owner(&self, account_id: u64) -> (r: Option<PeerId>)
        requires
            self.wf(),
        ensures
            match r {
                Some(p) => self.owners().contains_key(account_id) && p == self.owners()[
                    account_id
                ].peer_id,
                None => !self.owners().contains_key(account_id),
            },
    {
        match self.account_owners.get(account_id) {
            Some(a) => Some(a.peer_id),
            None => None,
        }
    }

    /// The peers the latest snapshot can route to.
    pub fn reachable_peers(&self) -> (r: Vec<u64>)
        requires
            self.wf(),
        ensures
            forall|p: u64| r@.contains(p) <==> self.nh().contains_key(p),
    {
        self.next_hops.keys()
    }
}

} // verus!
