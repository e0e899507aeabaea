//! Component archive: peers pruned as unreachable are stored together with
//! their incident edges under a fresh component id, and brought back when
//! one of them reappears.  The two keyspaces mirror the persistent layout:
//! `component_edges[component] -> edges` and `peer_component[peer] -> component`.
use crate::network_protocol::Edge;
use crate::vmap::UMap;
use vstd::prelude::*;

verus! {

/// `m` with every peer of `ps` mapped to `c`, in order.
pub open spec fn spec_assign(m: Map<u64, u64>, ps: Seq<u64>, c: u64) -> Map<u64, u64>
    decreases ps.len(),
{
    if ps.len() == 0 {
        m
    } else {
        spec_assign(m, ps.drop_last(), c).insert(ps.last(), c)
    }
}

pub proof fn lemma_spec_assign(m: Map<u64, u64>, ps: Seq<u64>, c: u64)
    ensures
        forall|p: u64|
            #![auto]
            ps.contains(p) ==> spec_assign(m, ps, c).contains_key(p) && spec_assign(m, ps, c)[p]
                == c,
        forall|p: u64|
            !ps.contains(p) ==> (spec_assign(m, ps, c).contains_key(p) <==> m.contains_key(p)) && (
            m.contains_key(p) ==> spec_assign(m, ps, c)[p] == m[p]),
    decreases ps.len(),
{
    if ps.len() > 0 {
        lemma_spec_assign(m, ps.drop_last(), c);
        assert forall|p: u64| #![auto] ps.contains(p) implies spec_assign(m, ps, c).contains_key(p)
            && spec_assign(m, ps, c)[p] == c by {
            if p != ps.last() {
                let i = choose|i: int| 0 <= i < ps.len() && ps[i] == p;
                assert(ps.drop_last()[i] == p);
                assert(ps.drop_last().contains(p));
            }
        }
        assert forall|p: u64| !ps.contains(p) implies (spec_assign(m, ps, c).contains_key(p) <==> m.contains_key(p)) && (
            m.contains_key(p) ==> spec_assign(m, ps, c)[p] == m[p]) by {
            assert(p != ps.last()) by {
                assert(ps[ps.len() - 1] == ps.last());
            }
            assert(!ps.drop_last().contains(p)) by {
                if ps.drop_last().contains(p) {
                    let i = choose|i: int| 0 <= i < ps.drop_last().len() && ps.drop_last()[i] == p;
                    assert(ps[i] == p);
                }
            }
        }
    }
}

pub struct Store {
    component_edges: UMap<Vec<Edge>>,
    peer_component: UMap<u64>,
    next_component_id: u64,
}

impl Store {
    /// The edge bundles by component id.
    pub closed spec fn ce(&self) -> Map<u64, Seq<Edge>> {
        Map::new(
            |c: u64| self.component_edges@.contains_key(c),
            |c: u64| self.component_edges@[c]@,
        )
    }

    /// The component each archived peer belongs to.
    pub closed spec fn pc(&self) -> Map<u64, u64> {
        self.peer_component@
    }

    pub closed spec fn next_id(&self) -> u64 {
        self.next_component_id
    }

    pub open spec fn wf(&self) -> bool {
        &&& self.inner_wf()
        &&& forall|c: u64, i: int|
            self.ce().contains_key(c) && 0 <= i < self.ce()[c].len() ==> (
            #[trigger] self.ce()[c][i]).key_ok()
    }

    pub closed spec fn inner_wf(&self) -> bool {
        self.component_edges.wf() && self.peer_component.wf()
    }

    pub fn next_component_id(&self) -> (r: u64)
        ensures
            r == self.next_id(),
    {
        self.next_component_id
    }

    pub fn new() -> (r: Store)
        ensures
            r.wf(),
            r.ce() == Map::<u64, Seq<Edge>>::empty(),
            r.pc() == Map::<u64, u64>::empty(),
            r.next_id() == 0,
    {
        let r = Store {
            component_edges: UMap::new(),
            peer_component: UMap::new(),
            next_component_id: 0,
        };
        proof {
            assert(r.ce() =~= Map::<u64, Seq<Edge>>::empty());
        }
        r
    }


    /// The archived components, in insertion order, for the application
    /// to write to its persistent keyspaces.
    pub fn export_components(&self) -> (r: Vec<(u64, Vec<Edge>)>)
        requires
            self.wf(),
        ensures
            forall|i: int|
                0 <= i < r@.len() ==> self.ce().contains_key((#[trigger] r@[i]).0) && self.ce()[
                    r@[i].0
                ] == r@[i].1@,
            forall|c: u64| #[trigger]
                self.ce().contains_key(c) ==> exists|i: int|
                    0 <= i < r@.len() && (#[trigger] r@[i]).0 == c,
            forall|i: int, j: int| 0 <= i < j < r@.len() ==> (#[trigger] r@[i]).0 != (
            #[trigger] r@[j]).0,
    {
        let n = self.component_edges.len();
        let mut r: Vec<(u64, Vec<Edge>)> = Vec::new();
        let mut i: usize = 0;
        while i < n
            invariant
                self.wf(),
                n == self.component_edges.sq().len(),
                i <= n,
                r@.len() == i,
                forall|j: int|
                    0 <= j < i ==> (#[trigger] r@[j]).0 == self.component_edges.sq()[j].0 && r@[
                        j
                    ].1@ == self.component_edges.sq()[j].1@,
            decreases n - i,
        {
            let kv = self.component_edges.get_at(i);
            let cid = kv.0;
            let mut bundle: Vec<Edge> = Vec::new();
            let blen = kv.1.len();
            let mut bi: usize = 0;
            while bi < blen
                invariant
                    self.wf(),
                    i < self.component_edges.sq().len(),
                    kv == &self.component_edges.sq()[i as int],
                    blen == kv.1@.len(),
                    bi <= blen,
                    bundle@ == kv.1@.take(bi as int),
                decreases blen - bi,
            {
                bundle.push(kv.1[bi]);
                proof {
                    assert(bundle@ =~= kv.1@.take(bi + 1));
                }
                bi += 1;
            }
            proof {
                assert(kv.1@.take(blen as int) =~= kv.1@);
            }
            r.push((cid, bundle));
            i += 1;
        }
        proof {
            assert forall|i2: int| 0 <= i2 < r@.len() implies self.ce().contains_key(
                (#[trigger] r@[i2]).0,
            ) && self.ce()[r@[i2].0] == r@[i2].1@ by {
                crate::vmap::lemma_key_at(self.component_edges.sq(), i2);
            }
            assert forall|c: u64| #[trigger] self.ce().contains_key(c) implies exists|i2: int|
                0 <= i2 < r@.len() && (#[trigger] r@[i2]).0 == c by {
                let j = crate::vmap::seq_key_index(self.component_edges.sq(), c);
                crate::vmap::lemma_key_at(self.component_edges.sq(), j);
                assert(r@[j].0 == c);
            }
            assert forall|i2: int, j2: int| 0 <= i2 < j2 < r@.len() implies (
            #[trigger] r@[i2]).0 != (#[trigger] r@[j2]).0 by {
                assert(r@[i2].0 == self.component_edges.sq()[i2].0);
                assert(r@[j2].0 == self.component_edges.sq()[j2].0);
            }
        }
        r
    }

    /// The peer-to-component mappings, for the application to write to
    /// its persistent keyspaces.
    pub fn export_mappings(&self) -> (r: Vec<(u64, u64)>)
        requires
            self.wf(),
        ensures
            forall|i: int|
                0 <= i < r@.len() ==> self.pc().contains_key((#[trigger] r@[i]).0) && self.pc()[
                    r@[i].0
                ] == r@[i].1,
            forall|p: u64| #[trigger]
                self.pc().contains_key(p) ==> exists|i: int|
                    0 <= i < r@.len() && (#[trigger] r@[i]).0 == p,
    {
        let n = self.peer_component.len();
        let mut r: Vec<(u64, u64)> = Vec::new();
        let mut i: usize = 0;
        while i < n
            invariant
                self.wf(),
                n == self.peer_component.sq().len(),
                i <= n,
                r@.len() == i,
                forall|j: int| 0 <= j < i ==> #[trigger] r@[j] == self.peer_component.sq()[j],
            decreases n - i,
        {
            let kv = self.peer_component.get_at(i);
            r.push((kv.0, kv.1));
            i += 1;
        }
        proof {
            assert forall|i2: int| 0 <= i2 < r@.len() implies self.pc().contains_key(
                (#[trigger] r@[i2]).0,
            ) && self.pc()[r@[i2].0] == r@[i2].1 by {
                crate::vmap::lemma_key_at(self.peer_component.sq(), i2);
            }
            assert forall|p: u64| #[trigger] self.pc().contains_key(p) implies exists|i2: int|
                0 <= i2 < r@.len() && (#[trigger] r@[i2]).0 == p by {
                let j = crate::vmap::seq_key_index(self.peer_component.sq(), p);
                crate::vmap::lemma_key_at(self.peer_component.sq(), j);
                assert(r@[j].0 == p);
            }
        }
        r
    }

    /// Rebuilds an archive from persisted data: every bundle edge must
    /// be canonical and every component id must lie below the counter,
    /// else nothing is restored.  Later mappings and bundles win, as a
    /// persistent store would resolve duplicate keys.
    pub fn restore(components: Vec<(u64, Vec<Edge>)>, mappings: Vec<(u64, u64)>, next_component_id: u64) -> (r: Option<Store>)
        ensures
            match r {
                Some(st) => {
                    &&& st.wf()
                    &&& st.next_id() == next_component_id
                    &&& forall|i: int|
                        0 <= i < components@.len() ==> st.ce().contains_key(
                            (#[trigger] components@[i]).0,
                        )
                    &&& forall|c: u64| #[trigger]
                        st.ce().contains_key(c) ==> exists|i: int|
                            0 <= i < components@.len() && (#[trigger] components@[i]).0 == c
                    &&& forall|i: int|
                        0 <= i < mappings@.len() ==> st.pc().contains_key(
                            (#[trigger] mappings@[i]).0,
                        )
                    &&& forall|p: u64| #[trigger]
                        st.pc().contains_key(p) ==> exists|i: int|
                            0 <= i < mappings@.len() && (#[trigger] mappings@[i]).0 == p
                },
                None => true,
            },
    {
        let mut component_edges: UMap<Vec<Edge>> = UMap::new();
        let n = components.len();
        let mut i: usize = 0;
        while i < n
            invariant
                n == components@.len(),
                i <= n,
                component_edges.wf(),
                forall|c: u64, bi: int|
                    component_edges@.contains_key(c) && 0 <= bi < component_edges@[c]@.len() ==> (
                    #[trigger] component_edges@[c]@[bi]).key_ok(),
                forall|j: int|
                    0 <= j < i ==> component_edges@.contains_key((#[trigger] components@[j]).0),
                forall|c: u64| #[trigger]
                    component_edges@.contains_key(c) ==> exists|j: int|
                        0 <= j < i && (#[trigger] components@[j]).0 == c,
            decreases n - i,
        {
            let entry = &components[i];
            if entry.0 >= next_component_id {
                return None;
            }
            let mut bundle: Vec<Edge> = Vec::new();
            let blen = entry.1.len();
            let mut bi: usize = 0;
            while bi < blen
                invariant
                    i < components@.len(),
                    entry == &components@[i as int],
                    blen == entry.1@.len(),
                    bi <= blen,
                    bundle@ == entry.1@.take(bi as int),
                    forall|j: int| 0 <= j < bundle@.len() ==> (#[trigger] bundle@[j]).key_ok(),
                decreases blen - bi,
            {
                let e = entry.1[bi];
                if e.a.0 >= e.b.0 {
                    return None;
                }
                bundle.push(e);
                proof {
                    assert(bundle@ =~= entry.1@.take(bi + 1));
                    assert forall|j: int| 0 <= j < bundle@.len() implies (
                    #[trigger] bundle@[j]).key_ok() by {
                        if j == bundle@.len() - 1 {
                            assert(bundle@[j] == e);
                        }
                    }
                }
                bi += 1;
            }
            let ghost cep = component_edges@;
            component_edges.insert(entry.0, bundle);
            proof {
                assert forall|c: u64| #[trigger]
                    component_edges@.contains_key(c) implies exists|j: int|
                    0 <= j < i + 1 && (#[trigger] components@[j]).0 == c by {
                    if c == components@[i as int].0 {
                    } else {
                        assert(cep.contains_key(c));
                        let j = choose|j: int| 0 <= j < i && (#[trigger] components@[j]).0 == c;
                    }
                }
            }
            i += 1;
        }
        let mut peer_component: UMap<u64> = UMap::new();
        let m = mappings.len();
        let mut j: usize = 0;
        while j < m
            invariant
                m == mappings@.len(),
                j <= m,
                peer_component.wf(),
                forall|j2: int|
                    0 <= j2 < j ==> peer_component@.contains_key((#[trigger] mappings@[j2]).0),
                forall|p: u64| #[trigger]
                    peer_component@.contains_key(p) ==> exists|j2: int|
                        0 <= j2 < m && (#[trigger] mappings@[j2]).0 == p,
            decreases m - j,
        {
            let entry = mappings[j];
            if entry.1 >= next_component_id {
                return None;
            }
            peer_component.insert(entry.0, entry.1);
            proof {
                assert((mappings@[j as int]).0 == entry.0);
            }
            j += 1;
        }
        let st = Store { component_edges, peer_component, next_component_id };
        proof {
            assert forall|c: u64, i2: int|
                st.ce().contains_key(c) && 0 <= i2 < st.ce()[c].len() implies (
            #[trigger] st.ce()[c][i2]).key_ok() by {}
        }
        Some(st)
    }

    /// Archives `edges` under a fresh component id and maps every peer in
    /// `peers` to it, overwriting any prior mapping.
    pub fn push_component(&mut self, peers: &Vec<u64>, edges: &Vec<Edge>)
        requires
            old(self).wf(),
            old(self).next_id() < u64::MAX,
            forall|i: int| 0 <= i < edges@.len() ==> (#[trigger] edges@[i]).key_ok(),
        ensures
            final(self).wf(),
            final(self).next_id() == old(self).next_id() + 1,
            final(self).ce() == old(self).ce().insert(old(self).next_id(), edges@),
            forall|p: u64|
                #![auto]
                peers@.contains(p) ==> final(self).pc().contains_key(p) && final(self).pc()[p]
                    == old(self).next_id(),
            forall|p: u64|
                !peers@.contains(p) ==> (final(self).pc().contains_key(p) <==> old(self).pc().contains_key(p)) && (old(self).pc().contains_key(p) ==> final(self).pc()[p]
                    == old(self).pc()[p]),
    {
        let cid = self.next_component_id;
        let mut bundle: Vec<Edge> = Vec::new();
        let elen = edges.len();
        let mut i: usize = 0;
        while i < elen
            invariant
                elen == edges@.len(),
                i <= elen,
                bundle@ == edges@.take(i as int),
            decreases elen - i,
        {
            bundle.push(edges[i]);
            proof {
                assert(bundle@ =~= edges@.take(i + 1));
            }
            i += 1;
        }
        proof {
            assert(edges@.take(elen as int) =~= edges@);
        }
        self.component_edges.insert(cid, bundle);
        proof {
            assert(peers@.take(0) =~= Seq::<u64>::empty());
        }
        let plen = peers.len();
        let mut j: usize = 0;
        while j < plen
            invariant
                plen == peers@.len(),
                j <= plen,
                self.peer_component.wf(),
                self.peer_component@ == spec_assign(old(self).pc(), peers@.take(j as int), cid),
                self.component_edges@ == old(self).component_edges@.insert(cid, bundle),
                self.next_component_id == cid,
                self.component_edges.wf(),
            decreases plen - j,
        {
            self.peer_component.insert(peers[j], cid);
            proof {
                assert(peers@.take(j + 1).drop_last() =~= peers@.take(j as int));
                assert(peers@.take(j + 1).last() == peers@[j as int]);
            }
            j += 1;
        }
        proof {
            assert(peers@.take(plen as int) =~= peers@);
            lemma_spec_assign(old(self).pc(), peers@, cid);
        }
        self.next_component_id = cid + 1;
        proof {
            assert(peers@.take(plen as int) =~= peers@);
            assert(final (self).ce() =~= old(self).ce().insert(cid, edges@));
        }
    }

    /// Returns and deletes the edge bundle of the component `peer` maps
    /// to, unmapping `peer` itself; an unmapped peer yields nothing.
    pub fn pop_component(&mut self, peer: u64) -> (r: Vec<Edge>)
        requires
            old(self).wf(),
        ensures
            final(self).wf(),
            final(self).next_id() == old(self).next_id(),
            old(self).pc().contains_key(peer) ==> {
                let c = old(self).pc()[peer];
                &&& r@ == if old(self).ce().contains_key(c) {
                    old(self).ce()[c]
                } else {
                    Seq::<Edge>::empty()
                }
                &&& final(self).ce() == old(self).ce().remove(c)
                &&& final(self).pc() == old(self).pc().remove(peer)
            },
            !old(self).pc().contains_key(peer) ==> r@ == Seq::<Edge>::empty() && final(self).ce()
                == old(self).ce() && final(self).pc() == old(self).pc(),
            forall|i: int| 0 <= i < r@.len() ==> (#[trigger] r@[i]).key_ok(),
    {
        match self.peer_component.remove(peer) {
            Some(c) => {
                match self.component_edges.remove(c) {
                    Some(bundle) => {
                        proof {
                            assert(final (self).ce() =~= old(self).ce().remove(c));
                            assert(bundle@ == old(self).ce()[c]);
                        }
                        bundle
                    }
                    None => {
                        proof {
                            assert(final (self).ce() =~= old(self).ce().remove(c));
                        }
                        Vec::new()
                    }
                }
            }
            None => Vec::new(),
        }
    }
}

} // verus!
