//! Undirected adjacency structure over peer identities, with single-source
//! breadth-first search producing the next-hop table.
use crate::network_protocol::PeerId;
use crate::util::{seq_nodup, vec_contains, vec_remove_first, seq_remove_first};
use crate::vmap::UMap;
use vstd::prelude::*;

verus! {

/// The abstract adjacency view: each known peer to its neighbour list.
pub type AdjView = Map<u64, Seq<u64>>;

/// Whether the view records `b` as a neighbour of `a`.
pub open spec fn has_edge(g: AdjView, a: u64, b: u64) -> bool {
    g.contains_key(a) && g[a].contains(b)
}

/// `a`'s neighbour list, empty if `a` is unknown.
pub open spec fn list_of(g: AdjView, a: u64) -> Seq<u64> {
    if g.contains_key(a) {
        g[a]
    } else {
        Seq::empty()
    }
}

/// One direction of an edge insertion: append `b` to `a`'s list if absent.
pub open spec fn spec_add_dir(g: AdjView, a: u64, b: u64) -> AdjView {
    let l = list_of(g, a);
    g.insert(a, if l.contains(b) {
        l
    } else {
        l.push(b)
    })
}

/// Both directions of an edge insertion.
pub open spec fn spec_add_edge(g: AdjView, a: u64, b: u64) -> AdjView {
    spec_add_dir(spec_add_dir(g, a, b), b, a)
}

/// One direction of an edge removal.
pub open spec fn spec_remove_dir(g: AdjView, a: u64, b: u64) -> AdjView {
    if g.contains_key(a) {
        g.insert(a, seq_remove_first(g[a], b))
    } else {
        g
    }
}

/// Both directions of an edge removal.
pub open spec fn spec_remove_edge(g: AdjView, a: u64, b: u64) -> AdjView {
    spec_remove_dir(spec_remove_dir(g, a, b), b, a)
}

/// Well-formedness of an adjacency view: neighbour lists have no
/// duplicates, no peer neighbours itself, and the relation is symmetric.
pub open spec fn adj_wf(g: AdjView) -> bool {
    &&& forall|k: u64| #[trigger] g.contains_key(k) ==> seq_nodup(g[k])
    &&& forall|k: u64| !has_edge(g, k, k)
    &&& forall|a: u64, b: u64| #[trigger] has_edge(g, a, b) ==> has_edge(g, b, a)
}

/// Undirected graph of active connections, rooted at this node's identity.
pub struct Graph {
    source: PeerId,
    adj: UMap<Vec<u64>>,
}

impl Graph {
    pub closed spec fn spec_source(&self) -> PeerId {
        self.source
    }

    /// The adjacency view the contracts speak about.
    pub closed spec fn view(&self) -> AdjView {
        Map::new(|k: u64| self.adj@.contains_key(k), |k: u64| self.adj@[k]@)
    }

    pub open spec fn wf(&self) -> bool {
        self.inner_wf() && adj_wf(self@)
    }

    pub closed spec fn inner_wf(&self) -> bool {
        self.adj.wf()
    }

    pub fn new(source: PeerId) -> (r: Graph)
        ensures
            r.wf(),
            r.spec_source() == source,
            r@ == Map::<u64, Seq<u64>>::empty(),
    {
        let r = Graph { source, adj: UMap::new() };
        proof {
            assert(r@ =~= Map::<u64, Seq<u64>>::empty());
        }
        r
    }

    pub fn source(&self) -> (r: PeerId)
        ensures
            r == self.spec_source(),
    {
        self.source
    }

    /// Appends `b` to `a`'s neighbour list unless already present.
    fn add_dir(&mut self, a: u64, b: u64)
        requires
            old(self).inner_wf(),
        ensures
            final(self).inner_wf(),
            final(self)@ == spec_add_dir(old(self)@, a, b),
            final(self).spec_source() == old(self).spec_source(),
    {
        let mut l: Vec<u64> = match self.adj.remove(a) {
            Some(l) => l,
            None => Vec::new(),
        };
        proof {
            assert(l@ == list_of(old(self)@, a));
        }
        if !vec_contains(&l, b) {
            l.push(b);
        }
        self.adj.insert(a, l);
        proof {
            assert(final (self)@ =~= spec_add_dir(old(self)@, a, b));
        }
    }

    /// Removes `b` from `a`'s neighbour list, if present.
    fn remove_dir(&mut self, a: u64, b: u64)
        requires
            old(self).inner_wf(),
            forall|k: u64| #[trigger] old(self)@.contains_key(k) ==> seq_nodup(old(self)@[k]),
        ensures
            final(self).inner_wf(),
            final(self)@ == spec_remove_dir(old(self)@, a, b),
            final(self).spec_source() == old(self).spec_source(),
    {
        match self.adj.remove(a) {
            Some(mut l) => {
                proof {
                    assert(old(self)@.contains_key(a));
                    assert(l@ == old(self)@[a]);
                    assert(seq_nodup(l@));
                }
                vec_remove_first(&mut l, b);
                self.adj.insert(a, l);
                proof {
                    assert(final (self)@ =~= spec_remove_dir(old(self)@, a, b));
                }
            }
            None => {
                proof {
                    assert(final (self)@ =~= spec_remove_dir(old(self)@, a, b));
                }
            }
        }
    }

    /// Records an undirected edge between `a` and `b`.
    pub fn add_edge(&mut self, a: u64, b: u64)
        requires
            old(self).wf(),
            a != b,
        ensures
            final(self).wf(),
            final(self)@ == spec_add_edge(old(self)@, a, b),
            final(self).spec_source() == old(self).spec_source(),
            forall|x: u64, y: u64| #[trigger]
                has_edge(final(self)@, x, y) <==> has_edge(old(self)@, x, y) || (x == a && y == b)
                    || (x == b && y == a),
    {
        self.add_dir(a, b);
        self.add_dir(b, a);
        proof {
            lemma_add_edge_wf(old(self)@, a, b);
            lemma_add_edge_has(old(self)@, a, b);
        }
    }

    /// Erases the undirected edge between `a` and `b`, if present.
    pub fn remove_edge(&mut self, a: u64, b: u64)
        requires
            old(self).wf(),
            a != b,
        ensures
            final(self).wf(),
            final(self)@ == spec_remove_edge(old(self)@, a, b),
            final(self).spec_source() == old(self).spec_source(),
            forall|x: u64, y: u64| #[trigger]
                has_edge(final(self)@, x, y) <==> has_edge(old(self)@, x, y) && !(x == a && y == b)
                    && !(x == b && y == a),
    {
        proof {
            lemma_remove_edge_wf(old(self)@, a, b);
            lemma_remove_edge_has(old(self)@, a, b);
        }
        self.remove_dir(a, b);
        proof {
            lemma_remove_dir_partial_wf(old(self)@, a, b);
        }
        self.remove_dir(b, a);
    }

    /// Distances from `start`: breadth-first search. The returned map holds
    /// exactly the peers reachable from `start`, each bound to its exact
    /// distance along active edges.
    pub fn bfs_from(&self, start: u64) -> (r: UMap<u64>)
        requires
            self.wf(),
        ensures
            r.wf(),
            forall|t: u64| #[trigger] r@.contains_key(t) <==> reachable(self@, start, t),
            forall|t: u64| #[trigger] r@.contains_key(t) ==> is_dist(self@, start, t, r@[t] as nat),
            r@.contains_key(start) && r@[start] == 0,
    {
        let ghost g = self@;
        let ghost total = self.adj.sq().len() as int;
        let ghost adjkeys = Seq::new(self.adj.sq().len(), |i: int| self.adj.sq()[i].0).to_set();
        let ghost allowed = adjkeys.insert(start);
        proof {
            vstd::seq_lib::seq_to_set_is_finite(
                Seq::new(self.adj.sq().len(), |i: int| self.adj.sq()[i].0),
            );
            Seq::new(self.adj.sq().len(), |i: int| self.adj.sq()[i].0).lemma_cardinality_of_set();
            assert(allowed.finite() && allowed.len() <= total + 1);
            assert forall|k: u64| g.contains_key(k) implies allowed.contains(k) by {
                let i = crate::vmap::seq_key_index(self.adj.sq(), k);
                assert(Seq::new(self.adj.sq().len(), |i: int| self.adj.sq()[i].0)[i] == k);
            }
        }
        let mut dist: UMap<u64> = UMap::new();
        dist.insert(start, 0);
        let mut frontier: Vec<u64> = Vec::new();
        frontier.push(start);
        let mut d: u64 = 0;
        proof {
            assert(within(g, start, start, 0));
            assert(frontier@[0] == start);
            assert(frontier@.contains(start));
            assert(dist.sq().len() == 1);
        }
        while frontier.len() > 0
            invariant
                self.wf(),
                g == self@,
                allowed.finite(),
                allowed.len() <= total + 1,
                forall|k: u64| g.contains_key(k) ==> allowed.contains(k),
                allowed.contains(start),
                dist.wf(),
                dist@.contains_key(start) && dist@[start] == 0,
                forall|t: u64| #[trigger]
                    dist@.contains_key(t) ==> is_dist(g, start, t, dist@[t] as nat),
                forall|t: u64| within(g, start, t, d as nat) ==> dist@.contains_key(t),
                seq_nodup(frontier@),
                forall|i: int|
                    0 <= i < frontier@.len() ==> dist@.contains_key(#[trigger] frontier@[i])
                        && dist@[frontier@[i]] == d,
                forall|t: u64| #[trigger]
                    dist@.contains_key(t) && dist@[t] == d ==> frontier@.contains(t),
                forall|u: u64, v: u64| #[trigger]
                    dist@.contains_key(u) && dist@[u] < d && #[trigger] has_edge(g, u, v)
                        ==> dist@.contains_key(v),
                forall|t: u64| #[trigger] dist@.contains_key(t) ==> dist@[t] <= d,
                forall|i: int|
                    0 <= i < dist.sq().len() ==> allowed.contains((#[trigger] dist.sq()[i]).0),
                dist.sq().len() <= total + 1,
                d <= dist.sq().len(),
                frontier@.len() > 0 ==> d < dist.sq().len(),
            decreases total + 1 - dist.sq().len(), frontier@.len(),
        {
            let ghost dist0 = dist@;
            let ghost len0 = dist.sq().len() as int;
            let ghost fr = frontier@;
            let dl = dist.len();
            proof {
                assert(d < dl);
                assert(dl <= usize::MAX);
                assert(d < u64::MAX);
            }
            let mut nf: Vec<u64> = Vec::new();
            let flen = frontier.len();
            let mut fi: usize = 0;
            while fi < flen
                invariant
                    self.wf(),
                    g == self@,
                    allowed.finite(),
                    forall|k: u64| g.contains_key(k) ==> allowed.contains(k),
                    allowed.contains(start),
                    d < u64::MAX,
                    fr == frontier@,
                    flen == fr.len(),
                    fi <= flen,
                    seq_nodup(fr),
                    forall|i: int|
                        0 <= i < fr.len() ==> dist0.contains_key(#[trigger] fr[i])
                            && dist0[fr[i]] == d,
                    forall|t: u64| within(g, start, t, d as nat) ==> dist0.contains_key(t),
                    forall|u: u64, v: u64| #[trigger]
                        dist0.contains_key(u) && dist0[u] < d && #[trigger] has_edge(g, u, v)
                            ==> dist0.contains_key(v),
                    forall|t: u64| #[trigger] dist0.contains_key(t) ==> dist0[t] <= d,
                    dist.wf(),
                    forall|k: u64| #[trigger]
                        dist0.contains_key(k) ==> dist@.contains_key(k) && dist@[k] == dist0[k],
                    forall|k: u64| #[trigger]
                        dist@.contains_key(k) ==> dist0.contains_key(k) || (dist@[k] == d + 1
                            && nf@.contains(k)),
                    seq_nodup(nf@),
                    forall|i: int|
                        0 <= i < nf@.len() ==> dist@.contains_key(#[trigger] nf@[i])
                            && dist@[nf@[i]] == d + 1 && !dist0.contains_key(nf@[i]),
                    forall|t: u64| #[trigger]
                        dist@.contains_key(t) ==> is_dist(g, start, t, dist@[t] as nat),
                    dist.sq().len() as int == len0 + nf@.len(),
                    forall|i: int|
                        0 <= i < dist.sq().len() ==> allowed.contains((#[trigger] dist.sq()[i]).0),
                    forall|j: int, v: u64|
                        0 <= j < fi && #[trigger] has_edge(g, fr[j], v) ==> dist@.contains_key(v),
                decreases flen - fi,
            {
                let u = frontier[fi];
                proof {
                    assert(dist0.contains_key(u) && dist0[u] == d);
                    assert(is_dist(g, start, u, d as nat));
                }
                match self.adj.get(u) {
                    Some(nbrs) => {
                        let nlen = nbrs.len();
                        let mut ni: usize = 0;
                        proof {
                            assert(g.contains_key(u) && g[u] == nbrs@);
                        }
                        while ni < nlen
                            invariant
                                self.wf(),
                                g == self@,
                                allowed.finite(),
                                forall|k: u64| g.contains_key(k) ==> allowed.contains(k),
                                allowed.contains(start),
                                d < u64::MAX,
                                g.contains_key(u) && g[u] == nbrs@,
                                nlen == nbrs@.len(),
                                ni <= nlen,
                                dist0.contains_key(u) && dist0[u] == d,
                                is_dist(g, start, u, d as nat),
                                forall|t: u64| within(g, start, t, d as nat)
                                    ==> dist0.contains_key(t),
                                forall|t: u64| #[trigger] dist0.contains_key(t) ==> dist0[t] <= d,
                                dist.wf(),
                                forall|k: u64| #[trigger]
                                    dist0.contains_key(k) ==> dist@.contains_key(k) && dist@[k]
                                        == dist0[k],
                                forall|k: u64| #[trigger]
                                    dist@.contains_key(k) ==> dist0.contains_key(k) || (dist@[k]
                                        == d + 1 && nf@.contains(k)),
                                seq_nodup(nf@),
                                forall|i: int|
                                    0 <= i < nf@.len() ==> dist@.contains_key(#[trigger] nf@[i])
                                        && dist@[nf@[i]] == d + 1 && !dist0.contains_key(nf@[i]),
                                forall|t: u64| #[trigger]
                                    dist@.contains_key(t) ==> is_dist(g, start, t, dist@[t] as nat),
                                dist.sq().len() as int == len0 + nf@.len(),
                                forall|i: int|
                                    0 <= i < dist.sq().len() ==> allowed.contains(
                                        (#[trigger] dist.sq()[i]).0,
                                    ),
                                forall|j: int, v: u64|
                                    0 <= j < fi && #[trigger] has_edge(g, fr[j], v)
                                        ==> dist@.contains_key(v),
                                forall|j: int| 0 <= j < ni ==> dist@.contains_key(#[trigger] nbrs@[j]),
                            decreases nlen - ni,
                        {
                            let v = nbrs[ni];
                            proof {
                                assert(has_edge(g, u, v)) by {
                                    assert(g[u][ni as int] == v);
                                }
                                assert(has_edge(g, v, u));
                                assert(allowed.contains(v));
                            }
                            if !dist.contains_key(v) {
                                proof {
                                    assert(within(g, start, v, (d + 1) as nat)) by {
                                        assert(has_edge(g, u, v) && within(
                                            g,
                                            start,
                                            u,
                                            d as nat,
                                        ));
                                    }
                                    assert(!within(g, start, v, d as nat)) by {
                                        if within(g, start, v, d as nat) {
                                            assert(dist0.contains_key(v));
                                            assert(dist@.contains_key(v));
                                        }
                                    }
                                    assert(is_dist(g, start, v, (d + 1) as nat));
                                }
                                let ghost nf0 = nf@;
                                let ghost distp = dist@;
                                dist.insert(v, d + 1);
                                nf.push(v);
                                proof {
                                    lemma_push_contains(nf0, v);
                                    assert(nf@ == nf0.push(v));
                                    assert(nf@[nf@.len() - 1] == v);
                                    assert(nf@.contains(v));
                                    assert forall|k: u64| #[trigger]
                                        dist@.contains_key(k) implies dist0.contains_key(k) || (
                                    dist@[k] == d + 1 && nf@.contains(k)) by {
                                        if k != v && !dist0.contains_key(k) {
                                            assert(distp.contains_key(k));
                                            assert(nf0.contains(k));
                                            assert(nf0.push(v).contains(k));
                                        }
                                    }
                                    assert(seq_nodup(nf@)) by {
                                        assert forall|i1: int, j1: int|
                                            0 <= i1 < j1 < nf@.len() implies nf@[i1] != nf@[j1] by {
                                            if j1 == nf@.len() - 1 {
                                                assert(nf@[i1] == nf0[i1]);
                                                assert(nf0.contains(nf0[i1])) by {
                                                    assert(nf0[i1] == nf0[i1]);
                                                }
                                                assert(distp.contains_key(nf0[i1]));
                                            } else {
                                                assert(nf@[i1] == nf0[i1]);
                                                assert(nf@[j1] == nf0[j1]);
                                            }
                                        }
                                    }
                                }
                            }
                            ni += 1;
                        }
                    }
                    None => {
                        proof {
                            assert(!g.contains_key(u));
                            assert forall|v: u64| !has_edge(g, u, v) by {}
                        }
                    }
                }
                fi += 1;
            }
            proof {
                assert forall|t: u64| within(g, start, t, (d + 1) as nat) implies dist@.contains_key(
                    t,
                ) by {
                    if t == start {
                    } else {
                        if !within(g, start, t, d as nat) {
                            let u = choose|u: u64| #[trigger] has_edge(g, u, t) && within(
                                g,
                                start,
                                u,
                                d as nat,
                            );
                            assert(dist0.contains_key(u));
                            if dist0[u] < d {
                                assert(dist0.contains_key(t));
                            } else {
                                assert(dist0[u] == d);
                                assert(fr.contains(u));
                                let j = choose|j: int| 0 <= j < fr.len() && fr[j] == u;
                                assert(has_edge(g, fr[j], t));
                            }
                        }
                    }
                }
                lemma_entries_card(dist.sq(), allowed);
            }
            frontier = nf;
            d = d + 1;
        }
        proof {
            let dom = Set::new(|k: u64| dist@.contains_key(k));
            assert forall|t: u64| #[trigger] dist@.contains_key(t) <==> reachable(
                g,
                start,
                t,
            ) by {
                if dist@.contains_key(t) {
                    assert(within(g, start, t, dist@[t] as nat));
                    assert(reachable(g, start, t));
                }
                if reachable(g, start, t) {
                    let k = choose|k: nat| within(g, start, t, k);
                    assert forall|u: u64, v: u64|
                        dom.contains(u) && #[trigger] has_edge(g, u, v) implies dom.contains(
                        v,
                    ) by {
                        assert(dist@[u] <= d);
                        if dist@[u] == d {
                            assert(frontier@.contains(u));
                        }
                    }
                    lemma_closed_reach(g, dom, start, t, k);
                }
            }
        }
        dist
    }

    /// Computes the next-hop table from this node: every reachable peer,
    /// other than the node itself, bound to its non-empty list of first
    /// hops on shortest paths, with unreliable hops deprioritised.
    pub fn calculate_distance(&self, unreliable: &Vec<u64>) -> (r: UMap<Vec<u64>>)
        requires
            self.wf(),
        ensures
            r.wf(),
            forall|t: u64| #[trigger]
                r@.contains_key(t) <==> (t != self.spec_source().0 && reachable(
                    self@,
                    self.spec_source().0,
                    t,
                )),
            forall|t: u64| #[trigger]
                r@.contains_key(t) ==> r@[t]@ == next_hops_for(
                    self@,
                    self.spec_source().0,
                    unreliable@,
                    t,
                ),
            forall|t: u64| #[trigger] r@.contains_key(t) ==> r@[t]@.len() > 0,
            forall|t: u64, i: int|
                r@.contains_key(t) && 0 <= i < r@[t]@.len() ==> has_edge(
                    self@,
                    self.spec_source().0,
                    #[trigger] r@[t]@[i],
                ) && is_dist(
                    self@,
                    r@[t]@[i],
                    t,
                    (sdist(self@, self.spec_source().0, t) - 1) as nat,
                ),
    {
        let ghost g = self@;
        let source = self.source.0;
        let dist_s = self.bfs_from(source);

        // Copy the source's neighbour list.
        let mut nbrs: Vec<u64> = Vec::new();
        match self.adj.get(source) {
            Some(l) => {
                let llen = l.len();
                let mut i: usize = 0;
                while i < llen
                    invariant
                        llen == l@.len(),
                        i <= llen,
                        nbrs@ == l@.take(i as int),
                    decreases llen - i,
                {
                    nbrs.push(l[i]);
                    proof {
                        assert(nbrs@ =~= l@.take(i + 1));
                    }
                    i += 1;
                }
                proof {
                    assert(l@.take(llen as int) =~= l@);
                }
            }
            None => {},
        }
        proof {
            assert(nbrs@ == list_of(g, source));
        }

        // Distances from each neighbour of the source.
        let mut nbr_dists: Vec<UMap<u64>> = Vec::new();
        let nlen = nbrs.len();
        let mut j: usize = 0;
        while j < nlen
            invariant
                self.wf(),
                g == self@,
                nlen == nbrs@.len(),
                j <= nlen,
                nbr_dists@.len() == j,
                forall|jj: int|
                    0 <= jj < j ==> dist_map_ok(g, nbrs@[jj], #[trigger] nbr_dists@[jj]),
            decreases nlen - j,
        {
            nbr_dists.push(self.bfs_from(nbrs[j]));
            j += 1;
        }

        // Assemble the table target by target.  Reading the length first
        // records that the distance map's entries carry unique keys.
        let mut table: UMap<Vec<u64>> = UMap::new();
        let _entry_count = dist_s.len();
        let tk = dist_s.keys();
        let tlen = tk.len();
        proof {
            assert forall|i: int| 0 <= i < tlen implies dist_s@.contains_key(
                #[trigger] tk@[i],
            ) by {
                assert(tk@.contains(tk@[i]));
            }
            assert(crate::util::seq_nodup(tk@)) by {
                assert forall|i: int, j: int| 0 <= i < j < tk@.len() implies tk@[i] != tk@[j] by {
                    assert(tk@[i] == dist_s.sq()[i].0);
                    assert(tk@[j] == dist_s.sq()[j].0);
                }
            }
        }
        let mut idx: usize = 0;
        while idx < tlen
            invariant
                self.wf(),
                g == self@,
                source == self.spec_source().0,
                nbrs@ == list_of(g, source),
                nlen == nbrs@.len(),
                nbr_dists@.len() == nlen,
                forall|jj: int|
                    0 <= jj < nlen ==> dist_map_ok(g, nbrs@[jj], #[trigger] nbr_dists@[jj]),
                dist_s.wf(),
                forall|t: u64| #[trigger] dist_s@.contains_key(t) <==> reachable(g, source, t),
                forall|t: u64| #[trigger]
                    dist_s@.contains_key(t) ==> is_dist(g, source, t, dist_s@[t] as nat),
                tk@.len() == tlen,
                idx <= tlen,
                forall|t: u64| dist_s@.contains_key(t) <==> tk@.contains(t),
                forall|i: int| 0 <= i < tlen ==> dist_s@.contains_key(#[trigger] tk@[i]),
                crate::util::seq_nodup(tk@),
                table.wf(),
                forall|t: u64| #[trigger]
                    table@.contains_key(t) <==> (tk@.take(idx as int).contains(t) && t != source),
                forall|t: u64| #[trigger]
                    table@.contains_key(t) ==> table@[t]@ == next_hops_for(g, source, unreliable@, t),
            decreases tlen - idx,
        {
            let t = tk[idx];
            proof {
                assert(dist_s@.contains_key(t));
            }
            if t != source {
                let d: u64 = match dist_s.get(t) {
                    Some(dv) => *dv,
                    None => 0,
                };
                proof {
                    assert(is_dist(g, source, t, d as nat));
                    assert(d > 0) by {
                        if d == 0 {
                            assert(within(g, source, t, 0));
                        }
                    }
                }
                let ghost dm1 = (d - 1) as nat;
                let mut cands: Vec<u64> = Vec::new();
                let mut rel: Vec<u64> = Vec::new();
                let mut j2: usize = 0;
                while j2 < nlen
                    invariant
                        self.wf(),
                        g == self@,
                        nbrs@ == list_of(g, source),
                        nlen == nbrs@.len(),
                        nbr_dists@.len() == nlen,
                        forall|jj: int|
                            0 <= jj < nlen ==> dist_map_ok(g, nbrs@[jj], #[trigger] nbr_dists@[jj]),
                        j2 <= nlen,
                        d > 0,
                        is_dist(g, source, t, d as nat),
                        dm1 == (d - 1) as nat,
                        cands@ == cand_filter(g, nbrs@.take(j2 as int), t, dm1),
                        rel@ == rel_filter(cands@, unreliable@),
                    decreases nlen - j2,
                {
                    let n = nbrs[j2];
                    let ghost pre = cands@;
                    proof {
                        assert(dist_map_ok(g, nbrs@[j2 as int], nbr_dists@[j2 as int]));
                        assert(nbrs@.take(j2 + 1).drop_last() =~= nbrs@.take(j2 as int));
                        assert(nbrs@.take(j2 + 1).last() == n);
                    }
                    let dm = &nbr_dists[j2];
                    let is_cand: bool = match dm.get(t) {
                        Some(dv) => *dv == d - 1,
                        None => false,
                    };
                    proof {
                        if is_cand {
                            assert(is_dist(g, n, t, dm1));
                        } else {
                            assert(!is_dist(g, n, t, dm1)) by {
                                if is_dist(g, n, t, dm1) {
                                    assert(reachable(g, n, t)) by {
                                        assert(within(g, n, t, dm1));
                                    }
                                    assert(dm@.contains_key(t));
                                    lemma_dist_unique(g, n, t, dm1, dm@[t] as nat);
                                }
                            }
                        }
                    }
                    if is_cand {
                        cands.push(n);
                        proof {
                            assert(cands@ == pre.push(n));
                            assert(cands@ =~= cand_filter(g, nbrs@.take(j2 + 1), t, dm1));
                        }
                        if !vec_contains(unreliable, n) {
                            let ghost relpre = rel@;
                            rel.push(n);
                            proof {
                                assert(cands@.drop_last() =~= pre);
                                assert(rel@ == relpre.push(n));
                                assert(rel@ =~= rel_filter(cands@, unreliable@));
                            }
                        } else {
                            proof {
                                assert(cands@.drop_last() =~= pre);
                                assert(rel@ =~= rel_filter(cands@, unreliable@));
                            }
                        }
                    } else {
                        proof {
                            assert(cands@ =~= cand_filter(g, nbrs@.take(j2 + 1), t, dm1));
                        }
                    }
                    j2 += 1;
                }
                proof {
                    assert(nbrs@.take(nlen as int) =~= nbrs@);
                    assert(reachable(g, source, t)) by {
                        assert(within(g, source, t, d as nat));
                    }
                    lemma_cand_nonempty(g, source, t, unreliable@);
                    lemma_dist_unique(g, source, t, d as nat, sdist(g, source, t));
                    assert(dm1 == (sdist(g, source, t) - 1) as nat);
                }
                let ghost tbefore = table@;
                let hops: Vec<u64> = if rel.len() > 0 {
                    rel
                } else {
                    cands
                };
                proof {
                    assert(hops@ == next_hops_for(g, source, unreliable@, t));
                }
                table.insert(t, hops);
                proof {
                    assert forall|x: u64| #[trigger]
                        table@.contains_key(x) <==> (tk@.take(idx + 1).contains(x) && x
                            != source) by {
                        assert(tk@.take(idx + 1).drop_last() =~= tk@.take(idx as int));
                        if table@.contains_key(x) {
                            if x == t {
                                assert(tk@.take(idx + 1)[idx as int] == t);
                            } else {
                                assert(tbefore.contains_key(x));
                                let i = choose|i: int|
                                    0 <= i < tk@.take(idx as int).len() && tk@.take(idx as int)[i]
                                        == x;
                                assert(tk@.take(idx + 1)[i] == x);
                            }
                        } else {
                            if tk@.take(idx + 1).contains(x) && x != source {
                                let i = choose|i: int|
                                    0 <= i < tk@.take(idx + 1).len() && #[trigger] tk@.take(
                                        idx + 1,
                                    )[i] == x;
                                if i < idx {
                                    assert(tk@.take(idx as int)[i] == x);
                                    assert(tbefore.contains_key(x));
                                } else {
                                    assert(x == t);
                                }
                            }
                        }
                    }
                }
            } else {
                proof {
                    assert forall|x: u64| #[trigger]
                        table@.contains_key(x) <==> (tk@.take(idx + 1).contains(x) && x
                            != source) by {
                        assert(tk@.take(idx + 1).drop_last() =~= tk@.take(idx as int));
                        if table@.contains_key(x) {
                            let i = choose|i: int|
                                0 <= i < tk@.take(idx as int).len() && tk@.take(idx as int)[i] == x;
                            assert(tk@.take(idx + 1)[i] == x);
                        } else {
                            if tk@.take(idx + 1).contains(x) && x != source {
                                let i = choose|i: int|
                                    0 <= i < tk@.take(idx + 1).len() && #[trigger] tk@.take(
                                        idx + 1,
                                    )[i] == x;
                                if i < idx {
                                    assert(tk@.take(idx as int)[i] == x);
                                } else {
                                    assert(x == t);
                                }
                            }
                        }
                    }
                }
            }
            idx += 1;
        }
        proof {
            assert(tk@.take(tlen as int) =~= tk@);
            assert forall|t: u64| #[trigger]
                table@.contains_key(t) <==> (t != source && reachable(g, source, t)) by {
                if t != source && reachable(g, source, t) {
                    assert(dist_s@.contains_key(t));
                    assert(tk@.contains(t));
                }
            }
            assert forall|t: u64| #[trigger] table@.contains_key(t) implies table@[t]@.len() > 0
                && (forall|i: int|
                0 <= i < table@[t]@.len() ==> has_edge(g, source, #[trigger] table@[t]@[i])
                    && is_dist(g, table@[t]@[i], t, (sdist(g, source, t) - 1) as nat)) by {
                lemma_cand_nonempty(g, source, t, unreliable@);
                let dd = sdist(g, source, t);
                let ns = list_of(g, source);
                let cands = cand_filter(g, ns, t, (dd - 1) as nat);
                lemma_cand_filter_elems(g, ns, t, (dd - 1) as nat);
                lemma_rel_filter_elems(cands, unreliable@);
                assert forall|i: int|
                    0 <= i < table@[t]@.len() implies has_edge(g, source, #[trigger] table@[t]@[i])
                        && is_dist(g, table@[t]@[i], t, (dd - 1) as nat) by {
                    let hop = table@[t]@[i];
                    if rel_filter(cands, unreliable@).len() > 0 {
                        assert(cands.contains(hop));
                    } else {
                        assert(cands.contains(hop)) by {
                            assert(table@[t]@ == cands);
                        }
                    }
                    let ci = choose|ci: int| 0 <= ci < cands.len() && cands[ci] == hop;
                    assert(ns.contains(cands[ci]) && is_dist(g, cands[ci], t, (dd - 1) as nat));
                }
            }
        }
        table
    }
}


/// The contract a breadth-first distance map from `start` satisfies.
pub open spec fn dist_map_ok(g: AdjView, start: u64, m: UMap<u64>) -> bool {
    &&& m.wf()
    &&& forall|t: u64| #[trigger] m@.contains_key(t) <==> reachable(g, start, t)
    &&& forall|t: u64| #[trigger] m@.contains_key(t) ==> is_dist(g, start, t, m@[t] as nat)
}

/// The exact distance from `s` to `t` (meaningful when `t` is reachable).
pub open spec fn sdist(g: AdjView, s: u64, t: u64) -> nat {
    choose|k: nat| is_dist(g, s, t, k)
}

/// The neighbours (in list order) whose exact distance to `t` is `dm1`.
pub open spec fn cand_filter(g: AdjView, ns: Seq<u64>, t: u64, dm1: nat) -> Seq<u64>
    decreases ns.len(),
{
    if ns.len() == 0 {
        Seq::empty()
    } else {
        let pre = cand_filter(g, ns.drop_last(), t, dm1);
        if is_dist(g, ns.last(), t, dm1) {
            pre.push(ns.last())
        } else {
            pre
        }
    }
}

/// The elements of `ns` (in order) that are not listed as unreliable.
pub open spec fn rel_filter(ns: Seq<u64>, unreliable: Seq<u64>) -> Seq<u64>
    decreases ns.len(),
{
    if ns.len() == 0 {
        Seq::empty()
    } else {
        let pre = rel_filter(ns.drop_last(), unreliable);
        if !unreliable.contains(ns.last()) {
            pre.push(ns.last())
        } else {
            pre
        }
    }
}

/// The next-hop list for a reachable target `t`: every neighbour of
/// `source` lying on a shortest path, with hops through unreliable peers
/// kept only when no reliable hop achieves the same distance.
pub open spec fn next_hops_for(g: AdjView, source: u64, unreliable: Seq<u64>, t: u64) -> Seq<u64> {
    let cands = cand_filter(g, list_of(g, source), t, (sdist(g, source, t) - 1) as nat);
    let rel = rel_filter(cands, unreliable);
    if rel.len() > 0 {
        rel
    } else {
        cands
    }
}

/// Every reachable target has an exact distance.
pub proof fn lemma_reachable_has_dist(g: AdjView, s: u64, t: u64, k: nat)
    requires
        within(g, s, t, k),
    ensures
        exists|kk: nat| is_dist(g, s, t, kk),
        is_dist(g, s, t, sdist(g, s, t)),
    decreases k,
{
    if k > 0 && within(g, s, t, (k - 1) as nat) {
        lemma_reachable_has_dist(g, s, t, (k - 1) as nat);
    } else {
        assert(is_dist(g, s, t, k));
    }
}

/// What the candidate filter keeps: exactly the listed neighbours at the
/// right distance, in list order.
pub proof fn lemma_cand_filter_elems(g: AdjView, ns: Seq<u64>, t: u64, dm1: nat)
    ensures
        forall|i: int|
            0 <= i < cand_filter(g, ns, t, dm1).len() ==> ns.contains(
                #[trigger] cand_filter(g, ns, t, dm1)[i],
            ) && is_dist(g, cand_filter(g, ns, t, dm1)[i], t, dm1),
        forall|n: u64|
            ns.contains(n) && is_dist(g, n, t, dm1) ==> cand_filter(g, ns, t, dm1).contains(n),
    decreases ns.len(),
{
    if ns.len() > 0 {
        let pre = cand_filter(g, ns.drop_last(), t, dm1);
        lemma_cand_filter_elems(g, ns.drop_last(), t, dm1);
        assert forall|i: int|
            0 <= i < cand_filter(g, ns, t, dm1).len() implies ns.contains(
            #[trigger] cand_filter(g, ns, t, dm1)[i],
        ) && is_dist(g, cand_filter(g, ns, t, dm1)[i], t, dm1) by {
            let c = cand_filter(g, ns, t, dm1);
            if i < pre.len() {
                assert(c[i] == pre[i]);
                assert(ns.drop_last().contains(pre[i]));
                let j = choose|j: int| 0 <= j < ns.drop_last().len() && ns.drop_last()[j] == pre[i];
                assert(ns[j] == pre[i]);
            } else {
                assert(c[i] == ns.last());
                assert(ns[ns.len() - 1] == ns.last());
            }
        }
        assert forall|n: u64| ns.contains(n) && is_dist(g, n, t, dm1) implies cand_filter(
            g,
            ns,
            t,
            dm1,
        ).contains(n) by {
            let c = cand_filter(g, ns, t, dm1);
            if n == ns.last() && is_dist(g, ns.last(), t, dm1) {
                assert(c[c.len() - 1] == n);
            } else {
                let j = choose|j: int| 0 <= j < ns.len() && ns[j] == n;
                assert(j < ns.len() - 1) by {
                    if j == ns.len() - 1 {
                        assert(n == ns.last());
                    }
                }
                assert(ns.drop_last()[j] == n);
                assert(ns.drop_last().contains(n));
                assert(pre.contains(n));
                let i = choose|i: int| 0 <= i < pre.len() && pre[i] == n;
                assert(c[i] == n);
            }
        }
    }
}

/// What the reliability filter keeps.
pub proof fn lemma_rel_filter_elems(ns: Seq<u64>, unreliable: Seq<u64>)
    ensures
        forall|i: int|
            0 <= i < rel_filter(ns, unreliable).len() ==> ns.contains(
                #[trigger] rel_filter(ns, unreliable)[i],
            ) && !unreliable.contains(rel_filter(ns, unreliable)[i]),
    decreases ns.len(),
{
    if ns.len() > 0 {
        let pre = rel_filter(ns.drop_last(), unreliable);
        lemma_rel_filter_elems(ns.drop_last(), unreliable);
        assert forall|i: int|
            0 <= i < rel_filter(ns, unreliable).len() implies ns.contains(
            #[trigger] rel_filter(ns, unreliable)[i],
        ) && !unreliable.contains(rel_filter(ns, unreliable)[i]) by {
            let c = rel_filter(ns, unreliable);
            if i < pre.len() {
                assert(c[i] == pre[i]);
                assert(ns.drop_last().contains(pre[i]));
                let j = choose|j: int| 0 <= j < ns.drop_last().len() && ns.drop_last()[j] == pre[i];
                assert(ns[j] == pre[i]);
            } else {
                assert(c[i] == ns.last());
                assert(ns[ns.len() - 1] == ns.last());
            }
        }
    }
}

/// A reachable target distinct from the source always has a candidate
/// next hop, so its next-hop list is never empty.
pub proof fn lemma_cand_nonempty(g: AdjView, source: u64, t: u64, unreliable: Seq<u64>)
    requires
        reachable(g, source, t),
        t != source,
    ensures
        sdist(g, source, t) > 0,
        is_dist(g, source, t, sdist(g, source, t)),
        next_hops_for(g, source, unreliable, t).len() > 0,
{
    let k = choose|k: nat| within(g, source, t, k);
    lemma_reachable_has_dist(g, source, t, k);
    let d = sdist(g, source, t);
    assert(d > 0) by {
        if d == 0 {
            assert(within(g, source, t, 0));
        }
    }
    lemma_within_first_hop(g, source, t, d);
    let n = choose|n: u64| #[trigger] has_edge(g, source, n) && within(g, n, t, (d - 1) as nat);
    assert(is_dist(g, n, t, (d - 1) as nat)) by {
        if (d - 1) as nat > 0 && within(g, n, t, (d - 2) as nat) {
            lemma_within_prepend(g, source, n, t, (d - 2) as nat);
            assert(within(g, source, t, (d - 1) as nat));
        }
    }
    let ns = list_of(g, source);
    assert(ns.contains(n));
    lemma_cand_filter_elems(g, ns, t, (d - 1) as nat);
    let cands = cand_filter(g, ns, t, (d - 1) as nat);
    assert(cands.contains(n));
    assert(cands.len() > 0);

}

/// Inserting an edge preserves well-formedness.
pub proof fn lemma_add_edge_wf(g: AdjView, a: u64, b: u64)
    requires
        adj_wf(g),
        a != b,
    ensures
        adj_wf(spec_add_edge(g, a, b)),
{
    let g1 = spec_add_dir(g, a, b);
    let g2 = spec_add_dir(g1, b, a);
    assert forall|k: u64| #[trigger] g2.contains_key(k) implies seq_nodup(g2[k]) by {
        if k == b {
            let l1 = list_of(g1, b);
            assert(seq_nodup(l1)) by {
                if k == a {
                } else {
                    if g.contains_key(b) {
                        assert(g1[b] == g[b]);
                    }
                }
            }
            if !l1.contains(a) {
                assert forall|i: int, j: int| 0 <= i < j < l1.push(a).len() implies l1.push(a)[i]
                    != l1.push(a)[j] by {
                    if j == l1.len() {
                        assert(l1.push(a)[i] == l1[i]);
                        assert(l1.contains(l1[i])) by {
                            assert(l1[i] == l1[i]);
                        }
                    }
                }
            }
        } else if k == a {
            let l0 = list_of(g, a);
            if !l0.contains(b) {
                assert forall|i: int, j: int| 0 <= i < j < l0.push(b).len() implies l0.push(b)[i]
                    != l0.push(b)[j] by {
                    if j == l0.len() {
                        assert(l0.push(b)[i] == l0[i]);
                        assert(l0.contains(l0[i])) by {
                            assert(l0[i] == l0[i]);
                        }
                    }
                }
            }
        }
    }
    lemma_add_edge_has(g, a, b);
    assert forall|k: u64| !has_edge(g2, k, k) by {
        assert(has_edge(g2, k, k) <==> has_edge(g, k, k) || (k == a && k == b));
    }
    let ge = spec_add_edge(g, a, b);
    assert forall|x: u64, y: u64| #[trigger] has_edge(g2, x, y) implies has_edge(g2, y, x) by {
        assert(has_edge(ge, x, y) <==> has_edge(g, x, y) || (x == a && y == b) || (x == b && y
            == a));
        assert(has_edge(ge, y, x) <==> has_edge(g, y, x) || (y == a && x == b) || (y == b && x
            == a));
    }
}

/// The edge relation after an insertion.
pub proof fn lemma_add_edge_has(g: AdjView, a: u64, b: u64)
    requires
        a != b,
    ensures
        forall|x: u64, y: u64| #[trigger]
            has_edge(spec_add_edge(g, a, b), x, y) <==> has_edge(g, x, y) || (x == a && y == b) || (
            x == b && y == a),
{
    let g1 = spec_add_dir(g, a, b);
    let g2 = spec_add_dir(g1, b, a);
    assert forall|x: u64, y: u64| #[trigger]
        has_edge(g2, x, y) <==> has_edge(g, x, y) || (x == a && y == b) || (x == b && y
            == a) by {
        if x == b {
            let l1 = list_of(g1, b);
            if l1.contains(a) {
                assert(g2[b] == l1);
            } else {
                assert(g2[b] == l1.push(a));
                assert(forall|z: u64| l1.push(a).contains(z) <==> l1.contains(z) || z == a) by {
                    lemma_push_contains(l1, a);
                }
            }
            if b == a {
            } else {
                assert(list_of(g1, b) == list_of(g, b));
            }
        } else if x == a {
            assert(g2.contains_key(a) == g1.contains_key(a));
            assert(g2[a] == g1[a]);
            let l0 = list_of(g, a);
            if l0.contains(b) {
                assert(g1[a] == l0);
            } else {
                assert(g1[a] == l0.push(b));
                lemma_push_contains(l0, b);
            }
        } else {
            assert(has_edge(g2, x, y) == has_edge(g, x, y));
        }
    }
}

pub proof fn lemma_push_contains_edges(l: Seq<crate::network_protocol::Edge>, z: crate::network_protocol::Edge)
    ensures
        forall|w: crate::network_protocol::Edge| l.push(z).contains(w) <==> l.contains(w) || w == z,
{
    assert forall|w: crate::network_protocol::Edge| l.push(z).contains(w) <==> l.contains(w) || w
        == z by {
        if l.contains(w) {
            let i = choose|i: int| 0 <= i < l.len() && l[i] == w;
            assert(l.push(z)[i] == w);
        }
        assert(l.push(z)[l.len() as int] == z);
        if l.push(z).contains(w) {
            let i = choose|i: int| 0 <= i < l.push(z).len() && l.push(z)[i] == w;
            if i < l.len() {
                assert(l[i] == w);
            }
        }
    }
}

pub proof fn lemma_push_contains(l: Seq<u64>, z: u64)
    ensures
        forall|w: u64| l.push(z).contains(w) <==> l.contains(w) || w == z,
{
    assert forall|w: u64| l.push(z).contains(w) <==> l.contains(w) || w == z by {
        if l.contains(w) {
            let i = choose|i: int| 0 <= i < l.len() && l[i] == w;
            assert(l.push(z)[i] == w);
        }
        assert(l.push(z)[l.len() as int] == z);
        if l.push(z).contains(w) {
            let i = choose|i: int| 0 <= i < l.push(z).len() && l.push(z)[i] == w;
            if i < l.len() {
                assert(l[i] == w);
            }
        }
    }
}

/// The edge relation after a removal.
pub proof fn lemma_remove_edge_has(g: AdjView, a: u64, b: u64)
    requires
        adj_wf(g),
        a != b,
    ensures
        forall|x: u64, y: u64| #[trigger]
            has_edge(spec_remove_edge(g, a, b), x, y) <==> has_edge(g, x, y) && !(x == a && y == b)
                && !(x == b && y == a),
{
    let g1 = spec_remove_dir(g, a, b);
    let g2 = spec_remove_dir(g1, b, a);
    assert forall|x: u64, y: u64| #[trigger]
        has_edge(g2, x, y) <==> has_edge(g, x, y) && !(x == a && y == b) && !(x == b && y
            == a) by {
        if x == b && g1.contains_key(b) {
            assert(seq_nodup(g1[b])) by {
                if g.contains_key(b) {
                    lemma_remove_first_contains(g[b], a);
                }
            }
            lemma_remove_first_contains(g1[b], a);
            assert(g1.contains_key(b) == g.contains_key(b));
            if b != a && g.contains_key(b) {
                assert(g1[b] == g[b]);
            }
        } else if x == a && g.contains_key(a) {
            assert(g2.contains_key(a) && g2[a] == g1[a]) by {
                if g1.contains_key(b) {
                }
            }
            lemma_remove_first_contains(g[a], b);
        } else {
            if x != a && x != b {
                assert(g2.contains_key(x) == g.contains_key(x));
                if g.contains_key(x) {
                    assert(g2[x] == g[x]);
                }
            }
        }
    }
}

/// What `seq_remove_first` leaves, for duplicate-free sequences.
pub proof fn lemma_remove_first_contains(l: Seq<u64>, z: u64)
    requires
        seq_nodup(l),
    ensures
        seq_nodup(seq_remove_first(l, z)),
        forall|w: u64| seq_remove_first(l, z).contains(w) <==> l.contains(w) && w != z,
{
    if l.contains(z) {
        let i = l.index_of(z);
        assert(0 <= i < l.len() && l[i] == z);
        let r = l.remove(i);
        assert forall|i1: int, j1: int| 0 <= i1 < j1 < r.len() implies r[i1] != r[j1] by {
            let o1 = if i1 < i { i1 } else { i1 + 1 };
            let o2 = if j1 < i { j1 } else { j1 + 1 };
            assert(r[i1] == l[o1]);
            assert(r[j1] == l[o2]);
        }
        assert forall|w: u64| r.contains(w) <==> l.contains(w) && w != z by {
            if r.contains(w) {
                let j = choose|j: int| 0 <= j < r.len() && r[j] == w;
                let oj = if j < i { j } else { j + 1 };
                assert(l[oj] == w);
                assert(w != z) by {
                    if oj < i {
                        assert(l[oj] != l[i]);
                    } else {
                        assert(l[i] != l[oj]);
                    }
                }
            }
            if l.contains(w) && w != z {
                let j = choose|j: int| 0 <= j < l.len() && l[j] == w;
                assert(j != i);
                if j < i {
                    assert(r[j] == w);
                } else {
                    assert(r[j - 1] == w);
                }
            }
        }
    }
}

/// After removing one direction, lists are still duplicate-free and loops
/// still absent; only symmetry is temporarily broken.
pub proof fn lemma_remove_dir_partial_wf(g: AdjView, a: u64, b: u64)
    requires
        adj_wf(g),
        a != b,
    ensures
        forall|k: u64| #[trigger]
            spec_remove_dir(g, a, b).contains_key(k) ==> seq_nodup(spec_remove_dir(g, a, b)[k]),
{
    let g1 = spec_remove_dir(g, a, b);
    assert forall|k: u64| #[trigger] g1.contains_key(k) implies seq_nodup(g1[k]) by {
        if k == a && g.contains_key(a) {
            lemma_remove_first_contains(g[a], b);
        } else {
            if g.contains_key(k) {
            }
        }
    }
}

/// Removing an edge preserves well-formedness.
pub proof fn lemma_remove_edge_wf(g: AdjView, a: u64, b: u64)
    requires
        adj_wf(g),
        a != b,
    ensures
        adj_wf(spec_remove_edge(g, a, b)),
{
    let g2 = spec_remove_edge(g, a, b);
    lemma_remove_edge_has(g, a, b);
    assert forall|k: u64| #[trigger] g2.contains_key(k) implies seq_nodup(g2[k]) by {
        let g1 = spec_remove_dir(g, a, b);
        lemma_remove_dir_partial_wf(g, a, b);
        if k == b && g1.contains_key(b) {
            lemma_remove_first_contains(g1[b], a);
        } else {
            if g1.contains_key(k) {
            }
        }
    }
    assert forall|k: u64| !has_edge(g2, k, k) by {
        assert(has_edge(g2, k, k) ==> has_edge(g, k, k));
    }
    assert forall|x: u64, y: u64| #[trigger] has_edge(g2, x, y) implies has_edge(g2, y, x) by {
        assert(has_edge(g2, x, y) ==> has_edge(g, x, y));
    }
}

/// Entries of a key-unique sequence are no more numerous than a finite
/// set containing all their keys.
pub proof fn lemma_entries_card<V>(s: Seq<(u64, V)>, allowed: Set<u64>)
    requires
        crate::vmap::seq_keys_unique(s),
        allowed.finite(),
        forall|i: int| 0 <= i < s.len() ==> allowed.contains((#[trigger] s[i]).0),
    ensures
        s.len() <= allowed.len(),
    decreases s.len(),
{
    if s.len() > 0 {
        let last = s.last();
        let rest = s.drop_last();
        assert(allowed.contains(s[s.len() - 1].0));
        assert forall|i: int| 0 <= i < rest.len() implies allowed.remove(last.0).contains(
            (#[trigger] rest[i]).0,
        ) by {
            assert(rest[i] == s[i]);
            assert(s[i].0 != s[s.len() - 1].0);
        }
        lemma_entries_card(rest, allowed.remove(last.0));
    }
}

/// There is a path of length at most `k` from `s` to `t`.
pub open spec fn within(g: AdjView, s: u64, t: u64, k: nat) -> bool
    decreases k,
{
    s == t || (k > 0 && exists|u: u64|
        #[trigger] has_edge(g, u, t) && within(g, s, u, (k - 1) as nat))
}

/// Some path of active edges joins `s` to `t` (including `t == s`).
pub open spec fn reachable(g: AdjView, s: u64, t: u64) -> bool {
    exists|k: nat| within(g, s, t, k)
}

/// `k` is the exact distance from `s` to `t`: a path of length `k` exists
/// and none shorter does.
pub open spec fn is_dist(g: AdjView, s: u64, t: u64, k: nat) -> bool {
    within(g, s, t, k) && (k > 0 ==> !within(g, s, t, (k - 1) as nat))
}

/// A path within `k` steps is also within any larger bound.
pub proof fn lemma_within_widen(g: AdjView, s: u64, t: u64, k: nat, k2: nat)
    requires
        within(g, s, t, k),
        k <= k2,
    ensures
        within(g, s, t, k2),
    decreases k2 - k,
{
    if k < k2 {
        lemma_within_succ(g, s, t, k);
        lemma_within_widen(g, s, t, (k + 1) as nat, k2);
    }
}

pub proof fn lemma_within_succ(g: AdjView, s: u64, t: u64, k: nat)
    requires
        within(g, s, t, k),
    ensures
        within(g, s, t, (k + 1) as nat),
    decreases k,
{
    if s != t {
        let u = choose|u: u64| #[trigger] has_edge(g, u, t) && within(g, s, u, (k - 1) as nat);
        lemma_within_succ(g, s, u, (k - 1) as nat);
        assert(has_edge(g, u, t) && within(g, s, u, k));
    }
}

/// A path can be prepended with one edge at its source.
pub proof fn lemma_within_prepend(g: AdjView, s: u64, n: u64, t: u64, k: nat)
    requires
        has_edge(g, s, n),
        within(g, n, t, k),
    ensures
        within(g, s, t, (k + 1) as nat),
    decreases k,
{
    if n == t {
        assert(has_edge(g, s, t) && within(g, s, s, k));
    } else {
        let u = choose|u: u64| #[trigger] has_edge(g, u, t) && within(g, n, u, (k - 1) as nat);
        lemma_within_prepend(g, s, n, u, (k - 1) as nat);
        assert(has_edge(g, u, t) && within(g, s, u, k));
    }
}

/// A path from `s` to a distinct `t` starts with an edge out of `s`:
/// there is a neighbour of `s` that reaches `t` one step sooner.
pub proof fn lemma_within_first_hop(g: AdjView, s: u64, t: u64, k: nat)
    requires
        within(g, s, t, k),
        s != t,
    ensures
        k > 0,
        exists|n: u64| #[trigger] has_edge(g, s, n) && within(g, n, t, (k - 1) as nat),
    decreases k,
{
    let u = choose|u: u64| #[trigger] has_edge(g, u, t) && within(g, s, u, (k - 1) as nat);
    if u == s {
        assert(has_edge(g, s, t) && within(g, t, t, (k - 1) as nat));
    } else {
        lemma_within_first_hop(g, s, u, (k - 1) as nat);
        let n = choose|n: u64| #[trigger] has_edge(g, s, n) && within(g, n, u, (k - 2) as nat);
        assert(has_edge(g, u, t) && within(g, n, u, (k - 2) as nat));
        assert(within(g, n, t, (k - 1) as nat));
    }
}

/// Every node reachable from a member of a successor-closed set is itself
/// a member.
pub proof fn lemma_closed_reach(g: AdjView, dom: Set<u64>, s: u64, t: u64, k: nat)
    requires
        dom.contains(s),
        forall|u: u64, v: u64| dom.contains(u) && #[trigger] has_edge(g, u, v) ==> dom.contains(v),
        within(g, s, t, k),
    ensures
        dom.contains(t),
    decreases k,
{
    if s != t {
        let u = choose|u: u64| #[trigger] has_edge(g, u, t) && within(g, s, u, (k - 1) as nat);
        lemma_closed_reach(g, dom, s, u, (k - 1) as nat);
    }
}

/// The exact distance is unique.
pub proof fn lemma_dist_unique(g: AdjView, s: u64, t: u64, k1: nat, k2: nat)
    requires
        is_dist(g, s, t, k1),
        is_dist(g, s, t, k2),
    ensures
        k1 == k2,
{
    if k1 < k2 {
        lemma_within_widen(g, s, t, k1, (k2 - 1) as nat);
    } else if k2 < k1 {
        lemma_within_widen(g, s, t, k2, (k1 - 1) as nat);
    }
}

} // verus!
