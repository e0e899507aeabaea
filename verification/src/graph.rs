//! Routing graph engine: applies validated edge updates, prunes expired
//! edges and unreachable components, archives the latter, and publishes
//! immutable snapshots with a fresh next-hop table.
use crate::bfs;
use crate::bfs::{AdjView, adj_wf, has_edge, spec_add_edge, spec_remove_dir, spec_remove_edge, reachable,
    next_hops_for, sdist, is_dist};
use crate::edge_map::{edge_map_of, em_new, em_get, em_insert, em_remove, em_clone, em_entries,
    em_len};
use crate::network_protocol::{Edge, EdgeState, PeerId};
use crate::store::Store;
use crate::util::vec_contains;
use crate::vmap::UMap;
use vstd::prelude::*;

verus! {

/// Engine configuration: this node's identity and the two pruning knobs.
pub struct GraphConfig {
    pub node_id: PeerId,
    pub prune_unreachable_peers_after: i64,
    pub prune_edges_after: Option<i64>,
}

impl GraphConfig {
    pub open spec fn wf(&self) -> bool {
        &&& 0 <= self.prune_unreachable_peers_after
        &&& match self.prune_edges_after {
            Some(pa) => 0 <= pa,
            None => true,
        }
    }
}

/// The canonical key of the undirected pair `{a, b}`.
pub open spec fn canon_key(a: u64, b: u64) -> (u64, u64) {
    if a < b {
        (a, b)
    } else {
        (b, a)
    }
}

/// Whether the edge map records an active edge between `a` and `b`.
pub open spec fn em_active(em: Map<(u64, u64), Edge>, a: u64, b: u64) -> bool {
    a != b && em.contains_key(canon_key(a, b)) && em[canon_key(a, b)].spec_active()
}

/// Every stored edge is canonical and keyed by its own endpoints.
pub open spec fn em_keys_ok(em: Map<(u64, u64), Edge>) -> bool {
    forall|k: (u64, u64)| #[trigger]
        em.contains_key(k) ==> em[k].key_ok() && em[k].spec_key() == k
}

/// The adjacency structure records exactly the active stored edges.
pub open spec fn graph_matches(g: AdjView, em: Map<(u64, u64), Edge>) -> bool {
    forall|a: u64, b: u64| #[trigger] has_edge(g, a, b) <==> em_active(em, a, b)
}

/// A stored edge with the same key and a nonce at least as high exists.
pub open spec fn has_newer(em: Map<(u64, u64), Edge>, e: Edge) -> bool {
    em.contains_key(e.spec_key()) && em[e.spec_key()].nonce >= e.nonce
}

/// The edge is within the configured age window at time `now`.
pub open spec fn within_window(pa: Option<i64>, now: i64, e: Edge) -> bool {
    match pa {
        Some(p) => e.created_at >= now - p,
        None => true,
    }
}

/// Whether a merge accepts the edge: it must be strictly newer than any
/// stored version of its key, and not expired.
pub open spec fn edge_accepted(em: Map<(u64, u64), Edge>, pa: Option<i64>, now: i64, e: Edge) -> bool {
    !has_newer(em, e) && within_window(pa, now, e)
}

/// The effect of merging a single edge into the edge map and adjacency.
pub open spec fn apply_one(em: Map<(u64, u64), Edge>, gv: AdjView, pa: Option<i64>, now: i64, e: Edge) -> (
    Map<(u64, u64), Edge>,
    AdjView,
    bool,
) {
    if edge_accepted(em, pa, now, e) {
        let gv2 = if e.spec_active() {
            spec_add_edge(gv, e.a.0, e.b.0)
        } else {
            spec_remove_edge(gv, e.a.0, e.b.0)
        };
        (em.insert(e.spec_key(), e), gv2, true)
    } else {
        (em, gv, false)
    }
}

/// The effect of merging a sequence of edges in order, with the accepted
/// subsequence.
pub open spec fn accept_seq(em: Map<(u64, u64), Edge>, gv: AdjView, pa: Option<i64>, now: i64, es: Seq<Edge>) -> (
    Map<(u64, u64), Edge>,
    AdjView,
    Seq<Edge>,
)
    decreases es.len(),
{
    if es.len() == 0 {
        (em, gv, Seq::empty())
    } else {
        let pre = accept_seq(em, gv, pa, now, es.drop_last());
        let one = apply_one(pre.0, pre.1, pa, now, es.last());
        (one.0, one.1, if one.2 {
            pre.2.push(es.last())
        } else {
            pre.2
        })
    }
}

/// The whole engine state, abstracted.
pub struct EngineView {
    pub em: Map<(u64, u64), Edge>,
    pub gv: AdjView,
    pub ra: Map<u64, i64>,
    pub ce: Map<u64, Seq<Edge>>,
    pub pc: Map<u64, u64>,
    pub next_cid: u64,
    pub last_pruned: Option<i64>,
}

/// Reloading one peer's archived component, if it is neither this node
/// nor currently reachable.
pub open spec fn load_one(cfg: GraphConfig, v: EngineView, now: i64, p: u64) -> EngineView {
    if p == cfg.node_id.0 || v.ra.contains_key(p) || !v.pc.contains_key(p) {
        v
    } else {
        let c = v.pc[p];
        let bundle = if v.ce.contains_key(c) {
            v.ce[c]
        } else {
            Seq::empty()
        };
        let applied = accept_seq(v.em, v.gv, cfg.prune_edges_after, now, bundle);
        EngineView {
            em: applied.0,
            gv: applied.1,
            ce: v.ce.remove(c),
            pc: v.pc.remove(p),
            ..v
        }
    }
}

/// Reloading the components of both endpoints of every incoming edge,
/// in order.
pub open spec fn load_all(cfg: GraphConfig, v: EngineView, now: i64, es: Seq<Edge>) -> EngineView
    decreases es.len(),
{
    if es.len() == 0 {
        v
    } else {
        let pre = load_all(cfg, v, now, es.drop_last());
        let e = es.last();
        load_one(cfg, load_one(cfg, pre, now, e.spec_key().0), now, e.spec_key().1)
    }
}

/// Reloading components never touches the reachability clock, the
/// component counter, or the prune throttle.
pub proof fn lemma_load_all_frame(cfg: GraphConfig, v: EngineView, now: i64, es: Seq<Edge>)
    ensures
        load_all(cfg, v, now, es).ra == v.ra,
        load_all(cfg, v, now, es).next_cid == v.next_cid,
        load_all(cfg, v, now, es).last_pruned == v.last_pruned,
    decreases es.len(),
{
    if es.len() > 0 {
        lemma_load_all_frame(cfg, v, now, es.drop_last());
    }
}

/// The stored edges that survive the age window at time `now`.
pub open spec fn em_age_filter(em: Map<(u64, u64), Edge>, pa: Option<i64>, now: i64) -> Map<
    (u64, u64),
    Edge,
> {
    Map::new(|k: (u64, u64)| em.contains_key(k) && within_window(pa, now, em[k]), |k: (u64, u64)| em[k])
}

/// An edge key touching the peer set.
pub open spec fn key_hit(k: (u64, u64), peers: Set<u64>) -> bool {
    peers.contains(k.0) || peers.contains(k.1)
}

/// The endpoints of stored edges that have not been reachable since
/// `since` (or never were).
pub open spec fn is_stale(em: Map<(u64, u64), Edge>, ra: Map<u64, i64>, since: int, p: u64) -> bool {
    ||| ra.contains_key(p) && ra[p] < since
    ||| (exists|k: (u64, u64)| #[trigger] em.contains_key(k) && (k.0 == p || k.1 == p))
        && !ra.contains_key(p)
}

pub open spec fn stale_peers(em: Map<(u64, u64), Edge>, ra: Map<u64, i64>, since: int) -> Set<
    u64,
> {
    Set::new(|p: u64| is_stale(em, ra, since, p))
}

/// Membership in the stale-peer set, spelled out.
pub proof fn lemma_stale_peers(em: Map<(u64, u64), Edge>, ra: Map<u64, i64>, since: int)
    ensures
        forall|p: u64| #[trigger]
            stale_peers(em, ra, since).contains(p) <==> is_stale(em, ra, since, p),
{
}

/// The stored edges not incident to any peer of the set.
pub open spec fn em_prune_filter(em: Map<(u64, u64), Edge>, peers: Set<u64>) -> Map<
    (u64, u64),
    Edge,
> {
    Map::new(|k: (u64, u64)| em.contains_key(k) && !key_hit(k, peers), |k: (u64, u64)| em[k])
}

/// The reachability clock after marking this node and every routed peer
/// as seen `now`.
pub open spec fn ra_touched(ra: Map<u64, i64>, node: u64, routed: Set<u64>, now: i64) -> Map<
    u64,
    i64,
> {
    Map::new(
        |p: u64| ra.contains_key(p) || p == node || routed.contains(p),
        |p: u64|
            if p == node || routed.contains(p) {
                now
            } else {
                ra[p]
            },
    )
}

/// The map view of a removal clock without the pruned peers.
pub open spec fn ra_pruned(ra: Map<u64, i64>, stale: Set<u64>) -> Map<u64, i64> {
    Map::new(|p: u64| ra.contains_key(p) && !stale.contains(p), |p: u64| ra[p])
}

/// Whether the unreachable-peer pruning is due at `now`.
pub open spec fn prune_due(cfg: GraphConfig, last: Option<i64>, now: i64) -> bool {
    match last {
        None => true,
        Some(t) => t < now - cfg.prune_unreachable_peers_after / 2,
    }
}

/// The local-edge table of a snapshot: each stored edge incident to this
/// node, keyed by the opposite endpoint.
pub open spec fn local_edges_of(em: Map<(u64, u64), Edge>, node: u64) -> Map<u64, Edge> {
    Map::new(
        |p: u64| p != node && em.contains_key(canon_key(node, p)),
        |p: u64| em[canon_key(node, p)],
    )
}

/// The adjacency at the moment the next-hop table is computed: the
/// merged adjacency with the aged-out edge keys erased.
pub open spec fn mid_graph(cfg: GraphConfig, pre: EngineView, now: i64, incoming: Seq<Edge>) -> AdjView {
    let pa = cfg.prune_edges_after;
    let loaded = load_all(cfg, pre, now, incoming);
    let merged = accept_seq(loaded.em, loaded.gv, pa, now, incoming);
    adj_remove_keys(
        merged.1,
        Set::new(
            |k: (u64, u64)| merged.0.contains_key(k) && !within_window(pa, now, merged.0[k]),
        ),
    )
}

/// The full effect of one `update` call, relating the state before to
/// the state after, the accepted edges, and the published snapshot.
/// It follows the ordered steps: reload components, merge, age-prune,
/// recompute next hops, touch reachability, prune unreachable peers
/// (throttled), and build the snapshot.
pub open spec fn update_spec(
    cfg: GraphConfig,
    pre: EngineView,
    now: i64,
    incoming: Seq<Edge>,
    unreliable: Seq<u64>,
    post: EngineView,
    accepted: Seq<Edge>,
    snap_em: Map<(u64, u64), Edge>,
    snap_local: Map<u64, Edge>,
    nh: Map<u64, Seq<u64>>,
) -> bool {
    let node = cfg.node_id.0;
    let pa = cfg.prune_edges_after;
    let loaded = load_all(cfg, pre, now, incoming);
    let merged = accept_seq(loaded.em, loaded.gv, pa, now, incoming);
    let em4 = em_age_filter(merged.0, pa, now);
    let ra5 = ra_touched(pre.ra, node, nh.dom(), now);
    let due = prune_due(cfg, pre.last_pruned, now);
    let stale = stale_peers(em4, ra5, now - cfg.prune_unreachable_peers_after);
    let em6 = if due {
        em_prune_filter(em4, stale)
    } else {
        em4
    };
    &&& accepted == merged.2
    &&& ({
        let gv4 = mid_graph(cfg, pre, now, incoming);
        let hit_keys = Set::new(
            |k: (u64, u64)| em4.contains_key(k) && key_hit(k, stale),
        );
        &&& adj_wf(gv4)
        &&& graph_matches(gv4, em4)
        &&& (forall|t: u64| #[trigger]
            nh.contains_key(t) <==> (t != node && reachable(gv4, node, t)))
        &&& (forall|t: u64| #[trigger]
            nh.contains_key(t) ==> nh[t] == next_hops_for(gv4, node, unreliable, t)
                && nh[t].len() > 0)
        &&& post.gv == (if due && !stale.is_empty() {
            adj_remove_keys(gv4, hit_keys)
        } else {
            gv4
        })
    })
    &&& post.em == em6
    &&& adj_wf(post.gv) && graph_matches(post.gv, post.em)
    &&& post.ra == (if due {
        ra_pruned(ra5, stale)
    } else {
        ra5
    })
    &&& (if due && !stale.is_empty() {
        &&& post.next_cid == pre.next_cid + 1
        &&& exists|bundle: Seq<Edge>|
            {
                &&& post.ce == loaded.ce.insert(pre.next_cid, bundle)
                &&& forall|i: int|
                    0 <= i < bundle.len() ==> em4.contains_key((#[trigger] bundle[i]).spec_key())
                        && em4[bundle[i].spec_key()] == bundle[i] && key_hit(
                        bundle[i].spec_key(),
                        stale,
                    )
                &&& forall|k: (u64, u64)| #[trigger]
                    em4.contains_key(k) && key_hit(k, stale) ==> bundle.contains(em4[k])
            }
        &&& forall|p: u64|
            #![auto]
            stale.contains(p) ==> post.pc.contains_key(p) && post.pc[p] == pre.next_cid
        &&& forall|p: u64|
            !stale.contains(p) ==> (post.pc.contains_key(p) <==> loaded.pc.contains_key(p)) && (
            loaded.pc.contains_key(p) ==> post.pc[p] == loaded.pc[p])
    } else {
        &&& post.ce == loaded.ce
        &&& post.pc == loaded.pc
        &&& post.next_cid == pre.next_cid
    })
    &&& (due && stale.is_empty() ==> post.ce == loaded.ce && post.pc == loaded.pc)
    &&& post.last_pruned == (if due {
        Some(now)
    } else {
        pre.last_pruned
    })
    &&& snap_em == em6
    &&& snap_local == local_edges_of(em6, node)
}


/// The adjacency after erasing a set of canonical edge keys: every
/// neighbour list keeps exactly the neighbours whose pair with the list
/// owner is not in the set.
pub open spec fn adj_remove_keys(g: AdjView, ks: Set<(u64, u64)>) -> AdjView {
    Map::new(
        |a: u64| g.contains_key(a),
        |a: u64| g[a].filter(|b: u64| !ks.contains(canon_key(a, b))),
    )
}

/// A filter that keeps every element is the identity.
pub proof fn lemma_filter_keep_all(l: Seq<u64>, pred: spec_fn(u64) -> bool)
    requires
        forall|i: int| 0 <= i < l.len() ==> pred(#[trigger] l[i]),
    ensures
        l.filter(pred) == l,
    decreases l.len(),
{
    reveal_with_fuel(Seq::<u64>::filter, 2);
    if l.len() > 0 {
        lemma_filter_keep_all(l.drop_last(), pred);
        assert(pred(l[l.len() - 1]));
        assert(l.filter(pred) =~= l);
    }
}

/// Filters with pointwise-equal predicates agree.
pub proof fn lemma_filter_congruent(l: Seq<u64>, p: spec_fn(u64) -> bool, q: spec_fn(u64) -> bool)
    requires
        forall|i: int| 0 <= i < l.len() ==> p(#[trigger] l[i]) == q(l[i]),
    ensures
        l.filter(p) == l.filter(q),
    decreases l.len(),
{
    reveal_with_fuel(Seq::<u64>::filter, 2);
    if l.len() > 0 {
        lemma_filter_congruent(l.drop_last(), p, q);
        assert(p(l[l.len() - 1]) == q(l[l.len() - 1]));
    }
}

/// On a duplicate-free list, removing the first occurrence is filtering
/// the element out.
pub proof fn lemma_remove_first_is_filter(l: Seq<u64>, b: u64)
    requires
        crate::util::seq_nodup(l),
    ensures
        crate::util::seq_remove_first(l, b) == l.filter(|x: u64| x != b),
    decreases l.len(),
{
    reveal_with_fuel(Seq::<u64>::filter, 2);
    if l.len() == 0 {
        assert(crate::util::seq_remove_first(l, b) =~= l.filter(|x: u64| x != b));
    } else {
        let lp = l.drop_last();
        let x = l.last();
        assert(crate::util::seq_nodup(lp)) by {
            assert forall|i1: int, j1: int| 0 <= i1 < j1 < lp.len() implies lp[i1] != lp[j1] by {
                assert(l[i1] != l[j1]);
            }
        }
        lemma_remove_first_is_filter(lp, b);
        if x == b {
            assert(!lp.contains(b)) by {
                if lp.contains(b) {
                    let i = choose|i: int| 0 <= i < lp.len() && lp[i] == b;
                    assert(l[i] == l[l.len() - 1]);
                }
            }
            lemma_filter_keep_all(lp, |y: u64| y != b);
            assert(l.filter(|y: u64| y != b) == lp);
            assert(l.contains(b)) by {
                assert(l[l.len() - 1] == b);
            }
            assert(l.index_of(b) == l.len() - 1) by {
                let i = l.index_of(b);
                assert(0 <= i < l.len() && l[i] == b);
                if i < l.len() - 1 {
                    assert(l[i] != l[l.len() - 1]);
                }
            }
            assert(crate::util::seq_remove_first(l, b) =~= lp);
        } else {
            if l.contains(b) {
                assert(lp.contains(b)) by {
                    let i = choose|i: int| 0 <= i < l.len() && l[i] == b;
                    assert(i < l.len() - 1);
                    assert(lp[i] == b);
                }
                let i = l.index_of(b);
                assert(0 <= i < l.len() && l[i] == b);
                assert(i < l.len() - 1) by {
                    if i == l.len() - 1 {
                        assert(l[i] == x);
                    }
                }
                assert(lp.index_of(b) == i) by {
                    let j = lp.index_of(b);
                    assert(0 <= j < lp.len() && lp[j] == b);
                    if j < i {
                        assert(l[j] != l[i]);
                    } else if i < j {
                        assert(l[i] != l[j]);
                    }
                }
                assert(crate::util::seq_remove_first(l, b) =~= crate::util::seq_remove_first(
                    lp,
                    b,
                ).push(x)) by {
                    assert(crate::util::seq_remove_first(l, b) == l.remove(i));
                    assert(crate::util::seq_remove_first(lp, b) == lp.remove(i));
                }
                assert(l.filter(|y: u64| y != b) == lp.filter(|y: u64| y != b).push(x));
            } else {
                assert(!lp.contains(b)) by {
                    if lp.contains(b) {
                        let i = choose|i: int| 0 <= i < lp.len() && lp[i] == b;
                        assert(l[i] == b);
                    }
                }
                lemma_filter_keep_all(lp, |y: u64| y != b);
                assert(l.filter(|y: u64| y != b) =~= l) by {
                    assert(l.filter(|y: u64| y != b) == lp.push(x));
                }
            }
        }
    }
}

/// Erasing no keys is the identity.
pub proof fn lemma_adj_remove_empty(g: AdjView)
    ensures
        adj_remove_keys(g, Set::empty()) == g,
{
    assert forall|a: u64| #[trigger] g.contains_key(a) implies adj_remove_keys(g, Set::empty())[a]
        == g[a] by {
        lemma_filter_keep_all(g[a], |b: u64| !Set::<(u64, u64)>::empty().contains(canon_key(a, b)));
    }
    assert(adj_remove_keys(g, Set::empty()) =~= g);
}

/// Erasing one undirected edge is erasing its singleton key set.
pub proof fn lemma_remove_edge_as_keys(g: AdjView, a: u64, b: u64)
    requires
        adj_wf(g),
        a < b,
    ensures
        spec_remove_edge(g, a, b) == adj_remove_keys(g, Set::empty().insert((a, b))),
{
    let ks = Set::<(u64, u64)>::empty().insert((a, b));
    let gr = spec_remove_edge(g, a, b);
    let gf = adj_remove_keys(g, ks);
    assert forall|x: u64| #[trigger] g.contains_key(x) implies gr.contains_key(x) && gf[x]
        == gr[x] by {
        if x == a {
            crate::bfs::lemma_remove_first_contains(g[a], b);
            lemma_remove_first_is_filter(g[a], b);
            lemma_filter_congruent(
                g[a],
                |y: u64| y != b,
                |y: u64| !ks.contains(canon_key(a, y)),
            );
            if g.contains_key(b) {
                assert(gr[a] == crate::util::seq_remove_first(g[a], b));
            } else {
                assert(gr[a] == crate::util::seq_remove_first(g[a], b));
            }
        } else if x == b {
            assert(seq_nodup_of_view(g, b));
            lemma_remove_first_is_filter(g[b], a);
            lemma_filter_congruent(
                g[b],
                |y: u64| y != a,
                |y: u64| !ks.contains(canon_key(b, y)),
            );
            assert(gr[b] == crate::util::seq_remove_first(g[b], a)) by {
                let g1 = spec_remove_dir(g, a, b);
                assert(g1.contains_key(b) && g1[b] == g[b]);
            }
        } else {
            assert(gr[x] == g[x]) by {
                let g1 = spec_remove_dir(g, a, b);
                assert(g1.contains_key(x) && g1[x] == g[x]);
            }
            lemma_filter_keep_all(g[x], |y: u64| !ks.contains(canon_key(x, y)));
        }
    }
    assert(gr =~= gf) by {
        assert forall|x: u64| gr.contains_key(x) == gf.contains_key(x) by {
            assert(gr.contains_key(x) == g.contains_key(x));
        }
    }
}

/// A list of a well-formed view has no duplicates.
pub open spec fn seq_nodup_of_view(g: AdjView, x: u64) -> bool {
    g.contains_key(x) ==> crate::util::seq_nodup(g[x])
}

/// Filtering a list by two key sets in a row filters it by their union.
pub proof fn lemma_filter_sets_compose(l: Seq<u64>, x: u64, ks1: Set<(u64, u64)>, ks2: Set<
    (u64, u64),
>)
    ensures
        l.filter(|b: u64| !ks1.contains(canon_key(x, b))).filter(
            |b: u64| !ks2.contains(canon_key(x, b)),
        ) == l.filter(|b: u64| !ks1.union(ks2).contains(canon_key(x, b))),
    decreases l.len(),
{
    reveal_with_fuel(Seq::<u64>::filter, 2);
    let p1 = |b: u64| !ks1.contains(canon_key(x, b));
    let p2 = |b: u64| !ks2.contains(canon_key(x, b));
    let pu = |b: u64| !ks1.union(ks2).contains(canon_key(x, b));
    if l.len() > 0 {
        lemma_filter_sets_compose(l.drop_last(), x, ks1, ks2);
        let last = l.last();
        if p1(last) {
            assert(l.filter(p1) == l.drop_last().filter(p1).push(last));
            assert(l.filter(p1).drop_last() =~= l.drop_last().filter(p1));
            assert(l.filter(p1).last() == last);
        } else {
            assert(l.filter(p1) == l.drop_last().filter(p1));
            assert(!pu(last));
        }
    }
}

/// Erasing key sets one after the other erases their union.
pub proof fn lemma_adj_remove_union(g: AdjView, ks1: Set<(u64, u64)>, ks2: Set<(u64, u64)>)
    ensures
        adj_remove_keys(adj_remove_keys(g, ks1), ks2) == adj_remove_keys(g, ks1.union(ks2)),
{
    let g1 = adj_remove_keys(g, ks1);
    let g2 = adj_remove_keys(g1, ks2);
    let gu = adj_remove_keys(g, ks1.union(ks2));
    assert forall|a: u64| #[trigger] g.contains_key(a) implies g2[a] == gu[a] by {
        lemma_filter_sets_compose(g[a], a, ks1, ks2);
    }
    assert(g2 =~= gu);
}

/// The first components of a pair sequence.
pub open spec fn pair_keys<T>(s: Seq<(u64, T)>) -> Seq<u64> {
    s.map_values(|p: (u64, T)| p.0)
}

/// The next-hop table, abstracted to a map of hop sequences.
pub open spec fn nh_view(t: UMap<Vec<u64>>) -> Map<u64, Seq<u64>> {
    Map::new(|p: u64| t@.contains_key(p), |p: u64| t@[p]@)
}

/// Well-formedness of an engine state view.
pub open spec fn view_wf(cfg: GraphConfig, v: EngineView) -> bool {
    &&& cfg.wf()
    &&& em_keys_ok(v.em)
    &&& graph_matches(v.gv, v.em)
    &&& adj_wf(v.gv)
    &&& forall|c: u64, i: int|
        v.ce.contains_key(c) && 0 <= i < v.ce[c].len() ==> (#[trigger] v.ce[c][i]).key_ok()
}

/// An immutable snapshot of the graph: the validated edges, the edges
/// incident to this node keyed by the opposite endpoint, and the
/// next-hop table.
pub struct GraphSnapshot {
    pub edges: im::HashMap<(u64, u64), Edge>,
    pub local_edges: UMap<Edge>,
    pub next_hops: UMap<Vec<u64>>,
}

/// The mutable core of the engine, normally kept behind a lock by the
/// surrounding application.
pub struct Inner {
    config: GraphConfig,
    graph: bfs::Graph,
    edges: im::HashMap<(u64, u64), Edge>,
    peer_reachable_at: UMap<i64>,
    store: Store,
    last_time_peers_pruned: Option<i64>,
}

/// Whether `set` already stores an edge at least as new as `edge`.
pub fn has(set: &im::HashMap<(u64, u64), Edge>, edge: &Edge) -> (r: bool)
    ensures
        r == has_newer(edge_map_of(*set), *edge),
{
    match em_get(set, edge.key()) {
        Some(x) => x.nonce >= edge.nonce,
        None => false,
    }
}

impl Inner {
    pub closed spec fn view(&self) -> EngineView {
        EngineView {
            em: edge_map_of(self.edges),
            gv: self.graph@,
            ra: self.peer_reachable_at@,
            ce: self.store.ce(),
            pc: self.store.pc(),
            next_cid: self.store.next_id(),
            last_pruned: self.last_time_peers_pruned,
        }
    }

    pub closed spec fn spec_config(&self) -> GraphConfig {
        self.config
    }

    pub open spec fn wf(&self) -> bool {
        self.inner_wf() && view_wf(self.spec_config(), self@)
    }

    pub closed spec fn inner_wf(&self) -> bool {
        &&& self.graph.wf()
        &&& self.graph.spec_source() == self.config.node_id
        &&& self.peer_reachable_at.wf()
        &&& self.store.wf()
    }

    /// A fresh engine with no edges and an empty archive.
    pub fn new(config: GraphConfig) -> (r: Inner)
        requires
            config.wf(),
        ensures
            r.wf(),
            r.spec_config() == config,
            r@.em == Map::<(u64, u64), Edge>::empty(),
            r@.gv == Map::<u64, Seq<u64>>::empty(),
            r@.ra == Map::<u64, i64>::empty(),
            r@.ce == Map::<u64, Seq<Edge>>::empty(),
            r@.pc == Map::<u64, u64>::empty(),
            r@.next_cid == 0,
            r@.last_pruned.is_none(),
    {
        let node = config.node_id;
        let r = Inner {
            config,
            graph: bfs::Graph::new(node),
            edges: em_new(),
            peer_reachable_at: UMap::new(),
            store: Store::new(),
            last_time_peers_pruned: None,
        };
        proof {
            assert(r@.em =~= Map::<(u64, u64), Edge>::empty());
            assert forall|a: u64, b: u64| #[trigger]
                has_edge(r@.gv, a, b) <==> em_active(r@.em, a, b) by {}
        }
        r
    }

    /// How many components the archive has ever allocated; the engine
    /// can keep updating while this counter has room to grow.
    pub fn components_allocated(&self) -> (r: u64)
        ensures
            r == self@.next_cid,
    {
        self.store.next_component_id()
    }


    /// The archived components, peer mappings and the component counter,
    /// for the application to write to its persistent keyspaces.
    pub fn export_archive(&self) -> (r: (Vec<(u64, Vec<Edge>)>, Vec<(u64, u64)>, u64))
        requires
            self.wf(),
        ensures
            forall|i: int|
                0 <= i < r.0@.len() ==> self@.ce.contains_key((#[trigger] r.0@[i]).0) && self@.ce[
                    r.0@[i].0
                ] == r.0@[i].1@,
            forall|c: u64| #[trigger]
                self@.ce.contains_key(c) ==> pair_keys(r.0@).contains(c),
            forall|i: int|
                0 <= i < r.1@.len() ==> self@.pc.contains_key((#[trigger] r.1@[i]).0) && self@.pc[
                    r.1@[i].0
                ] == r.1@[i].1,
            forall|p: u64| #[trigger]
                self@.pc.contains_key(p) ==> pair_keys(r.1@).contains(p),
            r.2 == self@.next_cid,
    {
        let comps = self.store.export_components();
        let maps = self.store.export_mappings();
        let next = self.store.next_component_id();
        proof {
            assert forall|c: u64| #[trigger] self@.ce.contains_key(c) implies pair_keys(
                comps@,
            ).contains(c) by {
                assert(self.store.ce().contains_key(c));
                let i = choose|i: int| 0 <= i < comps@.len() && (#[trigger] comps@[i]).0 == c;
                assert(pair_keys(comps@)[i] == c);
            }
            assert forall|p: u64| #[trigger] self@.pc.contains_key(p) implies pair_keys(
                maps@,
            ).contains(p) by {
                assert(self.store.pc().contains_key(p));
                let i = choose|i: int| 0 <= i < maps@.len() && (#[trigger] maps@[i]).0 == p;
                assert(pair_keys(maps@)[i] == p);
            }
        }
        (comps, maps, next)
    }

    /// A fresh engine whose archive is rebuilt from persisted data;
    /// nothing is built when the data fails validation.
    pub fn new_with_archive(config: GraphConfig, components: Vec<(u64, Vec<Edge>)>, mappings: Vec<(u64, u64)>, next_component_id: u64) -> (r: Option<Inner>)
        requires
            config.wf(),
        ensures
            match r {
                Some(inner) => {
                    &&& inner.wf()
                    &&& inner.spec_config() == config
                    &&& inner@.em == Map::<(u64, u64), Edge>::empty()
                    &&& inner@.ra == Map::<u64, i64>::empty()
                    &&& inner@.next_cid == next_component_id
                    &&& inner@.last_pruned.is_none()
                    &&& forall|i: int|
                        0 <= i < components@.len() ==> inner@.ce.contains_key(
                            (#[trigger] components@[i]).0,
                        )
                    &&& forall|i: int|
                        0 <= i < mappings@.len() ==> inner@.pc.contains_key(
                            (#[trigger] mappings@[i]).0,
                        )
                },
                None => true,
            },
    {
        match Store::restore(components, mappings, next_component_id) {
            Some(store) => {
                let node = config.node_id;
                let r = Inner {
                    config,
                    graph: bfs::Graph::new(node),
                    edges: em_new(),
                    peer_reachable_at: UMap::new(),
                    store,
                    last_time_peers_pruned: None,
                };
                proof {
                    assert(r@.em =~= Map::<(u64, u64), Edge>::empty());
                    assert forall|a: u64, b: u64| #[trigger]
                        has_edge(r@.gv, a, b) <==> em_active(r@.em, a, b) by {}
                }
                Some(r)
            }
            None => None,
        }
    }

    /// Merges one validated edge; true iff it was newer than what was
    /// stored and within the age window.
    fn update_edge(&mut self, now: i64, edge: Edge) -> (r: bool)
        requires
            old(self).wf(),
            edge.key_ok(),
            0 <= now,
        ensures
            final(self).wf(),
            final(self).spec_config() == old(self).spec_config(),
            ({
                let one = apply_one(
                    old(self)@.em,
                    old(self)@.gv,
                    old(self).spec_config().prune_edges_after,
                    now,
                    edge,
                );
                r == one.2 && final(self)@.em == one.0 && final(self)@.gv == one.1
            }),
            final(self)@.ra == old(self)@.ra,
            final(self)@.ce == old(self)@.ce,
            final(self)@.pc == old(self)@.pc,
            final(self)@.next_cid == old(self)@.next_cid,
            final(self)@.last_pruned == old(self)@.last_pruned,
            !r ==> *final(self) == *old(self),
    {
        if has(&self.edges, &edge) {
            return false;
        }
        if let Some(pa) = self.config.prune_edges_after {
            if edge.is_edge_older_than(now - pa) {
                return false;
            }
        }
        let key = edge.key();
        let ghost em0 = self@.em;
        let ghost gv0 = self@.gv;
        match edge.edge_type() {
            EdgeState::Active => self.graph.add_edge(key.0, key.1),
            EdgeState::Removed => self.graph.remove_edge(key.0, key.1),
        }
        em_insert(&mut self.edges, key, edge);
        proof {
            let em1 = self@.em;
            let gv1 = self@.gv;
            assert(em1 == em0.insert(key, edge));
            assert(em_keys_ok(em1)) by {
                assert forall|k: (u64, u64)| #[trigger] em1.contains_key(k) implies em1[k].key_ok()
                    && em1[k].spec_key() == k by {
                    if k != key {
                        assert(em0.contains_key(k));
                    }
                }
            }
            assert(graph_matches(gv1, em1)) by {
                assert forall|a: u64, b: u64| #[trigger]
                    has_edge(gv1, a, b) <==> em_active(em1, a, b) by {
                    if (a == key.0 && b == key.1) || (a == key.1 && b == key.0) {
                        assert(canon_key(a, b) == key);
                    } else {
                        assert(canon_key(a, b) != key) by {
                            if a < b {
                            } else {
                            }
                        }
                        assert(em_active(em1, a, b) == em_active(em0, a, b));
                    }
                }
            }
        }
        true
    }

    /// Erases the edge stored under `key`, if any, from both the edge
    /// map and the adjacency.
    fn remove_edge(&mut self, key: (u64, u64))
        requires
            old(self).wf(),
            key.0 != key.1,
        ensures
            final(self).wf(),
            final(self).spec_config() == old(self).spec_config(),
            final(self)@.em == old(self)@.em.remove(key),
            old(self)@.em.contains_key(key) ==> final(self)@.gv == spec_remove_edge(
                old(self)@.gv,
                key.0,
                key.1,
            ),
            !old(self)@.em.contains_key(key) ==> *final(self) == *old(self),
            final(self)@.ra == old(self)@.ra,
            final(self)@.ce == old(self)@.ce,
            final(self)@.pc == old(self)@.pc,
            final(self)@.next_cid == old(self)@.next_cid,
            final(self)@.last_pruned == old(self)@.last_pruned,
    {
        let present = match em_get(&self.edges, key) {
            Some(_) => true,
            None => false,
        };
        if present {
            let ghost em0 = self@.em;
            let ghost gv0 = self@.gv;
            em_remove(&mut self.edges, key);
            self.graph.remove_edge(key.0, key.1);
            proof {
                let em1 = self@.em;
                let gv1 = self@.gv;
                assert(em_keys_ok(em1)) by {
                    assert forall|k: (u64, u64)| #[trigger]
                        em1.contains_key(k) implies em1[k].key_ok() && em1[k].spec_key() == k by {
                        assert(em0.contains_key(k));
                    }
                }
                assert(graph_matches(gv1, em1)) by {
                    assert forall|a: u64, b: u64| #[trigger]
                        has_edge(gv1, a, b) <==> em_active(em1, a, b) by {
                        if (a == key.0 && b == key.1) || (a == key.1 && b == key.0) {
                            assert(canon_key(a, b) == key || canon_key(a, b) == (key.1, key.0));
                            assert(!em1.contains_key(key));
                        } else {
                            assert(canon_key(a, b) != key) by {
                                if a < b {
                                } else {
                                }
                            }
                            assert(em_active(em1, a, b) == em_active(em0, a, b));
                        }
                    }
                }
            }
        } else {
            proof {
                assert(final (self)@.em =~= old(self)@.em.remove(key));
            }
        }
    }
    /// Removes every stored edge with an endpoint in `peers`, returning
    /// the removed edges.
    fn remove_adjacent_edges(&mut self, peers: &Vec<u64>) -> (r: Vec<Edge>)
        requires
            old(self).wf(),
        ensures
            final(self).wf(),
            final(self).spec_config() == old(self).spec_config(),
            final(self)@.em == em_prune_filter(old(self)@.em, peers@.to_set()),
            final(self)@.gv == adj_remove_keys(
                old(self)@.gv,
                Set::new(
                    |k: (u64, u64)|
                        old(self)@.em.contains_key(k) && key_hit(k, peers@.to_set()),
                ),
            ),
            final(self)@.ra == old(self)@.ra,
            final(self)@.ce == old(self)@.ce,
            final(self)@.pc == old(self)@.pc,
            final(self)@.next_cid == old(self)@.next_cid,
            final(self)@.last_pruned == old(self)@.last_pruned,
            forall|i: int|
                0 <= i < r@.len() ==> old(self)@.em.contains_key((#[trigger] r@[i]).spec_key())
                    && old(self)@.em[r@[i].spec_key()] == r@[i] && key_hit(
                    r@[i].spec_key(),
                    peers@.to_set(),
                ),
            forall|k: (u64, u64)| #[trigger]
                old(self)@.em.contains_key(k) && key_hit(k, peers@.to_set()) ==> r@.contains(
                    old(self)@.em[k],
                ),
            r@.len() == 0 ==> *final(self) == *old(self),
    {
        let ghost em0 = self@.em;
        let ghost gv0 = self@.gv;
        let ghost pset = peers@.to_set();
        let vals = em_entries(&self.edges);
        proof {
            lemma_adj_remove_empty(gv0);
            assert(Set::new(
                |k: (u64, u64)|
                    em0.contains_key(k) && key_hit(k, pset) && (exists|j: int|
                        0 <= j < 0 && (#[trigger] vals@[j]).0 == k),
            ) =~= Set::<(u64, u64)>::empty());
        }
        let mut out: Vec<Edge> = Vec::new();
        let vlen = vals.len();
        let mut i: usize = 0;
        while i < vlen
            invariant
                em0 == old(self)@.em,
                em_keys_ok(em0),
                pset == peers@.to_set(),
                vlen == vals@.len(),
                i <= vlen,
                forall|j: int|
                    0 <= j < vlen ==> em0.contains_key((#[trigger] vals@[j]).0) && em0[vals@[j].0]
                        == vals@[j].1,
                forall|k: (u64, u64)| #[trigger]
                    em0.contains_key(k) ==> exists|j: int|
                        0 <= j < vlen && (#[trigger] vals@[j]).0 == k,
                self.wf(),
                self.spec_config() == old(self).spec_config(),
                self@.ra == old(self)@.ra,
                self@.ce == old(self)@.ce,
                self@.pc == old(self)@.pc,
                self@.next_cid == old(self)@.next_cid,
                self@.last_pruned == old(self)@.last_pruned,
                gv0 == old(self)@.gv,
                self@.gv == adj_remove_keys(
                    gv0,
                    Set::new(
                        |k: (u64, u64)|
                            em0.contains_key(k) && key_hit(k, pset) && (exists|j: int|
                                0 <= j < i && (#[trigger] vals@[j]).0 == k),
                    ),
                ),
                forall|k: (u64, u64)| #[trigger]
                    self@.em.contains_key(k) <==> em0.contains_key(k) && !(key_hit(k, pset) && (
                    exists|j: int| 0 <= j < i && (#[trigger] vals@[j]).0 == k)),
                forall|k: (u64, u64)| #[trigger] self@.em.contains_key(k) ==> self@.em[k] == em0[k],
                forall|x: Edge|
                    #![auto]
                    out@.contains(x) ==> key_hit(x.spec_key(), pset) && em0.contains_key(
                        x.spec_key(),
                    ) && em0[x.spec_key()] == x,
                forall|j: int|
                    0 <= j < i && key_hit((#[trigger] vals@[j]).0, pset) ==> out@.contains(
                        vals@[j].1,
                    ),
                out@.len() == 0 ==> *self == *old(self),
            decreases vlen - i,
        {
            let kv = vals[i];
            let e = kv.1;
            proof {
                assert(em0.contains_key(vals@[i as int].0));
                assert(e.spec_key() == kv.0 && e.key_ok());
            }
            let hit = vec_contains(peers, e.a.0) || vec_contains(peers, e.b.0);
            proof {
                assert(hit == key_hit(e.spec_key(), pset)) by {
                    assert(peers@.to_set().contains(e.a.0) == peers@.contains(e.a.0));
                    assert(peers@.to_set().contains(e.b.0) == peers@.contains(e.b.0));
                }
            }
            if hit {
                let ghost emp = self@.em;
                let ghost gvp = self@.gv;
                let ghost outp = out@;
                let ghost sp = Set::new(
                    |k: (u64, u64)|
                        em0.contains_key(k) && key_hit(k, pset) && (exists|j: int|
                            0 <= j < i && (#[trigger] vals@[j]).0 == k),
                );
                let ghost sn = Set::new(
                    |k: (u64, u64)|
                        em0.contains_key(k) && key_hit(k, pset) && (exists|j: int|
                            0 <= j < i + 1 && (#[trigger] vals@[j]).0 == k),
                );
                self.remove_edge(e.key());
                out.push(e);
                proof {
                    assert(vals@[i as int].0 == e.spec_key());
                    if emp.contains_key(e.spec_key()) {
                        assert(self@.gv == spec_remove_edge(gvp, e.spec_key().0, e.spec_key().1));
                        lemma_remove_edge_as_keys(gvp, e.spec_key().0, e.spec_key().1);
                        lemma_adj_remove_union(
                            gv0,
                            sp,
                            Set::<(u64, u64)>::empty().insert(e.spec_key()),
                        );
                        assert(sp.union(Set::<(u64, u64)>::empty().insert(e.spec_key())) =~= sn);
                    } else {
                        assert(self@.gv == gvp);
                        assert(sp =~= sn) by {
                            assert(em0.contains_key(e.spec_key()) && key_hit(e.spec_key(), pset)
                                && vals@[i as int].0 == e.spec_key());
                            assert(exists|j: int|
                                0 <= j < i && (#[trigger] vals@[j]).0 == e.spec_key()) by {
                                assert(!emp.contains_key(e.spec_key()));
                            }
                        }
                    }
                    assert(out@ == outp.push(e));
                    assert(out@[out@.len() - 1] == e);
                    assert(out@.contains(e));
                    assert forall|x: Edge| #![auto] out@.contains(x) implies key_hit(
                        x.spec_key(),
                        pset,
                    ) && em0.contains_key(x.spec_key()) && em0[x.spec_key()] == x by {
                        if x != e {
                            let j = choose|j: int| 0 <= j < out@.len() && out@[j] == x;
                            assert(outp[j] == x);
                            assert(outp.contains(x));
                        }
                    }
                    assert forall|j: int|
                        0 <= j < i + 1 && key_hit(
                            (#[trigger] vals@[j]).0,
                            pset,
                        ) implies out@.contains(vals@[j].1) by {
                        if j < i {
                            assert(outp.contains(vals@[j].1));
                            let jj = choose|jj: int| 0 <= jj < outp.len() && outp[jj] == vals@[j].1;
                            assert(out@[jj] == vals@[j].1);
                        }
                    }
                    assert forall|k: (u64, u64)| #[trigger]
                        self@.em.contains_key(k) <==> em0.contains_key(k) && !(key_hit(k, pset) && (
                        exists|j: int| 0 <= j < i + 1 && (#[trigger] vals@[j]).0 == k)) by {
                        assert(self@.em == emp.remove(e.spec_key()));
                        if k == e.spec_key() {
                            assert((vals@[i as int]).0 == k);
                        } else {
                            if exists|j: int| 0 <= j < i + 1 && (#[trigger] vals@[j]).0 == k {
                                let j = choose|j: int|
                                    0 <= j < i + 1 && (#[trigger] vals@[j]).0 == k;
                                if j < i {
                                }
                            }
                        }
                    }
                }
            } else {
                proof {
                    assert(Set::new(
                        |k: (u64, u64)|
                            em0.contains_key(k) && key_hit(k, pset) && (exists|j: int|
                                0 <= j < i && (#[trigger] vals@[j]).0 == k),
                    ) =~= Set::new(
                        |k: (u64, u64)|
                            em0.contains_key(k) && key_hit(k, pset) && (exists|j: int|
                                0 <= j < i + 1 && (#[trigger] vals@[j]).0 == k),
                    )) by {
                        assert forall|k: (u64, u64)|
                            em0.contains_key(k) && key_hit(k, pset) && (exists|j: int|
                                0 <= j < i + 1 && (#[trigger] vals@[j]).0 == k) implies (exists|
                            j: int,
                        |
                            0 <= j < i && (#[trigger] vals@[j]).0 == k) by {
                            let j = choose|j: int| 0 <= j < i + 1 && (#[trigger] vals@[j]).0 == k;
                            if j == i {
                                assert((vals@[i as int]).0 == k);
                                assert(!key_hit(k, pset));
                            }
                        }
                    }
                    assert forall|k: (u64, u64)| #[trigger]
                        self@.em.contains_key(k) <==> em0.contains_key(k) && !(key_hit(k, pset) && (
                        exists|j: int| 0 <= j < i + 1 && (#[trigger] vals@[j]).0 == k)) by {
                        if exists|j: int| 0 <= j < i + 1 && (#[trigger] vals@[j]).0 == k {
                            let j = choose|j: int| 0 <= j < i + 1 && (#[trigger] vals@[j]).0 == k;
                            if j == i {
                                assert((vals@[i as int]).0 == k);
                                assert(!key_hit(k, pset));
                            }
                        }
                    }
                }
            }
            i += 1;
        }
        proof {
            assert forall|i2: int| 0 <= i2 < out@.len() implies em0.contains_key(
                (#[trigger] out@[i2]).spec_key(),
            ) && em0[out@[i2].spec_key()] == out@[i2] && key_hit(out@[i2].spec_key(), pset) by {
                assert(out@.contains(out@[i2]));
            }
            assert(final (self)@.em =~= em_prune_filter(em0, pset)) by {
                assert forall|k: (u64, u64)| #[trigger]
                    self@.em.contains_key(k) <==> (em0.contains_key(k) && !key_hit(k, pset)) by {}
            }
            assert(Set::new(
                |k: (u64, u64)|
                    em0.contains_key(k) && key_hit(k, pset) && (exists|j: int|
                        0 <= j < vals@.len() && (#[trigger] vals@[j]).0 == k),
            ) =~= Set::new(|k: (u64, u64)| em0.contains_key(k) && key_hit(k, pset))) by {
                assert forall|k: (u64, u64)|
                    em0.contains_key(k) && key_hit(k, pset) implies (exists|j: int|
                    0 <= j < vals@.len() && (#[trigger] vals@[j]).0 == k) by {}
            }
            assert forall|k: (u64, u64)| #[trigger]
                em0.contains_key(k) && key_hit(k, pset) implies out@.contains(em0[k]) by {
                let j = choose|j: int| 0 <= j < vlen && (#[trigger] vals@[j]).0 == k;
                assert(vals@[j].1 == em0[k]);
            }
        }
        out
    }

    /// Drops every stored edge created before `threshold`.
    fn prune_old_edges(&mut self, threshold: i64)
        requires
            old(self).wf(),
        ensures
            final(self).wf(),
            final(self).spec_config() == old(self).spec_config(),
            final(self)@.em == Map::<(u64, u64), Edge>::new(
                |k: (u64, u64)|
                    old(self)@.em.contains_key(k) && old(self)@.em[k].created_at >= threshold,
                |k: (u64, u64)| old(self)@.em[k],
            ),
            final(self)@.gv == adj_remove_keys(
                old(self)@.gv,
                Set::new(
                    |k: (u64, u64)|
                        old(self)@.em.contains_key(k) && old(self)@.em[k].created_at < threshold,
                ),
            ),
            final(self)@.ra == old(self)@.ra,
            final(self)@.ce == old(self)@.ce,
            final(self)@.pc == old(self)@.pc,
            final(self)@.next_cid == old(self)@.next_cid,
            final(self)@.last_pruned == old(self)@.last_pruned,
            (forall|k: (u64, u64)| #[trigger]
                old(self)@.em.contains_key(k) ==> old(self)@.em[k].created_at >= threshold)
                ==> *final(self) == *old(self),
    {
        let ghost em0 = self@.em;
        let ghost gv0 = self@.gv;
        let vals = em_entries(&self.edges);
        proof {
            lemma_adj_remove_empty(gv0);
            assert(Set::new(
                |k: (u64, u64)|
                    em0.contains_key(k) && em0[k].created_at < threshold && (exists|j: int|
                        0 <= j < 0 && (#[trigger] vals@[j]).0 == k),
            ) =~= Set::<(u64, u64)>::empty());
        }
        let vlen = vals.len();
        let mut i: usize = 0;
        while i < vlen
            invariant
                em0 == old(self)@.em,
                em_keys_ok(em0),
                vlen == vals@.len(),
                i <= vlen,
                forall|j: int|
                    0 <= j < vlen ==> em0.contains_key((#[trigger] vals@[j]).0) && em0[vals@[j].0]
                        == vals@[j].1,
                forall|k: (u64, u64)| #[trigger]
                    em0.contains_key(k) ==> exists|j: int|
                        0 <= j < vlen && (#[trigger] vals@[j]).0 == k,
                self.wf(),
                self.spec_config() == old(self).spec_config(),
                self@.ra == old(self)@.ra,
                self@.ce == old(self)@.ce,
                self@.pc == old(self)@.pc,
                self@.next_cid == old(self)@.next_cid,
                self@.last_pruned == old(self)@.last_pruned,
                gv0 == old(self)@.gv,
                self@.gv == adj_remove_keys(
                    gv0,
                    Set::new(
                        |k: (u64, u64)|
                            em0.contains_key(k) && em0[k].created_at < threshold && (exists|j: int|
                                0 <= j < i && (#[trigger] vals@[j]).0 == k),
                    ),
                ),
                forall|k: (u64, u64)| #[trigger]
                    self@.em.contains_key(k) <==> em0.contains_key(k) && !(em0[k].created_at
                        < threshold && (exists|j: int|
                        0 <= j < i && (#[trigger] vals@[j]).0 == k)),
                forall|k: (u64, u64)| #[trigger] self@.em.contains_key(k) ==> self@.em[k] == em0[k],
                (forall|k: (u64, u64)| #[trigger]
                    em0.contains_key(k) ==> em0[k].created_at >= threshold) ==> *self == *old(self),
            decreases vlen - i,
        {
            let kv = vals[i];
            let e = kv.1;
            proof {
                assert(em0.contains_key(vals@[i as int].0));
                assert(e.spec_key() == kv.0 && e.key_ok());
            }
            if e.is_edge_older_than(threshold) {
                let ghost emp = self@.em;
                let ghost gvp = self@.gv;
                let ghost sp = Set::new(
                    |k: (u64, u64)|
                        em0.contains_key(k) && em0[k].created_at < threshold && (exists|j: int|
                            0 <= j < i && (#[trigger] vals@[j]).0 == k),
                );
                let ghost sn = Set::new(
                    |k: (u64, u64)|
                        em0.contains_key(k) && em0[k].created_at < threshold && (exists|j: int|
                            0 <= j < i + 1 && (#[trigger] vals@[j]).0 == k),
                );
                self.remove_edge(e.key());
                proof {
                    assert(vals@[i as int].0 == e.spec_key());
                    if emp.contains_key(e.spec_key()) {
                        assert(self@.gv == spec_remove_edge(gvp, e.spec_key().0, e.spec_key().1));
                        lemma_remove_edge_as_keys(gvp, e.spec_key().0, e.spec_key().1);
                        lemma_adj_remove_union(
                            gv0,
                            sp,
                            Set::<(u64, u64)>::empty().insert(e.spec_key()),
                        );
                        assert(sp.union(Set::<(u64, u64)>::empty().insert(e.spec_key())) =~= sn);
                    } else {
                        assert(self@.gv == gvp);
                        assert(sp =~= sn) by {
                            assert(exists|j: int|
                                0 <= j < i && (#[trigger] vals@[j]).0 == e.spec_key()) by {
                                assert(!emp.contains_key(e.spec_key()));
                            }
                        }
                    }
                    assert forall|k: (u64, u64)| #[trigger]
                        self@.em.contains_key(k) <==> em0.contains_key(k) && !(em0[k].created_at
                            < threshold && (exists|j: int|
                            0 <= j < i + 1 && (#[trigger] vals@[j]).0 == k)) by {
                        if k == e.spec_key() {
                            assert((vals@[i as int]).0 == k);
                        } else {
                            if exists|j: int| 0 <= j < i + 1 && (#[trigger] vals@[j]).0 == k {
                                let j = choose|j: int|
                                    0 <= j < i + 1 && (#[trigger] vals@[j]).0 == k;
                                if j < i {
                                }
                            }
                        }
                    }
                }
            } else {
                proof {
                    assert(Set::new(
                        |k: (u64, u64)|
                            em0.contains_key(k) && em0[k].created_at < threshold && (exists|j: int|
                                0 <= j < i && (#[trigger] vals@[j]).0 == k),
                    ) =~= Set::new(
                        |k: (u64, u64)|
                            em0.contains_key(k) && em0[k].created_at < threshold && (exists|j: int|
                                0 <= j < i + 1 && (#[trigger] vals@[j]).0 == k),
                    )) by {
                        assert forall|k: (u64, u64)|
                            em0.contains_key(k) && em0[k].created_at < threshold && (exists|j: int|
                                0 <= j < i + 1 && (#[trigger] vals@[j]).0 == k) implies (exists|
                            j: int,
                        |
                            0 <= j < i && (#[trigger] vals@[j]).0 == k) by {
                            let j = choose|j: int| 0 <= j < i + 1 && (#[trigger] vals@[j]).0 == k;
                            if j == i {
                                assert((vals@[i as int]).0 == k);
                                assert(em0[k] == e);
                            }
                        }
                    }
                    assert forall|k: (u64, u64)| #[trigger]
                        self@.em.contains_key(k) <==> em0.contains_key(k) && !(em0[k].created_at
                            < threshold && (exists|j: int|
                            0 <= j < i + 1 && (#[trigger] vals@[j]).0 == k)) by {
                        if exists|j: int| 0 <= j < i + 1 && (#[trigger] vals@[j]).0 == k {
                            let j = choose|j: int| 0 <= j < i + 1 && (#[trigger] vals@[j]).0 == k;
                            if j == i {
                                assert((vals@[i as int]).0 == k);
                                assert(em0[k] == e);
                            }
                        }
                    }
                }
            }
            i += 1;
        }
        proof {
            assert(Set::new(
                |k: (u64, u64)|
                    em0.contains_key(k) && em0[k].created_at < threshold && (exists|j: int|
                        0 <= j < vals@.len() && (#[trigger] vals@[j]).0 == k),
            ) =~= Set::new(
                |k: (u64, u64)| em0.contains_key(k) && em0[k].created_at < threshold,
            )) by {
                assert forall|k: (u64, u64)|
                    em0.contains_key(k) && em0[k].created_at < threshold implies (exists|j: int|
                    0 <= j < vals@.len() && (#[trigger] vals@[j]).0 == k) by {}
            }
            assert(final (self)@.em =~= Map::<(u64, u64), Edge>::new(
                |k: (u64, u64)| em0.contains_key(k) && em0[k].created_at >= threshold,
                |k: (u64, u64)| em0[k],
            )) by {
                assert forall|k: (u64, u64)| #[trigger]
                    self@.em.contains_key(k) <==> (em0.contains_key(k) && em0[k].created_at
                        >= threshold) by {
                    if em0.contains_key(k) && em0[k].created_at < threshold {
                        let j = choose|j: int| 0 <= j < vlen && (#[trigger] vals@[j]).0 == k;
                    }
                }
            }
        }
    }

    /// If `peer` is unknown and not this node, reload its archived
    /// component from the store and re-apply the edges found there.
    fn load_component(&mut self, now: i64, peer: u64)
        requires
            old(self).wf(),
            0 <= now,
        ensures
            final(self).wf(),
            final(self).spec_config() == old(self).spec_config(),
            final(self)@ == load_one(old(self).spec_config(), old(self)@, now, peer),
    {
        if peer == self.config.node_id.0 {
            return ;
        }
        if self.peer_reachable_at.contains_key(peer) {
            return ;
        }
        let ghost v0 = self@;
        let ghost cfg = self.spec_config();
        let bundle = self.store.pop_component(peer);
        proof {
            if !v0.pc.contains_key(peer) {
                assert(bundle@ == Seq::<Edge>::empty());
                assert(self@ == v0);
            }
        }
        let blen = bundle.len();
        let mut i: usize = 0;
        while i < blen
            invariant
                0 <= now,
                blen == bundle@.len(),
                i <= blen,
                forall|j: int| 0 <= j < blen ==> (#[trigger] bundle@[j]).key_ok(),
                self.wf(),
                self.spec_config() == cfg,
                ({
                    let applied = accept_seq(
                        v0.em,
                        v0.gv,
                        cfg.prune_edges_after,
                        now,
                        bundle@.take(i as int),
                    );
                    self@.em == applied.0 && self@.gv == applied.1
                }),
                self@.ra == v0.ra,
                self@.ce == final(self)@.ce || self@.ce == self@.ce,
                self@.ce == (if v0.pc.contains_key(peer) {
                    v0.ce.remove(v0.pc[peer])
                } else {
                    v0.ce
                }),
                self@.pc == (if v0.pc.contains_key(peer) {
                    v0.pc.remove(peer)
                } else {
                    v0.pc
                }),
                self@.next_cid == v0.next_cid,
                self@.last_pruned == v0.last_pruned,
            decreases blen - i,
        {
            let e = bundle[i];
            self.update_edge(now, e);
            proof {
                assert(bundle@.take(i + 1).drop_last() =~= bundle@.take(i as int));
                assert(bundle@.take(i + 1).last() == bundle@[i as int]);
            }
            i += 1;
        }
        proof {
            assert(bundle@.take(blen as int) =~= bundle@);
        }
    }

    /// Prunes every peer unreachable since `unreachable_since`, removing
    /// its edges from the live graph and archiving them as one component.
    fn prune_unreachable_peers(&mut self, unreachable_since: i64)
        requires
            old(self).wf(),
            old(self)@.next_cid < u64::MAX,
        ensures
            final(self).wf(),
            final(self).spec_config() == old(self).spec_config(),
            final(self)@.last_pruned == old(self)@.last_pruned,
            ({
                let stale = stale_peers(old(self)@.em, old(self)@.ra, unreachable_since as int);
                &&& (stale.is_empty() ==> *final(self) == *old(self))
                &&& (!stale.is_empty() ==> {
                    &&& final(self)@.ra == ra_pruned(old(self)@.ra, stale)
                    &&& final(self)@.em == em_prune_filter(old(self)@.em, stale)
                    &&& final(self)@.gv == adj_remove_keys(
                        old(self)@.gv,
                        Set::new(
                            |k: (u64, u64)|
                                old(self)@.em.contains_key(k) && key_hit(k, stale),
                        ),
                    )
                    &&& final(self)@.next_cid == old(self)@.next_cid + 1
                    &&& exists|bundle: Seq<Edge>|
                        {
                            &&& final(self)@.ce == old(self)@.ce.insert(old(self)@.next_cid, bundle)
                            &&& forall|i: int|
                                0 <= i < bundle.len() ==> old(self)@.em.contains_key(
                                    (#[trigger] bundle[i]).spec_key(),
                                ) && old(self)@.em[bundle[i].spec_key()] == bundle[i] && key_hit(
                                    bundle[i].spec_key(),
                                    stale,
                                )
                            &&& forall|k: (u64, u64)| #[trigger]
                                old(self)@.em.contains_key(k) && key_hit(k, stale)
                                    ==> bundle.contains(old(self)@.em[k])
                        }
                    &&& forall|p: u64|
                        #![auto]
                        stale.contains(p) ==> final(self)@.pc.contains_key(p) && final(self)@.pc[p]
                            == old(self)@.next_cid
                    &&& forall|p: u64|
                        !stale.contains(p) ==> (final(self)@.pc.contains_key(p)
                            <==> old(self)@.pc.contains_key(p)) && (old(self)@.pc.contains_key(p)
                            ==> final(self)@.pc[p] == old(self)@.pc[p])
                })
            }),
    {
        let ghost v0 = self@;
        let ghost stale = stale_peers(v0.em, v0.ra, unreachable_since as int);
        proof {
            lemma_stale_peers(v0.em, v0.ra, unreachable_since as int);
        }
        // Collect the stale endpoints of stored edges.
        let entries = em_entries(&self.edges);
        let mut peers: Vec<u64> = Vec::new();
        let elen = entries.len();
        let mut i: usize = 0;
        while i < elen
            invariant
                v0 == self@,
                *self == *old(self),
                self.wf(),
                stale == stale_peers(v0.em, v0.ra, unreachable_since as int),
                forall|p: u64| #[trigger]
                    stale.contains(p) <==> is_stale(v0.em, v0.ra, unreachable_since as int, p),
                elen == entries@.len(),
                i <= elen,
                forall|j: int|
                    0 <= j < elen ==> v0.em.contains_key((#[trigger] entries@[j]).0),
                forall|k: (u64, u64)| #[trigger]
                    v0.em.contains_key(k) ==> exists|j: int|
                        0 <= j < elen && (#[trigger] entries@[j]).0 == k,
                crate::util::seq_nodup(peers@),
                forall|x: u64| #[trigger] peers@.contains(x) ==> stale.contains(x),
                forall|j: int|
                    0 <= j < i ==> ((stale.contains((#[trigger] entries@[j]).0.0)
                        ==> peers@.contains(entries@[j].0.0)) && (stale.contains(entries@[j].0.1)
                        ==> peers@.contains(entries@[j].0.1))),
            decreases elen - i,
        {
            let k = entries[i].0;
            let ghost peers_pre = peers@;
            let p0_stale = match self.peer_reachable_at.get(k.0) {
                Some(t) => *t < unreachable_since,
                None => true,
            };
            if p0_stale && !vec_contains(&peers, k.0) {
                peers.push(k.0);
                proof {
                    assert(stale.contains(k.0)) by {
                        assert(v0.em.contains_key(entries@[i as int].0));
                    }
                    crate::bfs::lemma_push_contains(peers_pre, k.0);
                }
            }
            let ghost peers_mid = peers@;
            let p1_stale = match self.peer_reachable_at.get(k.1) {
                Some(t) => *t < unreachable_since,
                None => true,
            };
            if p1_stale && !vec_contains(&peers, k.1) {
                peers.push(k.1);
                proof {
                    assert(stale.contains(k.1)) by {
                        assert(v0.em.contains_key(entries@[i as int].0));
                    }
                    crate::bfs::lemma_push_contains(peers_mid, k.1);
                }
            }
            proof {
                let ghost peers_end = peers@;
                assert forall|x: u64| #[trigger] peers_end.contains(x) implies stale.contains(
                    x,
                ) by {
                    if peers_mid != peers_end {
                        crate::bfs::lemma_push_contains(peers_mid, k.1);
                        assert(peers_end == peers_mid.push(k.1));
                        assert(peers_mid.push(k.1).contains(x) == (peers_mid.contains(x) || x
                            == k.1));
                    }
                    if peers_pre != peers_mid {
                        crate::bfs::lemma_push_contains(peers_pre, k.0);
                        assert(peers_mid == peers_pre.push(k.0));
                        assert(peers_pre.push(k.0).contains(x) == (peers_pre.contains(x) || x
                            == k.0));
                    }
                    if peers_pre.contains(x) {
                        assert(stale.contains(x));
                    } else if peers_pre != peers_mid && x == k.0 {
                        assert(v0.em.contains_key(entries@[i as int].0));
                        assert(is_stale(v0.em, v0.ra, unreachable_since as int, k.0));
                        assert(stale.contains(x));
                    } else {
                        assert(peers_mid != peers_end && x == k.1);
                        assert(v0.em.contains_key(entries@[i as int].0));
                        assert(is_stale(v0.em, v0.ra, unreachable_since as int, k.1));
                        assert(stale.contains(x));
                    }
                }
                assert forall|j: int| 0 <= j < i + 1 implies ((stale.contains(
                    (#[trigger] entries@[j]).0.0,
                ) ==> peers@.contains(entries@[j].0.0)) && (stale.contains(entries@[j].0.1)
                    ==> peers@.contains(entries@[j].0.1))) by {
                    if peers_pre != peers_mid {
                        crate::bfs::lemma_push_contains(peers_pre, k.0);
                    }
                    if peers_mid != peers@ {
                        crate::bfs::lemma_push_contains(peers_mid, k.1);
                    }
                    if j < i {
                        assert(stale.contains(entries@[j].0.0) ==> peers_pre.contains(
                            entries@[j].0.0,
                        ));
                        assert(stale.contains(entries@[j].0.1) ==> peers_pre.contains(
                            entries@[j].0.1,
                        ));
                    } else {
                        if stale.contains(k.0) {
                            assert(peers_mid.contains(k.0)) by {
                                if !peers_pre.contains(k.0) {
                                    assert(!self@.ra.contains_key(k.0) || self@.ra[k.0]
                                        < unreachable_since);
                                }
                            }
                            assert(peers@.contains(k.0));
                        }
                        if stale.contains(k.1) {
                            assert(peers@.contains(k.1)) by {
                                if !peers_mid.contains(k.1) {
                                    assert(!self@.ra.contains_key(k.1) || self@.ra[k.1]
                                        < unreachable_since);
                                }
                            }
                        }
                    }
                }
            }
            i += 1;
        }
        // Also the stale entries of the reachability clock itself, whether
        // or not any stored edge still touches them.
        let ra_keys = self.peer_reachable_at.keys();
        proof {
            assert forall|j: int| 0 <= j < ra_keys@.len() implies v0.ra.contains_key(
                #[trigger] ra_keys@[j],
            ) by {
                assert(ra_keys@.contains(ra_keys@[j]));
            }
        }
        let rlen = ra_keys.len();
        let mut ri: usize = 0;
        while ri < rlen
            invariant
                v0 == self@,
                *self == *old(self),
                self.wf(),
                stale == stale_peers(v0.em, v0.ra, unreachable_since as int),
                forall|p: u64| #[trigger]
                    stale.contains(p) <==> is_stale(v0.em, v0.ra, unreachable_since as int, p),
                rlen == ra_keys@.len(),
                ri <= rlen,
                forall|j: int| 0 <= j < rlen ==> v0.ra.contains_key(#[trigger] ra_keys@[j]),
                forall|p: u64| v0.ra.contains_key(p) <==> ra_keys@.contains(p),
                elen == entries@.len(),
                crate::util::seq_nodup(peers@),
                forall|x: u64| #[trigger] peers@.contains(x) ==> stale.contains(x),
                forall|j: int|
                    0 <= j < elen ==> ((stale.contains((#[trigger] entries@[j]).0.0)
                        ==> peers@.contains(entries@[j].0.0)) && (stale.contains(entries@[j].0.1)
                        ==> peers@.contains(entries@[j].0.1))),
                forall|j: int|
                    0 <= j < ri && v0.ra[#[trigger] ra_keys@[j]] < unreachable_since
                        ==> peers@.contains(ra_keys@[j]),
            decreases rlen - ri,
        {
            let p = ra_keys[ri];
            proof {
                assert(v0.ra.contains_key(ra_keys@[ri as int]));
            }
            let stale_entry = match self.peer_reachable_at.get(p) {
                Some(t) => *t < unreachable_since,
                None => false,
            };
            if stale_entry && !vec_contains(&peers, p) {
                let ghost pp = peers@;
                peers.push(p);
                proof {
                    crate::bfs::lemma_push_contains(pp, p);
                    assert(peers@ == pp.push(p));
                    assert(is_stale(v0.em, v0.ra, unreachable_since as int, p));
                    assert(stale.contains(p));
                    assert forall|x: u64| #[trigger] peers@.contains(x) implies stale.contains(
                        x,
                    ) by {
                        if x != p {
                            assert(pp.contains(x));
                        }
                    }
                    assert forall|i1: int, j1: int|
                        0 <= i1 < j1 < peers@.len() implies peers@[i1] != peers@[j1] by {
                        if j1 == peers@.len() - 1 {
                            assert(peers@[i1] == pp[i1]);
                            assert(pp.contains(pp[i1])) by {
                                assert(pp[i1] == pp[i1]);
                            }
                        } else {
                            assert(peers@[i1] == pp[i1] && peers@[j1] == pp[j1]);
                        }
                    }
                }
            }
            ri += 1;
        }
        proof {
            assert forall|p: u64| #[trigger] stale.contains(p) implies peers@.contains(p) by {
                if v0.ra.contains_key(p) && v0.ra[p] < unreachable_since {
                    assert(ra_keys@.contains(p));
                    let j = choose|j: int| 0 <= j < ra_keys@.len() && #[trigger] ra_keys@[j] == p;
                    assert(v0.ra[ra_keys@[j]] < unreachable_since);
                } else {
                    assert(!v0.ra.contains_key(p));
                    let k = choose|k: (u64, u64)| #[trigger]
                        v0.em.contains_key(k) && (k.0 == p || k.1 == p);
                    let j = choose|j: int| 0 <= j < elen && (#[trigger] entries@[j]).0 == k;
                }
            }
        }
        if peers.len() == 0 {
            proof {
                assert(stale.is_empty()) by {
                    if !stale.is_empty() {
                        let p = stale.choose();
                        assert(stale.contains(p));
                        assert(peers@.contains(p));
                    }
                }
            }
            return ;
        }
        proof {
            assert(!stale.is_empty()) by {
                assert(peers@.contains(peers@[0]));
                assert(stale.contains(peers@[0]));
            }
            assert forall|x: u64| peers@.contains(x) <==> stale.contains(x) by {}
        }
        // Remove pruned peers from the reachability clock.
        let plen = peers.len();
        let mut j: usize = 0;
        while j < plen
            invariant
                plen == peers@.len(),
                j <= plen,
                self.wf(),
                self.spec_config() == old(self).spec_config(),
                v0.em == self@.em,
                v0.gv == self@.gv,
                v0.ce == self@.ce,
                v0.pc == self@.pc,
                v0.next_cid == self@.next_cid,
                v0.last_pruned == self@.last_pruned,
                forall|p: u64| #[trigger]
                    self@.ra.contains_key(p) <==> v0.ra.contains_key(p) && !peers@.take(
                        j as int,
                    ).contains(p),
                forall|p: u64| #[trigger] self@.ra.contains_key(p) ==> self@.ra[p] == v0.ra[p],
            decreases plen - j,
        {
            let ghost ra_pre = self@.ra;
            self.peer_reachable_at.remove(peers[j]);
            proof {
                assert forall|p: u64| #[trigger]
                    self@.ra.contains_key(p) <==> v0.ra.contains_key(p) && !peers@.take(
                        j + 1,
                    ).contains(p) by {
                    assert(peers@.take(j + 1).drop_last() =~= peers@.take(j as int));
                    if p == peers@[j as int] {
                        assert(peers@.take(j + 1)[j as int] == p);
                        assert(peers@.take(j + 1).contains(p));
                    } else {
                        if peers@.take(j + 1).contains(p) {
                            let jj = choose|jj: int|
                                0 <= jj < peers@.take(j + 1).len() && #[trigger] peers@.take(
                                    j + 1,
                                )[jj] == p;
                            assert(peers@.take(j as int)[jj] == p);
                        }
                        if peers@.take(j as int).contains(p) {
                            let jj = choose|jj: int|
                                0 <= jj < peers@.take(j as int).len() && #[trigger] peers@.take(
                                    j as int,
                                )[jj] == p;
                            assert(peers@.take(j + 1)[jj] == p);
                        }
                    }
                }
            }
            j += 1;
        }
        proof {
            assert(peers@.take(plen as int) =~= peers@);
            assert(self@.ra =~= ra_pruned(v0.ra, stale));
        }
        // Remove their incident edges and archive the component.
        let ghost v1 = self@;
        let edges = self.remove_adjacent_edges(&peers);
        proof {
            assert forall|k: u64| peers@.to_set().contains(k) <==> stale.contains(k) by {}
            assert(peers@.to_set() =~= stale);
            assert(self@.em =~= em_prune_filter(v0.em, stale));
            assert forall|i2: int| 0 <= i2 < edges@.len() implies (
            #[trigger] edges@[i2]).key_ok() by {
                assert(v0.em.contains_key(edges@[i2].spec_key()));
            }
        }
        self.store.push_component(&peers, &edges);
        proof {
            assert(final (self)@.ce =~= v0.ce.insert(v0.next_cid, edges@));
            assert(Set::new(
                |k: (u64, u64)| v1.em.contains_key(k) && key_hit(k, peers@.to_set()),
            ) =~= Set::new(|k: (u64, u64)| v0.em.contains_key(k) && key_hit(k, stale))) by {
                assert forall|x: u64| peers@.to_set().contains(x) == stale.contains(x) by {}
            }
        }
    }

    /// Applies validated incoming edges and republishes the routing data:
    /// reloads archived components touched by the batch, merges the batch,
    /// prunes expired edges, recomputes next hops, refreshes reachability,
    /// prunes unreachable peers (throttled), and builds a snapshot.
    /// Returns the accepted subset of the batch and the snapshot.
    pub fn update(&mut self, now: i64, edges: Vec<Edge>, unreliable_peers: &Vec<u64>) -> (r: (
        Vec<Edge>,
        GraphSnapshot,
    ))
        requires
            old(self).wf(),
            0 <= now,
            old(self)@.next_cid < u64::MAX,
            forall|i: int| 0 <= i < edges@.len() ==> (#[trigger] edges@[i]).key_ok(),
        ensures
            final(self).wf(),
            final(self).spec_config() == old(self).spec_config(),
            update_spec(
                old(self).spec_config(),
                old(self)@,
                now,
                edges@,
                unreliable_peers@,
                final(self)@,
                r.0@,
                edge_map_of(r.1.edges),
                r.1.local_edges@,
                nh_view(r.1.next_hops),
            ),
            r.1.local_edges.wf(),
            r.1.next_hops.wf(),
    {
        let ghost cfg = self.spec_config();
        let ghost v0 = self@;
        let node = self.config.node_id;

        // Reload the components of every endpoint of the batch.
        let elen = edges.len();
        let mut i: usize = 0;
        while i < elen
            invariant
                0 <= now,
                cfg == self.spec_config(),
                elen == edges@.len(),
                i <= elen,
                self.wf(),
                self@ == load_all(cfg, v0, now, edges@.take(i as int)),
            decreases elen - i,
        {
            let key = edges[i].key();
            self.load_component(now, key.0);
            self.load_component(now, key.1);
            proof {
                assert(edges@.take(i + 1).drop_last() =~= edges@.take(i as int));
                assert(edges@.take(i + 1).last() == edges@[i as int]);
            }
            i += 1;
        }
        proof {
            assert(edges@.take(elen as int) =~= edges@);
        }
        let ghost vl = self@;
        proof {
            lemma_load_all_frame(cfg, v0, now, edges@);
        }

        // Merge the batch, keeping the accepted edges.
        let mut accepted: Vec<Edge> = Vec::new();
        let mut i2: usize = 0;
        while i2 < elen
            invariant
                0 <= now,
                cfg == self.spec_config(),
                elen == edges@.len(),
                forall|j: int| 0 <= j < elen ==> (#[trigger] edges@[j]).key_ok(),
                i2 <= elen,
                self.wf(),
                ({
                    let m = accept_seq(vl.em, vl.gv, cfg.prune_edges_after, now, edges@.take(i2 as int));
                    self@.em == m.0 && self@.gv == m.1 && accepted@ == m.2
                }),
                self@.ra == vl.ra,
                self@.ce == vl.ce,
                self@.pc == vl.pc,
                self@.next_cid == vl.next_cid,
                self@.last_pruned == vl.last_pruned,
            decreases elen - i2,
        {
            let e = edges[i2];
            let acc = self.update_edge(now, e);
            if acc {
                accepted.push(e);
            }
            proof {
                assert(edges@.take(i2 + 1).drop_last() =~= edges@.take(i2 as int));
                assert(edges@.take(i2 + 1).last() == edges@[i2 as int]);
            }
            i2 += 1;
        }
        let ghost merged = accept_seq(vl.em, vl.gv, cfg.prune_edges_after, now, edges@);

        // Prune expired edges.
        if let Some(pa) = self.config.prune_edges_after {
            self.prune_old_edges(now - pa);
        }
        proof {
            assert(self@.em =~= em_age_filter(merged.0, cfg.prune_edges_after, now));
        }
        let ghost em4 = self@.em;
        let ghost gv4 = self@.gv;

        // Recompute the next-hop table.
        let next_hops = self.graph.calculate_distance(unreliable_peers);

        // Refresh the reachability clock.
        let ghost ra_before = self@.ra;
        self.peer_reachable_at.insert(node.0, now);
        let nhk = next_hops.keys();
        let nhlen = nhk.len();
        proof {
            assert(nhk@.take(0) =~= Seq::<u64>::empty());
        }
        let mut i3: usize = 0;
        while i3 < nhlen
            invariant
                0 <= now,
                cfg == self.spec_config(),
                nhlen == nhk@.len(),
                i3 <= nhlen,
                forall|t: u64| nh_view(next_hops).contains_key(t) <==> nhk@.contains(t),
                self.wf(),
                self@.em == em4,
                self@.gv == gv4,
                self@.ce == vl.ce,
                self@.pc == vl.pc,
                self@.next_cid == vl.next_cid,
                self@.last_pruned == vl.last_pruned,
                forall|p: u64| #[trigger]
                    self@.ra.contains_key(p) <==> (ra_before.contains_key(p) || p == node.0
                        || nhk@.take(i3 as int).contains(p)),
                forall|p: u64| #[trigger]
                    self@.ra.contains_key(p) ==> self@.ra[p] == (if p == node.0 || nhk@.take(
                        i3 as int,
                    ).contains(p) {
                        now
                    } else {
                        ra_before[p]
                    }),
            decreases nhlen - i3,
        {
            let p = nhk[i3];
            let ghost ra_head = self@.ra;
            self.peer_reachable_at.insert(p, now);
            proof {
                assert(self@.ra == ra_head.insert(p, now));
                assert(nhk@.take(i3 + 1).drop_last() =~= nhk@.take(i3 as int));
                assert(nhk@.take(i3 + 1).last() == nhk@[i3 as int]);
                assert forall|q: u64| nhk@.take(i3 + 1).contains(q) implies nhk@.take(
                    i3 as int,
                ).contains(q) || q == nhk@[i3 as int] by {
                    let jj = choose|jj: int|
                        0 <= jj < nhk@.take(i3 + 1).len() && #[trigger] nhk@.take(i3 + 1)[jj] == q;
                    if jj < i3 {
                        assert(nhk@.take(i3 as int)[jj] == q);
                    }
                }
                assert forall|q: u64| nhk@.take(i3 as int).contains(q) implies nhk@.take(
                    i3 + 1,
                ).contains(q) by {
                    let jj = choose|jj: int|
                        0 <= jj < nhk@.take(i3 as int).len() && #[trigger] nhk@.take(
                            i3 as int,
                        )[jj] == q;
                    assert(nhk@.take(i3 + 1)[jj] == q);
                }
                assert(nhk@.take(i3 + 1)[i3 as int] == p);
                assert(nhk@.take(i3 + 1).contains(p));
                assert forall|q: u64| #[trigger]
                    self@.ra.contains_key(q) <==> (ra_before.contains_key(q) || q == node.0
                        || nhk@.take(i3 + 1).contains(q)) by {
                    assert(self@.ra.contains_key(q) == (ra_head.contains_key(q) || q == p));
                    assert(ra_head.contains_key(q) == (ra_before.contains_key(q) || q == node.0
                        || nhk@.take(i3 as int).contains(q)));
                    assert(nhk@.take(i3 + 1).contains(q) == (nhk@.take(i3 as int).contains(q) || q
                        == p));
                }
                assert forall|q: u64| #[trigger]
                    self@.ra.contains_key(q) implies self@.ra[q] == (if q == node.0 || nhk@.take(
                    i3 + 1,
                ).contains(q) {
                    now
                } else {
                    ra_before[q]
                }) by {
                    if q != p {
                        assert(self@.ra[q] == ra_head[q]);
                        if nhk@.take(i3 + 1).contains(q) {
                            assert(nhk@.take(i3 as int).contains(q));
                        }
                    }
                }
            }
            i3 += 1;
        }
        proof {
            assert(nhk@.take(nhlen as int) =~= nhk@);
            assert(self@.ra =~= ra_touched(ra_before, node.0, nh_view(next_hops).dom(), now)) by {
                assert forall|p: u64|
                    ra_touched(ra_before, node.0, nh_view(next_hops).dom(), now).contains_key(
                        p,
                    ) == self@.ra.contains_key(p) by {
                    assert(nh_view(next_hops).dom().contains(p) == nh_view(
                        next_hops,
                    ).contains_key(p));
                }
            }
        }

        // Prune unreachable peers from time to time.
        let due = match self.last_time_peers_pruned {
            None => true,
            Some(t) => t < now - self.config.prune_unreachable_peers_after / 2,
        };
        if due {
            self.prune_unreachable_peers(now - self.config.prune_unreachable_peers_after);
            self.last_time_peers_pruned = Some(now);
        }

        // Build the snapshot.
        let ghost em6 = self@.em;
        let mut local_edges: UMap<Edge> = UMap::new();
        let vals = em_entries(&self.edges);
        let vlen = vals.len();
        let mut i4: usize = 0;
        while i4 < vlen
            invariant
                vlen == vals@.len(),
                i4 <= vlen,
                em6 == self@.em,
                em_keys_ok(em6),
                forall|j: int|
                    0 <= j < vlen ==> em6.contains_key((#[trigger] vals@[j]).0) && em6[vals@[j].0]
                        == vals@[j].1,
                forall|k: (u64, u64)| #[trigger]
                    em6.contains_key(k) ==> exists|j: int|
                        0 <= j < vlen && (#[trigger] vals@[j]).0 == k,
                self.wf(),
                node == self.spec_config().node_id,
                local_edges.wf(),
                forall|p: u64| #[trigger]
                    local_edges@.contains_key(p) ==> local_edges_of(em6, node.0).contains_key(p)
                        && local_edges@[p] == local_edges_of(em6, node.0)[p],
                forall|j: int|
                    0 <= j < i4 && ((#[trigger] vals@[j]).0.0 == node.0 || vals@[j].0.1 == node.0)
                        ==> local_edges@.contains_key(
                        if vals@[j].0.0 == node.0 {
                            vals@[j].0.1
                        } else {
                            vals@[j].0.0
                        },
                    ),
            decreases vlen - i4,
        {
            let kv = vals[i4];
            let e = kv.1;
            proof {
                assert(em6.contains_key(vals@[i4 as int].0));
                assert(e.spec_key() == kv.0 && e.key_ok());
            }
            match e.other(node) {
                Some(other) => {
                    local_edges.insert(other.0, e);
                    proof {
                        assert(canon_key(node.0, other.0) == e.spec_key());
                        assert(local_edges_of(em6, node.0).contains_key(other.0));
                        assert(local_edges_of(em6, node.0)[other.0] == e);
                    }
                }
                None => {},
            }
            i4 += 1;
        }
        proof {
            assert(local_edges@ =~= local_edges_of(em6, node.0)) by {
                assert forall|p: u64|
                    local_edges_of(em6, node.0).contains_key(p) implies local_edges@.contains_key(
                    p,
                ) by {
                    let k = canon_key(node.0, p);
                    assert(em6.contains_key(k));
                    let j = choose|j: int| 0 <= j < vlen && (#[trigger] vals@[j]).0 == k;
                    assert(vals@[j].0.0 == node.0 || vals@[j].0.1 == node.0);
                }
            }
        }
        let snap_edges = em_clone(&self.edges);
        let snapshot = GraphSnapshot { edges: snap_edges, local_edges, next_hops };
        proof {
            let post = self@;
            let loaded = load_all(cfg, v0, now, edges@);
            let nh = nh_view(snapshot.next_hops);
            let pa = cfg.prune_edges_after;
            let ra5 = ra_touched(v0.ra, node.0, nh.dom(), now);
            let since = now - cfg.prune_unreachable_peers_after;
            let stale = stale_peers(em4, ra5, since as int);
            assert(vl == loaded);
            assert(vl.ra == v0.ra && vl.next_cid == v0.next_cid && vl.last_pruned
                == v0.last_pruned);
            assert(ra_before == v0.ra);
            assert(accepted@ == merged.2);
            assert(em4 == em_age_filter(merged.0, pa, now));
            // The adjacency at the moment the table was computed is the
            // merged adjacency with the aged-out keys erased.
            assert(adj_wf(gv4) && graph_matches(gv4, em4));
            assert forall|t: u64| #[trigger]
                nh.contains_key(t) <==> (t != node.0 && reachable(gv4, node.0, t)) by {}
            assert forall|t: u64| #[trigger]
                nh.contains_key(t) implies nh[t] == next_hops_for(gv4, node.0, unreliable_peers@, t)
                && nh[t].len() > 0 by {}
            assert(gv4 == mid_graph(cfg, v0, now, edges@)) by {
                match pa {
                    Some(p) => {
                        assert(Set::new(
                            |k: (u64, u64)|
                                merged.0.contains_key(k) && merged.0[k].created_at < now - p,
                        ) =~= Set::new(
                            |k: (u64, u64)|
                                merged.0.contains_key(k) && !within_window(
                                    pa,
                                    now,
                                    merged.0[k],
                                ),
                        ));
                    }
                    None => {
                        lemma_adj_remove_empty(merged.1);
                        assert(Set::new(
                            |k: (u64, u64)|
                                merged.0.contains_key(k) && !within_window(
                                    pa,
                                    now,
                                    merged.0[k],
                                ),
                        ) =~= Set::<(u64, u64)>::empty());
                    }
                }
            }
            let due = prune_due(cfg, v0.last_pruned, now);
            assert(self@.last_pruned == (if due {
                Some(now)
            } else {
                v0.last_pruned
            }));
            if due {
                lemma_stale_peers(em4, ra5, since as int);
                if stale.is_empty() {
                    assert(post.ra =~= ra_pruned(ra5, stale));
                    assert(post.em =~= em6);
                    assert(em6 =~= em4);
                    assert(post.ce == loaded.ce && post.pc == loaded.pc && post.next_cid
                        == v0.next_cid);
                    assert(em6 == em_prune_filter(em4, stale) || em6 == em4);
                    assert(em_prune_filter(em4, stale) =~= em4);
                } else {
                    assert(post.em == em_prune_filter(em4, stale));
                    assert(post.ra == ra_pruned(ra5, stale));
                    assert(post.next_cid == v0.next_cid + 1);
                }
            } else {
                assert(post.em == em4 && post.ra == ra5 && post.ce == loaded.ce && post.pc
                    == loaded.pc && post.next_cid == v0.next_cid);
            }
            assert(em6 == post.em);
            assert(post.gv == (if due && !stale.is_empty() {
                adj_remove_keys(
                    gv4,
                    Set::new(|k: (u64, u64)| em4.contains_key(k) && key_hit(k, stale)),
                )
            } else {
                gv4
            }));
            assert(edge_map_of(snapshot.edges) == em6);
            assert(snapshot.local_edges@ == local_edges_of(em6, node.0));
            assert(update_spec(
                cfg,
                v0,
                now,
                edges@,
                unreliable_peers@,
                post,
                accepted@,
                edge_map_of(snapshot.edges),
                snapshot.local_edges@,
                nh_view(snapshot.next_hops),
            )) by {
                assert(gv4 == mid_graph(cfg, v0, now, edges@));
            }
        }
        (accepted, snapshot)
    }

}


/// The edges of `s` that are fresh for `em` and carry valid signatures,
/// in order.
pub open spec fn verify_filter(s: Seq<Edge>, em: Map<(u64, u64), Edge>) -> Seq<Edge> {
    s.filter(|e: Edge| !has_newer(em, e) && e.spec_verified())
}

/// What the verification filter keeps: only base edges, without
/// duplicates when the base has none, and every fresh verified base
/// edge.
pub proof fn lemma_verify_filter_props(s: Seq<Edge>, em: Map<(u64, u64), Edge>)
    ensures
        forall|a: int|
            0 <= a < verify_filter(s, em).len() ==> s.contains(#[trigger] verify_filter(s, em)[a]),
        (forall|a: int, b: int| 0 <= a < b < s.len() ==> s[a] != s[b]) ==> (forall|a: int, b: int|
            0 <= a < b < verify_filter(s, em).len() ==> verify_filter(s, em)[a] != verify_filter(
                s,
                em,
            )[b]),
        forall|i: int|
            0 <= i < s.len() && !has_newer(em, #[trigger] s[i]) && s[i].spec_verified()
                ==> verify_filter(s, em).contains(s[i]),
    decreases s.len(),
{
    reveal_with_fuel(Seq::<Edge>::filter, 2);
    let pred = |e: Edge| !has_newer(em, e) && e.spec_verified();
    if s.len() > 0 {
        lemma_verify_filter_props(s.drop_last(), em);
        let sp = s.drop_last();
        let pre = verify_filter(sp, em);
        let flt = verify_filter(s, em);
        let x = s.last();
        assert(s[s.len() - 1] == x);
        assert forall|y: Edge| sp.contains(y) implies s.contains(y) by {
            let iy = choose|iy: int| 0 <= iy < sp.len() && sp[iy] == y;
            assert(s[iy] == y);
        }
        if pred(x) {
            assert(flt == pre.push(x));
            assert forall|a: int| 0 <= a < flt.len() implies s.contains(#[trigger] flt[a]) by {
                if a < flt.len() - 1 {
                    assert(flt[a] == pre[a]);
                    assert(sp.contains(pre[a]));
                }
            }
            if forall|a: int, b: int| 0 <= a < b < s.len() ==> s[a] != s[b] {
                assert forall|a: int, b: int| 0 <= a < b < sp.len() implies sp[a] != sp[b] by {
                    assert(s[a] != s[b]);
                }
                assert forall|a: int, b: int| 0 <= a < b < flt.len() implies flt[a] != flt[
                    b
                ] by {
                    if b == flt.len() - 1 {
                        assert(flt[a] == pre[a]);
                        assert(sp.contains(pre[a]));
                        let ia = choose|ia: int| 0 <= ia < sp.len() && sp[ia] == pre[a];
                        assert(s[ia] == pre[a]);
                        assert(s[ia] != s[s.len() - 1]);
                    } else {
                        assert(flt[a] == pre[a] && flt[b] == pre[b]);
                    }
                }
            }
            assert forall|i: int|
                0 <= i < s.len() && !has_newer(em, #[trigger] s[i])
                    && s[i].spec_verified() implies flt.contains(s[i]) by {
                if i < s.len() - 1 {
                    assert(pre.contains(sp[i]));
                    let j = choose|j: int| 0 <= j < pre.len() && pre[j] == sp[i];
                    assert(flt[j] == s[i]);
                } else {
                    assert(flt[flt.len() - 1] == x);
                }
            }
        } else {
            assert(flt == pre);
            assert forall|a: int| 0 <= a < flt.len() implies s.contains(#[trigger] flt[a]) by {
                assert(sp.contains(pre[a]));
            }
            if forall|a: int, b: int| 0 <= a < b < s.len() ==> s[a] != s[b] {
                assert forall|a: int, b: int| 0 <= a < b < sp.len() implies sp[a] != sp[b] by {
                    assert(s[a] != s[b]);
                }
            }
            assert forall|i: int|
                0 <= i < s.len() && !has_newer(em, #[trigger] s[i])
                    && s[i].spec_verified() implies flt.contains(s[i]) by {
                if i < s.len() - 1 {
                    assert(pre.contains(sp[i]));
                }
            }
        }
    }
}

impl GraphSnapshot {
    /// The empty snapshot published before the first update.
    pub fn new_empty() -> (r: GraphSnapshot)
        ensures
            forall|k: (u64, u64)| !(#[trigger] edge_map_of(r.edges).contains_key(k)),
            r.local_edges@ == Map::<u64, Edge>::empty(),
            r.next_hops@ == Map::<u64, Vec<u64>>::empty(),
            r.local_edges.wf(),
            r.next_hops.wf(),
    {
        let r = GraphSnapshot {
            edges: em_new(),
            local_edges: UMap::new(),
            next_hops: UMap::new(),
        };
        r
    }

    /// How many validated edges the snapshot holds.
    pub fn edge_count(&self) -> (r: usize)
        ensures
            r == edge_map_of(self.edges).dom().len(),
    {
        em_len(&self.edges)
    }

    /// Deduplicates the incoming edges by key keeping the highest nonce,
    /// strips those the snapshot already stores at least as new, and
    /// checks the remaining signatures.  The flag is true iff every
    /// deduplicated, fresh edge passed verification; a false flag is the
    /// ban signal.
    pub fn verify(&self, edges: Vec<Edge>) -> (r: (Vec<Edge>, bool))
        ensures
            ({
                let dd = crate::network_protocol::spec_dedup(edges@);
                let em = edge_map_of(self.edges);
                &&& r.1 == (forall|j: int|
                    0 <= j < dd.len() ==> (!has_newer(em, #[trigger] dd[j])
                        ==> dd[j].spec_verified()))
                &&& r.0@ == verify_filter(dd, em)
            }),
            forall|i: int, j: int|
                0 <= i < j < r.0@.len() ==> (#[trigger] r.0@[i]).spec_key() != (
                #[trigger] r.0@[j]).spec_key(),
            forall|i: int|
                0 <= i < r.0@.len() ==> (#[trigger] r.0@[i]).spec_verified() && edges@.contains(
                    r.0@[i],
                ) && !has_newer(edge_map_of(self.edges), r.0@[i]),
            forall|i: int, j: int|
                0 <= i < r.0@.len() && 0 <= j < edges@.len() && (#[trigger] edges@[j]).spec_key()
                    == (#[trigger] r.0@[i]).spec_key() ==> edges@[j].nonce <= r.0@[i].nonce,
            r.1 ==> forall|i: int|
                0 <= i < edges@.len() && !has_newer(edge_map_of(self.edges), #[trigger] edges@[i])
                    ==> crate::network_protocol::key_covered(r.0@, edges@[i]),
            !r.1 ==> exists|i: int|
                0 <= i < edges@.len() && !(#[trigger] edges@[i]).spec_verified(),
    {
        let ghost em = edge_map_of(self.edges);
        let ghost input = edges@;
        let dd = Edge::deduplicate(edges);
        proof {
            crate::network_protocol::lemma_spec_dedup(input);
            assert(dd@.take(0) =~= Seq::<Edge>::empty());
            reveal_with_fuel(Seq::<Edge>::filter, 2);
        }
        let mut out: Vec<Edge> = Vec::new();
        let mut all_ok: bool = true;
        let n = dd.len();
        let mut i: usize = 0;
        while i < n
            invariant
                em == edge_map_of(self.edges),
                dd@ == crate::network_protocol::spec_dedup(input),
                n == dd@.len(),
                i <= n,
                forall|j: int| 0 <= j < n ==> input.contains(#[trigger] dd@[j]),
                forall|j1: int, j2: int|
                    0 <= j1 < j2 < n ==> (#[trigger] dd@[j1]).spec_key() != (
                    #[trigger] dd@[j2]).spec_key(),
                out@ == verify_filter(dd@.take(i as int), em),
                forall|x: Edge|
                    #![auto]
                    out@.contains(x) ==> exists|jj: int| 0 <= jj < i && #[trigger] dd@[jj] == x,
                all_ok == (forall|j: int|
                    0 <= j < i ==> (!has_newer(em, #[trigger] dd@[j]) ==> dd@[j].spec_verified())),
            decreases n - i,
        {
            let e = dd[i];
            let ghost outp = out@;
            proof {
                reveal_with_fuel(Seq::<Edge>::filter, 2);
                assert(dd@.take(i + 1).drop_last() =~= dd@.take(i as int));
                assert(dd@.take(i + 1).last() == dd@[i as int]);
            }
            if !crate::graph::has(&self.edges, &e) {
                if e.verify() {
                    out.push(e);
                    proof {
                        assert(out@ == outp.push(e));
                        assert(out@ =~= verify_filter(dd@.take(i + 1), em));
                        crate::bfs::lemma_push_contains_edges(outp, e);
                        assert forall|x: Edge| #![auto] out@.contains(x) implies exists|jj: int|
                            0 <= jj < i + 1 && #[trigger] dd@[jj] == x by {
                            if x == e {
                                assert(dd@[i as int] == x);
                            } else {
                                assert(outp.contains(x));
                            }
                        }
                    }
                } else {
                    all_ok = false;
                    proof {
                        assert(!dd@[i as int].spec_verified());
                        assert(out@ =~= verify_filter(dd@.take(i + 1), em));
                        assert(!(forall|j: int|
                            0 <= j < i + 1 ==> (!has_newer(em, #[trigger] dd@[j])
                                ==> dd@[j].spec_verified())));
                    }
                }
            } else {
                proof {
                    assert(out@ =~= verify_filter(dd@.take(i + 1), em));
                }
            }
            i += 1;
        }
        proof {
            assert(dd@.take(n as int) =~= dd@);
            assert forall|i2: int| 0 <= i2 < out@.len() implies (
            #[trigger] out@[i2]).spec_verified() && input.contains(out@[i2]) && !has_newer(
                em,
                out@[i2],
            ) by {
                assert(out@.contains(out@[i2]));
                let jj = choose|jj: int| 0 <= jj < n && #[trigger] dd@[jj] == out@[i2];
                assert(input.contains(dd@[jj]));
            }
            assert forall|i2: int, j2: int|
                0 <= i2 < j2 < out@.len() implies (#[trigger] out@[i2]).spec_key() != (
            #[trigger] out@[j2]).spec_key() by {
                assert(out@.contains(out@[i2]) && out@.contains(out@[j2]));
                let a1 = choose|a1: int| 0 <= a1 < n && #[trigger] dd@[a1] == out@[i2];
                let a2 = choose|a2: int| 0 <= a2 < n && #[trigger] dd@[a2] == out@[j2];
                if a1 == a2 {
                    assert(out@[i2] == out@[j2]);
                    lemma_verify_filter_props(dd@, em);
                    assert forall|b1: int, b2: int| 0 <= b1 < b2 < dd@.len() implies dd@[b1]
                        != dd@[b2] by {
                        assert(dd@[b1].spec_key() != dd@[b2].spec_key());
                    }
                    assert(out@[i2] != out@[j2]);
                }
            }
            assert forall|i2: int, j2: int|
                0 <= i2 < out@.len() && 0 <= j2 < input.len() && (
            #[trigger] input[j2]).spec_key() == (#[trigger] out@[i2]).spec_key() implies
                input[j2].nonce <= out@[i2].nonce by {
                assert(out@.contains(out@[i2]));
                let a1 = choose|a1: int| 0 <= a1 < n && #[trigger] dd@[a1] == out@[i2];
                assert(crate::network_protocol::key_covered(dd@, input[j2]));
                let rep = choose|rep: int|
                    0 <= rep < dd@.len() && (#[trigger] dd@[rep]).spec_key()
                        == input[j2].spec_key() && dd@[rep].nonce >= input[j2].nonce;
                assert(rep == a1) by {
                    if rep < a1 {
                        assert(dd@[rep].spec_key() != dd@[a1].spec_key());
                    } else if a1 < rep {
                        assert(dd@[a1].spec_key() != dd@[rep].spec_key());
                    }
                }
            }
            if all_ok {
                assert forall|i2: int|
                    0 <= i2 < input.len() && !has_newer(em, #[trigger] input[i2]) implies
                    crate::network_protocol::key_covered(out@, input[i2]) by {
                    assert(crate::network_protocol::key_covered(dd@, input[i2]));
                    let rep = choose|rep: int|
                        0 <= rep < dd@.len() && (#[trigger] dd@[rep]).spec_key()
                            == input[i2].spec_key() && dd@[rep].nonce >= input[i2].nonce;
                    assert(!has_newer(em, dd@[rep])) by {
                        assert(dd@[rep].nonce >= input[i2].nonce);
                    }
                    assert(dd@[rep].spec_verified());
                    lemma_verify_filter_props(dd@, em);
                    assert(out@.contains(dd@[rep]));
                    let oj = choose|oj: int| 0 <= oj < out@.len() && out@[oj] == dd@[rep];
                    assert(out@[oj].spec_key() == input[i2].spec_key() && out@[oj].nonce
                        >= input[i2].nonce);
                }
            } else {
                let j = choose|j: int|
                    0 <= j < n && !(!has_newer(em, #[trigger] dd@[j]) ==> dd@[j].spec_verified());
                assert(input.contains(dd@[j]));
                let jj = choose|jj: int| 0 <= jj < input.len() && #[trigger] input[jj] == dd@[j];
            }
        }
        (out, all_ok)
    }

}

} // verus!
