//! Laws of the routing graph engine, stated over the abstract transition
//! `update_spec` and proved once and for all.
use crate::graph::{EngineView, GraphConfig, update_spec, accept_seq, load_all, load_one, apply_one,
    em_age_filter, ra_touched, stale_peers, is_stale, prune_due, em_keys_ok, edge_accepted,
    has_newer, within_window, lemma_stale_peers};
use crate::network_protocol::Edge;
use vstd::prelude::*;

verus! {

/// Merging a batch never lowers the stored nonce of a key, never drops a
/// key, and leaves every accepted edge dominated by what is stored.
pub proof fn lemma_accept_seq_monotone(
    em: Map<(u64, u64), Edge>,
    gv: crate::bfs::AdjView,
    pa: Option<i64>,
    now: i64,
    es: Seq<Edge>,
)
    ensures
        forall|k: (u64, u64)| #[trigger]
            em.contains_key(k) ==> accept_seq(em, gv, pa, now, es).0.contains_key(k) && accept_seq(
                em,
                gv,
                pa,
                now,
                es,
            ).0[k].nonce >= em[k].nonce,
        forall|i: int|
            0 <= i < accept_seq(em, gv, pa, now, es).2.len() ==> {
                let e = #[trigger] accept_seq(em, gv, pa, now, es).2[i];
                &&& accept_seq(em, gv, pa, now, es).0.contains_key(e.spec_key())
                &&& accept_seq(em, gv, pa, now, es).0[e.spec_key()].nonce >= e.nonce
            },
    decreases es.len(),
{
    if es.len() > 0 {
        lemma_accept_seq_monotone(em, gv, pa, now, es.drop_last());
        let pre = accept_seq(em, gv, pa, now, es.drop_last());
        let r = accept_seq(em, gv, pa, now, es);
        let e = es.last();
        assert forall|i: int| 0 <= i < r.2.len() implies {
            let x = #[trigger] r.2[i];
            &&& r.0.contains_key(x.spec_key())
            &&& r.0[x.spec_key()].nonce >= x.nonce
        } by {
            if apply_one(pre.0, pre.1, pa, now, e).2 {
                if i < r.2.len() - 1 {
                    assert(r.2[i] == pre.2[i]);
                }
            } else {
                assert(r.2[i] == pre.2[i]);
            }
        }
    }
}

/// Reloading components never lowers the stored nonce of a key and never
/// drops a key.
pub proof fn lemma_load_all_monotone(cfg: GraphConfig, v: EngineView, now: i64, es: Seq<Edge>)
    ensures
        forall|k: (u64, u64)| #[trigger]
            v.em.contains_key(k) ==> load_all(cfg, v, now, es).em.contains_key(k) && load_all(
                cfg,
                v,
                now,
                es,
            ).em[k].nonce >= v.em[k].nonce,
    decreases es.len(),
{
    if es.len() > 0 {
        lemma_load_all_monotone(cfg, v, now, es.drop_last());
        let pre = load_all(cfg, v, now, es.drop_last());
        let e = es.last();
        let mid = load_one(cfg, pre, now, e.spec_key().0);
        lemma_load_one_monotone(cfg, pre, now, e.spec_key().0);
        lemma_load_one_monotone(cfg, mid, now, e.spec_key().1);
    }
}

pub proof fn lemma_load_one_monotone(cfg: GraphConfig, v: EngineView, now: i64, p: u64)
    ensures
        forall|k: (u64, u64)| #[trigger]
            v.em.contains_key(k) ==> load_one(cfg, v, now, p).em.contains_key(k) && load_one(
                cfg,
                v,
                now,
                p,
            ).em[k].nonce >= v.em[k].nonce,
{
    if !(p == cfg.node_id.0 || v.ra.contains_key(p) || !v.pc.contains_key(p)) {
        let c = v.pc[p];
        let bundle = if v.ce.contains_key(c) {
            v.ce[c]
        } else {
            Seq::<Edge>::empty()
        };
        lemma_accept_seq_monotone(v.em, v.gv, cfg.prune_edges_after, now, bundle);
    }
}

/// For every pair of peers at most one edge is stored (the map is keyed
/// by the canonical pair and every stored edge carries its own key), and
/// one update never lowers a stored nonce: together with the merge rule,
/// the stored nonce is the highest ever accepted for that key.
pub proof fn lemma_stored_edge_uniqueness_and_nonce(
    cfg: GraphConfig,
    pre: EngineView,
    now: i64,
    incoming: Seq<Edge>,
    unreliable: Seq<u64>,
    post: EngineView,
    accepted: Seq<Edge>,
    snap_em: Map<(u64, u64), Edge>,
    snap_local: Map<u64, Edge>,
    nh: Map<u64, Seq<u64>>,
)
    requires
        update_spec(cfg, pre, now, incoming, unreliable, post, accepted, snap_em, snap_local, nh),
        em_keys_ok(post.em),
    ensures
        forall|k1: (u64, u64), k2: (u64, u64)|
            post.em.contains_key(k1) && post.em.contains_key(k2) && (#[trigger] post.em[k1]).a == (
            #[trigger] post.em[k2]).a && post.em[k1].b == post.em[k2].b ==> k1 == k2,
        forall|k: (u64, u64)| #[trigger]
            pre.em.contains_key(k) && post.em.contains_key(k) ==> post.em[k].nonce
                >= pre.em[k].nonce,
        forall|i: int|
            0 <= i < accepted.len() ==> post.em.contains_key(
                (#[trigger] accepted[i]).spec_key(),
            ) ==> post.em[accepted[i].spec_key()].nonce >= accepted[i].nonce,
{
    let loaded = load_all(cfg, pre, now, incoming);
    let merged = accept_seq(loaded.em, loaded.gv, cfg.prune_edges_after, now, incoming);
    lemma_load_all_monotone(cfg, pre, now, incoming);
    lemma_accept_seq_monotone(loaded.em, loaded.gv, cfg.prune_edges_after, now, incoming);
    assert forall|k: (u64, u64)| #[trigger]
        post.em.contains_key(k) implies merged.0.contains_key(k) && post.em[k] == merged.0[k] by {}
    assert forall|k1: (u64, u64), k2: (u64, u64)|
        post.em.contains_key(k1) && post.em.contains_key(k2) && (#[trigger] post.em[k1]).a == (
        #[trigger] post.em[k2]).a && post.em[k1].b == post.em[k2].b implies k1 == k2 by {
        assert(post.em[k1].spec_key() == k1);
        assert(post.em[k2].spec_key() == k2);
    }
}

/// After an update, every entry of the reachability clock is this node,
/// a peer listed in the fresh next-hop table, or an entry inherited
/// unchanged from before the call; and once the pruning pass has run,
/// every remaining entry is within the unreachability window.
pub proof fn lemma_reachability_clock(
    cfg: GraphConfig,
    pre: EngineView,
    now: i64,
    incoming: Seq<Edge>,
    unreliable: Seq<u64>,
    post: EngineView,
    accepted: Seq<Edge>,
    snap_em: Map<(u64, u64), Edge>,
    snap_local: Map<u64, Edge>,
    nh: Map<u64, Seq<u64>>,
)
    requires
        update_spec(cfg, pre, now, incoming, unreliable, post, accepted, snap_em, snap_local, nh),
    ensures
        forall|p: u64| #[trigger]
            post.ra.contains_key(p) ==> p == cfg.node_id.0 || nh.contains_key(p) || (
            pre.ra.contains_key(p) && post.ra[p] == pre.ra[p]),
        forall|p: u64| #[trigger]
            post.ra.contains_key(p) ==> (p == cfg.node_id.0 || nh.contains_key(p)) ==> post.ra[p]
                == now,
        prune_due(cfg, pre.last_pruned, now) ==> forall|p: u64| #[trigger]
            post.ra.contains_key(p) ==> post.ra[p] >= now - cfg.prune_unreachable_peers_after,
{
    let node = cfg.node_id.0;
    let ra5 = ra_touched(pre.ra, node, nh.dom(), now);
    let loaded = load_all(cfg, pre, now, incoming);
    let merged = accept_seq(loaded.em, loaded.gv, cfg.prune_edges_after, now, incoming);
    let em4 = em_age_filter(merged.0, cfg.prune_edges_after, now);
    let since = now - cfg.prune_unreachable_peers_after;
    let stale = stale_peers(em4, ra5, since);
    lemma_stale_peers(em4, ra5, since);
    assert forall|p: u64| #[trigger]
        post.ra.contains_key(p) implies p == node || nh.contains_key(p) || (pre.ra.contains_key(p)
        && post.ra[p] == pre.ra[p]) by {
        assert(ra5.contains_key(p));
        assert(nh.dom().contains(p) == nh.contains_key(p));
    }
    assert forall|p: u64| #[trigger]
        post.ra.contains_key(p) && (p == node || nh.contains_key(p)) implies post.ra[p] == now by {
        assert(nh.dom().contains(p) == nh.contains_key(p));
    }
    if prune_due(cfg, pre.last_pruned, now) {
        assert forall|p: u64| #[trigger] post.ra.contains_key(p) implies post.ra[p] >= since by {
            assert(!stale.contains(p));
            if post.ra[p] < since {
                assert(!is_stale(em4, ra5, since as int, p));
                assert(ra5.contains_key(p) && ra5[p] == post.ra[p]);
            }
        }
    }
}

/// Running an update with no incoming edges right after another update at
/// the same instant accepts nothing and republishes the same stored
/// edges and the same local-edge table.
pub proof fn lemma_empty_update_snapshot(
    cfg: GraphConfig,
    pre: EngineView,
    now: i64,
    incoming: Seq<Edge>,
    unreliable: Seq<u64>,
    post: EngineView,
    accepted: Seq<Edge>,
    snap_em: Map<(u64, u64), Edge>,
    snap_local: Map<u64, Edge>,
    nh: Map<u64, Seq<u64>>,
    unreliable2: Seq<u64>,
    post2: EngineView,
    accepted2: Seq<Edge>,
    snap_em2: Map<(u64, u64), Edge>,
    snap_local2: Map<u64, Edge>,
    nh2: Map<u64, Seq<u64>>,
)
    requires
        0 <= cfg.prune_unreachable_peers_after,
        update_spec(cfg, pre, now, incoming, unreliable, post, accepted, snap_em, snap_local, nh),
        update_spec(
            cfg,
            post,
            now,
            Seq::<Edge>::empty(),
            unreliable2,
            post2,
            accepted2,
            snap_em2,
            snap_local2,
            nh2,
        ),
    ensures
        accepted2 == Seq::<Edge>::empty(),
        snap_em2 == snap_em,
        snap_local2 == snap_local,
        post2.em == post.em,
        post2.gv == post.gv,
        post2.ce == post.ce,
        post2.pc == post.pc,
{
    let pa = cfg.prune_edges_after;
    let loaded1 = load_all(cfg, pre, now, incoming);
    let merged1 = accept_seq(loaded1.em, loaded1.gv, pa, now, incoming);
    let em4_1 = em_age_filter(merged1.0, pa, now);
    // The second call loads and merges nothing.
    let loaded2 = load_all(cfg, post, now, Seq::<Edge>::empty());
    assert(loaded2 == post);
    let merged2 = accept_seq(post.em, post.gv, pa, now, Seq::<Edge>::empty());
    assert(merged2.0 == post.em && merged2.1 == post.gv && merged2.2 == Seq::<Edge>::empty());
    // Nothing stored is out of the window, since the first call filtered
    // at the same instant.
    let em4_2 = em_age_filter(post.em, pa, now);
    assert(em4_2 =~= post.em) by {
        assert forall|k: (u64, u64)| #[trigger]
            post.em.contains_key(k) implies within_window(pa, now, post.em[k]) by {
            assert(post.em[k] == em4_1[k]);
        }
    }
    // The pruning pass is throttled off right after an update.
    assert(!prune_due(cfg, post.last_pruned, now)) by {
        if prune_due(cfg, pre.last_pruned, now) {
            assert(post.last_pruned == Some(now));
            assert(cfg.prune_unreachable_peers_after / 2 >= 0);
        }
    }
    assert(post2.em == post.em);
    assert(snap_em2 == snap_em);
    assert(post2.gv == post.gv) by {
        crate::graph::lemma_adj_remove_empty(post.gv);
        assert(Set::new(
            |k: (u64, u64)| merged2.0.contains_key(k) && !within_window(pa, now, merged2.0[k]),
        ) =~= Set::<(u64, u64)>::empty());
    }
    assert(snap_local2 =~= snap_local);
}

/// Under the conditions of `lemma_empty_update_snapshot`, if the first
/// call's pruning passes erased no stored edge (its published adjacency
/// survived the call), the republished next-hop table is also
/// unchanged, entry for entry.
pub proof fn lemma_empty_update_next_hops(
    cfg: GraphConfig,
    pre: EngineView,
    now: i64,
    incoming: Seq<Edge>,
    unreliable: Seq<u64>,
    post: EngineView,
    accepted: Seq<Edge>,
    snap_em: Map<(u64, u64), Edge>,
    snap_local: Map<u64, Edge>,
    nh: Map<u64, Seq<u64>>,
    post2: EngineView,
    accepted2: Seq<Edge>,
    snap_em2: Map<(u64, u64), Edge>,
    snap_local2: Map<u64, Edge>,
    nh2: Map<u64, Seq<u64>>,
)
    requires
        0 <= cfg.prune_unreachable_peers_after,
        update_spec(cfg, pre, now, incoming, unreliable, post, accepted, snap_em, snap_local, nh),
        update_spec(
            cfg,
            post,
            now,
            Seq::<Edge>::empty(),
            unreliable,
            post2,
            accepted2,
            snap_em2,
            snap_local2,
            nh2,
        ),
        post.gv == crate::graph::mid_graph(cfg, pre, now, incoming),
    ensures
        nh2 == nh,
{
    let pa = cfg.prune_edges_after;
    let node = cfg.node_id.0;
    let gv4_1 = crate::graph::mid_graph(cfg, pre, now, incoming);
    // The second call loads and merges nothing, and everything it
    // stores is inside the age window, so its published adjacency is
    // exactly the first call's.
    let loaded2 = load_all(cfg, post, now, Seq::<Edge>::empty());
    assert(loaded2 == post);
    let merged2 = accept_seq(post.em, post.gv, pa, now, Seq::<Edge>::empty());
    assert(merged2.0 == post.em && merged2.1 == post.gv);
    let gv4_2 = crate::graph::mid_graph(cfg, post, now, Seq::<Edge>::empty());
    assert(gv4_2 == post.gv) by {
        crate::graph::lemma_adj_remove_empty(post.gv);
        assert(Set::new(
            |k: (u64, u64)| merged2.0.contains_key(k) && !within_window(pa, now, merged2.0[k]),
        ) =~= Set::<(u64, u64)>::empty());
    }
    assert(gv4_2 == gv4_1);
    assert(nh2 =~= nh) by {
        assert forall|t: u64| nh2.contains_key(t) == nh.contains_key(t) by {}
        assert forall|t: u64| #[trigger] nh2.contains_key(t) implies nh2[t] == nh[t] by {}
    }
}

/// Once an update has run at an instant, empty updates at that instant
/// are fully idempotent: the second and third calls accept nothing and
/// publish identical snapshots, next-hop table included.
pub proof fn lemma_empty_update_idempotent(
    cfg: GraphConfig,
    pre: EngineView,
    now: i64,
    incoming: Seq<Edge>,
    unreliable: Seq<u64>,
    post0: EngineView,
    accepted0: Seq<Edge>,
    snap_em0: Map<(u64, u64), Edge>,
    snap_local0: Map<u64, Edge>,
    nh0: Map<u64, Seq<u64>>,
    post1: EngineView,
    accepted1: Seq<Edge>,
    snap_em1: Map<(u64, u64), Edge>,
    snap_local1: Map<u64, Edge>,
    nh1: Map<u64, Seq<u64>>,
    post2: EngineView,
    accepted2: Seq<Edge>,
    snap_em2: Map<(u64, u64), Edge>,
    snap_local2: Map<u64, Edge>,
    nh2: Map<u64, Seq<u64>>,
)
    requires
        0 <= cfg.prune_unreachable_peers_after,
        update_spec(
            cfg,
            pre,
            now,
            incoming,
            unreliable,
            post0,
            accepted0,
            snap_em0,
            snap_local0,
            nh0,
        ),
        update_spec(
            cfg,
            post0,
            now,
            Seq::<Edge>::empty(),
            unreliable,
            post1,
            accepted1,
            snap_em1,
            snap_local1,
            nh1,
        ),
        update_spec(
            cfg,
            post1,
            now,
            Seq::<Edge>::empty(),
            unreliable,
            post2,
            accepted2,
            snap_em2,
            snap_local2,
            nh2,
        ),
    ensures
        accepted1 == Seq::<Edge>::empty(),
        accepted2 == Seq::<Edge>::empty(),
        snap_em2 == snap_em1,
        snap_local2 == snap_local1,
        nh2 == nh1,
{
    lemma_empty_update_snapshot(
        cfg,
        pre,
        now,
        incoming,
        unreliable,
        post0,
        accepted0,
        snap_em0,
        snap_local0,
        nh0,
        unreliable,
        post1,
        accepted1,
        snap_em1,
        snap_local1,
        nh1,
    );
    lemma_empty_update_snapshot(
        cfg,
        post0,
        now,
        Seq::<Edge>::empty(),
        unreliable,
        post1,
        accepted1,
        snap_em1,
        snap_local1,
        nh1,
        unreliable,
        post2,
        accepted2,
        snap_em2,
        snap_local2,
        nh2,
    );
    // The middle call loaded and merged nothing, so its age filter is
    // the identity and its stored edges are exactly what it merged:
    // the hypotheses of the next-hop lemma hold for the last two calls.
    let pa = cfg.prune_edges_after;
    let loaded1 = load_all(cfg, post0, now, Seq::<Edge>::empty());
    assert(loaded1 == post0);
    let merged1 = accept_seq(post0.em, post0.gv, pa, now, Seq::<Edge>::empty());
    assert(merged1.0 == post0.em);
    // Every edge post0 stores survived the first call's age filter at
    // the same instant.
    let loaded0 = load_all(cfg, pre, now, incoming);
    let merged0 = accept_seq(loaded0.em, loaded0.gv, pa, now, incoming);
    let em4_0 = em_age_filter(merged0.0, pa, now);
    assert(em_age_filter(post0.em, pa, now) =~= post0.em) by {
        assert forall|k: (u64, u64)| #[trigger]
            post0.em.contains_key(k) implies within_window(pa, now, post0.em[k]) by {
            assert(post0.em[k] == em4_0[k]);
        }
    }
    lemma_empty_update_next_hops(
        cfg,
        post0,
        now,
        Seq::<Edge>::empty(),
        unreliable,
        post1,
        accepted1,
        snap_em1,
        snap_local1,
        nh1,
        post2,
        accepted2,
        snap_em2,
        snap_local2,
        nh2,
    );
}

/// Accepting the same fresh edge twice: the first call returns exactly
/// that edge as new, and the second call returns nothing new.  The
/// second half needs the edge's key to still be stored after the first
/// call, which holds in particular whenever that call's unreachable-peer
/// pruning was throttled off.
pub proof fn lemma_repeat_insert(
    cfg: GraphConfig,
    pre: EngineView,
    now: i64,
    e: Edge,
    unreliable: Seq<u64>,
    post: EngineView,
    accepted: Seq<Edge>,
    snap_em: Map<(u64, u64), Edge>,
    snap_local: Map<u64, Edge>,
    nh: Map<u64, Seq<u64>>,
    now2: i64,
    post2: EngineView,
    accepted2: Seq<Edge>,
    snap_em2: Map<(u64, u64), Edge>,
    snap_local2: Map<u64, Edge>,
    nh2: Map<u64, Seq<u64>>,
)
    requires
        update_spec(cfg, pre, now, seq![e], unreliable, post, accepted, snap_em, snap_local, nh),
        update_spec(
            cfg,
            post,
            now2,
            seq![e],
            unreliable,
            post2,
            accepted2,
            snap_em2,
            snap_local2,
            nh2,
        ),
        edge_accepted(
            load_all(cfg, pre, now, seq![e]).em,
            cfg.prune_edges_after,
            now,
            e,
        ),
        post.em.contains_key(e.spec_key()) || !prune_due(cfg, pre.last_pruned, now),
    ensures
        accepted == seq![e],
        accepted2 == Seq::<Edge>::empty(),
{
    let pa = cfg.prune_edges_after;
    let k = e.spec_key();
    let es1 = seq![e];
    let loaded1 = load_all(cfg, pre, now, es1);
    let merged1 = accept_seq(loaded1.em, loaded1.gv, pa, now, es1);
    let base1 = accept_seq(loaded1.em, loaded1.gv, pa, now, es1.drop_last());
    assert(es1.drop_last().len() == 0);
    assert(base1.0 == loaded1.em && base1.1 == loaded1.gv && base1.2 == Seq::<Edge>::empty());
    assert(es1.last() == e);
    assert(apply_one(base1.0, base1.1, pa, now, e).2);
    assert(merged1.2 =~= seq![e]);
    assert(merged1.0 == loaded1.em.insert(k, e));
    // The key survives the first call: it was stated to, or the pruning
    // pass did not run and the fresh edge is inside the age window.
    assert(post.em.contains_key(k)) by {
        if !prune_due(cfg, pre.last_pruned, now) {
            let em4 = em_age_filter(merged1.0, pa, now);
            assert(within_window(pa, now, e));
            assert(em4.contains_key(k));
        }
    }
    assert(post.em[k] == merged1.0[k]);
    assert(post.em[k] == e);
    // Second call: after its loads the stored nonce at the key is still
    // at least the edge's, so the merge rejects it.
    let es2 = seq![e];
    let loaded2 = load_all(cfg, post, now2, es2);
    lemma_load_all_monotone(cfg, post, now2, es2);
    assert(loaded2.em.contains_key(k) && loaded2.em[k].nonce >= e.nonce);
    assert(has_newer(loaded2.em, e));
    let merged2 = accept_seq(loaded2.em, loaded2.gv, pa, now2, es2);
    let base2 = accept_seq(loaded2.em, loaded2.gv, pa, now2, es2.drop_last());
    assert(es2.drop_last().len() == 0);
    assert(base2.0 == loaded2.em && base2.2 == Seq::<Edge>::empty());
    assert(es2.last() == e);
    assert(!apply_one(base2.0, base2.1, pa, now2, e).2);
    assert(merged2.2 =~= Seq::<Edge>::empty());
}

} // verus!
