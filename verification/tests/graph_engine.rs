//! Scenarios for the routing graph engine: next-hop computation, nonce
//! monotonicity, repeated inserts, idempotent empty updates, pruning and
//! component archival.
use routing_core::graph::{GraphConfig, Inner};
use routing_core::network_protocol::{Edge, PeerId, sign_edge_payload};

fn edge(a: u64, b: u64, nonce: u64, created_at: i64) -> Edge {
    let pa = PeerId(a);
    let pb = PeerId(b);
    let sa = sign_edge_payload(pa, pa, pb, nonce);
    let sb = sign_edge_payload(pb, pa, pb, nonce);
    Edge::make(pa, pb, nonce, created_at, sa, sb)
}

fn engine(node: u64, prune_unreachable_after: i64, prune_edges_after: Option<i64>) -> Inner {
    Inner::new(GraphConfig {
        node_id: PeerId(node),
        prune_unreachable_peers_after: prune_unreachable_after,
        prune_edges_after,
    })
}

fn hops(snapshot: &routing_core::graph::GraphSnapshot, target: u64) -> Option<Vec<u64>> {
    snapshot.next_hops.get(target).cloned()
}

#[test]
fn line_of_three_routes_through_the_middle() {
    // A--B--C seen from A: both B and C route through B.
    let mut a = engine(1, 1_000_000, None);
    let (new_edges, snap) = a.update(10, vec![edge(1, 2, 1, 10), edge(2, 3, 1, 10)], &Vec::new());
    assert_eq!(new_edges.len(), 2);
    assert_eq!(hops(&snap, 2), Some(vec![2]));
    assert_eq!(hops(&snap, 3), Some(vec![2]));
    assert_eq!(hops(&snap, 1), None);
    assert_eq!(snap.next_hops.len(), 2);
}

#[test]
fn nonce_sequence_keeps_the_newest_edge() {
    // Accept (A,B,1,Active), then (A,B,2,Removed), then retry nonce 1:
    // the stored edge stays at nonce 2 and the retry is not new.
    let mut a = engine(1, 1_000_000, None);
    let (n1, s1) = a.update(10, vec![edge(1, 2, 1, 10)], &Vec::new());
    assert_eq!(n1.len(), 1);
    assert!(hops(&s1, 2).is_some());
    let (n2, s2) = a.update(11, vec![edge(1, 2, 2, 11)], &Vec::new());
    assert_eq!(n2.len(), 1);
    assert_eq!(hops(&s2, 2), None);
    let (n3, s3) = a.update(12, vec![edge(1, 2, 1, 12)], &Vec::new());
    assert!(n3.is_empty());
    let stored = routing_core::edge_map::em_get(&s3.edges, (1, 2)).cloned();
    assert_eq!(stored.map(|e| e.nonce), Some(2));
}

#[test]
fn repeated_insert_is_new_only_once() {
    let mut a = engine(1, 1_000_000, None);
    let e = edge(2, 3, 1, 10);
    let (first, _) = a.update(10, vec![e], &Vec::new());
    assert_eq!(first.len(), 1);
    let (second, _) = a.update(10, vec![e], &Vec::new());
    assert!(second.is_empty());
}

#[test]
fn empty_update_republishes_the_same_snapshot() {
    let mut a = engine(1, 1_000_000, None);
    let (_, s1) = a.update(10, vec![edge(1, 2, 1, 10), edge(2, 3, 1, 10)], &Vec::new());
    let (acc, s2) = a.update(10, Vec::new(), &Vec::new());
    assert!(acc.is_empty());
    assert_eq!(s1.edge_count(), s2.edge_count());
    assert_eq!(hops(&s2, 2), hops(&s1, 2));
    assert_eq!(hops(&s2, 3), hops(&s1, 3));
    assert_eq!(s2.local_edges.len(), s1.local_edges.len());
}

#[test]
fn unreliable_next_hop_is_avoided_when_a_reliable_one_exists() {
    // A connects to D both via B and via C at the same distance; with C
    // unreliable only B is listed, and with both unreliable both stay.
    let edges = vec![
        edge(1, 2, 1, 10),
        edge(1, 3, 1, 10),
        edge(2, 4, 1, 10),
        edge(3, 4, 1, 10),
    ];
    let mut a = engine(1, 1_000_000, None);
    let (_, snap) = a.update(10, edges.clone(), &vec![3]);
    assert_eq!(hops(&snap, 4), Some(vec![2]));
    let mut b = engine(1, 1_000_000, None);
    let (_, snap2) = b.update(10, edges, &vec![2, 3]);
    assert_eq!(hops(&snap2, 4), Some(vec![2, 3]));
}

#[test]
fn expired_edges_are_pruned() {
    let mut a = engine(1, 1_000_000, Some(100));
    let (n1, s1) = a.update(100, vec![edge(1, 2, 1, 50)], &Vec::new());
    assert_eq!(n1.len(), 1);
    assert_eq!(s1.edge_count(), 1);
    // At time 200 the edge from time 50 falls outside the window.
    let (_, s2) = a.update(200, Vec::new(), &Vec::new());
    assert_eq!(s2.edge_count(), 0);
    assert_eq!(hops(&s2, 2), None);
    // An edge older than the window is not even accepted.
    let (n3, _) = a.update(300, vec![edge(1, 2, 3, 100)], &Vec::new());
    assert!(n3.is_empty());
}

#[test]
fn unreachable_component_is_archived_and_reloaded() {
    // A star A--B with B--C and B--D; B goes silent long enough for the
    // whole component to be archived, and a fresh edge to D reloads it.
    let mut a = engine(1, 100, None);
    let (_, s1) = a.update(
        10,
        vec![edge(1, 2, 1, 10), edge(2, 3, 1, 10), edge(2, 4, 1, 10)],
        &Vec::new(),
    );
    assert_eq!(s1.next_hops.len(), 3);
    // Remove the local link so that B, C, D become unreachable, then let
    // the pruning pass run well past the window.
    let (_, s2) = a.update(20, vec![edge(1, 2, 2, 20)], &Vec::new());
    assert_eq!(s2.next_hops.len(), 0);
    let (_, s3) = a.update(500, Vec::new(), &Vec::new());
    assert_eq!(s3.edge_count(), 0, "unreachable edges are archived away");
    // A fresh link to D brings the component's edges back.
    let (new_edges, s4) = a.update(510, vec![edge(1, 4, 1, 510)], &Vec::new());
    assert_eq!(new_edges.len(), 1);
    assert!(s4.edge_count() >= 3, "the archived component is reloaded");
    let h3 = hops(&s4, 3).expect("C is reachable again through D and B");
    assert_eq!(h3, vec![4]);
}

#[test]
fn local_edges_are_keyed_by_the_other_endpoint() {
    let mut a = engine(1, 1_000_000, None);
    let (_, snap) = a.update(10, vec![edge(1, 2, 1, 10), edge(2, 3, 1, 10)], &Vec::new());
    assert_eq!(snap.local_edges.len(), 1);
    let e = snap.local_edges.get(2).expect("the A--B edge is local");
    assert_eq!((e.a.0, e.b.0), (1, 2));
}

#[test]
fn verify_filters_invalid_signatures_and_flags_them() {
    let a = engine(1, 1_000_000, None);
    let (_, snap) = {
        let mut a = a;
        a.update(10, Vec::new(), &Vec::new())
    };
    let good = edge(1, 2, 1, 10);
    let mut bad = edge(1, 3, 1, 10);
    bad.sig_a = sign_edge_payload(PeerId(9), PeerId(9), PeerId(9), 7);
    let (kept, all_ok) = snap.verify(vec![good, bad]);
    assert!(!all_ok);
    assert_eq!(kept.len(), 1);
    assert_eq!((kept[0].a.0, kept[0].b.0), (1, 2));
}

#[test]
fn verify_deduplicates_and_strips_known_edges() {
    let mut a = engine(1, 1_000_000, None);
    let (_, snap) = a.update(10, vec![edge(1, 2, 1, 10)], &Vec::new());
    // A stale duplicate of the stored edge is stripped; the newer copy
    // of the other pair wins the deduplication.
    let (kept, all_ok) = snap.verify(vec![edge(1, 2, 1, 10), edge(2, 3, 1, 10), edge(2, 3, 3, 11)]);
    assert!(all_ok);
    assert_eq!(kept.len(), 1);
    assert_eq!(kept[0].nonce, 3);
}

#[test]
fn deduplicate_keeps_the_highest_nonce_per_key() {
    let d = Edge::deduplicate(vec![edge(1, 2, 1, 10), edge(1, 2, 5, 11), edge(3, 4, 1, 10)]);
    assert_eq!(d.len(), 2);
    assert_eq!(d[0].nonce, 5);
    assert_eq!(d[1].nonce, 1);
}

#[test]
fn a_stale_clock_entry_without_edges_is_still_swept() {
    // Peer 2's edge ages out long before its reachability entry does;
    // the later pruning pass must archive the peer anyway, which shows
    // up as a freshly allocated component.
    let mut a = engine(1, 100, Some(50));
    a.update(10, vec![edge(1, 2, 1, 10)], &Vec::new());
    assert_eq!(a.components_allocated(), 0);
    // The edge falls out of the age window; peer 2's clock entry from
    // time 10 is still young enough to stay.
    a.update(70, Vec::new(), &Vec::new());
    assert_eq!(a.components_allocated(), 0, "nothing archived yet");
    // Now the entry itself is stale, edge-bearing or not.
    a.update(200, Vec::new(), &Vec::new());
    assert_eq!(a.components_allocated(), 1, "the stale entry was archived");
}

#[test]
fn exported_archive_restores_into_a_fresh_engine() {
    // Archive a component, export the archive, rebuild an engine from it:
    // a fresh edge to the component reloads it there as well.
    let mut a = engine(1, 100, None);
    a.update(10, vec![edge(1, 2, 1, 10), edge(2, 3, 1, 10), edge(2, 4, 1, 10)], &Vec::new());
    a.update(20, vec![edge(1, 2, 2, 20)], &Vec::new());
    let (_, s) = a.update(500, Vec::new(), &Vec::new());
    assert_eq!(s.edge_count(), 0);
    let (components, mappings, next) = a.export_archive();
    assert_eq!(next, 1, "one component was allocated");
    assert!(mappings.iter().any(|&(p, _)| p == 3), "C is mapped to its component");
    let total: usize = components.iter().map(|(_, es)| es.len()).sum();
    assert!(total >= 2, "the archived component holds the silent edges");
    let mut b = Inner::new_with_archive(
        GraphConfig { node_id: PeerId(1), prune_unreachable_peers_after: 100, prune_edges_after: None },
        components,
        mappings,
        next,
    )
    .expect("a well-formed archive restores");
    assert_eq!(b.components_allocated(), 1);
    let (_, s4) = b.update(510, vec![edge(1, 4, 1, 510)], &Vec::new());
    assert!(s4.edge_count() >= 3, "the archived component is reloaded in the restored engine");
    assert_eq!(hops(&s4, 3), Some(vec![4]));
}

#[test]
fn malformed_archive_is_refused() {
    // A mapping whose component id is not below the counter cannot come
    // from an export and is rejected.
    let r = Inner::new_with_archive(
        GraphConfig { node_id: PeerId(1), prune_unreachable_peers_after: 100, prune_edges_after: None },
        Vec::new(),
        vec![(3, 7)],
        1,
    );
    assert!(r.is_none());
}
