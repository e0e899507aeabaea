//! Scenarios for the route-back cache, the connection pools and the
//! accounts-data cache.
use routing_core::accounts_data::{AccountData, BanReason, Cache};
use routing_core::connection_pool::{Connection, Pool};
use routing_core::network_protocol::{PeerAddr, PeerId, PeerMessage, SockAddr, Tier};
use routing_core::route_back_cache::RouteBackCache;

fn conn(peer: u64, established_at: i64) -> Connection {
    Connection {
        peer_id: PeerId(peer),
        addr: Some(SockAddr(peer * 1000)),
        tier: Tier::T1,
        established_at,
        last_time_peer_requested: 0,
        outbox: Vec::new(),
    }
}

#[test]
fn route_back_remove_returns_the_inserting_peer_once() {
    let mut c = RouteBackCache::new(16, 100, 4);
    c.insert(7, 42, 10);
    assert_eq!(c.remove(20, 7), Some(42));
    assert_eq!(c.remove(20, 7), None, "entries are consumed on lookup");
}

#[test]
fn route_back_expired_entries_yield_nothing() {
    let mut c = RouteBackCache::new(16, 100, 4);
    c.insert(7, 42, 10);
    assert_eq!(c.remove(500, 7), None, "the entry from time 10 has expired");
    assert_eq!(c.remove(500, 8), None, "absent hashes yield nothing");
}

#[test]
fn route_back_per_peer_share_evicts_the_peers_oldest() {
    let mut c = RouteBackCache::new(16, 1000, 2);
    c.insert(1, 42, 10);
    c.insert(2, 42, 11);
    c.insert(3, 42, 12);
    assert_eq!(c.remove(20, 1), None, "the peer's oldest entry left first");
    assert_eq!(c.remove(20, 2), Some(42));
    assert_eq!(c.remove(20, 3), Some(42));
}

#[test]
fn route_back_capacity_evicts_the_globally_oldest() {
    let mut c = RouteBackCache::new(2, 1000, 10);
    c.insert(1, 5, 10);
    c.insert(2, 6, 11);
    c.insert(3, 7, 12);
    assert_eq!(c.remove(20, 1), None, "the globally oldest entry left");
    assert_eq!(c.remove(20, 2), Some(6));
    assert_eq!(c.remove(20, 3), Some(7));
}

#[test]
fn pool_membership_is_exclusive() {
    let mut p = Pool::new(PeerId(1));
    assert!(p.start_outbound_handshake(2).is_ok());
    assert!(p.start_outbound_handshake(2).is_err(), "already connecting");
    assert!(p.start_inbound_handshake(2).is_err(), "already connecting outbound");
    assert!(p.finish_handshake(2, Some(conn(2, 10))).is_ok());
    assert!(p.start_outbound_handshake(2).is_err(), "already connected");
    assert!(p.get_ready(2).is_some());
    let dropped = p.remove_connection(2);
    assert!(dropped.is_some());
    assert!(p.get_ready(2).is_none());
}

#[test]
fn pool_send_queues_in_order_and_fails_when_not_ready() {
    let mut p = Pool::new(PeerId(1));
    assert!(!p.send_message(2, PeerMessage::PeersRequest), "peer 2 is not ready");
    assert!(p.finish_handshake(2, Some(conn(2, 10))).is_ok());
    assert!(p.send_message(2, PeerMessage::PeersRequest));
    assert!(p.send_message(2, PeerMessage::Block { payload: 9 }));
    let out = p.take_outbox(2);
    assert_eq!(out.len(), 2);
    assert_eq!(out[0], PeerMessage::PeersRequest);
    assert_eq!(out[1], PeerMessage::Block { payload: 9 });
    assert!(p.take_outbox(2).is_empty(), "the outbox was drained");
}

#[test]
fn pool_broadcast_reaches_every_ready_peer() {
    let mut p = Pool::new(PeerId(1));
    assert!(p.finish_handshake(2, Some(conn(2, 10))).is_ok());
    assert!(p.finish_handshake(3, Some(conn(3, 11))).is_ok());
    p.broadcast_message(&PeerMessage::PeersRequest);
    assert_eq!(p.take_outbox(2), vec![PeerMessage::PeersRequest]);
    assert_eq!(p.take_outbox(3), vec![PeerMessage::PeersRequest]);
}

fn record(account: u64, key: u64, epoch: u64, peer: Option<u64>, proxies: Vec<(u64, u64)>, ts: i64) -> AccountData {
    let proxies = proxies
        .into_iter()
        .map(|(p, a)| PeerAddr { peer_id: PeerId(p), addr: SockAddr(a) })
        .collect();
    AccountData::sign(account, key, epoch, peer.map(PeerId), proxies, ts)
}

#[test]
fn accounts_data_newest_timestamp_wins() {
    let mut c = Cache::new();
    let (acc, err) = c.insert(vec![record(1, 10, 5, Some(100), vec![], 50)]);
    assert!(err.is_none());
    assert_eq!(acc.len(), 1);
    let (acc2, err2) = c.insert(vec![record(1, 10, 5, Some(101), vec![], 60)]);
    assert!(err2.is_none());
    assert_eq!(acc2.len(), 1);
    assert_eq!(c.get(1, 5).unwrap().peer_id, Some(PeerId(101)));
}

#[test]
fn accounts_data_stale_or_equal_timestamp_is_a_no_op() {
    let mut c = Cache::new();
    let newer = record(1, 10, 5, Some(100), vec![], 50);
    c.insert(vec![newer.clone()]);
    // Strictly older: rejected.
    let (acc, err) = c.insert(vec![record(1, 10, 5, Some(102), vec![], 40)]);
    assert!(err.is_none());
    assert!(acc.is_empty());
    assert_eq!(c.get(1, 5).unwrap().peer_id, Some(PeerId(100)));
    // The identical record again: idempotent.
    let (acc2, _) = c.insert(vec![newer]);
    assert!(acc2.is_empty());
}

#[test]
fn accounts_data_bad_signature_rejects_the_whole_batch() {
    let mut c = Cache::new();
    let good = record(1, 10, 5, Some(100), vec![], 50);
    let mut bad = record(2, 11, 5, Some(200), vec![], 50);
    bad.timestamp = 60;
    let (acc, err) = c.insert(vec![good, bad]);
    assert_eq!(err, Some(BanReason::InvalidSignature));
    assert!(acc.is_empty());
    assert!(c.get(1, 5).is_none(), "nothing from the batch was stored");
}

#[test]
fn accounts_data_lookups() {
    let mut c = Cache::new();
    c.insert(vec![
        record(1, 10, 5, Some(100), vec![(7, 70)], 50),
        record(1, 10, 6, Some(100), vec![], 51),
        record(2, 20, 5, None, vec![(8, 80)], 52),
    ]);
    assert!(c.contains_account_key(1, 10));
    assert!(!c.contains_account_key(1, 11));
    let mut epochs = c.epochs(1, 10);
    epochs.sort();
    assert_eq!(epochs, vec![5, 6]);
    assert_eq!(c.records().len(), 3);
}
