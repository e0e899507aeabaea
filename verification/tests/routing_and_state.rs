//! Scenarios for the routing table view, the message router and the
//! validator-mesh control decisions.
use routing_core::accounts_data::AccountData;
use routing_core::connection_pool::Connection;
use routing_core::network_protocol::{
    CryptoHash, PeerAddr, PeerId, PeerIdOrHash, PeerMessage, RawRoutedMessage, RoutedMessageBody,
    SockAddr, Tier,
};
use routing_core::network_state::{
    ClientCall, Dispatch, NetworkConfig, NetworkState, Tier1Config, ValidatorConfig,
    ValidatorEndpoints,
};
use routing_core::routing_table_view::AnnounceAccount;
use routing_core::vmap::UMap;

fn state(node: u64, validator: Option<ValidatorConfig>) -> NetworkState {
    NetworkState::new(NetworkConfig { node_id: PeerId(node), routed_message_ttl: 100, validator })
}

fn conn(peer: u64, established_at: i64) -> Connection {
    Connection {
        peer_id: PeerId(peer),
        addr: Some(SockAddr(peer * 1000)),
        tier: Tier::T1,
        established_at,
        last_time_peer_requested: 0,
        outbox: Vec::new(),
    }
}

fn table(entries: &[(u64, &[u64])]) -> UMap<Vec<u64>> {
    let mut t = UMap::new();
    for (k, v) in entries {
        t.insert(*k, v.to_vec());
    }
    t
}

#[test]
fn messages_to_self_are_dropped() {
    let mut s = state(1, None);
    let raw = RawRoutedMessage {
        target: PeerIdOrHash::Peer(PeerId(1)),
        body: RoutedMessageBody::Ping { nonce: 1, source: PeerId(1) },
    };
    let msg = s.sign_message(10, raw, CryptoHash(99));
    assert!(!s.send_message_to_peer(10, Tier::T2, msg));
}

#[test]
fn tier2_send_follows_the_next_hop_table_and_records_a_route_back() {
    let mut s = state(1, None);
    // 3 is reachable through 2, and 2 is a ready connection.
    s.routing_table_view.update(table(&[(2, &[2]), (3, &[2])]));
    assert!(s.tier2.finish_handshake(2, Some(conn(2, 5))).is_ok());
    let raw = RawRoutedMessage {
        target: PeerIdOrHash::Peer(PeerId(3)),
        body: RoutedMessageBody::TxStatusRequest { account_id: 8, tx_hash: CryptoHash(5) },
    };
    let msg = s.sign_message(10, raw, CryptoHash(77));
    assert!(s.send_message_to_peer(10, Tier::T2, msg));
    let out = s.tier2.take_outbox(2);
    assert_eq!(out.len(), 1);
    // The request expected a response, so its hash now routes back to us.
    assert!(s.message_for_me(&PeerIdOrHash::Hash(CryptoHash(77))));
}

#[test]
fn reply_travels_back_along_the_recorded_route() {
    // The request from peer 9 was received here; the reply targets its
    // hash and leaves through the recorded previous hop.
    let mut s = state(1, None);
    assert!(s.tier2.finish_handshake(9, Some(conn(9, 5))).is_ok());
    s.routing_table_view.add_route_back(10, 55, PeerId(9));
    let reply = s.make_reply(
        11,
        CryptoHash(55),
        RoutedMessageBody::TxStatusResponse { payload: 4 },
        CryptoHash(78),
    );
    assert!(s.send_message_to_peer(11, Tier::T2, reply));
    let out = s.tier2.take_outbox(9);
    assert_eq!(out.len(), 1);
    // The entry was consumed: a second reply finds no route.
    let reply2 = s.make_reply(
        12,
        CryptoHash(55),
        RoutedMessageBody::TxStatusResponse { payload: 4 },
        CryptoHash(79),
    );
    assert!(!s.send_message_to_peer(12, Tier::T2, reply2));
}

#[test]
fn router_dispatch_decisions() {
    let s = state(1, None);
    let rm = s.sign_message(
        10,
        RawRoutedMessage {
            target: PeerIdOrHash::Peer(PeerId(1)),
            body: RoutedMessageBody::TxStatusRequest { account_id: 8, tx_hash: CryptoHash(5) },
        },
        CryptoHash(44),
    );
    match s.receive_message(PeerId(9), &PeerMessage::Routed(rm), false) {
        Dispatch::CallExpectingReply { call, reply_to } => {
            assert_eq!(call, ClientCall::TxStatusRequest { account_id: 8, tx_hash: CryptoHash(5) });
            assert_eq!(reply_to, CryptoHash(44), "the reply targets the request hash");
        }
        other => panic!("unexpected dispatch {:?}", other),
    }
    assert_eq!(
        s.receive_message(PeerId(9), &PeerMessage::BlockRequest { hash: CryptoHash(3) }, false),
        Dispatch::Call(ClientCall::BlockRequest { hash: CryptoHash(3) })
    );
    assert_eq!(
        s.receive_message(PeerId(9), &PeerMessage::Block { payload: 6 }, true),
        Dispatch::Call(ClientCall::Block { payload: 6, peer: PeerId(9), was_requested: true })
    );
    assert_eq!(
        s.receive_message(PeerId(9), &PeerMessage::PeersResponse { payload: 1 }, false),
        Dispatch::Ignore
    );
}

#[test]
fn account_announcements_resolve_owners() {
    let mut s = state(1, None);
    let fresh = s.broadcast_accounts(
        vec![AnnounceAccount { account_id: 5, peer_id: PeerId(9), epoch_id: 1 }],
        0,
    );
    assert_eq!(fresh.len(), 1);
    assert_eq!(s.routing_table_view.account_owner(5), Some(PeerId(9)));
    // The same announcement again is not new.
    let again = s.broadcast_accounts(
        vec![AnnounceAccount { account_id: 5, peer_id: PeerId(9), epoch_id: 1 }],
        0,
    );
    assert!(again.is_empty());
}

fn validator(account: u64, key: u64, proxies: &[(u64, u64)]) -> ValidatorConfig {
    ValidatorConfig {
        account_id: account,
        account_key: key,
        endpoints: ValidatorEndpoints::PublicAddrs(
            proxies
                .iter()
                .map(|(p, a)| PeerAddr { peer_id: PeerId(*p), addr: SockAddr(*a) })
                .collect(),
        ),
    }
}

fn announce(account: u64, key: u64, peer: Option<u64>, proxies: &[(u64, u64)], ts: i64) -> AccountData {
    AccountData::sign(
        account,
        key,
        1,
        peer.map(PeerId),
        proxies
            .iter()
            .map(|(p, a)| PeerAddr { peer_id: PeerId(*p), addr: SockAddr(*a) })
            .collect(),
        ts,
    )
}

#[test]
fn tier1_reconcile_stops_strangers_and_dials_uncovered_accounts() {
    // This node is validator 1; announcements list validators 2, 3, 4
    // with proxies; ready connections are the direct peer of 2, the
    // proxy of 3, and a stranger.
    let mut s = state(1, Some(validator(1, 10, &[(50, 500)])));
    let (_, err) = s.accounts_data.insert(vec![
        announce(1, 10, Some(1), &[(50, 500)], 5),
        announce(2, 20, Some(102), &[(60, 600)], 5),
        announce(3, 30, Some(103), &[(70, 700)], 5),
        announce(4, 40, Some(104), &[(80, 800)], 5),
    ]);
    assert!(err.is_none());
    assert!(s.tier1.finish_handshake(102, Some(conn(102, 5))).is_ok());
    assert!(s.tier1.finish_handshake(70, Some(conn(70, 6))).is_ok());
    assert!(s.tier1.finish_handshake(999, Some(conn(999, 7))).is_ok());
    let (stopped, dialing, _assignment) = s.tier1_connect_to_others_proxies(
        &Tier1Config { new_connections_per_tick: 1 },
        &vec![0, 0, 0, 0],
    );
    assert_eq!(stopped, vec![999], "the unannounced connection is dropped");
    assert!(s.tier1.get_ready(999).is_none());
    assert!(s.tier1.get_ready(102).is_some(), "the direct peer of 2 is safe");
    assert!(s.tier1.get_ready(70).is_some(), "the proxy of 3 is safe for a validator");
    assert_eq!(dialing.len(), 1, "one new connection per tick");
    assert_eq!(dialing[0].peer_id, PeerId(80), "a proxy of the uncovered validator 4");
}

#[test]
fn tier1_connects_to_own_missing_proxies() {
    let mut s = state(1, Some(validator(1, 10, &[(50, 500), (60, 600)])));
    s.accounts_data.insert(vec![announce(1, 10, Some(1), &[], 5)]);
    assert!(s.tier1.finish_handshake(50, Some(conn(50, 5))).is_ok());
    let dial = s.tier1_connect_to_my_proxies();
    assert_eq!(dial.len(), 1);
    assert_eq!(dial[0].peer_id, PeerId(60), "only the missing proxy is dialled");
}

#[test]
fn inbound_handshake_permits_are_bounded() {
    let mut s = state(1, None);
    let mut taken = 0u32;
    while s.try_acquire_inbound_permit() {
        taken += 1;
    }
    assert_eq!(taken, 60, "the configured bound");
    assert!(!s.try_acquire_inbound_permit());
    s.release_inbound_permit();
    assert!(s.try_acquire_inbound_permit(), "a released permit can be taken");
}

#[test]
fn propose_edge_uses_the_next_nonce() {
    let mut s = state(1, None);
    assert_eq!(s.propose_edge(PeerId(2), None).nonce, 1, "no local edge yet");
    assert_eq!(s.propose_edge(PeerId(2), Some(7)).nonce, 7);
    // After a local edge at nonce 3 the proposal moves past it.
    let pa = PeerId(1);
    let pb = PeerId(2);
    let e = routing_core::network_protocol::Edge::make(
        pa,
        pb,
        3,
        10,
        routing_core::network_protocol::sign_edge_payload(pa, pa, pb, 3),
        routing_core::network_protocol::sign_edge_payload(pb, pa, pb, 3),
    );
    s.add_verified_edges_to_routing_table(&vec![e]);
    assert_eq!(s.propose_edge(PeerId(2), None).nonce, 4);
}

#[test]
fn tier1_hash_targets_resolve_through_the_tier1_route_back() {
    let mut s = state(1, None);
    assert!(s.tier1.finish_handshake(7, Some(conn(7, 5))).is_ok());
    s.tier1_route_back.insert(33, 7, 10);
    let msg = s.sign_message(
        11,
        RawRoutedMessage {
            target: PeerIdOrHash::Hash(CryptoHash(33)),
            body: RoutedMessageBody::BlockApproval { payload: 2 },
        },
        CryptoHash(90),
    );
    assert!(s.send_message_to_peer(11, Tier::T1, msg));
    assert_eq!(s.tier1.take_outbox(7).len(), 1);
}

#[test]
fn stun_validator_announces_the_observed_loop_address() {
    // Under trusted address discovery the validator announces the loop
    // connection's observed address instead of configured ones.
    let mut s = state(
        1,
        Some(ValidatorConfig {
            account_id: 1,
            account_key: 10,
            endpoints: ValidatorEndpoints::TrustedStunServers(vec![SockAddr(9999)]),
        }),
    );
    s.accounts_data.insert(vec![announce(1, 10, Some(1), &[], 5)]);
    s.tier1.set_loop_out(Some(Connection {
        peer_id: PeerId(1),
        addr: Some(SockAddr(4242)),
        tier: Tier::T1,
        established_at: 3,
        last_time_peer_requested: 0,
        outbox: Vec::new(),
    }));
    let accepted = s.tier1_broadcast_my_proxies(50, 0);
    assert_eq!(accepted.len(), 1);
    assert_eq!(accepted[0].proxies.len(), 1);
    assert_eq!(accepted[0].proxies[0].peer_id, PeerId(1));
    assert_eq!(accepted[0].proxies[0].addr, SockAddr(4242), "the observed address");
    // Without a loop connection nothing can be announced.
    let mut s2 = state(
        1,
        Some(ValidatorConfig {
            account_id: 1,
            account_key: 10,
            endpoints: ValidatorEndpoints::TrustedStunServers(vec![SockAddr(9999)]),
        }),
    );
    s2.accounts_data.insert(vec![announce(1, 10, Some(1), &[], 5)]);
    let accepted2 = s2.tier1_broadcast_my_proxies(60, 0);
    assert_eq!(accepted2.len(), 1);
    assert!(accepted2[0].proxies.is_empty());
}

#[test]
fn important_payloads_are_sent_three_times() {
    let mut s = state(1, None);
    s.routing_table_view.update(table(&[(3, &[2])]));
    assert!(s.tier2.finish_handshake(2, Some(conn(2, 5))).is_ok());
    s.broadcast_accounts(
        vec![AnnounceAccount { account_id: 7, peer_id: PeerId(3), epoch_id: 1 }],
        0,
    );
    let _ = s.tier2.take_outbox(2);
    assert!(s.send_message_to_account(
        10,
        7,
        RoutedMessageBody::BlockApproval { payload: 4 },
        CryptoHash(91),
    ));
    assert_eq!(s.tier2.take_outbox(2).len(), 3, "important payloads go out three times");
    assert!(s.send_message_to_account(
        11,
        7,
        RoutedMessageBody::ForwardTx { payload: 4 },
        CryptoHash(92),
    ));
    assert_eq!(s.tier2.take_outbox(2).len(), 1, "ordinary payloads go out once");
}

#[test]
fn direct_tier1_connection_is_preferred_over_a_proxy() {
    let mut s = state(1, Some(validator(1, 10, &[])));
    s.accounts_data.insert(vec![announce(2, 20, Some(102), &[(60, 600)], 5)]);
    assert!(s.tier1.finish_handshake(60, Some(conn(60, 5))).is_ok());
    assert_eq!(
        s.get_tier1_proxy(2),
        Some((PeerId(102), PeerId(60))),
        "only the announced proxy is ready"
    );
    assert!(s.tier1.finish_handshake(102, Some(conn(102, 6))).is_ok());
    assert_eq!(
        s.get_tier1_proxy(2),
        Some((PeerId(102), PeerId(102))),
        "the direct connection wins once ready"
    );
}
