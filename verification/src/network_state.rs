//! The authoritative coordinator: owns the two connection pools, the
//! accounts-data cache, the routing table view and the validator-mesh
//! route-back cache, routes outbound messages, dispatches inbound ones,
//! and decides the validator-mesh reconciliation steps.  Everything that
//! performs transport work is returned to the caller as data.
use crate::accounts_data;
use crate::accounts_data::AccountData;
use crate::connection_pool::Pool;
use crate::network_protocol::{CryptoHash, MsgSignature, PartialEdgeInfo, PeerAddr, PeerId,
    PeerIdOrHash, PeerMessage, RawRoutedMessage, RoutedMessage, RoutedMessageBody, SockAddr, Tier};
use crate::route_back_cache::RouteBackCache;
use crate::routing_table_view::RoutingTableView;
use crate::util::vec_contains;
use crate::vmap::UMap;
use vstd::prelude::*;

verus! {

/// How many pending inbound handshakes are allowed at once.
pub const LIMIT_PENDING_PEERS: u32 = 60;

/// How many times an important message is re-sent on the general mesh.
pub const IMPORTANT_MESSAGE_RESENT_COUNT: u64 = 3;

/// How often a ready peer is asked for more peers, in milliseconds.
pub const REQUEST_PEERS_INTERVAL: i64 = 60000;

/// How a validator is reachable: via trusted address discovery, or a
/// fixed list of public proxy addresses.
pub enum ValidatorEndpoints {
    TrustedStunServers(Vec<SockAddr>),
    PublicAddrs(Vec<PeerAddr>),
}

/// The validator identity this node runs with, if any.
pub struct ValidatorConfig {
    pub account_id: u64,
    pub account_key: u64,
    pub endpoints: ValidatorEndpoints,
}

/// The configuration the coordinator works from.
pub struct NetworkConfig {
    pub node_id: PeerId,
    pub routed_message_ttl: u8,
    pub validator: Option<ValidatorConfig>,
}

/// The validator-mesh reconciliation knobs.
pub struct Tier1Config {
    pub new_connections_per_tick: usize,
}

/// One call into the application client, decided by the message router.
#[derive(Clone, Copy, PartialEq, Eq, Structural, Debug)]
pub enum ClientCall {
    TxStatusRequest { account_id: u64, tx_hash: CryptoHash },
    TxStatusResponse { payload: u64 },
    StateRequestHeader { shard_id: u64, sync_hash: CryptoHash },
    StateRequestPart { shard_id: u64, sync_hash: CryptoHash, part_id: u64 },
    StateResponse { payload: u64 },
    BlockApproval { payload: u64, peer: PeerId },
    Transaction { payload: u64, is_forwarded: bool },
    PartialEncodedChunkRequest { payload: u64, msg_hash: CryptoHash },
    PartialEncodedChunkResponse { payload: u64 },
    PartialEncodedChunk { payload: u64 },
    PartialEncodedChunkForward { payload: u64 },
    Block { payload: u64, peer: PeerId, was_requested: bool },
    BlockRequest { hash: CryptoHash },
    BlockHeaders { payload: u64, peer: PeerId },
    BlockHeadersRequest { payload: u64 },
    Challenge { payload: u64 },
}

/// What the router decided for an inbound message: call the client
/// (remembering the request hash when a reply must be routed back), or
/// ignore the message as forward-compatible noise.
#[derive(Clone, Copy, PartialEq, Eq, Structural, Debug)]
pub enum Dispatch {
    Call(ClientCall),
    CallExpectingReply { call: ClientCall, reply_to: CryptoHash },
    Ignore,
}

/// The router's decision for a routed payload.
pub open spec fn spec_routed_dispatch(peer: PeerId, msg_hash: CryptoHash, body: RoutedMessageBody) -> Dispatch {
    match body {
        RoutedMessageBody::TxStatusRequest { account_id, tx_hash } => Dispatch::CallExpectingReply {
            call: ClientCall::TxStatusRequest { account_id, tx_hash },
            reply_to: msg_hash,
        },
        RoutedMessageBody::TxStatusResponse { payload } => Dispatch::Call(
            ClientCall::TxStatusResponse { payload },
        ),
        RoutedMessageBody::StateRequestHeader { shard_id, sync_hash } => Dispatch::CallExpectingReply {
            call: ClientCall::StateRequestHeader { shard_id, sync_hash },
            reply_to: msg_hash,
        },
        RoutedMessageBody::StateRequestPart { shard_id, sync_hash, part_id } => Dispatch::CallExpectingReply {
            call: ClientCall::StateRequestPart { shard_id, sync_hash, part_id },
            reply_to: msg_hash,
        },
        RoutedMessageBody::VersionedStateResponse { payload } => Dispatch::Call(
            ClientCall::StateResponse { payload },
        ),
        RoutedMessageBody::BlockApproval { payload } => Dispatch::Call(
            ClientCall::BlockApproval { payload, peer },
        ),
        RoutedMessageBody::ForwardTx { payload } => Dispatch::Call(
            ClientCall::Transaction { payload, is_forwarded: true },
        ),
        RoutedMessageBody::PartialEncodedChunkRequest { payload } => Dispatch::Call(
            ClientCall::PartialEncodedChunkRequest { payload, msg_hash },
        ),
        RoutedMessageBody::PartialEncodedChunkResponse { payload } => Dispatch::Call(
            ClientCall::PartialEncodedChunkResponse { payload },
        ),
        RoutedMessageBody::VersionedPartialEncodedChunk { payload } => Dispatch::Call(
            ClientCall::PartialEncodedChunk { payload },
        ),
        RoutedMessageBody::PartialEncodedChunkForward { payload } => Dispatch::Call(
            ClientCall::PartialEncodedChunkForward { payload },
        ),
        RoutedMessageBody::ReceiptOutcomeRequest { .. } => Dispatch::Ignore,
        _ => Dispatch::Ignore,
    }
}

/// The router's decision for a wire message.
pub open spec fn spec_dispatch(peer: PeerId, msg: PeerMessage, was_requested: bool) -> Dispatch {
    match msg {
        PeerMessage::Routed(rm) => spec_routed_dispatch(peer, rm.hash, rm.body),
        PeerMessage::BlockRequest { hash } => Dispatch::Call(ClientCall::BlockRequest { hash }),
        PeerMessage::Block { payload } => Dispatch::Call(
            ClientCall::Block { payload, peer, was_requested },
        ),
        PeerMessage::BlockHeadersRequest { payload } => Dispatch::Call(
            ClientCall::BlockHeadersRequest { payload },
        ),
        PeerMessage::BlockHeaders { payload } => Dispatch::Call(
            ClientCall::BlockHeaders { payload, peer },
        ),
        PeerMessage::Transaction { payload } => Dispatch::Call(
            ClientCall::Transaction { payload, is_forwarded: false },
        ),
        PeerMessage::Challenge { payload } => Dispatch::Call(ClientCall::Challenge { payload }),
        _ => Dispatch::Ignore,
    }
}

/// The configured addresses we hold a ready connection to, under a
/// matching observed address, in configuration order.
pub open spec fn spec_matching_connected(addrs: Seq<PeerAddr>, ready: Map<u64, crate::connection_pool::Connection>) -> Seq<PeerAddr>
    decreases addrs.len(),
{
    if addrs.len() == 0 {
        Seq::empty()
    } else {
        let pre = spec_matching_connected(addrs.drop_last(), ready);
        let p = addrs.last();
        if ready.contains_key(p.peer_id.0) && ready[p.peer_id.0].addr == Some(p.addr) {
            pre.push(p)
        } else {
            pre
        }
    }
}

/// The configured validator account, if any.
pub open spec fn spec_validator_account(cfg: NetworkConfig) -> Option<u64> {
    match cfg.validator {
        Some(v) => Some(v.account_id),
        None => None,
    }
}

/// Whether the configuration names a validator that the cache lists
/// under its key.
pub open spec fn spec_registered_validator(cfg: NetworkConfig, cache: Map<(u64, u64), crate::accounts_data::AccountDataView>) -> bool {
    match cfg.validator {
        Some(v) => exists|k: (u64, u64)|
            #[trigger] cache.contains_key(k) && cache[k].account_id == v.account_id
                && cache[k].account_key == v.account_key,
        None => false,
    }
}

/// Whether some record of the cache names `p` directly or as a proxy.
pub open spec fn announced_in(cache: Map<(u64, u64), crate::accounts_data::AccountDataView>, p: u64) -> bool {
    exists|k: (u64, u64)|
        #[trigger] cache.contains_key(k) && (cache[k].peer_id == Some(PeerId(p)) || (exists|j: int|
            0 <= j < cache[k].proxies.len() && (#[trigger] cache[k].proxies[j]).peer_id.0 == p))
}

/// What a finished validator-mesh reconciliation guarantees, given the
/// safe assignment it worked from: every assigned wire peer was ready
/// and announced; every account with a ready direct peer is covered;
/// exactly the assigned peers survive; and every dialled address is an
/// announced proxy of an uncovered foreign account.
pub open spec fn reconcile_post(
    pre_ready: Map<u64, crate::connection_pool::Connection>,
    post_ready: Map<u64, crate::connection_pool::Connection>,
    cache: Map<(u64, u64), crate::accounts_data::AccountDataView>,
    my_account: Option<u64>,
    pre_outbound: Seq<u64>,
    budget: int,
    registered: bool,
    dialing: Seq<PeerAddr>,
    assigned: Map<u64, u64>,
) -> bool {
    &&& (forall|a: u64| #[trigger]
        assigned.contains_key(a) ==> pre_ready.contains_key(assigned[a]) && announced_in(
            cache,
            assigned[a],
        ))
    &&& (forall|k: (u64, u64)| #[trigger]
        cache.contains_key(k) ==> match cache[k].peer_id {
            Some(p) => pre_ready.contains_key(p.0) ==> assigned.contains_key(cache[k].account_id),
            None => true,
        })
    &&& (forall|p: u64| #[trigger]
        pre_ready.contains_key(p) ==> (post_ready.contains_key(p) <==> exists|a: u64| #[trigger]
            assigned.contains_key(a) && assigned[a] == p))
    &&& (forall|ad: PeerAddr| #[trigger]
        dialing.contains(ad) ==> exists|k: (u64, u64)| #[trigger]
            cache.contains_key(k) && !assigned.contains_key(cache[k].account_id) && (
            match my_account {
                Some(acc) => cache[k].account_id != acc,
                None => false,
            }) && (exists|j: int|
                0 <= j < cache[k].proxies.len() && (#[trigger] cache[k].proxies[j]) == ad))
    &&& (registered && budget > 0 && (exists|k: (u64, u64)| #[trigger]
        cache.contains_key(k) && !assigned.contains_key(cache[k].account_id) && (
        match my_account {
            Some(acc) => cache[k].account_id != acc,
            None => false,
        }) && cache[k].proxies.len() > 0 && (forall|j: int|
            0 <= j < cache[k].proxies.len() ==> !pre_outbound.contains(
                (#[trigger] cache[k].proxies[j]).peer_id.0,
            ))) ==> dialing.len() > 0)
}

pub struct NetworkState {
    pub config: NetworkConfig,
    pub tier1: Pool,
    pub tier2: Pool,
    pub accounts_data: accounts_data::Cache,
    pub routing_table_view: RoutingTableView,
    pub tier1_route_back: RouteBackCache,
    pub inbound_handshake_permits: u32,
}

impl NetworkState {
    pub open spec fn wf(&self) -> bool {
        &&& self.tier1.wf()
        &&& self.tier2.wf()
        &&& self.accounts_data.wf()
        &&& self.routing_table_view.wf()
        &&& self.tier1_route_back.wf()
        &&& self.inbound_handshake_permits <= LIMIT_PENDING_PEERS
    }

    pub fn new(config: NetworkConfig) -> (r: NetworkState)
        ensures
            r.wf(),
            r.config.node_id == config.node_id,
            r.inbound_handshake_permits == LIMIT_PENDING_PEERS,
            r.tier1.ready_map() == Map::<u64, crate::connection_pool::Connection>::empty(),
            r.tier2.ready_map() == Map::<u64, crate::connection_pool::Connection>::empty(),
    {
        let node_id = config.node_id;
        NetworkState {
            config,
            tier1: Pool::new(node_id),
            tier2: Pool::new(node_id),
            accounts_data: accounts_data::Cache::new(),
            routing_table_view: RoutingTableView::new(node_id, 100000, 3600000, 2500),
            tier1_route_back: RouteBackCache::new(100000, 3600000, 2500),
            inbound_handshake_permits: LIMIT_PENDING_PEERS,
        }
    }

    /// Takes one inbound-handshake permit, refusing when the bound is
    /// reached; the caller must hold a permit before reading any byte
    /// from a new inbound socket.
    pub fn try_acquire_inbound_permit(&mut self) -> (r: bool)
        requires
            old(self).wf(),
        ensures
            final(self).wf(),
            r == (old(self).inbound_handshake_permits > 0),
            r ==> final(self).inbound_handshake_permits == old(self).inbound_handshake_permits
                - 1,
            !r ==> *final(self) == *old(self),
    {
        if self.inbound_handshake_permits > 0 {
            self.inbound_handshake_permits = self.inbound_handshake_permits - 1;
            true
        } else {
            false
        }
    }

    /// Returns an inbound-handshake permit on completion or failure.
    pub fn release_inbound_permit(&mut self)
        requires
            old(self).wf(),
            old(self).inbound_handshake_permits < LIMIT_PENDING_PEERS,
        ensures
            final(self).wf(),
            final(self).inbound_handshake_permits == old(self).inbound_handshake_permits + 1,
    {
        self.inbound_handshake_permits = self.inbound_handshake_permits + 1;
    }

    /// The nonce and signature half of a fresh edge towards `peer`: two
    /// above the latest known local edge, so that a missed removal
    /// cannot make the proposal stale.
    pub fn propose_edge(&self, peer1: PeerId, with_nonce: Option<u64>) -> (r: PartialEdgeInfo)
        requires
            self.wf(),
            self.config.node_id.0 != peer1.0,
            match with_nonce {
                Some(n) => true,
                None => match self.routing_table_view.spec_local_nonce(peer1) {
                    Some(n) => n < u64::MAX,
                    None => true,
                },
            },
        ensures
            r.nonce == match with_nonce {
                Some(n) => n,
                None => match self.routing_table_view.spec_local_nonce(peer1) {
                    Some(n) => (n + 1) as u64,
                    None => 1u64,
                },
            },
    {
        let nonce = match with_nonce {
            Some(n) => n,
            None => {
                match self.routing_table_view.get_local_edge(peer1) {
                    Some(edge) => edge.next(),
                    None => 1,
                }
            }
        };
        PartialEdgeInfo::new(self.config.node_id, peer1, nonce)
    }

    /// This node's account identity, iff it is configured as a validator
    /// and listed in the accounts-data cache under its key.
    pub fn tier1_account_id(&self) -> (r: Option<u64>)
        requires
            self.wf(),
        ensures
            match r {
                Some(a) => match self.config.validator {
                    Some(v) => a == v.account_id && exists|k: (u64, u64)|
                        #[trigger] self.accounts_data@.contains_key(k)
                            && self.accounts_data@[k].account_id == v.account_id
                            && self.accounts_data@[k].account_key == v.account_key,
                    None => false,
                },
                None => match self.config.validator {
                    Some(v) => !(exists|k: (u64, u64)|
                        #[trigger] self.accounts_data@.contains_key(k)
                            && self.accounts_data@[k].account_id == v.account_id
                            && self.accounts_data@[k].account_key == v.account_key),
                    None => true,
                },
            },
    {
        let v = match &self.config.validator {
            Some(v) => v,
            None => {
                return None;
            },
        };
        if self.accounts_data.contains_account_key(v.account_id, v.account_key) {
            Some(v.account_id)
        } else {
            None
        }
    }

    /// The configured proxies this validator currently announces: the
    /// fixed public addresses, when this node is a listed validator with
    /// such a configuration, and nothing otherwise.
    pub fn my_tier1_proxies(&self) -> (r: Vec<PeerAddr>)
        requires
            self.wf(),
        ensures
            match self.config.validator {
                Some(v) => match v.endpoints {
                    ValidatorEndpoints::PublicAddrs(addrs) => (exists|k: (u64, u64)|
                        #[trigger] self.accounts_data@.contains_key(k)
                            && self.accounts_data@[k].account_id == v.account_id
                            && self.accounts_data@[k].account_key == v.account_key) ==> r@
                        == addrs@,
                    ValidatorEndpoints::TrustedStunServers(_) => r@ == Seq::<PeerAddr>::empty(),
                },
                None => r@ == Seq::<PeerAddr>::empty(),
            },
            match self.config.validator {
                Some(v) => !(exists|k: (u64, u64)|
                    #[trigger] self.accounts_data@.contains_key(k)
                        && self.accounts_data@[k].account_id == v.account_id
                        && self.accounts_data@[k].account_key == v.account_key) ==> r@
                    == Seq::<PeerAddr>::empty(),
                None => true,
            },
    {
        let v = match &self.config.validator {
            Some(v) => v,
            None => {
                return Vec::new();
            },
        };
        if !self.accounts_data.contains_account_key(v.account_id, v.account_key) {
            return Vec::new();
        }
        match &v.endpoints {
            ValidatorEndpoints::TrustedStunServers(_) => Vec::new(),
            ValidatorEndpoints::PublicAddrs(addrs) => {
                let mut out: Vec<PeerAddr> = Vec::new();
                let n = addrs.len();
                let mut i: usize = 0;
                while i < n
                    invariant
                        n == addrs@.len(),
                        i <= n,
                        out@ == addrs@.take(i as int),
                    decreases n - i,
                {
                    out.push(addrs[i]);
                    proof {
                        assert(out@ =~= addrs@.take(i + 1));
                    }
                    i += 1;
                }
                proof {
                    assert(addrs@.take(n as int) =~= addrs@);
                }
                out
            }
        }
    }

    /// Which configured proxies should be dialled on the validator mesh:
    /// exactly those neither ready nor already being connected to.
    pub fn tier1_connect_to_my_proxies(&self) -> (r: Vec<PeerAddr>)
        requires
            self.wf(),
        ensures
            forall|i: int|
                0 <= i < r@.len() ==> !self.tier1.ready_map().contains_key(
                    (#[trigger] r@[i]).peer_id.0,
                ) && !self.tier1.outbound().contains(r@[i].peer_id.0),
            match self.config.validator {
                Some(v) => match v.endpoints {
                    ValidatorEndpoints::PublicAddrs(addrs) => (exists|k: (u64, u64)|
                        #[trigger] self.accounts_data@.contains_key(k)
                            && self.accounts_data@[k].account_id == v.account_id
                            && self.accounts_data@[k].account_key == v.account_key) ==> forall|
                        i: int,
                    |
                        0 <= i < addrs@.len() && !self.tier1.ready_map().contains_key(
                            (#[trigger] addrs@[i]).peer_id.0,
                        ) && !self.tier1.outbound().contains(addrs@[i].peer_id.0) ==> r@.contains(
                            addrs@[i],
                        ),
                    ValidatorEndpoints::TrustedStunServers(_) => true,
                },
                None => true,
            },
    {
        let v = match &self.config.validator {
            Some(v) => v,
            None => {
                return Vec::new();
            },
        };
        if !self.accounts_data.contains_account_key(v.account_id, v.account_key) {
            return Vec::new();
        }
        let addrs = match &v.endpoints {
            ValidatorEndpoints::TrustedStunServers(_) => {
                return Vec::new();
            },
            ValidatorEndpoints::PublicAddrs(addrs) => addrs,
        };
        let mut out: Vec<PeerAddr> = Vec::new();
        let n = addrs.len();
        let mut i: usize = 0;
        while i < n
            invariant
                self.wf(),
                n == addrs@.len(),
                i <= n,
                forall|j: int|
                    0 <= j < out@.len() ==> !self.tier1.ready_map().contains_key(
                        (#[trigger] out@[j]).peer_id.0,
                    ) && !self.tier1.outbound().contains(out@[j].peer_id.0),
                forall|j: int|
                    0 <= j < i && !self.tier1.ready_map().contains_key(
                        (#[trigger] addrs@[j]).peer_id.0,
                    ) && !self.tier1.outbound().contains(addrs@[j].peer_id.0) ==> out@.contains(
                        addrs@[j],
                    ),
            decreases n - i,
        {
            let proxy = addrs[i];
            let ready = match self.tier1.get_ready(proxy.peer_id.0) {
                Some(_) => true,
                None => false,
            };
            let connecting = self.tier1_outbound_contains(proxy.peer_id.0);
            if !ready && !connecting {
                let ghost outp = out@;
                out.push(proxy);
                proof {
                    assert(out@[out@.len() - 1] == proxy);
                    assert(out@.contains(proxy));
                    assert forall|j: int|
                        0 <= j < i + 1 && !self.tier1.ready_map().contains_key(
                            (#[trigger] addrs@[j]).peer_id.0,
                        ) && !self.tier1.outbound().contains(
                            addrs@[j].peer_id.0,
                        ) implies out@.contains(addrs@[j]) by {
                        if j < i {
                            assert(outp.contains(addrs@[j]));
                            let jj = choose|jj: int| 0 <= jj < outp.len() && outp[jj] == addrs@[j];
                            assert(out@[jj] == addrs@[j]);
                        }
                    }
                }
            }
            i += 1;
        }
        out
    }

    fn tier1_outbound_contains(&self, peer: u64) -> (r: bool)
        requires
            self.wf(),
        ensures
            r == self.tier1.outbound().contains(peer),
    {
        self.tier1.outbound_contains(peer)
    }

    /// Whether this node is announced in the accounts-data cache under
    /// the validator identity `v`.
    pub open spec fn spec_registered(&self, v: ValidatorConfig) -> bool {
        exists|k: (u64, u64)|
            #[trigger] self.accounts_data@.contains_key(k) && self.accounts_data@[k].account_id
                == v.account_id && self.accounts_data@[k].account_key == v.account_key
    }

    /// The proxies this validator announces: under trusted address
    /// discovery, the loop connection's observed address; otherwise the
    /// configured public addresses we hold a ready connection to, under
    /// a matching address.
    pub open spec fn spec_announced_proxies(&self, v: ValidatorConfig) -> Seq<PeerAddr> {
        match v.endpoints {
            ValidatorEndpoints::TrustedStunServers(_) => match self.tier1.spec_loop_out() {
                Some(c) => match c.addr {
                    Some(a) => seq![PeerAddr { peer_id: self.config.node_id, addr: a }],
                    None => Seq::empty(),
                },
                None => Seq::empty(),
            },
            ValidatorEndpoints::PublicAddrs(addrs) => spec_matching_connected(
                addrs@,
                self.tier1.ready_map(),
            ),
        }
    }

    /// Signs one accounts-data record per epoch this validator is in,
    /// merges them, and queues the accepted subset for broadcast on the
    /// general mesh.  Returns the accepted records.
    pub fn tier1_broadcast_my_proxies(&mut self, now: i64, payload: u64) -> (r: Vec<AccountData>)
        requires
            old(self).wf(),
        ensures
            final(self).wf(),
            forall|i: int|
                0 <= i < r@.len() ==> ((#[trigger] r@[i])@.spec_verified() && match old(self).config.validator {
                    Some(v) => r@[i]@.account_id == v.account_id && r@[i]@.timestamp == now,
                    None => false,
                }),
            match old(self).config.validator {
                None => r@ == Seq::<AccountData>::empty() && *final(self) == *old(self),
                Some(v) => {
                    &&& (!old(self).spec_registered(v) ==> r@ == Seq::<AccountData>::empty()
                        && *final(self) == *old(self))
                    &&& (old(self).spec_registered(v) ==> exists|rs: Seq<
                        crate::accounts_data::AccountDataView,
                    >|
                        {
                            &&& (forall|e: u64|
                                (exists|i: int|
                                    0 <= i < rs.len() && (#[trigger] rs[i]).epoch_id == e) <==> (
                                old(self).accounts_data@.contains_key((v.account_id, e)) && old(self).accounts_data@[(v.account_id, e)].account_key == v.account_key))
                            &&& (forall|i: int|
                                0 <= i < rs.len() ==> (#[trigger] rs[i]).spec_verified()
                                    && rs[i].account_id == v.account_id && rs[i].account_key
                                    == v.account_key && rs[i].timestamp == now && rs[i].peer_id
                                    == Some(old(self).config.node_id) && rs[i].proxies == old(self).spec_announced_proxies(v))
                            &&& final(self).accounts_data@
                                == crate::accounts_data::insert_fold(
                                old(self).accounts_data@,
                                rs,
                            ).0
                            &&& crate::accounts_data::views_of(r@)
                                == crate::accounts_data::insert_fold(
                                old(self).accounts_data@,
                                rs,
                            ).1
                        })
                    &&& (old(self).spec_registered(v) ==> (forall|p: u64|
                        final(self).tier2.ready_map().contains_key(p) == old(self).tier2.ready_map().contains_key(p)) && (forall|p: u64| #[trigger]
                        final(self).tier2.ready_map().contains_key(p) ==> final(self).tier2.ready_map()[p].outbox@ == old(self).tier2.ready_map()[
                            p
                        ].outbox@.push(
                            PeerMessage::SyncAccountsData {
                                incremental: true,
                                requesting_full_sync: false,
                                payload,
                            },
                        )))
                },
            },
    {
        let v = match &self.config.validator {
            Some(v) => v,
            None => {
                return Vec::new();
            },
        };
        let account_id = v.account_id;
        let account_key = v.account_key;
        if !self.accounts_data.contains_account_key(account_id, account_key) {
            return Vec::new();
        }
        // The proxies to announce: the loop connection's observed address
        // under trusted discovery, else the configured addresses we are
        // connected to under a matching address.
        let my_proxies: Vec<PeerAddr> = match &v.endpoints {
            ValidatorEndpoints::TrustedStunServers(_) => {
                match self.tier1.loop_out_addr() {
                    Some(a) => {
                        let mut one: Vec<PeerAddr> = Vec::new();
                        one.push(PeerAddr { peer_id: self.config.node_id, addr: a });
                        one
                    }
                    None => Vec::new(),
                }
            }
            ValidatorEndpoints::PublicAddrs(addrs) => {
                let mut connected: Vec<PeerAddr> = Vec::new();
                let n = addrs.len();
                let mut i: usize = 0;
                while i < n
                    invariant
                        self.wf(),
                        n == addrs@.len(),
                        i <= n,
                        connected@ == spec_matching_connected(
                            addrs@.take(i as int),
                            self.tier1.ready_map(),
                        ),
                    decreases n - i,
                {
                    let proxy = addrs[i];
                    proof {
                        assert(addrs@.take(i + 1).drop_last() =~= addrs@.take(i as int));
                        assert(addrs@.take(i + 1).last() == addrs@[i as int]);
                    }
                    match self.tier1.get_ready(proxy.peer_id.0) {
                        Some(conn) => {
                            let matches = match conn.addr {
                                Some(a) => a.0 == proxy.addr.0,
                                None => false,
                            };
                            if matches {
                                connected.push(proxy);
                            }
                            proof {
                                assert(match self.tier1.ready_map()[proxy.peer_id.0].addr {
                                    Some(a) => a == proxy.addr ==> connected@
                                        == spec_matching_connected(
                                        addrs@.take(i as int),
                                        self.tier1.ready_map(),
                                    ).push(proxy),
                                    None => true,
                                });
                            }
                        }
                        None => {},
                    }
                    i += 1;
                }
                proof {
                    assert(addrs@.take(n as int) =~= addrs@);
                }
                connected
            }
        };
        let ghost pxs = my_proxies@;
        proof {
            match old(self).config.validator {
                Some(vv) => {
                    assert(pxs == old(self).spec_announced_proxies(vv));
                }
                None => {
                    assert(false);
                }
            }
        }
        let epochs = self.accounts_data.epochs(account_id, account_key);
        let mut records: Vec<AccountData> = Vec::new();
        let n = epochs.len();
        let mut i: usize = 0;
        while i < n
            invariant
                *self == *old(self),
                self.wf(),
                n == epochs@.len(),
                i <= n,
                pxs == my_proxies@,
                account_id == match old(self).config.validator {
                    Some(v) => v.account_id,
                    None => 0,
                },
                account_key == match old(self).config.validator {
                    Some(v) => v.account_key,
                    None => 0,
                },
                old(self).config.validator.is_some(),
                records@.len() == i,
                forall|j: int|
                    0 <= j < records@.len() ==> ((#[trigger] records@[j])@.spec_verified()
                        && records@[j]@.account_id == account_id && records@[j]@.account_key
                        == account_key && records@[j]@.timestamp == now && records@[j]@.peer_id
                        == Some(old(self).config.node_id) && records@[j]@.proxies == pxs
                        && records@[j]@.epoch_id == epochs@[j]),
            decreases n - i,
        {
            let mut proxies: Vec<PeerAddr> = Vec::new();
            let m = my_proxies.len();
            let mut j: usize = 0;
            while j < m
                invariant
                    m == my_proxies@.len(),
                    j <= m,
                    proxies@ == my_proxies@.take(j as int),
                decreases m - j,
            {
                proxies.push(my_proxies[j]);
                proof {
                    assert(proxies@ =~= my_proxies@.take(j + 1));
                }
                j += 1;
            }
            proof {
                assert(my_proxies@.take(m as int) =~= my_proxies@);
            }
            let rec = AccountData::sign(
                account_id,
                account_key,
                epochs[i],
                Some(self.config.node_id),
                proxies,
                now,
            );
            records.push(rec);
            proof {
                assert(records@[records@.len() - 1]@.spec_verified());
            }
            i += 1;
        }
        let ghost rs = crate::accounts_data::views_of(records@);
        proof {
            assert forall|e: u64|
                (exists|i2: int| 0 <= i2 < rs.len() && (#[trigger] rs[i2]).epoch_id == e) <==> (
                old(self).accounts_data@.contains_key((account_id, e)) && old(self).accounts_data@[(account_id, e)].account_key == account_key) by {
                if exists|i2: int| 0 <= i2 < rs.len() && (#[trigger] rs[i2]).epoch_id == e {
                    let i2 = choose|i2: int|
                        0 <= i2 < rs.len() && (#[trigger] rs[i2]).epoch_id == e;
                    assert(rs[i2] == records@[i2]@);
                    assert(epochs@[i2] == e);
                    assert(epochs@.contains(e));
                }
                if old(self).accounts_data@.contains_key((account_id, e)) && old(self).accounts_data@[(account_id, e)].account_key == account_key {
                    assert(epochs@.contains(e));
                    let j2 = choose|j2: int| 0 <= j2 < epochs@.len() && epochs@[j2] == e;
                    assert(rs[j2] == records@[j2]@);
                    assert(rs[j2].epoch_id == e);
                }
            }
        }
        let (accepted, _err) = self.accounts_data.insert(records);
        proof {
            crate::accounts_data::lemma_insert_fold_accepted(old(self).accounts_data@, rs);
            assert(_err.is_none()) by {
                if _err.is_some() {
                    let i2 = choose|i2: int|
                        0 <= i2 < records@.len() && !(#[trigger] records@[i2])@.spec_verified();
                }
            }
            assert forall|i2: int| 0 <= i2 < accepted@.len() implies ((
            #[trigger] accepted@[i2])@.spec_verified() && match old(self).config.validator {
                Some(v) => accepted@[i2]@.account_id == v.account_id && accepted@[i2]@.timestamp
                    == now,
                None => false,
            }) by {
                let vs = rs;
                assert(crate::accounts_data::views_of(accepted@)[i2] == accepted@[i2]@);
                assert(vs.contains(accepted@[i2]@));
                let j = choose|j: int| 0 <= j < vs.len() && vs[j] == accepted@[i2]@;
                assert(vs[j] == records@[j]@);
            }
        }
        self.tier2.broadcast_message(
            &PeerMessage::SyncAccountsData {
                incremental: true,
                requesting_full_sync: false,
                payload,
            },
        );
        accepted
    }

    /// Whether some announcement makes a validator-mesh connection to
    /// `p` defensible: a record names `p` directly, or names it as a
    /// proxy.
    pub open spec fn spec_announced(&self, p: u64) -> bool {
        announced_in(self.accounts_data@, p)
    }

    /// Reconciles the validator mesh: drops every ready validator-mesh
    /// connection that no current announcement justifies, and picks up
    /// to `cfg.new_connections_per_tick` new proxies to dial for
    /// accounts not yet covered, steered by the supplied random words.
    /// Returns the peers whose connections were dropped and the
    /// addresses to dial.
    pub fn tier1_connect_to_others_proxies(&mut self, cfg: &Tier1Config, rng: &Vec<u64>) -> (r: (
        Vec<u64>,
        Vec<PeerAddr>,
        Ghost<Map<u64, u64>>,
    ))
        requires
            old(self).wf(),
        ensures
            final(self).wf(),
            r.1@.len() <= cfg.new_connections_per_tick,
            forall|i: int|
                0 <= i < r.0@.len() ==> old(self).tier1.ready_map().contains_key(
                    #[trigger] r.0@[i],
                ) && !final(self).tier1.ready_map().contains_key(r.0@[i]),
            forall|p: u64| #[trigger]
                old(self).tier1.ready_map().contains_key(p) && !old(self).spec_announced(p)
                    ==> !final(self).tier1.ready_map().contains_key(p),
            reconcile_post(
                old(self).tier1.ready_map(),
                final(self).tier1.ready_map(),
                old(self).accounts_data@,
                spec_validator_account(old(self).config),
                old(self).tier1.outbound(),
                cfg.new_connections_per_tick as int,
                spec_registered_validator(old(self).config, old(self).accounts_data@),
                r.1@,
                r.2@,
            ),
    {
        let my_account = self.tier1_account_id();
        let records = self.accounts_data.records();
        // Ready validator-mesh peers, processed newest first so that the
        // oldest connection of each account wins.
        let ready = self.tier1.ready_peers();
        let ordered = self.order_by_established_newest_first(&ready);
        // Assign each account its safe connection: direct peers first,
        // then (for a validator node) proxies.
        let mut safe: UMap<u64> = UMap::new();
        let rn = records.len();
        let on = ordered.len();
        let mut oi: usize = 0;
        while oi < on
            invariant
                self.wf(),
                *self == *old(self),
                on == ordered@.len(),
                oi <= on,
                safe.wf(),
                rn == records@.len(),
                forall|x: u64| ordered@.contains(x) <==> ready@.contains(x),
                forall|x: u64| ready@.contains(x) <==> self.tier1.ready_map().contains_key(x),
                forall|j: int|
                    0 <= j < rn ==> self.accounts_data@.contains_key(
                        ((#[trigger] records@[j])@).spec_key(),
                    ) && self.accounts_data@[records@[j]@.spec_key()] == records@[j]@,
                forall|k: (u64, u64)| #[trigger]
                    self.accounts_data@.contains_key(k) ==> exists|jr: int|
                        0 <= jr < rn && ((#[trigger] records@[jr])@) == self.accounts_data@[k],
                forall|a: u64| #[trigger]
                    safe@.contains_key(a) ==> self.spec_announced(safe@[a])
                        && self.tier1.ready_map().contains_key(safe@[a]),
                forall|jr: int, oi2: int|
                    0 <= jr < rn && 0 <= oi2 < oi && ((#[trigger] records@[jr])@).peer_id == Some(
                        PeerId(#[trigger] ordered@[oi2]),
                    ) ==> safe@.contains_key(records@[jr]@.account_id),
            decreases on - oi,
        {
            let p = ordered[oi];
            let mut ri: usize = 0;
            while ri < rn
                invariant
                    self.wf(),
                    *self == *old(self),
                    on == ordered@.len(),
                    oi < on,
                    p == ordered@[oi as int],
                    rn == records@.len(),
                    ri <= rn,
                    safe.wf(),
                    forall|x: u64| ordered@.contains(x) <==> ready@.contains(x),
                    forall|x: u64| ready@.contains(x) <==> self.tier1.ready_map().contains_key(x),
                    forall|j: int|
                        0 <= j < rn ==> self.accounts_data@.contains_key(
                            ((#[trigger] records@[j])@).spec_key(),
                        ) && self.accounts_data@[records@[j]@.spec_key()] == records@[j]@,
                    forall|a: u64| #[trigger]
                        safe@.contains_key(a) ==> self.spec_announced(safe@[a])
                            && self.tier1.ready_map().contains_key(safe@[a]),
                    forall|jr: int, oi2: int|
                        0 <= jr < rn && 0 <= oi2 < oi && ((#[trigger] records@[jr])@).peer_id
                            == Some(PeerId(#[trigger] ordered@[oi2])) ==> safe@.contains_key(
                            records@[jr]@.account_id,
                        ),
                    forall|jr: int|
                        0 <= jr < ri && ((#[trigger] records@[jr])@).peer_id == Some(PeerId(p))
                            ==> safe@.contains_key(records@[jr]@.account_id),
                decreases rn - ri,
            {
                let direct = match records[ri].peer_id {
                    Some(q) => q.0 == p,
                    None => false,
                };
                if direct {
                    safe.insert(records[ri].account_id, p);
                    proof {
                        let k = records@[ri as int]@.spec_key();
                        assert(self.accounts_data@.contains_key(k));
                        assert(self.accounts_data@[k].peer_id == Some(PeerId(p)));
                        assert(self.spec_announced(p));
                        assert(ordered@.contains(p)) by {
                            assert(ordered@[oi as int] == p);
                        }
                    }
                }
                ri += 1;
            }
            proof {
                assert forall|jr: int, oi2: int|
                    0 <= jr < rn && 0 <= oi2 < oi + 1 && ((#[trigger] records@[jr])@).peer_id
                        == Some(PeerId(#[trigger] ordered@[oi2])) implies safe@.contains_key(
                    records@[jr]@.account_id,
                ) by {
                    if oi2 == oi {
                        assert(records@[jr]@.peer_id == Some(PeerId(p)));
                    }
                }
            }
            oi += 1;
        }
        if my_account.is_some() {
            let mut oi2: usize = 0;
            while oi2 < on
                invariant
                    self.wf(),
                    *self == *old(self),
                    on == ordered@.len(),
                    oi2 <= on,
                    safe.wf(),
                    rn == records@.len(),
                    forall|x: u64| ordered@.contains(x) <==> ready@.contains(x),
                    forall|x: u64| ready@.contains(x) <==> self.tier1.ready_map().contains_key(x),
                    forall|j: int|
                        0 <= j < rn ==> self.accounts_data@.contains_key(
                            ((#[trigger] records@[j])@).spec_key(),
                        ) && self.accounts_data@[records@[j]@.spec_key()] == records@[j]@,
                    forall|a: u64| #[trigger]
                        safe@.contains_key(a) ==> self.spec_announced(safe@[a])
                            && self.tier1.ready_map().contains_key(safe@[a]),
                    forall|jr: int, oj: int|
                        0 <= jr < rn && 0 <= oj < on && ((#[trigger] records@[jr])@).peer_id
                            == Some(PeerId(#[trigger] ordered@[oj])) ==> safe@.contains_key(
                            records@[jr]@.account_id,
                        ),
                decreases on - oi2,
            {
                let p = ordered[oi2];
                let mut ri: usize = 0;
                while ri < rn
                    invariant
                        self.wf(),
                        *self == *old(self),
                        on == ordered@.len(),
                        oi2 < on,
                        p == ordered@[oi2 as int],
                        rn == records@.len(),
                        ri <= rn,
                        safe.wf(),
                        forall|x: u64| ordered@.contains(x) <==> ready@.contains(x),
                        forall|x: u64|
                            ready@.contains(x) <==> self.tier1.ready_map().contains_key(x),
                        forall|j: int|
                            0 <= j < rn ==> self.accounts_data@.contains_key(
                                ((#[trigger] records@[j])@).spec_key(),
                            ) && self.accounts_data@[records@[j]@.spec_key()] == records@[j]@,
                        forall|a: u64| #[trigger]
                            safe@.contains_key(a) ==> self.spec_announced(safe@[a])
                                && self.tier1.ready_map().contains_key(safe@[a]),
                        forall|jr: int, oj: int|
                            0 <= jr < rn && 0 <= oj < on && ((#[trigger] records@[jr])@).peer_id
                                == Some(PeerId(#[trigger] ordered@[oj])) ==> safe@.contains_key(
                                records@[jr]@.account_id,
                            ),
                    decreases rn - ri,
                {
                    if Self::proxies_contain_peer(&records[ri].proxies, p) {
                        safe.insert(records[ri].account_id, p);
                        proof {
                            let k = records@[ri as int]@.spec_key();
                            assert(self.accounts_data@.contains_key(k));
                            let j = choose|j: int|
                                0 <= j < records@[ri as int].proxies@.len() && (
                                #[trigger] records@[ri as int].proxies@[j]).peer_id.0 == p;
                            assert(self.accounts_data@[k].proxies[j].peer_id.0 == p);
                            assert(self.spec_announced(p));
                            assert(ordered@.contains(p)) by {
                                assert(ordered@[oi2 as int] == p);
                            }
                        }
                    }
                    ri += 1;
                }
                oi2 += 1;
            }
        }
        let ghost assigned = safe@;
        proof {
            assert forall|k: (u64, u64)| #[trigger]
                old(self).accounts_data@.contains_key(k) implies match old(
                self,
            ).accounts_data@[k].peer_id {
                Some(p) => old(self).tier1.ready_map().contains_key(p.0) ==> assigned.contains_key(
                    old(self).accounts_data@[k].account_id,
                ),
                None => true,
            } by {
                match old(self).accounts_data@[k].peer_id {
                    Some(p) => {
                        if old(self).tier1.ready_map().contains_key(p.0) {
                            let jr = choose|jr: int|
                                0 <= jr < rn && ((#[trigger] records@[jr])@) == old(
                                    self,
                                ).accounts_data@[k];
                            assert(ready@.contains(p.0));
                            assert(ordered@.contains(p.0));
                            let oj = choose|oj: int|
                                0 <= oj < ordered@.len() && #[trigger] ordered@[oj] == p.0;
                            assert(records@[jr]@.peer_id == Some(PeerId(ordered@[oj])));
                        }
                    }
                    None => {},
                }
            }
        }
        // Collect the safe peer set.
        let sk = safe.keys();
        proof {
            assert forall|j: int| 0 <= j < sk@.len() implies safe@.contains_key(
                #[trigger] sk@[j],
            ) by {
                assert(sk@.contains(sk@[j]));
            }
        }
        let mut safe_peers: Vec<u64> = Vec::new();
        let skn = sk.len();
        let mut si: usize = 0;
        while si < skn
            invariant
                self.wf(),
                *self == *old(self),
                skn == sk@.len(),
                si <= skn,
                safe.wf(),
                assigned == safe@,
                forall|a: u64| #[trigger]
                    assigned.contains_key(a) ==> old(self).tier1.ready_map().contains_key(
                        assigned[a],
                    ) && old(self).spec_announced(assigned[a]),
                forall|k: (u64, u64)| #[trigger]
                    old(self).accounts_data@.contains_key(k)
                        ==> match old(self).accounts_data@[k].peer_id {
                        Some(p) => old(self).tier1.ready_map().contains_key(p.0)
                            ==> assigned.contains_key(old(self).accounts_data@[k].account_id),
                        None => true,
                    },
                forall|a: u64| safe@.contains_key(a) <==> sk@.contains(a),
                forall|j: int| 0 <= j < skn ==> safe@.contains_key(#[trigger] sk@[j]),
                forall|x: u64|
                    safe_peers@.contains(x) ==> exists|a: u64| #[trigger]
                        safe@.contains_key(a) && safe@[a] == x,
                forall|j: int|
                    0 <= j < si ==> safe_peers@.contains(safe@[#[trigger] sk@[j]]),
            decreases skn - si,
        {
            proof {
                assert(sk@.contains(sk@[si as int]));
            }
            proof {
                assert(safe@.contains_key(sk@[si as int]));
            }
            match safe.get(sk[si]) {
                Some(p) => {
                    proof {
                        assert(*p == safe@[sk@[si as int]]);
                    }
                    let ghost spp = safe_peers@;
                    safe_peers.push(*p);
                    proof {
                        crate::bfs::lemma_push_contains(spp, safe@[sk@[si as int]]);
                        assert(safe_peers@ == spp.push(safe@[sk@[si as int]]));
                        assert(safe_peers@[safe_peers@.len() - 1] == safe@[sk@[si as int]]);
                        assert(safe_peers@.contains(safe@[sk@[si as int]]));
                        assert forall|x: u64| safe_peers@.contains(x) implies exists|a: u64|
                            #[trigger] safe@.contains_key(a) && safe@[a] == x by {
                            if !spp.contains(x) {
                                assert(safe@.contains_key(sk@[si as int]) && safe@[sk@[
                                    si as int
                                ]] == x);
                            }
                        }
                        assert forall|j: int| 0 <= j < si + 1 implies safe_peers@.contains(
                            safe@[#[trigger] sk@[j]],
                        ) by {
                            if j < si {
                                assert(spp.contains(safe@[sk@[j]]));
                            }
                        }
                    }
                }
                None => {
                    proof {
                        assert(false);
                    }
                },
            }
            si += 1;
        }
        proof {
            assert forall|a: u64| #[trigger] safe@.contains_key(a) implies safe_peers@.contains(
                safe@[a],
            ) by {
                let j = choose|j: int| 0 <= j < sk@.len() && #[trigger] sk@[j] == a;
            }
            assert forall|j: int| 0 <= j < safe_peers@.len() implies old(self).spec_announced(
                #[trigger] safe_peers@[j],
            ) by {
                assert(safe_peers@.contains(safe_peers@[j]));
                let a = choose|a: u64| #[trigger]
                    safe@.contains_key(a) && safe@[a] == safe_peers@[j];
            }
        }
        // Stop every ready connection that is not safe.
        let mut stopped: Vec<u64> = Vec::new();
        let mut ki: usize = 0;
        let kn = ready.len();
        while ki < kn
            invariant
                kn == ready@.len(),
                ki <= kn,
                crate::util::seq_nodup(ready@),
                self.tier1.wf(),
                self.tier2.wf(),
                self.accounts_data.wf(),
                self.routing_table_view.wf(),
                self.tier1_route_back.wf(),
                self.inbound_handshake_permits <= LIMIT_PENDING_PEERS,
                assigned == safe@,
                forall|a: u64| #[trigger]
                    assigned.contains_key(a) ==> old(self).tier1.ready_map().contains_key(
                        assigned[a],
                    ) && old(self).spec_announced(assigned[a]),
                forall|k: (u64, u64)| #[trigger]
                    old(self).accounts_data@.contains_key(k)
                        ==> match old(self).accounts_data@[k].peer_id {
                        Some(p) => old(self).tier1.ready_map().contains_key(p.0)
                            ==> assigned.contains_key(old(self).accounts_data@[k].account_id),
                        None => true,
                    },
                forall|j: int|
                    0 <= j < safe_peers@.len() ==> old(self).spec_announced(
                        #[trigger] safe_peers@[j],
                    ),
                forall|x: u64|
                    safe_peers@.contains(x) ==> exists|a: u64| #[trigger]
                        assigned.contains_key(a) && assigned[a] == x,
                forall|a: u64| #[trigger]
                    assigned.contains_key(a) ==> safe_peers@.contains(assigned[a]),
                old(self).accounts_data@ == self.accounts_data@,
                forall|p: u64|
                    ready@.contains(p) <==> old(self).tier1.ready_map().contains_key(p),
                forall|j: int|
                    0 <= j < ki ==> (self.tier1.ready_map().contains_key(#[trigger] ready@[j])
                        <==> safe_peers@.contains(ready@[j])),
                forall|j: int|
                    ki <= j < kn ==> self.tier1.ready_map().contains_key(#[trigger] ready@[j]),
                forall|p: u64| #[trigger]
                    self.tier1.ready_map().contains_key(p) ==> old(self).tier1.ready_map().contains_key(p),
                forall|j: int|
                    0 <= j < stopped@.len() ==> old(self).tier1.ready_map().contains_key(
                        #[trigger] stopped@[j],
                    ) && !self.tier1.ready_map().contains_key(stopped@[j]),
                self.tier1.outbound() == old(self).tier1.outbound(),
            decreases kn - ki,
        {
            let p = ready[ki];
            if !vec_contains(&safe_peers, p) {
                let ghost stp = stopped@;
                match self.tier1.remove_connection(p) {
                    Some(_) => {
                        stopped.push(p);
                        proof {
                            assert(stopped@[stopped@.len() - 1] == p);
                            assert forall|j: int|
                                0 <= j < stopped@.len() implies old(self).tier1.ready_map().contains_key(#[trigger] stopped@[j]) && !self
                                .tier1.ready_map().contains_key(stopped@[j]) by {
                                if j < stopped@.len() - 1 {
                                    assert(stopped@[j] == stp[j]);
                                }
                            }
                            assert forall|j: int|
                                ki + 1 <= j < kn implies self.tier1.ready_map().contains_key(
                                #[trigger] ready@[j],
                            ) by {
                                assert(ready@[j] != p);
                            }
                        }
                    }
                    None => {},
                }
            }
            ki += 1;
        }
        proof {
            assert forall|p: u64| #[trigger]
                old(self).tier1.ready_map().contains_key(p) && !old(self).spec_announced(
                    p,
                ) implies !self.tier1.ready_map().contains_key(p) by {
                assert(ready@.contains(p));
                let j = choose|j: int| 0 <= j < ready@.len() && ready@[j] == p;
                assert(!safe_peers@.contains(p)) by {
                    if safe_peers@.contains(p) {
                        let jj = choose|jj: int|
                            0 <= jj < safe_peers@.len() && safe_peers@[jj] == p;
                        assert(old(self).spec_announced(safe_peers@[jj]));
                    }
                }
                assert(!self.tier1.ready_map().contains_key(ready@[j]));
            }
            assert forall|p: u64| #[trigger]
                old(self).tier1.ready_map().contains_key(p) implies (self
                .tier1.ready_map().contains_key(p) <==> exists|a: u64| #[trigger]
                assigned.contains_key(a) && assigned[a] == p) by {
                assert(ready@.contains(p));
                let j = choose|j: int| 0 <= j < ready@.len() && ready@[j] == p;
                assert(self.tier1.ready_map().contains_key(ready@[j]) <==> safe_peers@.contains(
                    ready@[j],
                ));
            }
        }
        // Dial new proxies for uncovered accounts, in the order steered
        // by the supplied random words.
        let mut dialing: Vec<PeerAddr> = Vec::new();
        let ghost mut dial_witnesses: Seq<(u64, u64)> = Seq::empty();
        let limit = cfg.new_connections_per_tick;
        if my_account.is_some() {
            let my_acc = match my_account {
                Some(a) => a,
                None => 0,
            };
            proof {
                assert(match old(self).config.validator {
                    Some(v) => my_acc == v.account_id,
                    None => false,
                });
                assert(spec_registered_validator(old(self).config, old(self).accounts_data@));
            }
            let mut ri: usize = 0;
            while ri < rn
                invariant
                    self.wf(),
                    rn == records@.len(),
                    ri <= rn,
                    safe.wf(),
                    assigned == safe@,
                forall|a: u64| #[trigger]
                    assigned.contains_key(a) ==> old(self).tier1.ready_map().contains_key(
                        assigned[a],
                    ) && old(self).spec_announced(assigned[a]),
                forall|k: (u64, u64)| #[trigger]
                    old(self).accounts_data@.contains_key(k)
                        ==> match old(self).accounts_data@[k].peer_id {
                        Some(p) => old(self).tier1.ready_map().contains_key(p.0)
                            ==> assigned.contains_key(old(self).accounts_data@[k].account_id),
                        None => true,
                    },
                    limit == cfg.new_connections_per_tick,
                    dialing@.len() <= cfg.new_connections_per_tick,
                    old(self).accounts_data@ == self.accounts_data@,
                    match old(self).config.validator {
                        Some(v) => my_acc == v.account_id,
                        None => false,
                    },
                    forall|j: int|
                        0 <= j < rn ==> self.accounts_data@.contains_key(
                            ((#[trigger] records@[j])@).spec_key(),
                        ) && self.accounts_data@[records@[j]@.spec_key()] == records@[j]@,
                    forall|j: int|
                        0 <= j < stopped@.len() ==> old(self).tier1.ready_map().contains_key(
                            #[trigger] stopped@[j],
                        ) && !self.tier1.ready_map().contains_key(stopped@[j]),
                    self.tier1.outbound() == old(self).tier1.outbound(),
                    spec_registered_validator(old(self).config, old(self).accounts_data@),
                    dialing@.len() > 0 || (forall|jr: int|
                        0 <= jr < ri ==> ((#[trigger] records@[jr])@.account_id == my_acc
                            || assigned.contains_key(records@[jr]@.account_id)
                            || records@[jr]@.proxies.len() == 0 || (exists|j: int|
                            0 <= j < records@[jr]@.proxies.len() && old(
                                self,
                            ).tier1.outbound().contains(
                                (#[trigger] records@[jr]@.proxies[j]).peer_id.0,
                            )))),
                    forall|p: u64| #[trigger]
                        old(self).tier1.ready_map().contains_key(p) && !old(self).spec_announced(p)
                            ==> !self.tier1.ready_map().contains_key(p),
                    forall|p: u64| #[trigger]
                        old(self).tier1.ready_map().contains_key(p) ==> (self
                            .tier1.ready_map().contains_key(p) <==> exists|a: u64| #[trigger]
                            assigned.contains_key(a) && assigned[a] == p),
                    dial_witnesses.len() == dialing@.len(),
                    forall|i2: int|
                        #![trigger dial_witnesses[i2]]
                        0 <= i2 < dialing@.len() ==> old(self).accounts_data@.contains_key(
                            dial_witnesses[i2],
                        ) && !assigned.contains_key(
                            old(self).accounts_data@[dial_witnesses[i2]].account_id,
                        ) && (match old(self).config.validator {
                            Some(v) => old(self).accounts_data@[dial_witnesses[i2]].account_id
                                != v.account_id,
                            None => false,
                        }) && (exists|j: int|
                            0 <= j < old(self).accounts_data@[dial_witnesses[i2]].proxies.len() && (
                            #[trigger] old(self).accounts_data@[dial_witnesses[i2]].proxies[j]) == dialing@[
                            i2
                        ]),
                decreases rn - ri,
            {
                if dialing.len() >= limit {
                    proof {
                        assert(dialing@.len() <= cfg.new_connections_per_tick);
                        assert forall|ad: PeerAddr| #[trigger]
                            dialing@.contains(ad) implies exists|k2: (u64, u64)| #[trigger]
                            old(self).accounts_data@.contains_key(k2) && !assigned.contains_key(
                                old(self).accounts_data@[k2].account_id,
                            ) && (match spec_validator_account(old(self).config) {
                                Some(acc) => old(self).accounts_data@[k2].account_id != acc,
                                None => false,
                            }) && (exists|j: int|
                                0 <= j < old(self).accounts_data@[k2].proxies.len() && (
                                #[trigger] old(self).accounts_data@[k2].proxies[j]) == ad) by {
                            let i2 = choose|i2: int|
                                0 <= i2 < dialing@.len() && dialing@[i2] == ad;
                            let w = dial_witnesses[i2];
                            assert(old(self).accounts_data@.contains_key(w));
                        }
                        assert(reconcile_post(
                            old(self).tier1.ready_map(),
                            self.tier1.ready_map(),
                            old(self).accounts_data@,
                            spec_validator_account(old(self).config),
                            old(self).tier1.outbound(),
                            cfg.new_connections_per_tick as int,
                            spec_registered_validator(old(self).config, old(self).accounts_data@),
                            dialing@,
                            assigned,
                        ));
                    }
                    return (stopped, dialing, Ghost(assigned));
                }
                let rec = &records[ri];
                let skip = rec.account_id == my_acc || safe.contains_key(rec.account_id)
                    || rec.proxies.len() == 0 || self.any_proxy_connecting(&rec.proxies);
                proof {
                    if skip {
                        assert(records@[ri as int]@.account_id == my_acc || assigned.contains_key(
                            records@[ri as int]@.account_id,
                        ) || records@[ri as int]@.proxies.len() == 0 || (exists|j: int|
                            0 <= j < records@[ri as int]@.proxies.len() && old(
                                self,
                            ).tier1.outbound().contains(
                                (#[trigger] records@[ri as int]@.proxies[j]).peer_id.0,
                            )));
                    }
                }
                if !skip {
                    let w: u64 = if ri < rng.len() {
                        rng[ri]
                    } else {
                        0
                    };
                    let idx: usize = (w % (rec.proxies.len() as u64)) as usize;
                    proof {
                        assert(idx < rec.proxies@.len());
                    }
                    let ghost dlp = dialing@;
                    dialing.push(rec.proxies[idx]);
                    proof {
                        let k = records@[ri as int]@.spec_key();
                        assert(old(self).accounts_data@.contains_key(k));
                        assert(old(self).accounts_data@[k].account_id == records@[
                            ri as int
                        ].account_id);
                        assert(old(self).accounts_data@[k].proxies[idx as int] == records@[
                            ri as int
                        ].proxies@[idx as int]);
                        assert(dialing@[dialing@.len() - 1] == records@[ri as int].proxies@[
                            idx as int
                        ]);
                        assert(!assigned.contains_key(old(self).accounts_data@[k].account_id));
                        assert(0 <= idx < old(self).accounts_data@[k].proxies.len() && old(
                            self,
                        ).accounts_data@[k].proxies[idx as int] == dialing@[dialing@.len() - 1]);
                        assert(exists|j: int|
                            0 <= j < old(self).accounts_data@[k].proxies.len() && (
                            #[trigger] old(self).accounts_data@[k].proxies[j]) == dialing@[
                            dialing@.len() - 1
                        ]);
                        assert(match old(self).config.validator {
                            Some(v) => old(self).accounts_data@[k].account_id != v.account_id,
                            None => false,
                        });
                        let wp = dial_witnesses;
                        dial_witnesses = wp.push(k);
                        assert(dial_witnesses.len() == dialing@.len());
                        assert forall|i2: int|
                            #![trigger dial_witnesses[i2]]
                            0 <= i2 < dialing@.len() implies old(
                            self,
                        ).accounts_data@.contains_key(dial_witnesses[i2]) && !assigned.contains_key(
                            old(self).accounts_data@[dial_witnesses[i2]].account_id,
                        ) && (match old(self).config.validator {
                            Some(v) => old(self).accounts_data@[dial_witnesses[i2]].account_id
                                != v.account_id,
                            None => false,
                        }) && (exists|j: int|
                            0 <= j < old(self).accounts_data@[dial_witnesses[i2]].proxies.len() && (
                            #[trigger] old(self).accounts_data@[dial_witnesses[i2]].proxies[j]) == dialing@[
                            i2
                        ]) by {
                            if i2 < dialing@.len() - 1 {
                                assert(dialing@[i2] == dlp[i2]);
                                assert(dial_witnesses[i2] == wp[i2]);
                                assert(old(self).accounts_data@.contains_key(wp[i2]));
                            } else {
                                assert(dial_witnesses[i2] == k);
                                assert(dialing@[i2] == records@[ri as int].proxies@[idx as int]);
                            }
                        }
                    }
                }
                ri += 1;
            }
            proof {
                assert forall|i2: int|
                    #![trigger dialing@[i2]]
                    0 <= i2 < dialing@.len() implies exists|k2: (u64, u64)| #[trigger]
                    old(self).accounts_data@.contains_key(k2) && !assigned.contains_key(
                        old(self).accounts_data@[k2].account_id,
                    ) && (match old(self).config.validator {
                        Some(v) => old(self).accounts_data@[k2].account_id != v.account_id,
                        None => false,
                    }) && (exists|j: int|
                        0 <= j < old(self).accounts_data@[k2].proxies.len() && (
                        #[trigger] old(self).accounts_data@[k2].proxies[j]) == dialing@[i2]) by {
                    let w = dial_witnesses[i2];
                    assert(old(self).accounts_data@.contains_key(w));
                }
            }
        }
        proof {
            assert(forall|a: u64| #[trigger]
                assigned.contains_key(a) ==> old(self).tier1.ready_map().contains_key(assigned[a])
                    && announced_in(old(self).accounts_data@, assigned[a]));
            assert(forall|k: (u64, u64)| #[trigger]
                old(self).accounts_data@.contains_key(k)
                    ==> match old(self).accounts_data@[k].peer_id {
                    Some(p) => old(self).tier1.ready_map().contains_key(p.0)
                        ==> assigned.contains_key(old(self).accounts_data@[k].account_id),
                    None => true,
                });
            assert(forall|p: u64| #[trigger]
                old(self).tier1.ready_map().contains_key(p) ==> (self
                    .tier1.ready_map().contains_key(p) <==> exists|a: u64| #[trigger]
                    assigned.contains_key(a) && assigned[a] == p));
            assert forall|ad: PeerAddr| #[trigger]
                dialing@.contains(ad) implies exists|k2: (u64, u64)| #[trigger]
                old(self).accounts_data@.contains_key(k2) && !assigned.contains_key(
                    old(self).accounts_data@[k2].account_id,
                ) && (match spec_validator_account(old(self).config) {
                    Some(acc) => old(self).accounts_data@[k2].account_id != acc,
                    None => false,
                }) && (exists|j: int|
                    0 <= j < old(self).accounts_data@[k2].proxies.len() && (
                    #[trigger] old(self).accounts_data@[k2].proxies[j]) == ad) by {
                let i2 = choose|i2: int| 0 <= i2 < dialing@.len() && dialing@[i2] == ad;
                let w = dial_witnesses[i2];
                assert(old(self).accounts_data@.contains_key(w));
            }
            assert(reconcile_post(
                old(self).tier1.ready_map(),
                self.tier1.ready_map(),
                old(self).accounts_data@,
                spec_validator_account(old(self).config),
                old(self).tier1.outbound(),
                cfg.new_connections_per_tick as int,
                spec_registered_validator(old(self).config, old(self).accounts_data@),
                dialing@,
                assigned,
            ));
        }
        (stopped, dialing, Ghost(assigned))
    }

    fn any_proxy_connecting(&self, proxies: &Vec<PeerAddr>) -> (r: bool)
        requires
            self.wf(),
        ensures
            r == exists|i: int|
                0 <= i < proxies@.len() && self.tier1.outbound().contains(
                    (#[trigger] proxies@[i]).peer_id.0,
                ),
    {
        let n = proxies.len();
        let mut i: usize = 0;
        while i < n
            invariant
                self.wf(),
                n == proxies@.len(),
                i <= n,
                forall|j: int|
                    0 <= j < i ==> !self.tier1.outbound().contains(
                        (#[trigger] proxies@[j]).peer_id.0,
                    ),
            decreases n - i,
        {
            if self.tier1_outbound_contains(proxies[i].peer_id.0) {
                return true;
            }
            i += 1;
        }
        false
    }

    fn proxies_contain_peer(proxies: &Vec<PeerAddr>, p: u64) -> (r: bool)
        ensures
            r == exists|i: int| 0 <= i < proxies@.len() && (#[trigger] proxies@[i]).peer_id.0 == p,
    {
        let n = proxies.len();
        let mut i: usize = 0;
        while i < n
            invariant
                n == proxies@.len(),
                i <= n,
                forall|j: int| 0 <= j < i ==> (#[trigger] proxies@[j]).peer_id.0 != p,
            decreases n - i,
        {
            if proxies[i].peer_id.0 == p {
                return true;
            }
            i += 1;
        }
        false
    }

    /// Ready validator-mesh peers ordered newest connection first; the
    /// result holds exactly the given peers.
    fn order_by_established_newest_first(&self, ready: &Vec<u64>) -> (r: Vec<u64>)
        requires
            self.wf(),
        ensures
            forall|x: u64| r@.contains(x) <==> ready@.contains(x),
    {
        // Selection of the maximum remaining establishment time, one
        // peer at a time.
        let n = ready.len();
        let mut remaining: Vec<u64> = Vec::new();
        let mut i: usize = 0;
        while i < n
            invariant
                n == ready@.len(),
                i <= n,
                remaining@ == ready@.take(i as int),
            decreases n - i,
        {
            remaining.push(ready[i]);
            proof {
                assert(remaining@ =~= ready@.take(i + 1));
            }
            i += 1;
        }
        proof {
            assert(ready@.take(n as int) =~= ready@);
        }
        let mut out: Vec<u64> = Vec::new();
        while remaining.len() > 0
            invariant
                self.wf(),
                forall|x: u64|
                    (out@.contains(x) || remaining@.contains(x)) <==> ready@.contains(x),
            decreases remaining@.len(),
        {
            let mut best: usize = 0;
            let mut bi: usize = 1;
            while bi < remaining.len()
                invariant
                    self.wf(),
                    remaining@.len() > 0,
                    best < remaining@.len(),
                    bi <= remaining@.len(),
                decreases remaining@.len() - bi,
            {
                let tb = match self.tier1.get_ready(remaining[best]) {
                    Some(c) => c.established_at,
                    None => i64::MIN,
                };
                let tc = match self.tier1.get_ready(remaining[bi]) {
                    Some(c) => c.established_at,
                    None => i64::MIN,
                };
                if tc > tb {
                    best = bi;
                }
                bi += 1;
            }
            let ghost rp = remaining@;
            let ghost outp = out@;
            let p = remaining.remove(best);
            out.push(p);
            proof {
                assert(p == rp[best as int]);
                assert(remaining@ == rp.remove(best as int));
                crate::bfs::lemma_push_contains(outp, p);
                assert(out@ == outp.push(p));
                assert forall|x: u64|
                    (out@.contains(x) || remaining@.contains(x)) <==> ready@.contains(x) by {
                    if remaining@.contains(x) {
                        let j = choose|j: int|
                            0 <= j < remaining@.len() && remaining@[j] == x;
                        let oj = if j < best {
                            j
                        } else {
                            j + 1
                        };
                        assert(rp[oj] == x);
                        assert(rp.contains(x));
                    }
                    if rp.contains(x) && x != p {
                        let j = choose|j: int| 0 <= j < rp.len() && rp[j] == x;
                        if j == best {
                            assert(rp[j] == p);
                        } else if j < best {
                            assert(remaining@[j] == x);
                            assert(remaining@.contains(x));
                        } else {
                            assert(remaining@[j - 1] == x);
                            assert(remaining@.contains(x));
                        }
                    }
                    assert(rp.contains(p)) by {
                        assert(rp[best as int] == p);
                    }
                }
            }
        }
        out
    }

    /// The direct validator-mesh connection for `account_id`, if any;
    /// nothing iff no announcement for the account names a ready peer.
    pub fn get_tier1_peer(&self, account_id: u64) -> (r: Option<PeerId>)
        requires
            self.wf(),
        ensures
            match r {
                Some(p) => self.tier1.ready_map().contains_key(p.0) && exists|k: (u64, u64)|
                    #[trigger] self.accounts_data@.contains_key(k)
                        && self.accounts_data@[k].account_id == account_id
                        && self.accounts_data@[k].peer_id == Some(p),
                None => forall|k: (u64, u64)| #[trigger]
                    self.accounts_data@.contains_key(k) && self.accounts_data@[k].account_id
                        == account_id ==> match self.accounts_data@[k].peer_id {
                        Some(p) => !self.tier1.ready_map().contains_key(p.0),
                        None => true,
                    },
            },
    {
        let records = self.accounts_data.records();
        let n = records.len();
        let mut i: usize = 0;
        while i < n
            invariant
                self.wf(),
                n == records@.len(),
                i <= n,
                forall|j: int|
                    0 <= j < n ==> self.accounts_data@.contains_key(
                        ((#[trigger] records@[j])@).spec_key(),
                    ) && self.accounts_data@[records@[j]@.spec_key()] == records@[j]@,
                forall|k: (u64, u64)| #[trigger]
                    self.accounts_data@.contains_key(k) ==> exists|j: int|
                        0 <= j < n && ((#[trigger] records@[j])@) == self.accounts_data@[k],
                forall|j: int|
                    0 <= j < i && ((#[trigger] records@[j])@).account_id == account_id
                        ==> match records@[j]@.peer_id {
                        Some(p) => !self.tier1.ready_map().contains_key(p.0),
                        None => true,
                    },
            decreases n - i,
        {
            let rec = &records[i];
            if rec.account_id == account_id {
                match rec.peer_id {
                    Some(p) => {
                        match self.tier1.get_ready(p.0) {
                            Some(_) => {
                                proof {
                                    let k = records@[i as int]@.spec_key();
                                    assert(self.accounts_data@.contains_key(k));
                                    assert(self.accounts_data@[k].peer_id == Some(p));
                                    assert(self.accounts_data@[k].account_id == account_id);
                                }
                                return Some(p);
                            }
                            None => {},
                        }
                    }
                    None => {},
                }
            }
            i += 1;
        }
        proof {
            assert forall|k: (u64, u64)| #[trigger]
                self.accounts_data@.contains_key(k) && self.accounts_data@[k].account_id
                == account_id implies match self.accounts_data@[k].peer_id {
                Some(p) => !self.tier1.ready_map().contains_key(p.0),
                None => true,
            } by {
                let j = choose|j: int|
                    0 <= j < n && ((#[trigger] records@[j])@) == self.accounts_data@[k];
            }
        }
        None
    }

    /// A validator-mesh connection that can carry traffic for
    /// `account_id`: a direct connection when one is ready (always
    /// preferred), else any ready announced proxy of a record naming the
    /// account's peer.  Returns the account's peer and the wire peer;
    /// nothing iff no announcement offers either.
    pub fn get_tier1_proxy(&self, account_id: u64) -> (r: Option<(PeerId, PeerId)>)
        requires
            self.wf(),
        ensures
            match r {
                Some(pair) => {
                    &&& self.tier1.ready_map().contains_key(pair.1.0)
                    &&& (pair.0 == pair.1 ==> exists|k: (u64, u64)|
                        #[trigger] self.accounts_data@.contains_key(k)
                            && self.accounts_data@[k].account_id == account_id
                            && self.accounts_data@[k].peer_id == Some(pair.0))
                    &&& (pair.0 != pair.1 ==> exists|k: (u64, u64)|
                        #[trigger] self.accounts_data@.contains_key(k)
                            && self.accounts_data@[k].account_id == account_id
                            && self.accounts_data@[k].peer_id == Some(pair.0) && (exists|j: int|
                            0 <= j < self.accounts_data@[k].proxies.len() && (
                            #[trigger] self.accounts_data@[k].proxies[j]).peer_id == pair.1))
                    &&& (pair.0 != pair.1 ==> forall|k: (u64, u64)| #[trigger]
                        self.accounts_data@.contains_key(k) && self.accounts_data@[k].account_id
                            == account_id ==> match self.accounts_data@[k].peer_id {
                            Some(p) => !self.tier1.ready_map().contains_key(p.0),
                            None => true,
                        })
                },
                None => forall|k: (u64, u64)| #[trigger]
                    self.accounts_data@.contains_key(k) && self.accounts_data@[k].account_id
                        == account_id ==> match self.accounts_data@[k].peer_id {
                        Some(p) => !self.tier1.ready_map().contains_key(p.0) && (forall|j: int|
                            0 <= j < self.accounts_data@[k].proxies.len()
                                ==> !self.tier1.ready_map().contains_key(
                                (#[trigger] self.accounts_data@[k].proxies[j]).peer_id.0,
                            )),
                        None => true,
                    },
            },
    {
        match self.get_tier1_peer(account_id) {
            Some(p) => {
                return Some((p, p));
            },
            None => {},
        }
        let records = self.accounts_data.records();
        let n = records.len();
        let mut i: usize = 0;
        while i < n
            invariant
                self.wf(),
                n == records@.len(),
                i <= n,
                forall|jr: int|
                    0 <= jr < n ==> self.accounts_data@.contains_key(
                        ((#[trigger] records@[jr])@).spec_key(),
                    ) && self.accounts_data@[records@[jr]@.spec_key()] == records@[jr]@,
                forall|k: (u64, u64)| #[trigger]
                    self.accounts_data@.contains_key(k) ==> exists|jr: int|
                        0 <= jr < n && ((#[trigger] records@[jr])@) == self.accounts_data@[k],
                forall|k: (u64, u64)| #[trigger]
                    self.accounts_data@.contains_key(k) && self.accounts_data@[k].account_id
                        == account_id ==> match self.accounts_data@[k].peer_id {
                        Some(p) => !self.tier1.ready_map().contains_key(p.0),
                        None => true,
                    },
                forall|jr: int|
                    0 <= jr < i && ((#[trigger] records@[jr])@).account_id == account_id
                        ==> match records@[jr]@.peer_id {
                        Some(p) => forall|j: int|
                            0 <= j < records@[jr]@.proxies.len()
                                ==> !self.tier1.ready_map().contains_key(
                                (#[trigger] records@[jr]@.proxies[j]).peer_id.0,
                            ),
                        None => true,
                    },
            decreases n - i,
        {
            let rec = &records[i];
            if rec.account_id == account_id {
                match rec.peer_id {
                    Some(target) => {
                        let m = rec.proxies.len();
                        let mut j: usize = 0;
                        while j < m
                            invariant
                                self.wf(),
                                n == records@.len(),
                                i < n,
                                rec == &records[i as int],
                                records@[i as int].account_id == account_id,
                                records@[i as int].peer_id == Some(target),
                                m == rec.proxies@.len(),
                                j <= m,
                                forall|k: (u64, u64)| #[trigger]
                                    self.accounts_data@.contains_key(k)
                                        && self.accounts_data@[k].account_id == account_id
                                        ==> match self.accounts_data@[k].peer_id {
                                        Some(p) => !self.tier1.ready_map().contains_key(p.0),
                                        None => true,
                                    },
                                forall|jr: int|
                                    0 <= jr < n ==> self.accounts_data@.contains_key(
                                        ((#[trigger] records@[jr])@).spec_key(),
                                    ) && self.accounts_data@[records@[jr]@.spec_key()]
                                        == records@[jr]@,
                                forall|j2: int|
                                    0 <= j2 < j ==> !self.tier1.ready_map().contains_key(
                                        (#[trigger] rec.proxies@[j2]).peer_id.0,
                                    ),
                            decreases m - j,
                        {
                            let proxy = rec.proxies[j];
                            match self.tier1.get_ready(proxy.peer_id.0) {
                                Some(_) => {
                                    proof {
                                        let k = records@[i as int]@.spec_key();
                                        assert(self.accounts_data@.contains_key(k));
                                        assert(self.accounts_data@[k].peer_id == Some(target));
                                        assert(self.accounts_data@[k].account_id == account_id);
                                        assert(self.accounts_data@[k].proxies[j as int]
                                            == rec.proxies@[j as int]);
                                        assert((self.accounts_data@[k].proxies[j as int]).peer_id
                                            == proxy.peer_id);
                                    }
                                    return Some((target, proxy.peer_id));
                                }
                                None => {},
                            }
                            j += 1;
                        }
                    }
                    None => {},
                }
            }
            i += 1;
        }
        proof {
            assert forall|k: (u64, u64)| #[trigger]
                self.accounts_data@.contains_key(k) && self.accounts_data@[k].account_id
                == account_id implies match self.accounts_data@[k].peer_id {
                Some(p) => !self.tier1.ready_map().contains_key(p.0) && (forall|j: int|
                    0 <= j < self.accounts_data@[k].proxies.len()
                        ==> !self.tier1.ready_map().contains_key(
                        (#[trigger] self.accounts_data@[k].proxies[j]).peer_id.0,
                    )),
                None => true,
            } by {
                let jr = choose|jr: int|
                    0 <= jr < n && ((#[trigger] records@[jr])@) == self.accounts_data@[k];
            }
        }
        None
    }

    /// Whether a routed target refers to this node.
    pub fn message_for_me(&self, target: &PeerIdOrHash) -> (r: bool)
        requires
            self.wf(),
        ensures
            r == match *target {
                PeerIdOrHash::Peer(p) => p == self.config.node_id,
                PeerIdOrHash::Hash(h) => self.routing_table_view.rb().contains_key(h.0)
                    && self.routing_table_view.rb()[h.0].0 == self.config.node_id.0,
            },
    {
        match target {
            PeerIdOrHash::Peer(p) => p.0 == self.config.node_id.0,
            PeerIdOrHash::Hash(h) => self.routing_table_view.compare_route_back(
                h.0,
                self.config.node_id,
            ),
        }
    }

    /// Signs an outbound message with this node's key, the configured
    /// time-to-live, and the wire identity `hash`.
    pub fn sign_message(&self, now: i64, msg: RawRoutedMessage, hash: CryptoHash) -> (r:
        RoutedMessage)
        ensures
            r == (RoutedMessage {
                target: msg.target,
                author: self.config.node_id,
                signature: MsgSignature { signer: self.config.node_id, hash },
                ttl: self.config.routed_message_ttl,
                body: msg.body,
                created_at: Some(now),
                hash,
            }),
    {
        msg.sign(self.config.node_id, self.config.routed_message_ttl, Some(now), hash)
    }

    /// Routes a signed message: drops one addressed to this node,
    /// resolves a validator-mesh target directly or through its
    /// route-back entry, resolves a general-mesh target through the
    /// next-hop table (recording a route back when a reply is expected),
    /// and queues the message on the chosen connection.  True iff the
    /// message was queued.
    pub fn send_message_to_peer(&mut self, now: i64, tier: Tier, msg: RoutedMessage) -> (r: bool)
        requires
            old(self).wf(),
            0 <= now,
        ensures
            final(self).wf(),
            final(self).config == old(self).config,
            (match msg.target {
                PeerIdOrHash::Peer(t) => t == old(self).config.node_id,
                PeerIdOrHash::Hash(h) => false,
            }) ==> r == false && *final(self) == *old(self),
            tier == Tier::T1 ==> match msg.target {
                PeerIdOrHash::Peer(t) => t != old(self).config.node_id ==> r == old(self).tier1.ready_map().contains_key(t.0) && (r ==> final(self).tier1.ready_map()[
                    t.0
                ].outbox@ == old(self).tier1.ready_map()[t.0].outbox@.push(
                    PeerMessage::Routed(msg),
                )),
                PeerIdOrHash::Hash(h) => {
                    &&& final(self).tier1_route_back@ == old(self).tier1_route_back@.remove(h.0)
                    &&& (r ==> old(self).tier1_route_back@.contains_key(h.0) && old(self).tier1.ready_map().contains_key(old(self).tier1_route_back@[h.0].0))
                    &&& ((!old(self).tier1_route_back@.contains_key(h.0) || old(self).tier1_route_back@[h.0].1 < now - old(self).tier1_route_back.spec_evict_timeout())
                        ==> r == false)
                },
            },
            tier == Tier::T2 ==> final(self).tier1 == old(self).tier1
                && final(self).tier1_route_back == old(self).tier1_route_back && final(self).routing_table_view.nh() == old(self).routing_table_view.nh() && final(self).routing_table_view.owners() == old(self).routing_table_view.owners() && final(self).routing_table_view.local() == old(self).routing_table_view.local(),
            tier == Tier::T2 ==> match msg.target {
                PeerIdOrHash::Peer(t) => t != old(self).config.node_id ==> {
                    let nh = old(self).routing_table_view.nh();
                    let routable = nh.contains_key(t.0) && nh[t.0]@.len() > 0;
                    &&& (!routable ==> r == false && final(self).tier2.ready_map() == old(self).tier2.ready_map() && final(self).routing_table_view.rb() == old(self).routing_table_view.rb())
                    &&& (routable ==> {
                        let hop = nh[t.0]@[0];
                        &&& r == old(self).tier2.ready_map().contains_key(hop)
                        &&& (msg.author == old(self).config.node_id
                            && msg.body.spec_expects_response() ==> final(self).routing_table_view.rb().contains_key(msg.hash.0) && final(self).routing_table_view.rb()[msg.hash.0] == (
                            old(self).config.node_id.0,
                            now,
                        ))
                        &&& (!(msg.author == old(self).config.node_id
                            && msg.body.spec_expects_response()) ==> final(self).routing_table_view.rb() == old(self).routing_table_view.rb())
                        &&& (forall|p: u64|
                            final(self).tier2.ready_map().contains_key(p) == old(self).tier2.ready_map().contains_key(p))
                        &&& (forall|p: u64| #[trigger]
                            final(self).tier2.ready_map().contains_key(p) && p != hop ==> final(self).tier2.ready_map()[p] == old(self).tier2.ready_map()[p])
                        &&& (r ==> final(self).tier2.ready_map()[hop].outbox@ == old(self).tier2.ready_map()[hop].outbox@.push(PeerMessage::Routed(msg)))
                        &&& (!r ==> final(self).tier2.ready_map() == old(self).tier2.ready_map())
                    })
                },
                PeerIdOrHash::Hash(h) => {
                    &&& (!(msg.author == old(self).config.node_id
                        && msg.body.spec_expects_response()) ==> final(self).routing_table_view.rb()
                        == old(self).routing_table_view.rb().remove(h.0))
                    &&& (msg.author == old(self).config.node_id && msg.body.spec_expects_response()
                        && r ==> final(self).routing_table_view.rb().contains_key(msg.hash.0))
                    &&& (r ==> old(self).routing_table_view.rb().contains_key(h.0) && old(self).tier2.ready_map().contains_key(old(self).routing_table_view.rb()[h.0].0))
                    &&& (r ==> final(self).tier2.ready_map()[old(self).routing_table_view.rb()[h.0].0].outbox@ == old(self).tier2.ready_map()[old(self).routing_table_view.rb()[h.0].0].outbox@.push(PeerMessage::Routed(msg)))
                    &&& (!r ==> final(self).tier2.ready_map() == old(self).tier2.ready_map())
                },
            },
    {
        if let PeerIdOrHash::Peer(t) = &msg.target {
            if t.0 == self.config.node_id.0 {
                return false;
            }
        }
        match tier {
            Tier::T1 => {
                let peer: u64 = match &msg.target {
                    PeerIdOrHash::Hash(h) => {
                        match self.tier1_route_back.remove(now, h.0) {
                            Some(p) => p,
                            None => {
                                return false;
                            },
                        }
                    }
                    PeerIdOrHash::Peer(p) => p.0,
                };
                self.tier1.send_message(peer, PeerMessage::Routed(msg))
            }
            Tier::T2 => {
                match self.routing_table_view.find_route(now, &msg.target) {
                    Ok(peer) => {
                        if msg.author.0 == self.config.node_id.0 && msg.body.expects_response() {
                            self.routing_table_view.add_route_back(
                                now,
                                msg.hash.0,
                                self.config.node_id,
                            );
                        }
                        self.tier2.send_message(peer.0, PeerMessage::Routed(msg))
                    }
                    Err(_) => false,
                }
            }
        }
    }

    /// Sends a payload to an account: over the validator mesh when the
    /// payload is eligible and a proxy is known, and over the general
    /// mesh to the announced owner, re-sending important payloads.
    /// True iff a copy was queued for the owner on the general mesh.
    pub fn send_message_to_account(&mut self, now: i64, account_id: u64, body: RoutedMessageBody, hash: CryptoHash) -> (r: bool)
        requires
            old(self).wf(),
            0 <= now,
        ensures
            final(self).wf(),
            final(self).config == old(self).config,
            final(self).routing_table_view.nh() == old(self).routing_table_view.nh(),
            final(self).routing_table_view.owners() == old(self).routing_table_view.owners(),
            // The validator-mesh side: nothing unless the payload is
            // eligible; otherwise at most one eligible copy is queued on
            // some ready validator-mesh connection.
            !body.spec_is_tier1_allowed() ==> final(self).tier1 == old(self).tier1,
            body.spec_is_tier1_allowed() ==> (forall|p: u64|
                final(self).tier1.ready_map().contains_key(p) == old(self).tier1.ready_map().contains_key(p)) && (forall|p: u64| #[trigger]
                final(self).tier1.ready_map().contains_key(p) ==> final(self).tier1.ready_map()[
                    p
                ].outbox@ == old(self).tier1.ready_map()[p].outbox@ || exists|target: PeerId|
                    final(self).tier1.ready_map()[p].outbox@ == old(self).tier1.ready_map()[
                        p
                    ].outbox@.push(
                        PeerMessage::Routed(
                            RoutedMessage {
                                target: PeerIdOrHash::Peer(target),
                                author: old(self).config.node_id,
                                signature: MsgSignature {
                                    signer: old(self).config.node_id,
                                    hash,
                                },
                                ttl: old(self).config.routed_message_ttl,
                                body,
                                created_at: Some(now),
                                hash,
                            },
                        ),
                    )),
            // The general-mesh send to the announced owner.
            !old(self).routing_table_view.owners().contains_key(account_id) ==> r == false
                && final(self).tier2.ready_map() == old(self).tier2.ready_map() && final(self).routing_table_view.rb() == old(self).routing_table_view.rb(),
            old(self).routing_table_view.owners().contains_key(account_id) ==> ({
                let owner = old(self).routing_table_view.owners()[account_id].peer_id;
                let nh = old(self).routing_table_view.nh();
                let routable = owner != old(self).config.node_id && nh.contains_key(owner.0)
                    && nh[owner.0]@.len() > 0;
                let m = RoutedMessage {
                    target: PeerIdOrHash::Peer(owner),
                    author: old(self).config.node_id,
                    signature: MsgSignature { signer: old(self).config.node_id, hash },
                    ttl: old(self).config.routed_message_ttl,
                    body,
                    created_at: Some(now),
                    hash,
                };
                &&& (!routable ==> r == false && final(self).tier2.ready_map() == old(self).tier2.ready_map() && final(self).routing_table_view.rb() == old(self).routing_table_view.rb())
                &&& (routable ==> {
                    let hop = nh[owner.0]@[0];
                    let copies: int = if body.spec_is_important() {
                        IMPORTANT_MESSAGE_RESENT_COUNT as int
                    } else {
                        1
                    };
                    &&& r == old(self).tier2.ready_map().contains_key(hop)
                    &&& (forall|p: u64|
                        final(self).tier2.ready_map().contains_key(p) == old(self).tier2.ready_map().contains_key(p))
                    &&& (forall|p: u64| #[trigger]
                        final(self).tier2.ready_map().contains_key(p) && p != hop ==> final(self).tier2.ready_map()[p] == old(self).tier2.ready_map()[p])
                    &&& (r ==> final(self).tier2.ready_map()[hop].outbox@ == old(self).tier2.ready_map()[hop].outbox@ + Seq::new(
                        copies as nat,
                        |j: int| PeerMessage::Routed(m),
                    ))
                    &&& (!r ==> final(self).tier2.ready_map() == old(self).tier2.ready_map())
                    &&& (body.spec_expects_response() ==> final(self).routing_table_view.rb().contains_key(hash.0) && final(self).routing_table_view.rb()[hash.0] == (old(self).config.node_id.0, now))
                    &&& (!body.spec_expects_response() ==> final(self).routing_table_view.rb()
                        == old(self).routing_table_view.rb())
                })
            }),
    {
        if body.is_tier1_allowed() {
            match self.get_tier1_proxy(account_id) {
                Some(pair) => {
                    let raw = RawRoutedMessage { target: PeerIdOrHash::Peer(pair.0), body };
                    let signed = self.sign_message(now, raw, hash);
                    let sent1 = self.tier1.send_message(pair.1.0, PeerMessage::Routed(signed));
                    proof {
                        assert forall|p: u64| #[trigger]
                            self.tier1.ready_map().contains_key(p) implies self.tier1.ready_map()[
                            p
                        ].outbox@ == old(self).tier1.ready_map()[p].outbox@ || (exists|
                            target: PeerId,
                        |
                            self.tier1.ready_map()[p].outbox@ == old(self).tier1.ready_map()[
                                p
                            ].outbox@.push(
                                PeerMessage::Routed(
                                    RoutedMessage {
                                        target: PeerIdOrHash::Peer(target),
                                        author: old(self).config.node_id,
                                        signature: MsgSignature {
                                            signer: old(self).config.node_id,
                                            hash,
                                        },
                                        ttl: old(self).config.routed_message_ttl,
                                        body,
                                        created_at: Some(now),
                                        hash,
                                    },
                                ),
                            )) by {
                            if sent1 && p == pair.1.0 {
                                assert(self.tier1.ready_map()[p].outbox@ == old(self).tier1.ready_map()[p].outbox@.push(
                                    PeerMessage::Routed(
                                        RoutedMessage {
                                            target: PeerIdOrHash::Peer(pair.0),
                                            author: old(self).config.node_id,
                                            signature: MsgSignature {
                                                signer: old(self).config.node_id,
                                                hash,
                                            },
                                            ttl: old(self).config.routed_message_ttl,
                                            body,
                                            created_at: Some(now),
                                            hash,
                                        },
                                    ),
                                ));
                            }
                        }
                    }
                }
                None => {},
            }
        }
        let target = match self.routing_table_view.account_owner(account_id) {
            Some(p) => p,
            None => {
                return false;
            },
        };
        let raw = RawRoutedMessage { target: PeerIdOrHash::Peer(target), body };
        let signed = self.sign_message(now, raw, hash);
        let ghost s1 = *self;
        if signed.body.is_important() {
            let ghost m = signed;
            proof {
                assert(!m.body.spec_expects_response());
            }
            let mut success = false;
            let mut i: u64 = 0;
            while i < IMPORTANT_MESSAGE_RESENT_COUNT
                invariant
                    self.wf(),
                    0 <= now,
                    i <= IMPORTANT_MESSAGE_RESENT_COUNT,
                    self.config == s1.config,
                    m == (RoutedMessage {
                        target: PeerIdOrHash::Peer(target),
                        author: s1.config.node_id,
                        signature: MsgSignature { signer: s1.config.node_id, hash },
                        ttl: s1.config.routed_message_ttl,
                        body,
                        created_at: Some(now),
                        hash,
                    }),
                    signed == m,
                    m.body == body,
                    m.body.spec_is_important(),
                    !m.body.spec_expects_response(),
                    self.tier1 == s1.tier1,
                    self.tier1_route_back == s1.tier1_route_back,
                    self.routing_table_view.nh() == s1.routing_table_view.nh(),
                    self.routing_table_view.owners() == s1.routing_table_view.owners(),
                    self.routing_table_view.rb() == s1.routing_table_view.rb(),
                    ({
                        let nh = s1.routing_table_view.nh();
                        let routable = target != s1.config.node_id && nh.contains_key(target.0)
                            && nh[target.0]@.len() > 0;
                        &&& (!routable ==> success == false && self.tier2.ready_map()
                            == s1.tier2.ready_map())
                        &&& (routable ==> {
                            let hop = nh[target.0]@[0];
                            &&& success == (i > 0 && s1.tier2.ready_map().contains_key(hop))
                            &&& (forall|p: u64|
                                self.tier2.ready_map().contains_key(p)
                                    == s1.tier2.ready_map().contains_key(p))
                            &&& (forall|p: u64| #[trigger]
                                self.tier2.ready_map().contains_key(p) && p != hop
                                    ==> self.tier2.ready_map()[p] == s1.tier2.ready_map()[p])
                            &&& (s1.tier2.ready_map().contains_key(hop)
                                ==> self.tier2.ready_map()[hop].outbox@ == s1.tier2.ready_map()[
                                hop
                            ].outbox@ + Seq::new(i as nat, |j: int| PeerMessage::Routed(m)))
                            &&& (!s1.tier2.ready_map().contains_key(hop)
                                ==> self.tier2.ready_map() == s1.tier2.ready_map())
                        })
                    }),
                decreases IMPORTANT_MESSAGE_RESENT_COUNT - i,
            {
                let ghost pre = *self;
                let sent = self.send_message_to_peer(now, Tier::T2, signed);
                proof {
                    let nh = s1.routing_table_view.nh();
                    if target != s1.config.node_id && nh.contains_key(target.0)
                        && nh[target.0]@.len() > 0 {
                        let hop = nh[target.0]@[0];
                        if s1.tier2.ready_map().contains_key(hop) {
                            assert(self.tier2.ready_map()[hop].outbox@ =~= s1.tier2.ready_map()[
                                hop
                            ].outbox@ + Seq::new((i + 1) as nat, |j: int| PeerMessage::Routed(m)));
                        }
                    }
                }
                success = success || sent;
                i += 1;
            }
            success
        } else {
            let sent = self.send_message_to_peer(now, Tier::T2, signed);
            proof {
                let nh = s1.routing_table_view.nh();
                if target != s1.config.node_id && nh.contains_key(target.0)
                    && nh[target.0]@.len() > 0 {
                    let hop = nh[target.0]@[0];
                    if s1.tier2.ready_map().contains_key(hop) {
                        assert(self.tier2.ready_map()[hop].outbox@ =~= s1.tier2.ready_map()[
                            hop
                        ].outbox@ + Seq::new(1 as nat, |j: int| PeerMessage::Routed(signed)));
                    }
                }
            }
            sent
        }
    }

    /// Queues a `PeersRequest` on every ready general-mesh connection
    /// not asked recently; the set of connections itself is untouched.
    pub fn ask_for_more_peers(&mut self, now: i64)
        requires
            old(self).wf(),
            0 <= now,
        ensures
            final(self).wf(),
            forall|p: u64|
                final(self).tier2.ready_map().contains_key(p) == old(self).tier2.ready_map().contains_key(p),
            final(self).tier1 == old(self).tier1,
            final(self).routing_table_view == old(self).routing_table_view,
    {
        let ready = self.tier2.ready_peers();
        let n = ready.len();
        let mut i: usize = 0;
        while i < n
            invariant
                self.wf(),
                0 <= now,
                n == ready@.len(),
                i <= n,
                forall|p: u64|
                    self.tier2.ready_map().contains_key(p) == old(self).tier2.ready_map().contains_key(p),
                self.tier1 == old(self).tier1,
                self.routing_table_view == old(self).routing_table_view,
                self.accounts_data == old(self).accounts_data,
                self.tier1_route_back == old(self).tier1_route_back,
                self.inbound_handshake_permits == old(self).inbound_handshake_permits,
                self.config == old(self).config,
            decreases n - i,
        {
            let p = ready[i];
            let due = match self.tier2.get_ready(p) {
                Some(c) => now - REQUEST_PEERS_INTERVAL > c.last_time_peer_requested,
                None => false,
            };
            if due {
                self.tier2.send_message(p, PeerMessage::PeersRequest);
            }
            i += 1;
        }
    }

    /// Merges announced accounts into the view and, when any were new,
    /// queues a routing-table sync on every ready general-mesh
    /// connection.  Returns the new accounts.
    pub fn broadcast_accounts(&mut self, accounts: Vec<crate::routing_table_view::AnnounceAccount>, payload: u64) -> (r: Vec<crate::routing_table_view::AnnounceAccount>)
        requires
            old(self).wf(),
        ensures
            final(self).wf(),
            final(self).routing_table_view.owners() == crate::routing_table_view::owners_fold(
                old(self).routing_table_view.owners(),
                accounts@,
            ).0,
            r@ == crate::routing_table_view::owners_fold(
                old(self).routing_table_view.owners(),
                accounts@,
            ).1,
            forall|i: int|
                0 <= i < r@.len() ==> final(self).routing_table_view.owners().contains_key(
                    (#[trigger] r@[i]).account_id,
                ),
            r@.len() == 0 ==> final(self).tier2.ready_map() == old(self).tier2.ready_map(),
            r@.len() > 0 ==> (forall|p: u64|
                final(self).tier2.ready_map().contains_key(p) == old(self).tier2.ready_map().contains_key(p)) && (forall|p: u64| #[trigger]
                final(self).tier2.ready_map().contains_key(p) ==> final(self).tier2.ready_map()[
                    p
                ].outbox@ == old(self).tier2.ready_map()[p].outbox@.push(
                    PeerMessage::SyncRoutingTable { payload },
                )),
    {
        let new_accounts = self.routing_table_view.add_accounts(accounts);
        proof {
            crate::routing_table_view::lemma_owners_fold_accepted(
                old(self).routing_table_view.owners(),
                accounts@,
            );
        }
        if new_accounts.len() > 0 {
            self.tier2.broadcast_message(&PeerMessage::SyncRoutingTable { payload });
        }
        new_accounts
    }

    /// Stores freshly verified edges adjacent to this node in the view;
    /// the caller forwards the full batch to the routing graph engine.
    pub fn add_verified_edges_to_routing_table(&mut self, edges: &Vec<crate::network_protocol::Edge>)
        requires
            old(self).wf(),
            forall|i: int| 0 <= i < edges@.len() ==> (#[trigger] edges@[i]).key_ok(),
        ensures
            final(self).wf(),
    {
        if edges.len() == 0 {
            return ;
        }
        self.routing_table_view.add_local_edges(edges);
    }

    /// Builds and signs a ping for `target`.
    pub fn send_ping(&mut self, now: i64, tier: Tier, nonce: u64, target: PeerId, hash: CryptoHash) -> (r: bool)
        requires
            old(self).wf(),
            0 <= now,
        ensures
            final(self).wf(),
    {
        let body = RoutedMessageBody::Ping { nonce, source: self.config.node_id };
        let raw = RawRoutedMessage { target: PeerIdOrHash::Peer(target), body };
        let signed = self.sign_message(now, raw, hash);
        self.send_message_to_peer(now, tier, signed)
    }

    /// Builds and signs a pong answering the request identified by
    /// `target`.
    pub fn send_pong(&mut self, now: i64, tier: Tier, nonce: u64, target: CryptoHash, hash: CryptoHash) -> (r: bool)
        requires
            old(self).wf(),
            0 <= now,
        ensures
            final(self).wf(),
    {
        let body = RoutedMessageBody::Pong { nonce, source: self.config.node_id };
        let raw = RawRoutedMessage { target: PeerIdOrHash::Hash(target), body };
        let signed = self.sign_message(now, raw, hash);
        self.send_message_to_peer(now, tier, signed)
    }

    /// The router's decision for an inbound wire message: which client
    /// call to make, and whether its reply must be routed back to the
    /// request's hash.  Unknown variants are ignored.
    pub fn receive_message(&self, peer: PeerId, msg: &PeerMessage, was_requested: bool) -> (r:
        Dispatch)
        ensures
            r == spec_dispatch(peer, *msg, was_requested),
    {
        match msg {
            PeerMessage::Routed(rm) => {
                let msg_hash = rm.hash;
                match rm.body {
                    RoutedMessageBody::TxStatusRequest { account_id, tx_hash } => Dispatch::CallExpectingReply {
                        call: ClientCall::TxStatusRequest { account_id, tx_hash },
                        reply_to: msg_hash,
                    },
                    RoutedMessageBody::TxStatusResponse { payload } => Dispatch::Call(
                        ClientCall::TxStatusResponse { payload },
                    ),
                    RoutedMessageBody::StateRequestHeader { shard_id, sync_hash } => Dispatch::CallExpectingReply {
                        call: ClientCall::StateRequestHeader { shard_id, sync_hash },
                        reply_to: msg_hash,
                    },
                    RoutedMessageBody::StateRequestPart { shard_id, sync_hash, part_id } => Dispatch::CallExpectingReply {
                        call: ClientCall::StateRequestPart { shard_id, sync_hash, part_id },
                        reply_to: msg_hash,
                    },
                    RoutedMessageBody::VersionedStateResponse { payload } => Dispatch::Call(
                        ClientCall::StateResponse { payload },
                    ),
                    RoutedMessageBody::BlockApproval { payload } => Dispatch::Call(
                        ClientCall::BlockApproval { payload, peer },
                    ),
                    RoutedMessageBody::ForwardTx { payload } => Dispatch::Call(
                        ClientCall::Transaction { payload, is_forwarded: true },
                    ),
                    RoutedMessageBody::PartialEncodedChunkRequest { payload } => Dispatch::Call(
                        ClientCall::PartialEncodedChunkRequest { payload, msg_hash },
                    ),
                    RoutedMessageBody::PartialEncodedChunkResponse { payload } => Dispatch::Call(
                        ClientCall::PartialEncodedChunkResponse { payload },
                    ),
                    RoutedMessageBody::VersionedPartialEncodedChunk { payload } => Dispatch::Call(
                        ClientCall::PartialEncodedChunk { payload },
                    ),
                    RoutedMessageBody::PartialEncodedChunkForward { payload } => Dispatch::Call(
                        ClientCall::PartialEncodedChunkForward { payload },
                    ),
                    RoutedMessageBody::ReceiptOutcomeRequest { .. } => Dispatch::Ignore,
                    _ => Dispatch::Ignore,
                }
            }
            PeerMessage::BlockRequest { hash } => Dispatch::Call(
                ClientCall::BlockRequest { hash: *hash },
            ),
            PeerMessage::Block { payload } => Dispatch::Call(
                ClientCall::Block { payload: *payload, peer, was_requested },
            ),
            PeerMessage::BlockHeadersRequest { payload } => Dispatch::Call(
                ClientCall::BlockHeadersRequest { payload: *payload },
            ),
            PeerMessage::BlockHeaders { payload } => Dispatch::Call(
                ClientCall::BlockHeaders { payload: *payload, peer },
            ),
            PeerMessage::Transaction { payload } => Dispatch::Call(
                ClientCall::Transaction { payload: *payload, is_forwarded: false },
            ),
            PeerMessage::Challenge { payload } => Dispatch::Call(
                ClientCall::Challenge { payload: *payload },
            ),
            _ => Dispatch::Ignore,
        }
    }

    /// Wraps a client reply into a routed message targeting the hash of
    /// the request, signed with this node's key at the current time.
    pub fn make_reply(&self, now: i64, request_hash: CryptoHash, body: RoutedMessageBody, reply_hash: CryptoHash) -> (r: RoutedMessage)
        ensures
            r.target == PeerIdOrHash::Hash(request_hash),
            r.author == self.config.node_id,
            r.body == body,
            r.created_at == Some(now),
            r.hash == reply_hash,
    {
        self.sign_message(
            now,
            RawRoutedMessage { target: PeerIdOrHash::Hash(request_hash), body },
            reply_hash,
        )
    }
}

} // verus!
