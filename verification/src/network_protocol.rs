//! Wire-level data: peer identities and signed edges.
use crate::emap::EMap;
use vstd::prelude::*;

verus! {

/// A node identity on the network. Stands for a public-key hash; the
/// surrounding application maps real keys to these stable numbers. The
/// total order on the inner value is used only to canonicalise edge keys.
#[derive(Clone, Copy, PartialEq, Eq, Structural, Debug, Hash)]
pub struct PeerId(pub u64);

/// Whether an edge claims a live connection or reports its removal.
/// The parity of the nonce encodes the state: odd is active, even removed.
#[derive(Clone, Copy, PartialEq, Eq, Structural, Debug)]
pub enum EdgeState {
    Active,
    Removed,
}

/// Stands for a cryptographic signature by `signer` over the edge payload
/// `(a, b, nonce)`. The application layer maps real signatures to and from
/// this shape; the core only ever checks that a signature binds its signer
/// to the payload it accompanies.
#[derive(Clone, Copy, PartialEq, Eq, Structural, Debug)]
pub struct EdgeSignature {
    pub signer: PeerId,
    pub a: PeerId,
    pub b: PeerId,
    pub nonce: u64,
}

/// Whether `sig` is a valid signature by `signer` over `(a, b, nonce)`.
pub open spec fn valid_edge_sig(sig: EdgeSignature, signer: PeerId, a: PeerId, b: PeerId, nonce: u64) -> bool {
    sig.signer == signer && sig.a == a && sig.b == b && sig.nonce == nonce
}

/// A signed claim that peers `a` and `b` have (or had) a direct connection
/// at a given nonce. `a < b` canonically; both signatures cover
/// `(a, b, nonce)`; the nonce is monotone per `(a, b)` and its parity
/// encodes active/removed.
#[derive(Clone, Copy, PartialEq, Eq, Structural, Debug)]
pub struct Edge {
    pub a: PeerId,
    pub b: PeerId,
    pub nonce: u64,
    pub sig_a: EdgeSignature,
    pub sig_b: EdgeSignature,
    /// Wall-clock creation time, in milliseconds.
    pub created_at: i64,
}

impl Edge {
    /// Canonical form: the lower identity first, and distinct endpoints.
    pub open spec fn key_ok(self) -> bool {
        self.a.0 < self.b.0
    }

    pub open spec fn spec_key(self) -> (u64, u64) {
        (self.a.0, self.b.0)
    }

    pub open spec fn spec_active(self) -> bool {
        self.nonce % 2 == 1
    }

    /// Both signatures bind their signer to this edge's payload.
    pub open spec fn spec_verified(self) -> bool {
        &&& valid_edge_sig(self.sig_a, self.a, self.a, self.b, self.nonce)
        &&& valid_edge_sig(self.sig_b, self.b, self.a, self.b, self.nonce)
    }

    /// Builds a canonical edge from endpoints given in either order,
    /// swapping the accompanying signatures along with them.
    pub fn make(peer0: PeerId, peer1: PeerId, nonce: u64, created_at: i64, sig0: EdgeSignature, sig1: EdgeSignature) -> (r: Edge)
        requires
            peer0.0 != peer1.0,
        ensures
            r.key_ok(),
            r.nonce == nonce,
            r.created_at == created_at,
            peer0.0 < peer1.0 ==> r == (Edge { a: peer0, b: peer1, nonce, sig_a: sig0, sig_b: sig1, created_at }),
            peer1.0 < peer0.0 ==> r == (Edge { a: peer1, b: peer0, nonce, sig_a: sig1, sig_b: sig0, created_at }),
    {
        if peer0.0 < peer1.0 {
            Edge { a: peer0, b: peer1, nonce, sig_a: sig0, sig_b: sig1, created_at }
        } else {
            Edge { a: peer1, b: peer0, nonce, sig_a: sig1, sig_b: sig0, created_at }
        }
    }

    pub fn key(&self) -> (r: (u64, u64))
        ensures
            r == self.spec_key(),
    {
        (self.a.0, self.b.0)
    }

    pub fn edge_type(&self) -> (r: EdgeState)
        ensures
            r == EdgeState::Active <==> self.spec_active(),
    {
        if self.nonce % 2 == 1 {
            EdgeState::Active
        } else {
            EdgeState::Removed
        }
    }

    /// The endpoint opposite `p`, if `p` is an endpoint at all.
    pub fn other(&self, p: PeerId) -> (r: Option<PeerId>)
        requires
            self.key_ok(),
        ensures
            match r {
                Some(q) => (self.a == p && q == self.b) || (self.b == p && q == self.a),
                None => self.a != p && self.b != p,
            },
    {
        if self.a.0 == p.0 {
            Some(self.b)
        } else if self.b.0 == p.0 {
            Some(self.a)
        } else {
            None
        }
    }

    pub fn is_edge_older_than(&self, t: i64) -> (r: bool)
        ensures
            r == (self.created_at < t),
    {
        self.created_at < t
    }

    /// Checks both signatures against this edge's payload.
    pub fn verify(&self) -> (r: bool)
        ensures
            r == self.spec_verified(),
    {
        self.sig_a.signer.0 == self.a.0 && self.sig_a.a.0 == self.a.0 && self.sig_a.b.0 == self.b.0
            && self.sig_a.nonce == self.nonce && self.sig_b.signer.0 == self.b.0
            && self.sig_b.a.0 == self.a.0 && self.sig_b.b.0 == self.b.0
            && self.sig_b.nonce == self.nonce
    }

    /// The next nonce, of opposite parity.
    pub fn next(&self) -> (r: u64)
        requires
            self.nonce < u64::MAX,
        ensures
            r == self.nonce + 1,
            (r % 2 == 1) <==> !self.spec_active(),
    {
        self.nonce + 1
    }
}

/// Some edge of `r` carries `e`'s key with a nonce at least as high.
pub open spec fn key_covered(r: Seq<Edge>, e: Edge) -> bool {
    exists|j: int|
        0 <= j < r.len() && (#[trigger] r[j]).spec_key() == e.spec_key() && r[j].nonce >= e.nonce
}

/// Whether some edge of `s` carries the key `k`.
pub open spec fn dedup_has_key(s: Seq<Edge>, k: (u64, u64)) -> bool {
    exists|i: int| 0 <= i < s.len() && (#[trigger] s[i]).spec_key() == k
}

/// The index of the edge of `s` carrying the key `k` (meaningful when
/// the keys of `s` are unique and the key occurs).
pub open spec fn dedup_key_index(s: Seq<Edge>, k: (u64, u64)) -> int {
    choose|i: int| 0 <= i < s.len() && (#[trigger] s[i]).spec_key() == k
}

/// Deduplication by key keeping the highest nonce: one representative
/// per key, in order of first appearance, replaced in place whenever a
/// strictly newer copy of its key arrives.
pub open spec fn spec_dedup(s: Seq<Edge>) -> Seq<Edge>
    decreases s.len(),
{
    if s.len() == 0 {
        Seq::empty()
    } else {
        let pre = spec_dedup(s.drop_last());
        let e = s.last();
        if dedup_has_key(pre, e.spec_key()) {
            let i = dedup_key_index(pre, e.spec_key());
            if pre[i].nonce < e.nonce {
                pre.update(i, e)
            } else {
                pre
            }
        } else {
            pre.push(e)
        }
    }
}

/// What the deduplication keeps: pairwise distinct keys, only input
/// edges, and for every input a representative of its key carrying a
/// nonce at least as high.
pub proof fn lemma_spec_dedup(s: Seq<Edge>)
    ensures
        forall|i: int, j: int|
            0 <= i < j < spec_dedup(s).len() ==> (#[trigger] spec_dedup(s)[i]).spec_key() != (
            #[trigger] spec_dedup(s)[j]).spec_key(),
        forall|i: int| 0 <= i < spec_dedup(s).len() ==> s.contains(#[trigger] spec_dedup(s)[i]),
        forall|i: int| 0 <= i < s.len() ==> key_covered(spec_dedup(s), #[trigger] s[i]),
    decreases s.len(),
{
    if s.len() > 0 {
        lemma_spec_dedup(s.drop_last());
        let pre = spec_dedup(s.drop_last());
        let dd = spec_dedup(s);
        let e = s.last();
        assert(s[s.len() - 1] == e);
        assert forall|x: Edge| s.drop_last().contains(x) implies s.contains(x) by {
            let ix = choose|ix: int| 0 <= ix < s.drop_last().len() && s.drop_last()[ix] == x;
            assert(s[ix] == x);
        }
        if dedup_has_key(pre, e.spec_key()) {
            let i = dedup_key_index(pre, e.spec_key());
            assert(0 <= i < pre.len() && pre[i].spec_key() == e.spec_key());
            if pre[i].nonce < e.nonce {
                assert(dd == pre.update(i, e));
                assert forall|i2: int| 0 <= i2 < dd.len() implies s.contains(
                    #[trigger] dd[i2],
                ) by {
                    if i2 != i {
                        assert(dd[i2] == pre[i2]);
                        assert(s.drop_last().contains(pre[i2]));
                    }
                }
                assert forall|i2: int| 0 <= i2 < s.len() implies key_covered(
                    dd,
                    #[trigger] s[i2],
                ) by {
                    if i2 < s.len() - 1 {
                        assert(key_covered(pre, s.drop_last()[i2]));
                        let j = choose|j: int|
                            0 <= j < pre.len() && (#[trigger] pre[j]).spec_key()
                                == s[i2].spec_key() && pre[j].nonce >= s[i2].nonce;
                        if j == i {
                            assert(dd[i].spec_key() == s[i2].spec_key() && dd[i].nonce
                                >= s[i2].nonce);
                        } else {
                            assert(dd[j] == pre[j]);
                        }
                    } else {
                        assert(dd[i].spec_key() == e.spec_key() && dd[i].nonce >= e.nonce);
                    }
                }
            } else {
                assert(dd == pre);
                assert forall|i2: int| 0 <= i2 < s.len() implies key_covered(
                    dd,
                    #[trigger] s[i2],
                ) by {
                    if i2 < s.len() - 1 {
                        assert(key_covered(pre, s.drop_last()[i2]));
                    } else {
                        assert(dd[i].spec_key() == e.spec_key() && dd[i].nonce >= e.nonce);
                    }
                }
            }
        } else {
            assert(dd == pre.push(e));
            assert forall|i2: int, j2: int|
                0 <= i2 < j2 < dd.len() implies (#[trigger] dd[i2]).spec_key() != (
            #[trigger] dd[j2]).spec_key() by {
                if j2 == dd.len() - 1 {
                    assert(dd[i2] == pre[i2]);
                    assert(!dedup_has_key(pre, e.spec_key()));
                    if pre[i2].spec_key() == e.spec_key() {
                        assert(dedup_has_key(pre, e.spec_key()));
                    }
                } else {
                    assert(dd[i2] == pre[i2] && dd[j2] == pre[j2]);
                }
            }
            assert forall|i2: int| 0 <= i2 < dd.len() implies s.contains(#[trigger] dd[i2]) by {
                if i2 < dd.len() - 1 {
                    assert(dd[i2] == pre[i2]);
                    assert(s.drop_last().contains(pre[i2]));
                } else {
                    assert(dd[i2] == e);
                }
            }
            assert forall|i2: int| 0 <= i2 < s.len() implies key_covered(dd, #[trigger] s[i2]) by {
                if i2 < s.len() - 1 {
                    assert(key_covered(pre, s.drop_last()[i2]));
                    let j = choose|j: int|
                        0 <= j < pre.len() && (#[trigger] pre[j]).spec_key() == s[i2].spec_key()
                            && pre[j].nonce >= s[i2].nonce;
                    assert(dd[j] == pre[j]);
                } else {
                    assert(dd[dd.len() - 1].spec_key() == e.spec_key() && dd[dd.len() - 1].nonce
                        >= e.nonce);
                }
            }
        }
    }
}

impl Edge {
    /// Keeps, for every edge key, only the copy with the highest nonce,
    /// in order of first appearance.
    pub fn deduplicate(edges: Vec<Edge>) -> (r: Vec<Edge>)
        ensures
            r@ == spec_dedup(edges@),
            forall|i: int, j: int|
                0 <= i < j < r@.len() ==> (#[trigger] r@[i]).spec_key() != (
                #[trigger] r@[j]).spec_key(),
            forall|i: int| 0 <= i < r@.len() ==> edges@.contains(#[trigger] r@[i]),
            forall|i: int| 0 <= i < edges@.len() ==> key_covered(r@, #[trigger] edges@[i]),
    {
        let mut best: EMap<Edge> = EMap::new();
        let n = edges.len();
        let mut i: usize = 0;
        proof {
            assert(edges@.take(0) =~= Seq::<Edge>::empty());
        }
        while i < n
            invariant
                n == edges@.len(),
                i <= n,
                best.wf(),
                best.sq().len() == spec_dedup(edges@.take(i as int)).len(),
                forall|idx: int|
                    0 <= idx < best.sq().len() ==> (#[trigger] best.sq()[idx]).1 == spec_dedup(
                        edges@.take(i as int),
                    )[idx] && best.sq()[idx].0 == best.sq()[idx].1.spec_key(),
            decreases n - i,
        {
            let ghost prefix = edges@.take(i as int);
            let ghost pre = spec_dedup(prefix);
            let ghost prefix2 = edges@.take(i + 1);
            proof {
                assert(prefix2.drop_last() =~= prefix);
                assert(prefix2.last() == edges@[i as int]);
                lemma_spec_dedup(prefix);
                assert forall|k: (u64, u64)|
                    crate::emap::seq_has_key(best.sq(), k) <==> dedup_has_key(pre, k) by {
                    if crate::emap::seq_has_key(best.sq(), k) {
                        let idx = choose|idx: int|
                            0 <= idx < best.sq().len() && (#[trigger] best.sq()[idx]).0 == k;
                        assert(pre[idx].spec_key() == k);
                    }
                    if dedup_has_key(pre, k) {
                        let idx = choose|idx: int|
                            0 <= idx < pre.len() && (#[trigger] pre[idx]).spec_key() == k;
                        assert(best.sq()[idx].0 == k);
                    }
                }
            }
            let e = edges[i];
            let key = e.key();
            let keep = match best.get(key) {
                Some(prev) => prev.nonce < e.nonce,
                None => true,
            };
            proof {
                if dedup_has_key(pre, key) {
                    let si = crate::emap::seq_key_index(best.sq(), key);
                    let di = dedup_key_index(pre, key);
                    assert(0 <= si < best.sq().len() && best.sq()[si].0 == key) by {
                        assert(crate::emap::seq_has_key(best.sq(), key));
                        crate::emap::lemma_key_at(
                            best.sq(),
                            choose|idx: int|
                                0 <= idx < best.sq().len() && (#[trigger] best.sq()[idx]).0 == key,
                        );
                    }
                    assert(0 <= di < pre.len() && pre[di].spec_key() == key);
                    assert(si == di) by {
                        assert(pre[si].spec_key() == key);
                        if si < di {
                            assert(pre[si].spec_key() != pre[di].spec_key());
                        } else if di < si {
                            assert(pre[di].spec_key() != pre[si].spec_key());
                        }
                    }
                    assert(best@.contains_key(key) && best@[key] == pre[di]) by {
                        crate::emap::lemma_key_at(best.sq(), si);
                    }
                }
            }
            if keep {
                best.insert(key, e);
            }
            proof {
                let ghost dd2 = spec_dedup(prefix2);
                if dedup_has_key(pre, key) {
                    let di = dedup_key_index(pre, key);
                    if pre[di].nonce < e.nonce {
                        assert(dd2 == pre.update(di, e));
                    } else {
                        assert(dd2 == pre);
                    }
                } else {
                    assert(dd2 == pre.push(e));
                }
                assert forall|idx: int| 0 <= idx < best.sq().len() implies (
                #[trigger] best.sq()[idx]).1 == dd2[idx] && best.sq()[idx].0 == best.sq()[
                    idx
                ].1.spec_key() by {}
            }
            i += 1;
        }
        proof {
            assert(edges@.take(n as int) =~= edges@);
        }
        let m = best.len();
        let mut r: Vec<Edge> = Vec::new();
        let mut j: usize = 0;
        while j < m
            invariant
                m == best.sq().len(),
                best.wf(),
                j <= m,
                r@.len() == j,
                m == spec_dedup(edges@).len(),
                forall|jj: int|
                    0 <= jj < m ==> (#[trigger] best.sq()[jj]).1 == spec_dedup(edges@)[jj],
                forall|jj: int| 0 <= jj < j ==> #[trigger] r@[jj] == best.sq()[jj].1,
            decreases m - j,
        {
            let kv = best.get_at(j);
            r.push(kv.1);
            j += 1;
        }
        proof {
            assert(r@ =~= spec_dedup(edges@));
            lemma_spec_dedup(edges@);
        }
        r
    }
}

/// Stands for signing the payload `(a, b, nonce)` with `signer`'s key.
/// The application performs the real signing; tests and the local node use
/// this to produce the model signature with the same binding.
pub fn sign_edge_payload(signer: PeerId, a: PeerId, b: PeerId, nonce: u64) -> (r: EdgeSignature)
    ensures
        valid_edge_sig(r, signer, a, b, nonce),
{
    EdgeSignature { signer, a, b, nonce }
}

/// Half of a fresh edge: the nonce the proposer wants and its signature
/// over the would-be payload.
#[derive(Clone, Copy, PartialEq, Eq, Structural, Debug)]
pub struct PartialEdgeInfo {
    pub nonce: u64,
    pub signature: EdgeSignature,
}

impl PartialEdgeInfo {
    pub fn new(me: PeerId, peer: PeerId, nonce: u64) -> (r: PartialEdgeInfo)
        requires
            me.0 != peer.0,
        ensures
            r.nonce == nonce,
            me.0 < peer.0 ==> valid_edge_sig(r.signature, me, me, peer, nonce),
            peer.0 < me.0 ==> valid_edge_sig(r.signature, me, peer, me, nonce),
    {
        let signature = if me.0 < peer.0 {
            sign_edge_payload(me, me, peer, nonce)
        } else {
            sign_edge_payload(me, peer, me, nonce)
        };
        PartialEdgeInfo { nonce, signature }
    }
}

/// Connection tier: the validator mesh or the general gossip mesh.
#[derive(Clone, Copy, PartialEq, Eq, Structural, Debug)]
pub enum Tier {
    T1,
    T2,
}

/// A socket address, as an opaque stable number assigned by the
/// application layer.
#[derive(Clone, Copy, PartialEq, Eq, Structural, Debug)]
pub struct SockAddr(pub u64);

/// A peer together with the socket address it listens on.
#[derive(Clone, Copy, PartialEq, Eq, Structural, Debug)]
pub struct PeerAddr {
    pub peer_id: PeerId,
    pub addr: SockAddr,
}

/// An opaque message hash, used as the route-back token.
#[derive(Clone, Copy, PartialEq, Eq, Structural, Debug)]
pub struct CryptoHash(pub u64);

/// The destination of a routed message: a known peer, or the hash of the
/// request being answered.
#[derive(Clone, Copy, PartialEq, Eq, Structural, Debug)]
pub enum PeerIdOrHash {
    Peer(PeerId),
    Hash(CryptoHash),
}

/// The application payload of a routed message. Payload contents are
/// opaque numbers assigned by the application layer.
#[derive(Clone, Copy, PartialEq, Eq, Structural, Debug)]
pub enum RoutedMessageBody {
    Ping { nonce: u64, source: PeerId },
    Pong { nonce: u64, source: PeerId },
    TxStatusRequest { account_id: u64, tx_hash: CryptoHash },
    TxStatusResponse { payload: u64 },
    StateRequestHeader { shard_id: u64, sync_hash: CryptoHash },
    StateRequestPart { shard_id: u64, sync_hash: CryptoHash, part_id: u64 },
    VersionedStateResponse { payload: u64 },
    BlockApproval { payload: u64 },
    ForwardTx { payload: u64 },
    PartialEncodedChunkRequest { payload: u64 },
    PartialEncodedChunkResponse { payload: u64 },
    VersionedPartialEncodedChunk { payload: u64 },
    PartialEncodedChunkForward { payload: u64 },
    ReceiptOutcomeRequest { payload: u64 },
}

impl RoutedMessageBody {
    /// Whether a reply is expected and a route back must be recorded.
    pub open spec fn spec_expects_response(self) -> bool {
        match self {
            RoutedMessageBody::Ping { .. } => true,
            RoutedMessageBody::TxStatusRequest { .. } => true,
            RoutedMessageBody::StateRequestHeader { .. } => true,
            RoutedMessageBody::StateRequestPart { .. } => true,
            RoutedMessageBody::PartialEncodedChunkRequest { .. } => true,
            _ => false,
        }
    }

    pub fn expects_response(&self) -> (r: bool)
        ensures
            r == self.spec_expects_response(),
    {
        match self {
            RoutedMessageBody::Ping { .. } => true,
            RoutedMessageBody::TxStatusRequest { .. } => true,
            RoutedMessageBody::StateRequestHeader { .. } => true,
            RoutedMessageBody::StateRequestPart { .. } => true,
            RoutedMessageBody::PartialEncodedChunkRequest { .. } => true,
            _ => false,
        }
    }

    /// Whether the message is important enough for the redundant resend.
    pub open spec fn spec_is_important(self) -> bool {
        match self {
            RoutedMessageBody::BlockApproval { .. } => true,
            RoutedMessageBody::VersionedPartialEncodedChunk { .. } => true,
            _ => false,
        }
    }

    pub fn is_important(&self) -> (r: bool)
        ensures
            r == self.spec_is_important(),
    {
        match self {
            RoutedMessageBody::BlockApproval { .. } => true,
            RoutedMessageBody::VersionedPartialEncodedChunk { .. } => true,
            _ => false,
        }
    }

    /// Whether the body may travel on the validator mesh.
    pub open spec fn spec_is_tier1_allowed(self) -> bool {
        match self {
            RoutedMessageBody::BlockApproval { .. } => true,
            RoutedMessageBody::VersionedPartialEncodedChunk { .. } => true,
            RoutedMessageBody::PartialEncodedChunkForward { .. } => true,
            _ => false,
        }
    }

    pub fn is_tier1_allowed(&self) -> (r: bool)
        ensures
            r == self.spec_is_tier1_allowed(),
    {
        match self {
            RoutedMessageBody::BlockApproval { .. } => true,
            RoutedMessageBody::VersionedPartialEncodedChunk { .. } => true,
            RoutedMessageBody::PartialEncodedChunkForward { .. } => true,
            _ => false,
        }
    }
}

/// Stands for a signature of this node over a routed message payload.
#[derive(Clone, Copy, PartialEq, Eq, Structural, Debug)]
pub struct MsgSignature {
    pub signer: PeerId,
    pub hash: CryptoHash,
}

/// A message not yet signed: the destination and the payload.
#[derive(Clone, Copy, PartialEq, Eq, Structural, Debug)]
pub struct RawRoutedMessage {
    pub target: PeerIdOrHash,
    pub body: RoutedMessageBody,
}

/// A signed routed message. The hash identifies the message on the wire
/// and is assigned by the application layer; replies target it.
#[derive(Clone, Copy, PartialEq, Eq, Structural, Debug)]
pub struct RoutedMessage {
    pub target: PeerIdOrHash,
    pub author: PeerId,
    pub signature: MsgSignature,
    pub ttl: u8,
    pub body: RoutedMessageBody,
    pub created_at: Option<i64>,
    pub hash: CryptoHash,
}

impl RawRoutedMessage {
    /// Stands for signing the message with this node's key at `now`,
    /// under the wire identity `hash`.
    pub fn sign(self, me: PeerId, ttl: u8, now: Option<i64>, hash: CryptoHash) -> (r: RoutedMessage)
        ensures
            r == (RoutedMessage {
                target: self.target,
                author: me,
                signature: MsgSignature { signer: me, hash },
                ttl,
                body: self.body,
                created_at: now,
                hash,
            }),
    {
        RoutedMessage {
            target: self.target,
            author: me,
            signature: MsgSignature { signer: me, hash },
            ttl,
            body: self.body,
            created_at: now,
            hash,
        }
    }
}

/// A wire message between two directly connected peers. Application
/// payloads are opaque numbers assigned by the application layer.
#[derive(Clone, Copy, PartialEq, Eq, Structural, Debug)]
pub enum PeerMessage {
    Handshake { payload: u64 },
    HandshakeFailure { payload: u64 },
    PeersRequest,
    PeersResponse { payload: u64 },
    SyncRoutingTable { payload: u64 },
    RequestUpdateNonce { payload: u64 },
    SyncAccountsData { incremental: bool, requesting_full_sync: bool, payload: u64 },
    Routed(RoutedMessage),
    Block { payload: u64 },
    BlockRequest { hash: CryptoHash },
    BlockHeaders { payload: u64 },
    BlockHeadersRequest { payload: u64 },
    Transaction { payload: u64 },
    Challenge { payload: u64 },
}

} // verus!
