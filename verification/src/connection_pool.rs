//! Live connections of one tier: ready peers with their per-connection
//! outboxes, and the two sets of in-flight handshakes.  A peer identity
//! appears in at most one of the three at any instant.
use crate::network_protocol::{PeerId, PeerMessage, SockAddr, Tier};
use crate::util::{seq_nodup, vec_contains, vec_remove_first};
use crate::vmap::UMap;
use vstd::prelude::*;

verus! {

/// One live connection.  Messages queued here are sent by the transport
/// in order, so sends within one connection are first-in first-out.
pub struct Connection {
    pub peer_id: PeerId,
    pub addr: Option<SockAddr>,
    pub tier: Tier,
    pub established_at: i64,
    pub last_time_peer_requested: i64,
    pub outbox: Vec<PeerMessage>,
}

/// Why an operation on the pool was refused.
#[derive(Clone, Copy, PartialEq, Eq, Structural, Debug)]
pub enum PoolError {
    AlreadyConnected,
    AlreadyStartedConnecting,
    UnexpectedLoopConnection,
}

pub struct Pool {
    me: PeerId,
    ready: UMap<Connection>,
    outbound_handshakes: Vec<u64>,
    inbound_handshakes: Vec<u64>,
    loop_out: Option<Connection>,
}

impl Pool {
    pub closed spec fn spec_me(&self) -> PeerId {
        self.me
    }

    /// The ready connections by peer.
    pub closed spec fn ready_map(&self) -> Map<u64, Connection> {
        self.ready@
    }

    pub closed spec fn outbound(&self) -> Seq<u64> {
        self.outbound_handshakes@
    }

    pub closed spec fn inbound(&self) -> Seq<u64> {
        self.inbound_handshakes@
    }

    pub closed spec fn spec_loop_out(&self) -> Option<Connection> {
        self.loop_out
    }

    /// A peer appears in at most one of the three membership sets, each
    /// set holds a peer at most once, and every ready connection is
    /// keyed by its own peer.
    pub open spec fn wf(&self) -> bool {
        &&& self.inner_wf()
        &&& seq_nodup(self.outbound())
        &&& seq_nodup(self.inbound())
        &&& forall|p: u64| #[trigger] self.outbound().contains(p) ==> !self.inbound().contains(p)
        &&& forall|p: u64| #[trigger]
            self.ready_map().contains_key(p) ==> !self.outbound().contains(p)
                && !self.inbound().contains(p)
        &&& forall|p: u64| #[trigger]
            self.ready_map().contains_key(p) ==> self.ready_map()[p].peer_id.0 == p
    }

    pub closed spec fn inner_wf(&self) -> bool {
        self.ready.wf()
    }

    pub fn new(me: PeerId) -> (r: Pool)
        ensures
            r.wf(),
            r.spec_me() == me,
            r.ready_map() == Map::<u64, Connection>::empty(),
            r.outbound() == Seq::<u64>::empty(),
            r.inbound() == Seq::<u64>::empty(),
            r.spec_loop_out().is_none(),
    {
        Pool {
            me,
            ready: UMap::new(),
            outbound_handshakes: Vec::new(),
            inbound_handshakes: Vec::new(),
            loop_out: None,
        }
    }

    /// Begins an outbound handshake with `peer`, unless the peer is
    /// already connected or connecting.
    pub fn start_outbound_handshake(&mut self, peer: u64) -> (r: Result<(), PoolError>)
        requires
            old(self).wf(),
        ensures
            final(self).wf(),
            final(self).spec_me() == old(self).spec_me(),
            final(self).ready_map() == old(self).ready_map(),
            final(self).inbound() == old(self).inbound(),
            final(self).spec_loop_out() == old(self).spec_loop_out(),
            match r {
                Ok(_) => !old(self).ready_map().contains_key(peer) && !old(self).outbound().contains(peer) && !old(self).inbound().contains(peer) && final(self).outbound() == old(self).outbound().push(peer),
                Err(_) => (old(self).ready_map().contains_key(peer) || old(self).outbound().contains(peer) || old(self).inbound().contains(peer)) && final(self).outbound() == old(self).outbound(),
            },
    {
        if self.ready.contains_key(peer) {
            return Err(PoolError::AlreadyConnected);
        }
        if vec_contains(&self.outbound_handshakes, peer) || vec_contains(
            &self.inbound_handshakes,
            peer,
        ) {
            return Err(PoolError::AlreadyStartedConnecting);
        }
        let ghost ob = self.outbound_handshakes@;
        self.outbound_handshakes.push(peer);
        proof {
            crate::bfs::lemma_push_contains(ob, peer);
            assert forall|i1: int, j1: int|
                0 <= i1 < j1 < self.outbound_handshakes@.len() implies self.outbound_handshakes@[i1]
                != self.outbound_handshakes@[j1] by {
                if j1 == self.outbound_handshakes@.len() - 1 {
                    assert(ob.contains(ob[i1])) by {
                        assert(ob[i1] == ob[i1]);
                    }
                }
            }
            assert forall|p: u64| #[trigger] self.outbound().contains(p) implies !self.inbound().contains(p) by {
                if p != peer {
                    assert(ob.contains(p));
                }
            }
            assert forall|p: u64| #[trigger]
                self.ready_map().contains_key(p) implies !self.outbound().contains(p)
                && !self.inbound().contains(p) by {
                assert(!self.outbound().contains(p) || ob.contains(p) || p == peer);
            }
        }
        Ok(())
    }

    /// Begins an inbound handshake with `peer`, unless the peer is
    /// already connected or connecting.
    pub fn start_inbound_handshake(&mut self, peer: u64) -> (r: Result<(), PoolError>)
        requires
            old(self).wf(),
        ensures
            final(self).wf(),
            final(self).spec_me() == old(self).spec_me(),
            final(self).ready_map() == old(self).ready_map(),
            final(self).outbound() == old(self).outbound(),
            final(self).spec_loop_out() == old(self).spec_loop_out(),
            match r {
                Ok(_) => !old(self).ready_map().contains_key(peer) && !old(self).outbound().contains(peer) && !old(self).inbound().contains(peer) && final(self).inbound() == old(self).inbound().push(peer),
                Err(_) => (old(self).ready_map().contains_key(peer) || old(self).outbound().contains(peer) || old(self).inbound().contains(peer)) && final(self).inbound() == old(self).inbound(),
            },
    {
        if self.ready.contains_key(peer) {
            return Err(PoolError::AlreadyConnected);
        }
        if vec_contains(&self.outbound_handshakes, peer) || vec_contains(
            &self.inbound_handshakes,
            peer,
        ) {
            return Err(PoolError::AlreadyStartedConnecting);
        }
        let ghost ib = self.inbound_handshakes@;
        self.inbound_handshakes.push(peer);
        proof {
            crate::bfs::lemma_push_contains(ib, peer);
            assert forall|i1: int, j1: int|
                0 <= i1 < j1 < self.inbound_handshakes@.len() implies self.inbound_handshakes@[i1]
                != self.inbound_handshakes@[j1] by {
                if j1 == self.inbound_handshakes@.len() - 1 {
                    assert(ib.contains(ib[i1])) by {
                        assert(ib[i1] == ib[i1]);
                    }
                }
            }
            assert forall|p: u64| #[trigger] self.outbound().contains(p) implies !self.inbound().contains(p) by {
                assert(!self.inbound().contains(p) || ib.contains(p) || p == peer);
            }
            assert forall|p: u64| #[trigger]
                self.ready_map().contains_key(p) implies !self.outbound().contains(p)
                && !self.inbound().contains(p) by {
                assert(!self.inbound().contains(p) || ib.contains(p) || p == peer);
            }
        }
        Ok(())
    }

    /// Ends the handshake with `peer`; on success the connection joins
    /// the ready set.
    pub fn finish_handshake(&mut self, peer: u64, conn: Option<Connection>) -> (r: Result<
        (),
        PoolError,
    >)
        requires
            old(self).wf(),
            match conn {
                Some(c) => c.peer_id.0 == peer,
                None => true,
            },
        ensures
            final(self).wf(),
            final(self).spec_me() == old(self).spec_me(),
            final(self).spec_loop_out() == old(self).spec_loop_out(),
            !final(self).outbound().contains(peer),
            !final(self).inbound().contains(peer),
            forall|p: u64|
                p != peer ==> (final(self).outbound().contains(p) == old(self).outbound().contains(
                    p,
                )) && (final(self).inbound().contains(p) == old(self).inbound().contains(p)),
            match r {
                Ok(_) => match conn {
                    Some(c) => !old(self).ready_map().contains_key(peer) && final(self).ready_map()
                        == old(self).ready_map().insert(peer, c),
                    None => final(self).ready_map() == old(self).ready_map(),
                },
                Err(_) => final(self).ready_map() == old(self).ready_map(),
            },
    {
        vec_remove_first(&mut self.outbound_handshakes, peer);
        vec_remove_first(&mut self.inbound_handshakes, peer);
        match conn {
            Some(c) => {
                if self.ready.contains_key(peer) {
                    return Err(PoolError::AlreadyConnected);
                }
                self.ready.insert(peer, c);
                Ok(())
            }
            None => Ok(()),
        }
    }

    /// Drops the connection to `peer`, if any, returning it so that the
    /// transport side can be stopped.
    pub fn remove_connection(&mut self, peer: u64) -> (r: Option<Connection>)
        requires
            old(self).wf(),
        ensures
            final(self).wf(),
            final(self).spec_me() == old(self).spec_me(),
            final(self).spec_loop_out() == old(self).spec_loop_out(),
            final(self).outbound() == old(self).outbound(),
            final(self).inbound() == old(self).inbound(),
            final(self).ready_map() == old(self).ready_map().remove(peer),
            match r {
                Some(c) => old(self).ready_map().contains_key(peer) && c == old(self).ready_map()[peer],
                None => !old(self).ready_map().contains_key(peer),
            },
    {
        self.ready.remove(peer)
    }

    /// Queues `msg` on the connection to `peer`; false iff the peer is
    /// not ready.  Never blocks.
    pub fn send_message(&mut self, peer: u64, msg: PeerMessage) -> (r: bool)
        requires
            old(self).wf(),
        ensures
            final(self).wf(),
            final(self).spec_me() == old(self).spec_me(),
            final(self).spec_loop_out() == old(self).spec_loop_out(),
            final(self).outbound() == old(self).outbound(),
            final(self).inbound() == old(self).inbound(),
            r == old(self).ready_map().contains_key(peer),
            forall|q: u64|
                final(self).ready_map().contains_key(q) == old(self).ready_map().contains_key(q),
            forall|q: u64| #[trigger]
                final(self).ready_map().contains_key(q) && q != peer ==> final(self).ready_map()[q]
                    == old(self).ready_map()[q],
            r ==> final(self).ready_map()[peer].outbox@ == old(self).ready_map()[peer].outbox@.push(msg) && final(self).ready_map()[peer].peer_id == old(self).ready_map()[peer].peer_id && final(self).ready_map()[peer].tier == old(self).ready_map()[peer].tier
                && final(self).ready_map()[peer].addr == old(self).ready_map()[peer].addr
                && final(self).ready_map()[peer].established_at == old(self).ready_map()[peer].established_at && final(self).ready_map()[peer].last_time_peer_requested == old(self).ready_map()[peer].last_time_peer_requested,
    {
        match self.ready.remove(peer) {
            Some(mut c) => {
                c.outbox.push(msg);
                self.ready.insert(peer, c);
                true
            }
            None => {
                proof {
                    assert(final (self).ready_map() =~= old(self).ready_map());
                }
                false
            }
        }
    }

    /// Queues `msg` on every ready connection, best effort.
    pub fn broadcast_message(&mut self, msg: &PeerMessage)
        requires
            old(self).wf(),
        ensures
            final(self).wf(),
            final(self).spec_me() == old(self).spec_me(),
            final(self).spec_loop_out() == old(self).spec_loop_out(),
            final(self).outbound() == old(self).outbound(),
            final(self).inbound() == old(self).inbound(),
            forall|p: u64|
                final(self).ready_map().contains_key(p) == old(self).ready_map().contains_key(p),
            forall|p: u64| #[trigger]
                final(self).ready_map().contains_key(p) ==> final(self).ready_map()[p].outbox@
                    == old(self).ready_map()[p].outbox@.push(*msg) && final(self).ready_map()[p].peer_id == old(self).ready_map()[p].peer_id,
    {
        let targets = self.ready.keys();
        proof {
            assert forall|i1: int, j1: int|
                0 <= i1 < j1 < targets@.len() implies targets@[i1] != targets@[j1] by {
                assert(targets@[i1] == self.ready.sq()[i1].0);
                assert(targets@[j1] == self.ready.sq()[j1].0);
            }
            assert(targets@.take(0) =~= Seq::<u64>::empty());
        }
        let n = targets.len();
        let mut i: usize = 0;
        while i < n
            invariant
                n == targets@.len(),
                i <= n,
                seq_nodup(targets@),
                self.wf(),
                self.spec_me() == old(self).spec_me(),
                self.spec_loop_out() == old(self).spec_loop_out(),
                self.outbound() == old(self).outbound(),
                self.inbound() == old(self).inbound(),
                forall|p: u64|
                    self.ready_map().contains_key(p) == old(self).ready_map().contains_key(p),
                forall|p: u64| old(self).ready_map().contains_key(p) <==> targets@.contains(p),
                forall|p: u64| #[trigger]
                    self.ready_map().contains_key(p) ==> (targets@.take(i as int).contains(p)
                        ==> self.ready_map()[p].outbox@ == old(self).ready_map()[p].outbox@.push(
                        *msg,
                    ) && self.ready_map()[p].peer_id == old(self).ready_map()[p].peer_id) && (
                    !targets@.take(i as int).contains(p) ==> self.ready_map()[p] == old(self).ready_map()[p]),
            decreases n - i,
        {
            let p = targets[i];
            proof {
                assert(targets@.contains(p)) by {
                    assert(targets@[i as int] == p);
                }
                assert(!targets@.take(i as int).contains(p)) by {
                    if targets@.take(i as int).contains(p) {
                        let jj = choose|jj: int|
                            0 <= jj < i && #[trigger] targets@.take(i as int)[jj] == p;
                        assert(targets@[jj] == p);
                    }
                }
            }
            match self.ready.remove(p) {
                Some(mut c) => {
                    c.outbox.push(*msg);
                    self.ready.insert(p, c);
                }
                None => {},
            }
            proof {
                assert forall|q: u64| #[trigger]
                    self.ready_map().contains_key(q) implies (targets@.take(i + 1).contains(q)
                    ==> self.ready_map()[q].outbox@ == old(self).ready_map()[q].outbox@.push(*msg)
                        && self.ready_map()[q].peer_id == old(self).ready_map()[q].peer_id) && (
                !targets@.take(i + 1).contains(q) ==> self.ready_map()[q] == old(self).ready_map()[q]) by {
                    assert(targets@.take(i + 1).drop_last() =~= targets@.take(i as int));
                    assert(targets@.take(i + 1).last() == p);
                    if q != p {
                        if targets@.take(i + 1).contains(q) {
                            let jj = choose|jj: int|
                                0 <= jj < i + 1 && #[trigger] targets@.take(i + 1)[jj] == q;
                            assert(targets@.take(i as int)[jj] == q);
                        }
                        if targets@.take(i as int).contains(q) {
                            let jj = choose|jj: int|
                                0 <= jj < i && #[trigger] targets@.take(i as int)[jj] == q;
                            assert(targets@.take(i + 1)[jj] == q);
                        }
                    } else {
                        assert(targets@.take(i + 1)[i as int] == p);
                        assert(targets@.take(i + 1).contains(p));
                    }
                }
            }
            i += 1;
        }
        proof {
            assert(targets@.take(n as int) =~= targets@);
        }
    }

    /// Installs (or clears) the loop connection this node keeps to its
    /// own listening address, used to learn the observed address under
    /// trusted address discovery.
    pub fn set_loop_out(&mut self, conn: Option<Connection>)
        requires
            old(self).wf(),
        ensures
            final(self).wf(),
            final(self).spec_me() == old(self).spec_me(),
            final(self).ready_map() == old(self).ready_map(),
            final(self).outbound() == old(self).outbound(),
            final(self).inbound() == old(self).inbound(),
            final(self).spec_loop_out() == conn,
    {
        self.loop_out = conn;
    }

    /// The observed address of the loop connection, if one is installed.
    pub fn loop_out_addr(&self) -> (r: Option<SockAddr>)
        ensures
            r == match self.spec_loop_out() {
                Some(c) => c.addr,
                None => None,
            },
    {
        match &self.loop_out {
            Some(c) => c.addr,
            None => None,
        }
    }

    /// Whether an outbound handshake with `peer` is in flight.
    pub fn outbound_contains(&self, peer: u64) -> (r: bool)
        ensures
            r == self.outbound().contains(peer),
    {
        vec_contains(&self.outbound_handshakes, peer)
    }

    /// The ready connection to `peer`, if any.
    pub fn get_ready(&self, peer: u64) -> (r: Option<&Connection>)
        requires
            self.wf(),
        ensures
            match r {
                Some(c) => self.ready_map().contains_key(peer) && *c == self.ready_map()[peer],
                None => !self.ready_map().contains_key(peer),
            },
    {
        self.ready.get(peer)
    }

    /// The peers that are currently ready, in insertion order.
    pub fn ready_peers(&self) -> (r: Vec<u64>)
        requires
            self.wf(),
        ensures
            forall|p: u64| r@.contains(p) <==> self.ready_map().contains_key(p),
            seq_nodup(r@),
            forall|i: int|
                0 <= i < r@.len() ==> self.ready_map().contains_key(#[trigger] r@[i]),
    {
        let r = self.ready.keys();
        proof {
            assert forall|i1: int, j1: int| 0 <= i1 < j1 < r@.len() implies r@[i1] != r@[j1] by {
                assert(r@[i1] == self.ready.sq()[i1].0);
                assert(r@[j1] == self.ready.sq()[j1].0);
            }
            assert forall|i: int| 0 <= i < r@.len() implies self.ready_map().contains_key(
                #[trigger] r@[i],
            ) by {
                assert(r@.contains(r@[i])) by {
                    assert(r@[i] == r@[i]);
                }
            }
        }
        r
    }

    /// Takes everything queued for `peer`, in send order, leaving the
    /// outbox empty; the transport layer writes these to the socket.
    pub fn take_outbox(&mut self, peer: u64) -> (r: Vec<PeerMessage>)
        requires
            old(self).wf(),
        ensures
            final(self).wf(),
            final(self).spec_me() == old(self).spec_me(),
            final(self).spec_loop_out() == old(self).spec_loop_out(),
            final(self).outbound() == old(self).outbound(),
            final(self).inbound() == old(self).inbound(),
            forall|q: u64|
                final(self).ready_map().contains_key(q) == old(self).ready_map().contains_key(q),
            forall|q: u64| #[trigger]
                final(self).ready_map().contains_key(q) && q != peer ==> final(self).ready_map()[q]
                    == old(self).ready_map()[q],
            old(self).ready_map().contains_key(peer) ==> r@ == old(self).ready_map()[peer].outbox@
                && final(self).ready_map()[peer].outbox@ == Seq::<PeerMessage>::empty() && final(self).ready_map()[peer].peer_id == old(self).ready_map()[peer].peer_id,
            !old(self).ready_map().contains_key(peer) ==> r@ == Seq::<PeerMessage>::empty()
                && final(self).ready_map() == old(self).ready_map(),
    {
        match self.ready.remove(peer) {
            Some(mut c) => {
                let out = c.outbox;
                c.outbox = Vec::new();
                self.ready.insert(peer, c);
                out
            }
            None => {
                proof {
                    assert(final (self).ready_map() =~= old(self).ready_map());
                }
                Vec::new()
            }
        }
    }

    /// The law that a peer identity is in at most one of the three
    /// membership sets at any instant.
    pub proof fn lemma_membership_exclusive(&self, p: u64)
        requires
            self.wf(),
        ensures
            !(self.ready_map().contains_key(p) && self.outbound().contains(p)),
            !(self.ready_map().contains_key(p) && self.inbound().contains(p)),
            !(self.outbound().contains(p) && self.inbound().contains(p)),
    {
    }
}

} // verus!
