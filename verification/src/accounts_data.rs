//! Validator-announced records: for each `(account, epoch)` the signed
//! announcement with the highest timestamp wins, ties broken by a fixed
//! total order on the record (the canonical serialisation order of its
//! fields).  Accepted records are exactly those that strictly improved
//! the cache, and a single bad signature rejects the whole batch.
use crate::emap::EMap;
use crate::network_protocol::{PeerAddr, PeerId};
use vstd::prelude::*;

verus! {

/// Stands for a validator-key signature over the record's identifying
/// fields.
#[derive(Clone, Copy, PartialEq, Eq, Structural, Debug)]
pub struct AccountSig {
    pub account_id: u64,
    pub account_key: u64,
    pub epoch_id: u64,
    pub timestamp: i64,
}

/// One announcement: where an account can be reached in an epoch.
#[derive(Clone, PartialEq, Eq, Debug)]
pub struct AccountData {
    pub account_id: u64,
    /// The validator public key the record is signed with.
    pub account_key: u64,
    pub epoch_id: u64,
    pub peer_id: Option<PeerId>,
    pub proxies: Vec<PeerAddr>,
    pub timestamp: i64,
    pub sig: AccountSig,
}

/// The abstract value of a record, with the proxy list as a sequence.
pub struct AccountDataView {
    pub account_id: u64,
    pub account_key: u64,
    pub epoch_id: u64,
    pub peer_id: Option<PeerId>,
    pub proxies: Seq<PeerAddr>,
    pub timestamp: i64,
    pub sig: AccountSig,
}

impl View for AccountData {
    type V = AccountDataView;

    open spec fn view(&self) -> AccountDataView {
        AccountDataView {
            account_id: self.account_id,
            account_key: self.account_key,
            epoch_id: self.epoch_id,
            peer_id: self.peer_id,
            proxies: self.proxies@,
            timestamp: self.timestamp,
            sig: self.sig,
        }
    }
}

impl AccountDataView {
    pub open spec fn spec_verified(self) -> bool {
        &&& self.sig.account_id == self.account_id
        &&& self.sig.account_key == self.account_key
        &&& self.sig.epoch_id == self.epoch_id
        &&& self.sig.timestamp == self.timestamp
    }

    pub open spec fn spec_key(self) -> (u64, u64) {
        (self.account_id, self.epoch_id)
    }
}

impl AccountData {
    pub fn verify(&self) -> (r: bool)
        ensures
            r == self@.spec_verified(),
    {
        self.sig.account_id == self.account_id && self.sig.account_key == self.account_key
            && self.sig.epoch_id == self.epoch_id && self.sig.timestamp == self.timestamp
    }

    pub fn key(&self) -> (r: (u64, u64))
        ensures
            r == self@.spec_key(),
    {
        (self.account_id, self.epoch_id)
    }

    /// An exact copy of the record.
    pub fn duplicate(&self) -> (r: AccountData)
        ensures
            r@ == self@,
    {
        let mut proxies: Vec<PeerAddr> = Vec::new();
        let n = self.proxies.len();
        let mut i: usize = 0;
        while i < n
            invariant
                n == self.proxies@.len(),
                i <= n,
                proxies@ == self.proxies@.take(i as int),
            decreases n - i,
        {
            proxies.push(self.proxies[i]);
            proof {
                assert(proxies@ =~= self.proxies@.take(i + 1));
            }
            i += 1;
        }
        proof {
            assert(self.proxies@.take(n as int) =~= self.proxies@);
        }
        AccountData {
            account_id: self.account_id,
            account_key: self.account_key,
            epoch_id: self.epoch_id,
            peer_id: self.peer_id,
            proxies,
            timestamp: self.timestamp,
            sig: self.sig,
        }
    }

    /// Stands for signing the record's identity with the account key.
    pub fn sign(account_id: u64, account_key: u64, epoch_id: u64, peer_id: Option<PeerId>, proxies: Vec<PeerAddr>, timestamp: i64) -> (r: AccountData)
        ensures
            r@.spec_verified(),
            r@.account_id == account_id,
            r@.account_key == account_key,
            r@.epoch_id == epoch_id,
            r@.peer_id == peer_id,
            r@.proxies == proxies@,
            r@.timestamp == timestamp,
    {
        AccountData {
            account_id,
            account_key,
            epoch_id,
            peer_id,
            proxies,
            timestamp,
            sig: AccountSig { account_id, account_key, epoch_id, timestamp },
        }
    }
}

pub open spec fn proxy_gt(a: PeerAddr, b: PeerAddr) -> bool {
    a.peer_id.0 > b.peer_id.0 || (a.peer_id.0 == b.peer_id.0 && a.addr.0 > b.addr.0)
}

/// The fixed tie-break order: whether `a` beats `b` at equal timestamps.
/// It compares the fields in canonical serialisation order.
pub open spec fn spec_tie_beats(a: AccountDataView, b: AccountDataView) -> bool {
    let ap = match a.peer_id {
        Some(p) => p.0 + 1,
        None => 0,
    };
    let bp = match b.peer_id {
        Some(p) => p.0 + 1,
        None => 0,
    };
    if ap != bp {
        ap > bp
    } else if a.proxies.len() != b.proxies.len() {
        a.proxies.len() > b.proxies.len()
    } else if a.account_key != b.account_key {
        a.account_key > b.account_key
    } else {
        exists|i: int|
            0 <= i < a.proxies.len() && #[trigger] proxy_gt(a.proxies[i], b.proxies[i]) && (
            forall|j: int| 0 <= j < i ==> a.proxies[j] == b.proxies[j])
    }
}

/// Whether `a` wins over an already-stored `b`: strictly newer, or the
/// tie-break favours it at the same timestamp.
pub open spec fn spec_beats(a: AccountDataView, b: AccountDataView) -> bool {
    a.timestamp > b.timestamp || (a.timestamp == b.timestamp && spec_tie_beats(a, b))
}

/// The batch-insert fold: what the cache looks like after the records
/// are merged in order, and which records strictly improved it.
pub open spec fn insert_fold(m: Map<(u64, u64), AccountDataView>, rs: Seq<AccountDataView>) -> (
    Map<(u64, u64), AccountDataView>,
    Seq<AccountDataView>,
)
    decreases rs.len(),
{
    if rs.len() == 0 {
        (m, Seq::empty())
    } else {
        let pre = insert_fold(m, rs.drop_last());
        let r = rs.last();
        if !pre.0.contains_key(r.spec_key()) || spec_beats(r, pre.0[r.spec_key()]) {
            (pre.0.insert(r.spec_key(), r), pre.1.push(r))
        } else {
            pre
        }
    }
}

/// The abstract values of a record list, in order.
pub open spec fn views_of(rs: Seq<AccountData>) -> Seq<AccountDataView> {
    rs.map_values(|d: AccountData| d@)
}

/// Why an insert batch was rejected.
#[derive(Clone, Copy, PartialEq, Eq, Structural, Debug)]
pub enum BanReason {
    InvalidSignature,
}

pub struct Cache {
    data: EMap<AccountData>,
}

impl Cache {
    /// The stored records by `(account, epoch)`.
    pub closed spec fn view(&self) -> Map<(u64, u64), AccountDataView> {
        Map::new(|k: (u64, u64)| self.data@.contains_key(k), |k: (u64, u64)| self.data@[k]@)
    }

    pub open spec fn wf(&self) -> bool {
        &&& self.inner_wf()
        &&& forall|k: (u64, u64)| #[trigger]
            self@.contains_key(k) ==> self@[k].spec_key() == k && self@[k].spec_verified()
    }

    pub closed spec fn inner_wf(&self) -> bool {
        self.data.wf()
    }

    pub fn new() -> (r: Cache)
        ensures
            r.wf(),
            r@ == Map::<(u64, u64), AccountDataView>::empty(),
    {
        let r = Cache { data: EMap::new() };
        proof {
            assert(r@ =~= Map::<(u64, u64), AccountDataView>::empty());
        }
        r
    }

    /// Merges a batch of signed records.  A single bad signature rejects
    /// the whole batch with a ban-class error; otherwise, for each
    /// `(account, epoch)` the newest record wins and the returned list
    /// holds exactly the records that strictly improved the cache, in
    /// order, for the caller to broadcast.
    pub fn insert(&mut self, records: Vec<AccountData>) -> (r: (Vec<AccountData>, Option<BanReason>))
        requires
            old(self).wf(),
        ensures
            final(self).wf(),
            match r.1 {
                Some(_) => (exists|i: int|
                    0 <= i < records@.len() && !(#[trigger] records@[i])@.spec_verified())
                    && final(self)@ == old(self)@ && r.0@ == Seq::<AccountData>::empty(),
                None => (forall|i: int|
                    0 <= i < records@.len() ==> (#[trigger] records@[i])@.spec_verified()) && final(self)@ == insert_fold(old(self)@, views_of(records@)).0 && views_of(r.0@) == insert_fold(
                    old(self)@,
                    views_of(records@),
                ).1,
            },
    {
        // Signature verification is mandatory and rejects the whole batch.
        let n = records.len();
        let mut i: usize = 0;
        while i < n
            invariant
                n == records@.len(),
                i <= n,
                *self == *old(self),
                self.wf(),
                forall|j: int| 0 <= j < i ==> (#[trigger] records@[j])@.spec_verified(),
            decreases n - i,
        {
            if !records[i].verify() {
                proof {
                    assert(!records@[i as int]@.spec_verified());
                }
                return (Vec::new(), Some(BanReason::InvalidSignature));
            }
            i += 1;
        }
        // Merge, keeping the strictly-improving records.
        let mut accepted: Vec<AccountData> = Vec::new();
        let mut i2: usize = 0;
        while i2 < n
            invariant
                n == records@.len(),
                i2 <= n,
                forall|j: int| 0 <= j < n ==> (#[trigger] records@[j])@.spec_verified(),
                self.wf(),
                self@ == insert_fold(old(self)@, views_of(records@.take(i2 as int))).0,
                views_of(accepted@) == insert_fold(old(self)@, views_of(records@.take(i2 as int))).1,
            decreases n - i2,
        {
            let rec = records[i2].duplicate();
            proof {
                assert(records@.take(i2 + 1).drop_last() =~= records@.take(i2 as int));
                assert(records@.take(i2 + 1).last() == records@[i2 as int]);
                assert(rec@ == records@[i2 as int]@);
                assert(views_of(records@.take(i2 + 1)).drop_last() =~= views_of(
                    records@.take(i2 as int),
                ));
                assert(views_of(records@.take(i2 + 1)).last() == rec@);
                assert(views_of(records@.take(i2 + 1)).len() > 0);
            }
            let key = rec.key();
            let take_it = match self.data.get(key) {
                Some(prev) => Self::beats(&rec, prev),
                None => true,
            };
            if take_it {
                let rec2 = rec.duplicate();
                let ghost accp = accepted@;
                self.data.insert(key, rec);
                accepted.push(rec2);
                proof {
                    assert(self@ =~= insert_fold(old(self)@, views_of(records@.take(i2 + 1))).0);
                    assert(views_of(accepted@) =~= insert_fold(
                        old(self)@,
                        views_of(records@.take(i2 + 1)),
                    ).1) by {
                        assert(views_of(accepted@) =~= views_of(accp).push(rec2@));
                    }
                }
            } else {
                proof {
                    assert(self@ == insert_fold(old(self)@, views_of(records@.take(i2 + 1))).0);
                }
            }
            i2 += 1;
        }
        proof {
            assert(records@.take(n as int) =~= records@);
        }
        (accepted, None)
    }

    /// The strict-improvement test used by the merge.
    fn beats(a: &AccountData, b: &AccountData) -> (r: bool)
        ensures
            r == spec_beats(a@, b@),
    {
        if a.timestamp > b.timestamp {
            return true;
        }
        if a.timestamp < b.timestamp {
            return false;
        }
        match (a.peer_id, b.peer_id) {
            (None, None) => {},
            (None, Some(_)) => {
                return false;
            },
            (Some(_), None) => {
                return true;
            },
            (Some(p), Some(q)) => {
                if p.0 != q.0 {
                    return p.0 > q.0;
                }
            },
        }
        if a.proxies.len() != b.proxies.len() {
            return a.proxies.len() > b.proxies.len();
        }
        if a.account_key != b.account_key {
            return a.account_key > b.account_key;
        }
        let m = a.proxies.len();
        let mut i: usize = 0;
        while i < m
            invariant
                m == a.proxies@.len(),
                m == b.proxies@.len(),
                i <= m,
                a@.timestamp == b@.timestamp,
                a@.account_key == b@.account_key,
                (match (a@.peer_id, b@.peer_id) {
                    (Option::None, Option::None) => true,
                    (Option::Some(p), Option::Some(q)) => p.0 == q.0,
                    _ => false,
                }),
                forall|j: int| 0 <= j < i ==> a.proxies@[j] == b.proxies@[j],
            decreases m - i,
        {
            let pa = a.proxies[i];
            let pb = b.proxies[i];
            if pa.peer_id.0 != pb.peer_id.0 || pa.addr.0 != pb.addr.0 {
                let gt = pa.peer_id.0 > pb.peer_id.0 || (pa.peer_id.0 == pb.peer_id.0 && pa.addr.0
                    > pb.addr.0);
                proof {
                    if gt {
                        assert(spec_tie_beats(a@, b@)) by {
                            assert(0 <= i < a@.proxies.len() && #[trigger] proxy_gt(
                                a@.proxies[i as int],
                                b@.proxies[i as int],
                            ) && (forall|j: int| 0 <= j < i ==> a@.proxies[j] == b@.proxies[j]));
                        }
                    } else {
                        assert forall|i2: int|
                            0 <= i2 < a.proxies@.len() && #[trigger] proxy_gt(
                                a@.proxies[i2],
                                b@.proxies[i2],
                            ) implies !(forall|j: int|
                            0 <= j < i2 ==> a@.proxies[j] == b@.proxies[j]) by {
                            if i2 > i {
                                assert(a@.proxies[i as int] != b@.proxies[i as int]);
                            } else if i2 < i {
                                assert(a@.proxies[i2] == b@.proxies[i2]);
                            }
                        }
                    }
                }
                return gt;
            }
            proof {
                assert(a.proxies@[i as int] == b.proxies@[i as int]);
            }
            i += 1;
        }
        proof {
            assert forall|i2: int|
                0 <= i2 < a@.proxies.len() implies !proxy_gt(a@.proxies[i2], b@.proxies[i2]) by {
                assert(a@.proxies[i2] == b@.proxies[i2]);
            }
            assert(!spec_tie_beats(a@, b@));
        }
        false
    }

    /// The record stored for `(account, epoch)`, if any.
    pub fn get(&self, account_id: u64, epoch_id: u64) -> (r: Option<&AccountData>)
        requires
            self.wf(),
        ensures
            match r {
                Some(d) => self@.contains_key((account_id, epoch_id)) && d@ == self@[
                    (account_id, epoch_id)
                ],
                None => !self@.contains_key((account_id, epoch_id)),
            },
    {
        self.data.get((account_id, epoch_id))
    }

    /// Whether some stored record announces `account_id` under `key`.
    pub fn contains_account_key(&self, account_id: u64, key: u64) -> (r: bool)
        requires
            self.wf(),
        ensures
            r == exists|k: (u64, u64)|
                #[trigger] self@.contains_key(k) && self@[k].account_id == account_id
                    && self@[k].account_key == key,
    {
        let n = self.data.len();
        let mut i: usize = 0;
        while i < n
            invariant
                self.wf(),
                n == self.data.sq().len(),
                i <= n,
                forall|j: int|
                    0 <= j < i ==> !((#[trigger] self.data.sq()[j]).1.account_id == account_id
                        && self.data.sq()[j].1.account_key == key),
            decreases n - i,
        {
            let kv = self.data.get_at(i);
            if kv.1.account_id == account_id && kv.1.account_key == key {
                proof {
                    crate::emap::lemma_key_at(self.data.sq(), i as int);
                    assert(self@.contains_key(self.data.sq()[i as int].0));
                }
                return true;
            }
            i += 1;
        }
        proof {
            assert forall|k: (u64, u64)| #[trigger]
                self@.contains_key(k) implies !(self@[k].account_id == account_id
                && self@[k].account_key == key) by {
                let j = crate::emap::seq_key_index(self.data.sq(), k);
                crate::emap::lemma_key_at(self.data.sq(), j);
            }
        }
        false
    }

    /// The epochs for which records under `(account_id, key)` are stored,
    /// in insertion order.
    pub fn epochs(&self, account_id: u64, key: u64) -> (r: Vec<u64>)
        requires
            self.wf(),
        ensures
            forall|e: u64| #[trigger]
                r@.contains(e) ==> self@.contains_key((account_id, e)) && self@[
                    (account_id, e)
                ].account_key == key,
            forall|k: (u64, u64)| #[trigger]
                self@.contains_key(k) && self@[k].account_id == account_id && self@[k].account_key
                    == key ==> r@.contains(k.1),
            forall|i: int, j: int| 0 <= i < j < r@.len() ==> r@[i] != r@[j],
    {
        let n = self.data.len();
        let mut r: Vec<u64> = Vec::new();
        let mut i: usize = 0;
        while i < n
            invariant
                self.wf(),
                n == self.data.sq().len(),
                i <= n,
                forall|e: u64| #[trigger]
                    r@.contains(e) ==> self@.contains_key((account_id, e)) && self@[
                        (account_id, e)
                    ].account_key == key,
                forall|j: int|
                    0 <= j < i && (#[trigger] self.data.sq()[j]).1.account_id == account_id
                        && self.data.sq()[j].1.account_key == key ==> r@.contains(
                        self.data.sq()[j].0.1,
                    ),
                forall|j: int, j2: int| 0 <= j < j2 < r@.len() ==> r@[j] != r@[j2],
                forall|j: int|
                    0 <= j < r@.len() ==> exists|j2: int|
                        0 <= j2 < i && (#[trigger] self.data.sq()[j2]).0 == (
                        account_id,
                        #[trigger] r@[j],
                        ),
            decreases n - i,
        {
            let kv = self.data.get_at(i);
            proof {
                crate::emap::lemma_key_at(self.data.sq(), i as int);
            }
            if kv.1.account_id == account_id && kv.1.account_key == key {
                let ghost rp = r@;
                r.push(kv.0.1);
                proof {
                    crate::bfs::lemma_push_contains(rp, kv.0.1);
                    let k0 = self.data.sq()[i as int].0;
                    assert(self@.contains_key(k0));
                    assert(self@[k0].spec_key() == k0);
                    assert(self@[k0] == self.data.sq()[i as int].1@);
                    assert(k0.0 == account_id);
                    assert(k0 == (account_id, k0.1));
                    assert forall|j: int, j2: int|
                        0 <= j < j2 < r@.len() implies r@[j] != r@[j2] by {
                        if j2 == r@.len() - 1 {
                            assert(r@[j] == rp[j]);
                            let je = choose|je: int|
                                0 <= je < i && (#[trigger] self.data.sq()[je]).0 == (
                                account_id,
                                rp[j],
                                );
                            if rp[j] == kv.0.1 {
                                assert(self.data.sq()[je].0 == self.data.sq()[i as int].0);
                            }
                        } else {
                            assert(r@[j] == rp[j] && r@[j2] == rp[j2]);
                        }
                    }
                    assert forall|j: int| 0 <= j < r@.len() implies exists|j2: int|
                        0 <= j2 < i + 1 && (#[trigger] self.data.sq()[j2]).0 == (
                        account_id,
                        #[trigger] r@[j],
                        ) by {
                        if j == r@.len() - 1 {
                            assert(self.data.sq()[i as int].0 == (account_id, r@[j]));
                        } else {
                            assert(r@[j] == rp[j]);
                            let je = choose|je: int|
                                0 <= je < i && (#[trigger] self.data.sq()[je]).0 == (
                                account_id,
                                rp[j],
                                );
                            assert(0 <= je < i + 1 && self.data.sq()[je].0 == (account_id, r@[j]));
                        }
                    }
                    assert forall|e: u64| #[trigger] r@.contains(e) implies self@.contains_key(
                        (account_id, e),
                    ) && self@[(account_id, e)].account_key == key by {
                        if e != kv.0.1 {
                            assert(rp.contains(e));
                        }
                    }
                    assert forall|j: int|
                        0 <= j < i + 1 && (#[trigger] self.data.sq()[j]).1.account_id == account_id
                            && self.data.sq()[j].1.account_key == key implies r@.contains(
                        self.data.sq()[j].0.1,
                    ) by {
                        if j < i {
                            assert(rp.contains(self.data.sq()[j].0.1));
                        } else {
                            assert(r@ == rp.push(kv.0.1));
                            assert(r@[r@.len() - 1] == kv.0.1);
                            assert(r@.contains(kv.0.1));
                        }
                    }
                }
            } else {
                proof {
                    let k0 = self.data.sq()[i as int].0;
                    assert(self@.contains_key(k0));
                    assert(self@[k0] == self.data.sq()[i as int].1@);
                }
            }
            i += 1;
        }
        proof {
            assert forall|k: (u64, u64)| #[trigger]
                self@.contains_key(k) && self@[k].account_id == account_id && self@[k].account_key
                == key implies r@.contains(k.1) by {
                let j = crate::emap::seq_key_index(self.data.sq(), k);
                crate::emap::lemma_key_at(self.data.sq(), j);
            }
        }
        r
    }

    /// All stored records, in insertion order.
    pub fn records(&self) -> (r: Vec<AccountData>)
        requires
            self.wf(),
        ensures
            forall|k: (u64, u64)| #[trigger]
                self@.contains_key(k) ==> exists|i: int|
                    0 <= i < r@.len() && (#[trigger] r@[i])@ == self@[k],
            forall|i: int|
                0 <= i < r@.len() ==> self@.contains_key(((#[trigger] r@[i])@).spec_key())
                    && self@[r@[i]@.spec_key()] == r@[i]@,
    {
        let n = self.data.len();
        let mut r: Vec<AccountData> = Vec::new();
        let mut i: usize = 0;
        while i < n
            invariant
                self.wf(),
                n == self.data.sq().len(),
                i <= n,
                r@.len() == i,
                forall|j: int| 0 <= j < i ==> (#[trigger] r@[j])@ == self.data.sq()[j].1@,
            decreases n - i,
        {
            let kv = self.data.get_at(i);
            r.push(kv.1.duplicate());
            proof {
                assert(r@[i as int]@ == self.data.sq()[i as int].1@);
            }
            i += 1;
        }
        proof {
            assert forall|k: (u64, u64)| #[trigger] self@.contains_key(k) implies exists|i: int|
                0 <= i < r@.len() && (#[trigger] r@[i])@ == self@[k] by {
                let j = crate::emap::seq_key_index(self.data.sq(), k);
                crate::emap::lemma_key_at(self.data.sq(), j);
                assert(r@[j]@ == self.data.sq()[j].1@);
            }
            assert forall|i2: int| 0 <= i2 < r@.len() implies self@.contains_key(
                ((#[trigger] r@[i2])@).spec_key(),
            ) && self@[r@[i2]@.spec_key()] == r@[i2]@ by {
                crate::emap::lemma_key_at(self.data.sq(), i2);
                let k0 = self.data.sq()[i2].0;
                assert(self@.contains_key(k0));
                assert(self@[k0] == self.data.sq()[i2].1@);
                assert(r@[i2]@ == self.data.sq()[i2].1@);
                assert(self@[k0].spec_key() == k0);
            }
        }
        r
    }
}

/// Every record the fold reports as accepted came from the input batch.
pub proof fn lemma_insert_fold_accepted(m: Map<(u64, u64), AccountDataView>, rs: Seq<AccountDataView>)
    ensures
        forall|i: int|
            0 <= i < insert_fold(m, rs).1.len() ==> rs.contains(#[trigger] insert_fold(m, rs).1[i]),
    decreases rs.len(),
{
    if rs.len() > 0 {
        lemma_insert_fold_accepted(m, rs.drop_last());
        let pre = insert_fold(m, rs.drop_last());
        let full = insert_fold(m, rs);
        assert forall|i: int| 0 <= i < full.1.len() implies rs.contains(#[trigger] full.1[i]) by {
            if i < pre.1.len() {
                assert(full.1[i] == pre.1[i]);
                assert(rs.drop_last().contains(pre.1[i]));
                let j = choose|j: int|
                    0 <= j < rs.drop_last().len() && rs.drop_last()[j] == pre.1[i];
                assert(rs[j] == pre.1[i]);
            } else {
                assert(full.1[i] == rs.last());
                assert(rs[rs.len() - 1] == rs.last());
            }
        }
    }
}

/// A record that does not beat what is stored for its key leaves the
/// cache unchanged and is not reported as new; in particular a record
/// with a strictly older timestamp, or an exact duplicate of the stored
/// record, is a no-op.
pub proof fn lemma_stale_record_noop(m: Map<(u64, u64), AccountDataView>, rec: AccountDataView)
    requires
        m.contains_key(rec.spec_key()),
        rec.timestamp < m[rec.spec_key()].timestamp || rec == m[rec.spec_key()],
    ensures
        insert_fold(m, seq![rec]).0 == m,
        insert_fold(m, seq![rec]).1 == Seq::<AccountDataView>::empty(),
{
    lemma_tie_break_irreflexive(rec);
    let rs = seq![rec];
    assert(rs.drop_last().len() == 0);
    let pre = insert_fold(m, rs.drop_last());
    assert(pre.0 == m && pre.1 == Seq::<AccountDataView>::empty());
    assert(rs.last() == rec);
    assert(!spec_beats(rec, m[rec.spec_key()]));
}

/// An exact duplicate never beats itself under the tie-break.
pub proof fn lemma_tie_break_irreflexive(rec: AccountDataView)
    ensures
        !spec_beats(rec, rec),
{
    assert(!spec_tie_beats(rec, rec)) by {
        if spec_tie_beats(rec, rec) {
            let i = choose|i: int|
                0 <= i < rec.proxies.len() && #[trigger] proxy_gt(rec.proxies[i], rec.proxies[i])
                    && (forall|j: int| 0 <= j < i ==> rec.proxies[j] == rec.proxies[j]);
            assert(proxy_gt(rec.proxies[i], rec.proxies[i]));
        }
    }
}

} // verus!
