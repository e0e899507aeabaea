//! The pair-keyed counterpart of `vmap`: an association map whose keys are
//! canonical edge keys or `(account, epoch)` pairs, kept in insertion order.
use vstd::prelude::*;

verus! {

/// Whether some entry of `s` carries the key `k`.
pub open spec fn seq_has_key<V>(s: Seq<((u64, u64), V)>, k: (u64, u64)) -> bool {
    exists|i: int| 0 <= i < s.len() && (#[trigger] s[i]).0 == k
}

/// The index of the entry of `s` carrying the key `k` (meaningful only
/// when `seq_has_key(s, k)` holds and keys are unique).
pub open spec fn seq_key_index<V>(s: Seq<((u64, u64), V)>, k: (u64, u64)) -> int {
    choose|i: int| 0 <= i < s.len() && (#[trigger] s[i]).0 == k
}

/// No two entries of `s` carry the same key.
pub open spec fn seq_keys_unique<V>(s: Seq<((u64, u64), V)>) -> bool {
    forall|i: int, j: int|
        0 <= i < j < s.len() ==> (#[trigger] s[i]).0 != (#[trigger] s[j]).0
}

/// The map described by an entry sequence with unique keys.
pub open spec fn seq_as_map<V>(s: Seq<((u64, u64), V)>) -> Map<(u64, u64), V> {
    Map::new(|k: (u64, u64)| seq_has_key(s, k), |k: (u64, u64)| s[seq_key_index(s, k)].1)
}

pub proof fn lemma_key_at<V>(s: Seq<((u64, u64), V)>, i: int)
    requires
        seq_keys_unique(s),
        0 <= i < s.len(),
    ensures
        seq_has_key(s, s[i].0),
        seq_key_index(s, s[i].0) == i,
        seq_as_map(s).contains_key(s[i].0),
        seq_as_map(s)[s[i].0] == s[i].1,
{
    assert(seq_has_key(s, s[i].0));
    let j = seq_key_index(s, s[i].0);
    assert(0 <= j < s.len() && s[j].0 == s[i].0);
    if i < j {
        assert(s[i].0 != s[j].0);
    } else if j < i {
        assert(s[j].0 != s[i].0);
    }
}

/// A map from `u64` keys to values, holding its entries in insertion order.
pub struct EMap<V> {
    entries: Vec<((u64, u64), V)>,
}

impl<V> EMap<V> {
    /// The entries in order. Iteration contracts are stated over this.
    pub closed spec fn sq(&self) -> Seq<((u64, u64), V)> {
        self.entries@
    }

    pub open spec fn view(&self) -> Map<(u64, u64), V> {
        seq_as_map(self.sq())
    }

    /// Well-formedness: no key occurs twice. Constructors establish it and
    /// every method preserves it.
    pub open spec fn wf(&self) -> bool {
        seq_keys_unique(self.sq())
    }

    pub fn new() -> (r: Self)
        ensures
            r.wf(),
            r@ == Map::<(u64, u64), V>::empty(),
            r.sq() == Seq::<((u64, u64), V)>::empty(),
    {
        let r = EMap { entries: Vec::new() };
        proof {
            assert(r@ =~= Map::<(u64, u64), V>::empty());
        }
        r
    }

    pub fn len(&self) -> (r: usize)
        ensures
            r == self.sq().len(),
    {
        self.entries.len()
    }

    pub fn get_at(&self, i: usize) -> (r: &((u64, u64), V))
        requires
            self.wf(),
            i < self.sq().len(),
        ensures
            *r == self.sq()[i as int],
            self@.contains_key(r.0),
            self@[r.0] == r.1,
    {
        proof {
            lemma_key_at(self.entries@, i as int);
        }
        &self.entries[i]
    }

    fn find(&self, k: (u64, u64)) -> (r: Option<usize>)
        ensures
            match r {
                Some(i) => i < self.sq().len() && self.sq()[i as int].0 == k,
                None => !seq_has_key(self.sq(), k),
            },
    {
        let n = self.entries.len();
        let mut i: usize = 0;
        while i < n
            invariant
                n == self.sq().len(),
                i <= n,
                forall|j: int| 0 <= j < i ==> (#[trigger] self.sq()[j]).0 != k,
            decreases n - i,
        {
            let e = &self.entries[i];
            if e.0.0 == k.0 && e.0.1 == k.1 {
                return Some(i);
            }
            i += 1;
        }
        None
    }

    pub fn contains_key(&self, k: (u64, u64)) -> (r: bool)
        requires
            self.wf(),
        ensures
            r == self@.contains_key(k),
    {
        let f = self.find(k);
        proof {
            if let Some(i) = f {
                lemma_key_at(self.entries@, i as int);
            }
        }
        f.is_some()
    }

    pub fn get(&self, k: (u64, u64)) -> (r: Option<&V>)
        requires
            self.wf(),
        ensures
            match r {
                Some(v) => self@.contains_key(k) && *v == self@[k],
                None => !self@.contains_key(k),
            },
    {
        match self.find(k) {
            Some(i) => {
                proof {
                    lemma_key_at(self.entries@, i as int);
                }
                Some(&self.entries[i].1)
            }
            None => None,
        }
    }

    pub fn insert(&mut self, k: (u64, u64), v: V)
        requires
            old(self).wf(),
        ensures
            final(self).wf(),
            final(self)@ == old(self)@.insert(k, v),
            old(self)@.contains_key(k) ==> final(self).sq() == old(self).sq().update(
                seq_key_index(old(self).sq(), k),
                (k, v),
            ),
            !old(self)@.contains_key(k) ==> final(self).sq() == old(self).sq().push((k, v)),
    {
        match self.find(k) {
            Some(i) => {
                proof {
                    lemma_key_at(self.entries@, i as int);
                }
                self.entries[i] = (k, v);
                proof {
                    let so = old(self).sq();
                    let sn = self.entries@;
                    assert(sn =~= so.update(i as int, (k, v)));
                    assert forall|k2: (u64, u64)| seq_has_key(sn, k2) implies seq_has_key(so, k2) by {
                        let j = choose|j: int| 0 <= j < sn.len() && (#[trigger] sn[j]).0 == k2;
                        if j == i {
                            assert(so[i as int].0 == k2);
                        } else {
                            assert(so[j].0 == k2);
                        }
                    }
                    assert forall|k2: (u64, u64)| seq_has_key(so, k2) implies seq_has_key(sn, k2) by {
                        let j = choose|j: int| 0 <= j < so.len() && (#[trigger] so[j]).0 == k2;
                        assert(sn[j].0 == k2);
                    }
                    assert forall|k2: (u64, u64)| #[trigger]
                        seq_as_map(sn).contains_key(k2) implies seq_as_map(sn)[k2] == old(self)@.insert(k, v)[k2] by {
                        let j = seq_key_index(sn, k2);
                        assert(0 <= j < sn.len() && sn[j].0 == k2);
                        lemma_key_at(so, j);
                        if j == i {
                            assert(k2 == k);
                        } else {
                            assert(sn[j] == so[j]);
                            assert(k2 != k) by {
                                if k2 == k {
                                    lemma_key_at(so, i as int);
                                    lemma_key_at(so, j);
                                }
                            }
                            assert(seq_key_index(sn, k2) == j) by {
                                let j2 = seq_key_index(sn, k2);
                                if i < j2 {
                                    assert(sn[i as int].0 != sn[j2].0);
                                } else if j2 < i {
                                    assert(sn[j2].0 != sn[i as int].0);
                                }
                                if j2 != j && j2 != i {
                                    assert(so[j2].0 == k2);
                                    if j < j2 {
                                        assert(so[j].0 != so[j2].0);
                                    } else if j2 < j {
                                        assert(so[j2].0 != so[j].0);
                                    }
                                }
                            }
                        }
                    }
                    assert(final (self)@ =~= old(self)@.insert(k, v));
                }
            }
            None => {
                self.entries.push((k, v));
                proof {
                    let so = old(self).sq();
                    let sn = self.entries@;
                    assert(sn =~= so.push((k, v)));
                    assert(seq_keys_unique(sn)) by {
                        assert forall|i1: int, j1: int| 0 <= i1 < j1 < sn.len() implies (
                        #[trigger] sn[i1]).0 != (#[trigger] sn[j1]).0 by {
                            if j1 == sn.len() - 1 {
                                assert(sn[i1] == so[i1]);
                                assert(!seq_has_key(so, k));
                                assert(so[i1].0 != k);
                            } else {
                                assert(sn[i1] == so[i1]);
                                assert(sn[j1] == so[j1]);
                            }
                        }
                    }
                    assert forall|k2: (u64, u64)| #[trigger]
                        seq_as_map(sn).contains_key(k2) implies old(self)@.insert(
                        k,
                        v,
                    ).contains_key(k2) && seq_as_map(sn)[k2] == old(self)@.insert(k, v)[k2] by {
                        let j = seq_key_index(sn, k2);
                        assert(0 <= j < sn.len() && sn[j].0 == k2);
                        if j == sn.len() - 1 {
                            assert(k2 == k);
                            lemma_key_at(sn, j);
                        } else {
                            assert(sn[j] == so[j]);
                            lemma_key_at(so, j);
                            lemma_key_at(sn, j);
                        }
                    }
                    assert forall|k2: (u64, u64)| old(self)@.insert(k, v).contains_key(
                        k2,
                    ) implies seq_as_map(sn).contains_key(k2) by {
                        if k2 == k {
                            assert(sn[sn.len() - 1].0 == k);
                        } else {
                            let j = seq_key_index(so, k2);
                            assert(0 <= j < so.len() && so[j].0 == k2);
                            assert(sn[j].0 == k2);
                        }
                    }
                    assert(final (self)@ =~= old(self)@.insert(k, v));
                }
            }
        }
    }

    pub fn remove(&mut self, k: (u64, u64)) -> (r: Option<V>)
        requires
            old(self).wf(),
        ensures
            final(self).wf(),
            final(self)@ == old(self)@.remove(k),
            match r {
                Some(v) => old(self)@.contains_key(k) && v == old(self)@[k] && final(self).sq()
                    == old(self).sq().remove(seq_key_index(old(self).sq(), k)),
                None => !old(self)@.contains_key(k) && *final(self) == *old(self),
            },
    {
        match self.find(k) {
            Some(i) => {
                proof {
                    lemma_key_at(self.entries@, i as int);
                }
                let (_, v) = self.entries.remove(i);
                proof {
                    let so = old(self).sq();
                    let sn = self.entries@;
                    assert(sn =~= so.remove(i as int));
                    assert(seq_keys_unique(sn)) by {
                        assert forall|i1: int, j1: int| 0 <= i1 < j1 < sn.len() implies (
                        #[trigger] sn[i1]).0 != (#[trigger] sn[j1]).0 by {
                            let oi = if i1 < i { i1 } else { i1 + 1 };
                            let oj = if j1 < i { j1 } else { j1 + 1 };
                            assert(sn[i1] == so[oi]);
                            assert(sn[j1] == so[oj]);
                        }
                    }
                    assert forall|k2: (u64, u64)| #[trigger]
                        seq_as_map(sn).contains_key(k2) implies old(self)@.remove(k).contains_key(
                        k2,
                    ) && seq_as_map(sn)[k2] == old(self)@.remove(k)[k2] by {
                        let j = seq_key_index(sn, k2);
                        assert(0 <= j < sn.len() && sn[j].0 == k2);
                        let oj = if j < i { j } else { j + 1 };
                        assert(sn[j] == so[oj]);
                        lemma_key_at(so, oj);
                        lemma_key_at(sn, j);
                        assert(k2 != k) by {
                            if k2 == k {
                                lemma_key_at(so, i as int);
                            }
                        }
                    }
                    assert forall|k2: (u64, u64)| old(self)@.remove(k).contains_key(
                        k2,
                    ) implies seq_as_map(sn).contains_key(k2) by {
                        let j = seq_key_index(so, k2);
                        assert(0 <= j < so.len() && so[j].0 == k2);
                        assert(j != i);
                        if j < i {
                            assert(sn[j].0 == k2);
                        } else {
                            assert(sn[j - 1].0 == k2);
                        }
                    }
                    assert(final (self)@ =~= old(self)@.remove(k));
                }
                Some(v)
            }
            None => {
                proof {
                    assert(final (self)@ =~= old(self)@.remove(k));
                }
                None
            }
        }
    }

    /// The keys, in entry order.
    pub fn keys(&self) -> (r: Vec<(u64, u64)>)
        requires
            self.wf(),
        ensures
            r@.len() == self.sq().len(),
            forall|i: int| 0 <= i < r@.len() ==> r@[i] == (#[trigger] self.sq()[i]).0,
            forall|k: (u64, u64)| self@.contains_key(k) <==> r@.contains(k),
    {
        let n = self.entries.len();
        let mut r: Vec<(u64, u64)> = Vec::new();
        let mut i: usize = 0;
        while i < n
            invariant
                n == self.sq().len(),
                i <= n,
                r@.len() == i,
                forall|j: int| 0 <= j < i ==> r@[j] == (#[trigger] self.sq()[j]).0,
            decreases n - i,
        {
            r.push(self.entries[i].0);
            i += 1;
        }
        proof {
            assert forall|k: (u64, u64)| self@.contains_key(k) implies r@.contains(k) by {
                let j = seq_key_index(self.sq(), k);
                assert(0 <= j < self.sq().len() && self.sq()[j].0 == k);
                assert(r@[j] == k);
            }
            assert forall|k: (u64, u64)| r@.contains(k) implies self@.contains_key(k) by {
                let j = choose|j: int| 0 <= j < r@.len() && r@[j] == k;
                assert(self.sq()[j].0 == k);
                lemma_key_at(self.sq(), j);
            }
        }
        r
    }
}

} // verus!
