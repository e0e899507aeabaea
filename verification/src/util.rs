//! Small helpers over vectors of identifiers.
use vstd::prelude::*;

verus! {

/// No element of `s` occurs twice.
pub open spec fn seq_nodup<A>(s: Seq<A>) -> bool {
    forall|i: int, j: int| 0 <= i < j < s.len() ==> s[i] != s[j]
}

pub fn vec_contains(v: &Vec<u64>, x: u64) -> (r: bool)
    ensures
        r == v@.contains(x),
{
    let n = v.len();
    let mut i: usize = 0;
    while i < n
        invariant
            n == v@.len(),
            i <= n,
            forall|j: int| 0 <= j < i ==> v@[j] != x,
        decreases n - i,
    {
        if v[i] == x {
            return true;
        }
        i += 1;
    }
    false
}

/// Removes the first occurrence of `x` from `s`, if any.
pub open spec fn seq_remove_first(s: Seq<u64>, x: u64) -> Seq<u64> {
    if s.contains(x) {
        s.remove(s.index_of(x))
    } else {
        s
    }
}

pub fn vec_remove_first(v: &mut Vec<u64>, x: u64)
    requires
        seq_nodup(old(v)@),
    ensures
        final(v)@ == seq_remove_first(old(v)@, x),
        seq_nodup(final(v)@),
        !final(v)@.contains(x),
        forall|y: u64| y != x ==> (final(v)@.contains(y) == old(v)@.contains(y)),
{
    let n = v.len();
    let mut i: usize = 0;
    while i < n
        invariant
            seq_nodup(old(v)@),
            n == v@.len(),
            i <= n,
            *v == *old(v),
            forall|j: int| 0 <= j < i ==> v@[j] != x,
        decreases n - i,
    {
        if v[i] == x {
            v.remove(i);
            proof {
                let so = old(v)@;
                let sn = v@;
                assert(so.contains(x)) by {
                    assert(so[i as int] == x);
                }
                assert(so.index_of(x) == i as int) by {
                    let j = so.index_of(x);
                    assert(0 <= j < so.len() && so[j] == x);
                    if j < i {
                        assert(so[j] != so[i as int]);
                    } else if i < j {
                        assert(so[i as int] != so[j]);
                    }
                }
                if seq_nodup(so) {
                    assert forall|i1: int, j1: int| 0 <= i1 < j1 < sn.len() implies sn[i1]
                        != sn[j1] by {
                        let o1 = if i1 < i { i1 } else { i1 + 1 };
                        let o2 = if j1 < i { j1 } else { j1 + 1 };
                        assert(sn[i1] == so[o1]);
                        assert(sn[j1] == so[o2]);
                    }
                    assert(!sn.contains(x)) by {
                        if sn.contains(x) {
                            let j = choose|j: int| 0 <= j < sn.len() && sn[j] == x;
                            let oj = if j < i { j } else { j + 1 };
                            assert(sn[j] == so[oj]);
                            assert(so[oj] == x && oj != i);
                            assert(so[i as int] == x);
                        }
                    }
                }
                assert forall|y: u64| y != x && old(v)@.contains(y) implies v@.contains(y) by {
                    let j = choose|j: int| 0 <= j < so.len() && so[j] == y;
                    if j < i {
                        assert(sn[j] == y);
                    } else {
                        assert(j != i);
                        assert(sn[j - 1] == y);
                    }
                }
                assert forall|y: u64| y != x && v@.contains(y) implies old(v)@.contains(y) by {
                    let j = choose|j: int| 0 <= j < sn.len() && sn[j] == y;
                    let oj = if j < i { j } else { j + 1 };
                    assert(so[oj] == y);
                }
            }
            return ;
        }
        i += 1;
    }
    proof {
        assert(!old(v)@.contains(x)) by {
            if old(v)@.contains(x) {
                let j = choose|j: int| 0 <= j < old(v)@.len() && old(v)@[j] == x;
                assert(old(v)@[j] != x);
            }
        }
    }
}

} // verus!
