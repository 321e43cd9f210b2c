//! The active set: the ordered names currently embedded in the hosts file,
//! and the two ways a command changes it.

use vstd::prelude::*;
use crate::scan::name_views;

verus! {

/// `s` with `n` appended, unless `s` already holds it.
pub open spec fn inserted(s: Seq<Seq<u8>>, n: Seq<u8>) -> Seq<Seq<u8>> {
    if s.contains(n) {
        s
    } else {
        s.push(n)
    }
}

/// `s` with every occurrence of `n` removed, order of the rest kept.
pub open spec fn removed(s: Seq<Seq<u8>>, n: Seq<u8>) -> Seq<Seq<u8>>
    decreases s.len(),
{
    if s.len() == 0 {
        Seq::empty()
    } else if s.last() == n {
        removed(s.drop_last(), n)
    } else {
        removed(s.drop_last(), n).push(s.last())
    }
}

/// Marks `name` as in use: appends it to the active set unless it is
/// already present.
pub fn use_hostname(active: &mut Vec<Vec<u8>>, name: Vec<u8>)
    ensures
        name_views(final(active)@) == inserted(name_views(old(active)@), name@),
{
    let present = crate::scan::contains_name(active, &name);
    if !present {
        let ghost pre = name_views(active@);
        let ghost nv = name@;
        active.push(name);
        proof {
            assert(name_views(active@) =~= pre.push(nv));
        }
    }
}

/// Marks `name` as no longer in use: every matching entry is removed,
/// the order of the rest kept.
pub fn unuse_hostname(active: &Vec<Vec<u8>>, name: &Vec<u8>) -> (r: Vec<Vec<u8>>)
    ensures
        name_views(r@) == removed(name_views(active@), name@),
{
    let n = active.len();
    let mut r: Vec<Vec<u8>> = Vec::new();
    let mut k: usize = 0;
    proof {
        assert(name_views(r@) =~= removed(name_views(active@).take(0), name@));
    }
    while k < n
        invariant
            0 <= k <= n,
            n == active@.len(),
            name_views(r@) == removed(name_views(active@).take(k as int), name@),
        decreases n - k,
    {
        let ghost av = name_views(active@);
        let ghost pre = name_views(r@);
        if !crate::scan::bytes_eq(&active[k], name) {
            let entry = active[k].clone();
            proof {
                // a cloned Vec<u8> keeps its view
                assert(entry@ == active@[k as int]@);
            }
            r.push(entry);
            proof {
                assert(name_views(r@) =~= pre.push(av[k as int]));
            }
        }
        proof {
            assert(av.take(k + 1).drop_last() =~= av.take(k as int));
            assert(av.take(k + 1).last() == av[k as int]);
        }
        k += 1;
    }
    proof {
        assert(name_views(active@).take(n as int) =~= name_views(active@));
    }
    r
}

/// Marking a name in use is idempotent: doing it twice yields the same
/// active set as doing it once.
pub proof fn lemma_use_idempotent(s: Seq<Seq<u8>>, n: Seq<u8>)
    ensures
        inserted(inserted(s, n), n) == inserted(s, n),
{
    if !s.contains(n) {
        assert(s.push(n)[s.len() as int] == n);
        assert(s.push(n).contains(n));
    }
}

/// After removal, no occurrence of the name remains.
pub proof fn lemma_removed_absent(s: Seq<Seq<u8>>, n: Seq<u8>)
    ensures
        !removed(s, n).contains(n),
    decreases s.len(),
{
    if s.len() > 0 {
        lemma_removed_absent(s.drop_last(), n);
        if s.last() != n {
            let r = removed(s.drop_last(), n).push(s.last());
            assert forall|i: int| 0 <= i < r.len() implies r[i] != n by {
                if i < r.len() - 1 {
                    assert(removed(s.drop_last(), n)[i] != n);
                }
            }
        }
    }
}

/// Removing a name that the active set does not hold leaves it unchanged.
pub proof fn lemma_removed_noop(s: Seq<Seq<u8>>, n: Seq<u8>)
    requires
        !s.contains(n),
    ensures
        removed(s, n) == s,
    decreases s.len(),
{
    if s.len() > 0 {
        assert(s.last() != n);
        assert forall|i: int| 0 <= i < s.drop_last().len() implies s.drop_last()[i] != n by {
            assert(s.drop_last()[i] == s[i]);
        }
        assert(!s.drop_last().contains(n));
        lemma_removed_noop(s.drop_last(), n);
        assert(removed(s, n) =~= s);
    }
}

} // verus!
