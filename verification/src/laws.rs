//! General laws that relate the heap's operations, proved over the
//! mathematical model that their contracts use.

use vstd::multiset::Multiset;
use vstd::prelude::*;

use crate::max_heap_prefix;

verus! {

/// In a heap-ordered prefix the root bounds every valid element: the
/// maximum always sits at slot 0.
pub proof fn lemma_root_dominates(s: Seq<i64>, size: int, j: int)
    requires
        max_heap_prefix(s, size),
        0 <= j < size,
    ensures
        s[j] <= s[0],
{
    crate::lemma_root_subtree(j);
    crate::lemma_ancestor_dominates(s, size, 0, j);
}

/// `vs` drains the multiset `m` greatest-first: each value in turn is a
/// maximum of what is left, and is then removed once. A run of
/// successful maximum extractions from a heap whose valid elements form
/// `m` produces exactly such a sequence, by the extraction contract.
pub open spec fn drains(m: Multiset<i64>, vs: Seq<i64>) -> bool
    decreases vs.len(),
{
    vs.len() == 0 || {
        &&& m.contains(vs[0])
        &&& (forall|x: i64| m.contains(x) ==> x <= vs[0])
        &&& drains(m.remove(vs[0]), vs.drop_first())
    }
}

/// Every drained value was present in the multiset it was drained from.
proof fn lemma_drains_membership(m: Multiset<i64>, vs: Seq<i64>, k: int)
    requires
        drains(m, vs),
        0 <= k < vs.len(),
    ensures
        m.count(vs[k]) > 0,
    decreases k,
{
    if k > 0 {
        lemma_drains_membership(m.remove(vs[0]), vs.drop_first(), k - 1);
        assert(vs.drop_first()[k - 1] == vs[k]);
        assert(m.count(vs[k]) >= m.remove(vs[0]).count(vs[k])) by {
            vstd::multiset::axiom_multiset_sub(m, Multiset::singleton(vs[0]), vs[k]);
        }
    }
}

/// Draining a multiset greatest-first yields a non-increasing sequence,
/// and a strictly decreasing one when no value occurs twice: extracting
/// every element of a heap hands the elements back in descending order.
pub proof fn lemma_extractions_descend(m: Multiset<i64>, vs: Seq<i64>)
    requires
        drains(m, vs),
    ensures
        forall|p: int, q: int| 0 <= p < q < vs.len() ==> #[trigger] vs[q] <= #[trigger] vs[p],
        (forall|x: i64| m.count(x) <= 1) ==> forall|p: int, q: int|
            0 <= p < q < vs.len() ==> #[trigger] vs[q] < #[trigger] vs[p],
    decreases vs.len(),
{
    if vs.len() > 0 {
        let m1 = m.remove(vs[0]);
        let rest = vs.drop_first();
        lemma_extractions_descend(m1, rest);
        assert forall|q: int| 1 <= q < vs.len() implies #[trigger] vs[q] <= vs[0] by {
            lemma_drains_membership(m1, rest, q - 1);
            assert(rest[q - 1] == vs[q]);
            assert(m.count(vs[q]) >= m1.count(vs[q])) by {
                vstd::multiset::axiom_multiset_sub(m, Multiset::singleton(vs[0]), vs[q]);
            }
            assert(m.contains(vs[q]));
        }
        assert forall|p: int, q: int| 0 <= p < q < vs.len() implies #[trigger] vs[q] <= #[trigger] vs[p] by {
            if p > 0 {
                assert(rest[p - 1] == vs[p] && rest[q - 1] == vs[q]);
            }
        }
        if forall|x: i64| m.count(x) <= 1 {
            assert(m1.count(vs[0]) == 0) by {
                vstd::multiset::axiom_multiset_sub(m, Multiset::singleton(vs[0]), vs[0]);
            }
            assert forall|x: i64| m1.count(x) <= 1 by {
                vstd::multiset::axiom_multiset_sub(m, Multiset::singleton(vs[0]), x);
            }
            assert forall|p: int, q: int|
                0 <= p < q < vs.len() implies #[trigger] vs[q] < #[trigger] vs[p] by {
                if p > 0 {
                    assert(rest[p - 1] == vs[p] && rest[q - 1] == vs[q]);
                } else {
                    lemma_drains_membership(m1, rest, q - 1);
                    assert(rest[q - 1] == vs[q]);
                    assert(vs[q] != vs[0]);
                }
            }
        }
    }
}

} // verus!
