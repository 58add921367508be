//! A fixed-capacity binary max-heap over signed 64-bit integers.
//!
//! The heap owns a backing vector whose length is fixed at construction
//! (the capacity) and a count of currently occupied slots (the size).
//! Slots `[0, size)` hold the valid elements, arranged so that every node
//! is at least as large as its children; slots `[size, capacity)` hold
//! stale data. Insertion, maximum extraction, key increase and arbitrary
//! key removal all restore that ordering before returning.

use vstd::prelude::*;

mod laws;

pub use laws::drains;
pub use laws::lemma_extractions_descend;
pub use laws::lemma_root_dominates;

verus! {

/// Index of the parent of node `i` in the implicit binary tree
/// (negative for the root, so the root is nobody's child).
pub open spec fn parent(i: int) -> int {
    (i - 1) / 2
}

/// The max-heap ordering over the first `size` slots of `s`:
/// every node except the root is at most its parent.
pub open spec fn max_heap_prefix(s: Seq<i64>, size: int) -> bool {
    forall|j: int| 1 <= j < size ==> #[trigger] s[j] <= s[parent(j)]
}

/// Whether index `j` lies in the subtree rooted at index `r`
/// of the implicit binary tree.
pub open spec fn in_subtree(r: int, j: int) -> bool
    decreases j,
{
    if j < 0 {
        false
    } else if j == r {
        true
    } else if j == 0 {
        false
    } else {
        in_subtree(r, parent(j))
    }
}

/// `b` bounds every element of `s` that lies both in the subtree rooted
/// at `r` and in the valid prefix `[0, size)`.
pub open spec fn subtree_bounded(s: Seq<i64>, size: int, r: int, b: i64) -> bool {
    forall|k: int| 0 <= k < size && in_subtree(r, k) ==> #[trigger] s[k] <= b
}

/// A member of a subtree lies at or below its root.
pub(crate) proof fn lemma_subtree_member_ge(r: int, j: int)
    requires
        in_subtree(r, j),
    ensures
        j >= r,
    decreases j,
{
    if j != r {
        lemma_subtree_member_ge(r, parent(j));
    }
}

/// Every non-negative index lies in the subtree of the root.
pub(crate) proof fn lemma_root_subtree(j: int)
    requires
        j >= 0,
    ensures
        in_subtree(0, j),
    decreases j,
{
    if j != 0 {
        lemma_root_subtree(parent(j));
    }
}

/// In a heap-ordered prefix, a subtree's root bounds all its members.
pub(crate) proof fn lemma_ancestor_dominates(s: Seq<i64>, size: int, r: int, j: int)
    requires
        max_heap_prefix(s, size),
        0 <= r,
        in_subtree(r, j),
        j < size,
    ensures
        s[j] <= s[r],
    decreases j,
{
    lemma_subtree_member_ge(r, j);
    if j != r {
        lemma_subtree_member_ge(r, parent(j));
        lemma_ancestor_dominates(s, size, r, parent(j));
    }
}

/// Swapping two slots of the valid prefix leaves its multiset of
/// elements unchanged.
proof fn lemma_swap_prefix_multiset(s: Seq<i64>, a: int, b: int, size: int)
    requires
        0 <= a < size,
        0 <= b < size,
        size <= s.len(),
    ensures
        s.update(a, s[b]).update(b, s[a]).subrange(0, size).to_multiset() == s.subrange(
            0,
            size,
        ).to_multiset(),
{
    broadcast use vstd::seq_lib::group_to_multiset_ensures;

    let p = s.subrange(0, size);
    let q = s.update(a, s[b]).update(b, s[a]).subrange(0, size);
    assert(p.to_multiset().count(p[a]) > 0) by {
        assert(p.contains(p[a]));
    }
    assert(p.to_multiset().count(p[b]) > 0) by {
        assert(p.contains(p[b]));
    }
    if a == b {
        assert(q =~= p);
    } else {
        let p1 = p.update(a, p[b]);
        assert(q =~= p1.update(b, p[a]));
        assert(p1.to_multiset() == p.to_multiset().insert(p[b]).remove(p[a]));
        assert(p1.update(b, p[a]).to_multiset() == p1.to_multiset().insert(p[a]).remove(p1[b]));
        assert(q.to_multiset() =~= p.to_multiset());
    }
}

/// Overwriting a slot of the valid prefix with the prefix's last element
/// and then dropping that last slot removes exactly one occurrence of the
/// overwritten element.
proof fn lemma_replace_with_last_multiset(s: Seq<i64>, size: int, index: int)
    requires
        0 <= index < size,
        size <= s.len(),
    ensures
        s.update(index, s[size - 1]).subrange(0, size - 1).to_multiset() == s.subrange(
            0,
            size,
        ).to_multiset().remove(s[index]),
{
    broadcast use vstd::seq_lib::group_to_multiset_ensures;

    let a = s.subrange(0, size);
    let b = a.update(index, a[size - 1]);
    assert(a.to_multiset().count(a[index]) > 0) by {
        assert(a.contains(a[index]));
    }
    assert(s.update(index, s[size - 1]).subrange(0, size - 1) =~= b.remove(size - 1));
    assert(b.to_multiset() == a.to_multiset().insert(a[size - 1]).remove(a[index]));
    assert(b.remove(size - 1).to_multiset() == b.to_multiset().remove(b[size - 1]));
    assert(b.remove(size - 1).to_multiset() =~= a.to_multiset().remove(a[index]));
}

/// A fixed-capacity binary max-heap of `i64` keys.
pub struct Heap {
    /// Backing storage; its length never changes after construction.
    pub array: Vec<i64>,
    /// Number of valid elements, stored in `array[0..size]`.
    pub size: usize,
    /// Fixed maximum number of elements.
    pub capacity: usize,
}

impl Heap {
    /// The sequence of currently valid elements.
    pub open spec fn elems(self) -> Seq<i64> {
        self.array@.subrange(0, self.size as int)
    }

    /// Structural well-formedness: the backing storage has exactly
    /// `capacity` slots and the size stays within it.
    pub open spec fn well_formed(self) -> bool {
        &&& self.capacity >= 1
        &&& self.array@.len() == self.capacity
        &&& self.size <= self.capacity
    }

    /// Well-formed and max-heap ordered over the valid prefix.
    pub open spec fn valid(self) -> bool {
        &&& self.well_formed()
        &&& max_heap_prefix(self.array@, self.size as int)
    }

    /// Creates an empty heap with the given capacity,
    /// its storage zero-filled.
    pub fn new(capacity: usize) -> (h: Heap)
        requires
            capacity >= 1,
        ensures
            h.valid(),
            h.size == 0,
            h.capacity == capacity,
            forall|j: int| 0 <= j < capacity ==> h.array@[j] == 0i64,
    {
        let mut array: Vec<i64> = Vec::new();
        while array.len() < capacity
            invariant
                array.len() <= capacity,
                forall|j: int| 0 <= j < array.len() ==> array@[j] == 0i64,
            decreases capacity - array.len(),
        {
            array.push(0);
        }
        Heap { array, size: 0, capacity }
    }

    /// Exchanges the elements at slots `a` and `b`.
    pub fn swap(&mut self, a: usize, b: usize)
        requires
            a < old(self).array@.len(),
            b < old(self).array@.len(),
        ensures
            final(self).array@ == old(self).array@.update(
                a as int,
                old(self).array@[b as int],
            ).update(b as int, old(self).array@[a as int]),
            final(self).size == old(self).size,
            final(self).capacity == old(self).capacity,
    {
        let temp = self.array[a];
        let other = self.array[b];
        self.array.set(a, other);
        self.array.set(b, temp);
    }

    /// Moves the element at `start` toward the root until it no longer
    /// exceeds its parent, restoring the heap ordering when `start` is
    /// the only slot that may exceed its parent.
    #[verifier::rlimit(50)]
    fn sift_up(&mut self, start: usize)
        requires
            old(self).well_formed(),
            start < old(self).size,
            forall|j: int|
                1 <= j < old(self).size && j != start ==> #[trigger] old(self).array@[j] <= old(
                    self,
                ).array@[parent(j)],
            start > 0 ==> forall|c: int|
                1 <= c < old(self).size && parent(c) == start ==> #[trigger] old(self).array@[c]
                    <= old(self).array@[parent(start as int)],
        ensures
            final(self).well_formed(),
            max_heap_prefix(final(self).array@, final(self).size as int),
            final(self).size == old(self).size,
            final(self).capacity == old(self).capacity,
            final(self).array@.len() == old(self).array@.len(),
            final(self).elems().to_multiset() == old(self).elems().to_multiset(),
            forall|j: int|
                old(self).size <= j < old(self).array@.len() ==> final(self).array@[j] == old(
                    self,
                ).array@[j],
    {
        let mut i: usize = start;
        while i != 0 && self.array[(i - 1) / 2] < self.array[i]
            invariant
                self.well_formed(),
                i < self.size,
                self.size == old(self).size,
                self.capacity == old(self).capacity,
                self.array@.len() == old(self).array@.len(),
                forall|j: int|
                    1 <= j < self.size && j != i ==> #[trigger] self.array@[j]
                        <= self.array@[parent(j)],
                i > 0 ==> forall|c: int|
                    1 <= c < self.size && parent(c) == i ==> #[trigger] self.array@[c]
                        <= self.array@[parent(i as int)],
                self.elems().to_multiset() == old(self).elems().to_multiset(),
                forall|j: int|
                    self.size <= j < self.array@.len() ==> self.array@[j] == old(self).array@[j],
            decreases i,
        {
            let ghost t = self.array@;
            let ghost size = self.size as int;
            let p: usize = (i - 1) / 2;
            self.swap(i, p);
            proof {
                let s = self.array@;
                let pi = p as int;
                let ii = i as int;
                lemma_swap_prefix_multiset(t, ii, pi, size);
                assert(s.subrange(0, size) =~= t.update(ii, t[pi]).update(pi, t[ii]).subrange(
                    0,
                    size,
                ));
                assert forall|j: int| 1 <= j < size && j != pi implies #[trigger] s[j] <= s[parent(
                    j,
                )] by {
                    if j == ii {
                        assert(s[j] == t[pi]);
                        assert(s[parent(j)] == t[ii]);
                    } else if parent(j) == ii {
                        assert(s[j] == t[j] && s[parent(j)] == t[pi]);
                    } else if parent(j) == pi {
                        assert(s[j] == t[j] && s[parent(j)] == t[ii]);
                        assert(t[j] <= t[pi]);
                    } else {
                        assert(s[j] == t[j] && s[parent(j)] == t[parent(j)]);
                    }
                }
                if pi > 0 {
                    assert forall|c: int| 1 <= c < size && parent(c) == pi implies #[trigger] s[c]
                        <= s[parent(pi)] by {
                        assert(parent(pi) < pi < ii);
                        assert(s[parent(pi)] == t[parent(pi)]);
                        assert(t[pi] <= t[parent(pi)]);
                        if c == ii {
                            assert(s[c] == t[pi]);
                        } else {
                            assert(s[c] == t[c]);
                            assert(t[c] <= t[pi]);
                        }
                    }
                }
            }
            i = p;
        }
        proof {
            let s = self.array@;
            let size = self.size as int;
            assert forall|j: int| 1 <= j < size implies #[trigger] s[j] <= s[parent(j)] by {
                if j == i as int {
                    assert(i != 0);
                    assert(parent(i as int) == (i - 1) as int / 2);
                }
            }
        }
    }

    /// Sifts the element at `i` down toward the leaves: at each step the
    /// node is swapped with the larger of its children until it is the
    /// largest of its triple. When every parent-child pair strictly
    /// below `i` inside `i`'s subtree is already ordered, this restores
    /// the heap ordering of the whole subtree; no slot outside the
    /// subtree moves, the valid elements are merely permuted, and no
    /// bound on the subtree's elements is exceeded.
    #[verifier::rlimit(50)]
    pub fn heapify(&mut self, i: usize)
        requires
            old(self).well_formed(),
            i < old(self).size,
            forall|j: int|
                1 <= j < old(self).size && in_subtree(i as int, parent(j)) && parent(j) != i
                    ==> #[trigger] old(self).array@[j] <= old(self).array@[parent(j)],
        ensures
            final(self).well_formed(),
            final(self).size == old(self).size,
            final(self).capacity == old(self).capacity,
            final(self).array@.len() == old(self).array@.len(),
            forall|j: int|
                1 <= j < final(self).size && in_subtree(i as int, parent(j)) ==> #[trigger] final(self).array@[j]
                    <= final(self).array@[parent(j)],
            forall|j: int|
                0 <= j < final(self).array@.len() && !in_subtree(i as int, j)
                    ==> final(self).array@[j] == old(self).array@[j],
            forall|j: int|
                old(self).size <= j < final(self).array@.len()
                    ==> final(self).array@[j] == old(self).array@[j],
            final(self).elems().to_multiset() == old(self).elems().to_multiset(),
            forall|b: i64|
                subtree_bounded(old(self).array@, old(self).size as int, i as int, b)
                    ==> #[trigger] subtree_bounded(
                    final(self).array@,
                    final(self).size as int,
                    i as int,
                    b,
                ),
    {
        let mut cur: usize = i;
        loop
            invariant
                self.well_formed(),
                self.size == old(self).size,
                self.capacity == old(self).capacity,
                self.array@.len() == old(self).array@.len(),
                i <= cur < self.size,
                in_subtree(i as int, cur as int),
                forall|j: int|
                    1 <= j < self.size && in_subtree(i as int, parent(j)) && parent(j) != cur
                        ==> #[trigger] self.array@[j] <= self.array@[parent(j)],
                cur != i ==> forall|c: int|
                    1 <= c < self.size && parent(c) == cur ==> #[trigger] self.array@[c]
                        <= self.array@[parent(cur as int)],
                forall|j: int|
                    0 <= j < self.array@.len() && !in_subtree(i as int, j) ==> self.array@[j]
                        == old(self).array@[j],
                forall|j: int|
                    self.size <= j < self.array@.len() ==> self.array@[j] == old(self).array@[j],
                self.elems().to_multiset() == old(self).elems().to_multiset(),
                forall|b: i64|
                    subtree_bounded(old(self).array@, old(self).size as int, i as int, b)
                        ==> #[trigger] subtree_bounded(
                        self.array@,
                        self.size as int,
                        i as int,
                        b,
                    ),
            ensures
                self.well_formed(),
                self.size == old(self).size,
                self.capacity == old(self).capacity,
                self.array@.len() == old(self).array@.len(),
                forall|j: int|
                    1 <= j < self.size && in_subtree(i as int, parent(j))
                        ==> #[trigger] self.array@[j] <= self.array@[parent(j)],
                forall|j: int|
                    0 <= j < self.array@.len() && !in_subtree(i as int, j) ==> self.array@[j]
                        == old(self).array@[j],
                forall|j: int|
                    self.size <= j < self.array@.len() ==> self.array@[j] == old(self).array@[j],
                self.elems().to_multiset() == old(self).elems().to_multiset(),
                forall|b: i64|
                    subtree_bounded(old(self).array@, old(self).size as int, i as int, b)
                        ==> #[trigger] subtree_bounded(
                        self.array@,
                        self.size as int,
                        i as int,
                        b,
                    ),
            decreases self.size - cur,
        {
            let mut largest: usize = cur;
            if cur < self.size / 2 {
                let left: usize = 2 * cur + 1;
                if self.array[left] > self.array[largest] {
                    largest = left;
                }
                let right: usize = left + 1;
                if right < self.size && self.array[right] > self.array[largest] {
                    largest = right;
                }
            }
            if largest == cur {
                proof {
                    let s = self.array@;
                    let size = self.size as int;
                    let ci = cur as int;
                    assert forall|j: int|
                        1 <= j < size && in_subtree(i as int, parent(j)) implies #[trigger] s[j]
                        <= s[parent(j)] by {
                        if parent(j) == ci {
                            assert(j == 2 * ci + 1 || j == 2 * ci + 2);
                            assert(ci < size / 2);
                        }
                    }
                }
                break;
            }
            let ghost t = self.array@;
            let ghost size = self.size as int;
            self.swap(cur, largest);
            proof {
                let s = self.array@;
                let ci = cur as int;
                let li = largest as int;
                assert(parent(li) == ci);
                assert(in_subtree(i as int, li));
                lemma_swap_prefix_multiset(t, ci, li, size);
                assert(s.subrange(0, size) =~= t.update(ci, t[li]).update(li, t[ci]).subrange(
                    0,
                    size,
                ));
                assert forall|j: int|
                    1 <= j < size && in_subtree(i as int, parent(j)) && parent(j) != li
                        implies #[trigger] s[j] <= s[parent(j)] by {
                    if j == ci {
                        lemma_subtree_member_ge(i as int, parent(ci));
                        assert(ci != i);
                        assert(s[ci] == t[li] && s[parent(ci)] == t[parent(ci)]);
                        assert(t[li] <= t[parent(ci)]);
                    } else if j == li {
                        assert(s[li] == t[ci] && s[ci] == t[li]);
                        assert(t[ci] <= t[li]);
                    } else if parent(j) == ci {
                        assert(j == 2 * ci + 1 || j == 2 * ci + 2);
                        assert(s[j] == t[j] && s[parent(j)] == t[li]);
                        assert(t[j] <= t[li]);
                    } else {
                        assert(s[j] == t[j] && s[parent(j)] == t[parent(j)]);
                    }
                }
                assert forall|c: int|
                    1 <= c < size && parent(c) == li implies #[trigger] s[c] <= s[parent(li)] by {
                    assert(s[c] == t[c]);
                    assert(t[c] <= t[li]);
                }
                assert forall|b: i64|
                    subtree_bounded(old(self).array@, old(self).size as int, i as int, b)
                        implies #[trigger] subtree_bounded(
                        self.array@,
                        self.size as int,
                        i as int,
                        b,
                    ) by {
                    assert(subtree_bounded(t, size, i as int, b));
                    assert forall|k: int|
                        0 <= k < size && in_subtree(i as int, k) implies #[trigger] s[k] <= b by {
                        if k == ci {
                            assert(s[ci] == t[li]);
                            assert(t[li] <= b);
                        } else if k == li {
                            assert(s[li] == t[ci]);
                            assert(t[ci] <= b);
                        } else {
                            assert(s[k] == t[k]);
                        }
                    }
                }
            }
            cur = largest;
        }
    }

    /// Places `value` into the heap, rejecting it when the heap is full.
    /// On success the value joins the valid elements and the heap
    /// ordering is restored by sifting the new element up.
    #[verifier::rlimit(50)]
    pub fn insert(&mut self, value: i64) -> (r: Result<(), String>)
        requires
            old(self).valid(),
        ensures
            final(self).valid(),
            final(self).capacity == old(self).capacity,
            final(self).array@.len() == old(self).array@.len(),
            r is Err <==> old(self).size == old(self).capacity,
            r is Err ==> *final(self) == *old(self),
            r matches Err(m) ==> m@ == "Heap Overflow!"@,
            r is Ok ==> final(self).size == old(self).size + 1,
            r is Ok ==> final(self).elems().to_multiset() == old(self).elems().to_multiset().insert(
                value,
            ),
    {
        if self.size == self.capacity {
            return Err("Heap Overflow!".to_string());
        }
        let ghost t = self.array@;
        let ghost old_size = self.size as int;
        self.array.set(self.size, value);
        self.size = self.size + 1;
        proof {
            broadcast use vstd::seq_lib::group_to_multiset_ensures;

            let s = self.array@;
            let size = self.size as int;
            assert(s.subrange(0, size) =~= t.subrange(0, old_size).push(value));
            assert forall|j: int|
                1 <= j < size && j != old_size implies #[trigger] s[j] <= s[parent(j)] by {
                assert(s[j] == t[j] && s[parent(j)] == t[parent(j)]);
            }
            assert forall|c: int| 1 <= c < size && parent(c) == old_size implies false by {
                assert(c >= 2 * parent(c) + 1);
            }
        }
        self.sift_up(self.size - 1);
        Ok(())
    }

    /// Removes and returns the largest element, or `None` when the heap
    /// is empty. The last valid element moves into the vacated root slot
    /// and is sifted down to restore the heap ordering.
    #[verifier::rlimit(50)]
    pub fn extract_max(&mut self) -> (r: Option<i64>)
        requires
            old(self).valid(),
        ensures
            final(self).valid(),
            final(self).capacity == old(self).capacity,
            final(self).array@.len() == old(self).array@.len(),
            old(self).size == 0 ==> r is None && *final(self) == *old(self),
            old(self).size > 0 ==> r == Some(old(self).array@[0]),
            old(self).size > 0 ==> final(self).size == old(self).size - 1,
            old(self).size > 0 ==> forall|x: i64|
                old(self).elems().contains(x) ==> x <= old(self).array@[0],
            old(self).size > 0 ==> final(self).elems().to_multiset() == old(
                self,
            ).elems().to_multiset().remove(old(self).array@[0]),
    {
        if self.size == 0 {
            return None;
        }
        proof {
            let s = old(self).array@;
            let size = old(self).size as int;
            assert forall|x: i64| old(self).elems().contains(x) implies x <= s[0] by {
                let idx = choose|idx: int|
                    0 <= idx < old(self).elems().len() && old(self).elems()[idx] == x;
                laws::lemma_root_dominates(s, size, idx);
            }
        }
        if self.size == 1 {
            self.size = 0;
            proof {
                let s = old(self).array@;
                lemma_replace_with_last_multiset(s, 1, 0);
                assert(s.update(0, s[0]) =~= s);
            }
            return Some(self.array[0]);
        }
        let root = self.array[0];
        let last = self.array[self.size - 1];
        self.array.set(0, last);
        self.size = self.size - 1;
        proof {
            let s = old(self).array@;
            let old_size = old(self).size as int;
            lemma_replace_with_last_multiset(s, old_size, 0);
            let t = self.array@;
            assert forall|j: int|
                1 <= j < self.size && in_subtree(0, parent(j)) && parent(j) != 0
                    implies #[trigger] t[j] <= t[parent(j)] by {
                assert(parent(j) >= 1);
                assert(t[j] == s[j] && t[parent(j)] == s[parent(j)]);
            }
        }
        self.heapify(0);
        proof {
            let t = self.array@;
            assert forall|j: int| 1 <= j < self.size as int implies #[trigger] t[j] <= t[parent(
                j,
            )] by {
                lemma_root_subtree(parent(j));
            }
        }
        Some(root)
    }

    /// Removes the element at slot `index`, replacing it by the last
    /// valid element and sifting that replacement up or down, whichever
    /// direction the heap ordering requires.
    #[verifier::rlimit(50)]
    pub fn remove_key(&mut self, index: usize)
        requires
            old(self).valid(),
            index < old(self).size,
        ensures
            final(self).valid(),
            final(self).capacity == old(self).capacity,
            final(self).array@.len() == old(self).array@.len(),
            final(self).size == old(self).size - 1,
            final(self).elems().to_multiset() == old(self).elems().to_multiset().remove(
                old(self).array@[index as int],
            ),
    {
        let ghost s = old(self).array@;
        let ghost old_size = old(self).size as int;
        let ghost ii = index as int;
        if index == self.size - 1 {
            self.size = self.size - 1;
            proof {
                lemma_replace_with_last_multiset(s, old_size, ii);
                assert(s.update(ii, s[old_size - 1]) =~= s);
            }
            return;
        }
        let last = self.array[self.size - 1];
        self.array.set(index, last);
        self.size = self.size - 1;
        proof {
            lemma_replace_with_last_multiset(s, old_size, ii);
        }
        if index > 0 && self.array[(index - 1) / 2] < self.array[index] {
            proof {
                let t = self.array@;
                let size = self.size as int;
                assert forall|j: int|
                    1 <= j < size && j != ii implies #[trigger] t[j] <= t[parent(j)] by {
                    assert(t[j] == s[j]);
                    if parent(j) == ii {
                        assert(s[j] <= s[ii]);
                        assert(s[ii] <= s[parent(ii)]);
                        assert(t[ii] == s[old_size - 1]);
                        assert(t[parent(ii)] == s[parent(ii)]);
                        assert(t[parent(ii)] < t[ii]);
                    } else {
                        assert(t[parent(j)] == s[parent(j)]);
                    }
                }
                assert forall|c: int|
                    1 <= c < size && parent(c) == ii implies #[trigger] t[c] <= t[parent(ii)] by {
                    assert(t[c] == s[c] && t[parent(ii)] == s[parent(ii)]);
                    assert(s[c] <= s[ii]);
                    assert(s[ii] <= s[parent(ii)]);
                }
            }
            self.sift_up(index);
        } else {
            proof {
                let t = self.array@;
                let size = self.size as int;
                assert forall|j: int|
                    1 <= j < size && in_subtree(ii, parent(j)) && parent(j) != ii
                        implies #[trigger] t[j] <= t[parent(j)] by {
                    lemma_subtree_member_ge(ii, parent(j));
                    if j == ii {
                        lemma_subtree_member_ge(ii, parent(ii));
                    } else {
                        assert(t[j] == s[j] && t[parent(j)] == s[parent(j)]);
                    }
                }
                if index > 0 {
                    let b = s[parent(ii)];
                    assert(subtree_bounded(t, size, ii, b)) by {
                        assert forall|k: int|
                            0 <= k < size && in_subtree(ii, k) implies #[trigger] t[k] <= b by {
                            if k == ii {
                                assert(t[ii] == s[old_size - 1]);
                            } else {
                                assert(t[k] == s[k]);
                                lemma_ancestor_dominates(s, old_size, ii, k);
                                assert(s[ii] <= s[parent(ii)]);
                            }
                        }
                    }
                }
            }
            let ghost mid = self.array@;
            self.heapify(index);
            proof {
                let t = self.array@;
                let size = self.size as int;
                assert forall|j: int| 1 <= j < size implies #[trigger] t[j] <= t[parent(j)] by {
                    if ii == 0 {
                        lemma_root_subtree(parent(j));
                    }
                    if !in_subtree(ii, parent(j)) {
                        assert(t[parent(j)] == mid[parent(j)]);
                        if in_subtree(ii, j) {
                            lemma_subtree_member_ge(ii, j);
                            assert(j == ii);
                            assert(ii > 0);
                            assert(subtree_bounded(mid, size, ii, s[parent(ii)]));
                            assert(subtree_bounded(t, size, ii, s[parent(ii)]));
                            assert(t[ii] <= s[parent(ii)]);
                            assert(mid[parent(ii)] == s[parent(ii)]);
                        } else {
                            assert(t[j] == mid[j] && t[parent(j)] == mid[parent(j)]);
                            assert(mid[j] == s[j] && mid[parent(j)] == s[parent(j)]);
                        }
                    }
                }
            }
        }
    }

    /// Restores the heap ordering over an arbitrary prefix of `size`
    /// elements that the caller has placed in the storage, by sifting
    /// down from the last non-leaf slot back to the root.
    #[verifier::rlimit(50)]
    pub fn build_heap(&mut self)
        requires
            old(self).well_formed(),
        ensures
            final(self).valid(),
            final(self).size == old(self).size,
            final(self).capacity == old(self).capacity,
            final(self).array@.len() == old(self).array@.len(),
            final(self).elems().to_multiset() == old(self).elems().to_multiset(),
            forall|j: int|
                old(self).size <= j < final(self).array@.len() ==> final(self).array@[j] == old(
                    self,
                ).array@[j],
    {
        let mut i: usize = self.size / 2;
        while i > 0
            invariant
                self.well_formed(),
                self.size == old(self).size,
                self.capacity == old(self).capacity,
                self.array@.len() == old(self).array@.len(),
                i <= self.size / 2,
                forall|j: int|
                    1 <= j < self.size && parent(j) >= i as int ==> #[trigger] self.array@[j]
                        <= self.array@[parent(j)],
                self.elems().to_multiset() == old(self).elems().to_multiset(),
                forall|j: int|
                    self.size <= j < self.array@.len() ==> self.array@[j] == old(self).array@[j],
            decreases i,
        {
            i = i - 1;
            let ghost t = self.array@;
            let ghost size = self.size as int;
            proof {
                assert forall|j: int|
                    1 <= j < size && in_subtree(i as int, parent(j)) && parent(j) != i
                        implies #[trigger] t[j] <= t[parent(j)] by {
                    lemma_subtree_member_ge(i as int, parent(j));
                }
            }
            self.heapify(i);
            proof {
                let u = self.array@;
                assert forall|j: int|
                    1 <= j < size && parent(j) >= i as int implies #[trigger] u[j] <= u[parent(
                        j,
                    )] by {
                    if !in_subtree(i as int, parent(j)) {
                        if in_subtree(i as int, j) {
                            lemma_subtree_member_ge(i as int, j);
                        }
                        assert(u[j] == t[j] && u[parent(j)] == t[parent(j)]);
                        assert(j >= 2 * parent(j) + 1);
                    }
                }
            }
        }
        proof {
            assert forall|j: int| 1 <= j < self.size as int implies #[trigger] self.array@[j]
                <= self.array@[parent(j)] by {
                assert(parent(j) >= 0);
            }
        }
    }

    /// Raises the key stored at `index` to `new_value` and restores the
    /// heap ordering by sifting the enlarged element up.
    #[verifier::rlimit(50)]
    pub fn increase_key(&mut self, index: usize, new_value: i64)
        requires
            old(self).valid(),
            index < old(self).size,
            old(self).array@[index as int] <= new_value,
        ensures
            final(self).valid(),
            final(self).size == old(self).size,
            final(self).capacity == old(self).capacity,
            final(self).array@.len() == old(self).array@.len(),
            final(self).elems().to_multiset() == old(self).elems().to_multiset().insert(
                new_value,
            ).remove(old(self).array@[index as int]),
    {
        let ghost t = self.array@;
        let ghost size = self.size as int;
        self.array.set(index, new_value);
        proof {
            broadcast use vstd::seq_lib::group_to_multiset_ensures;

            let s = self.array@;
            let ii = index as int;
            assert(s.subrange(0, size) =~= t.subrange(0, size).update(ii, new_value));
            assert(t.subrange(0, size).to_multiset().count(t[ii]) > 0) by {
                assert(t.subrange(0, size)[ii] == t[ii]);
                assert(t.subrange(0, size).contains(t[ii]));
            }
            assert forall|j: int| 1 <= j < size && j != ii implies #[trigger] s[j] <= s[parent(
                j,
            )] by {
                assert(s[j] == t[j]);
                if parent(j) == ii {
                    assert(t[j] <= t[ii]);
                } else {
                    assert(s[parent(j)] == t[parent(j)]);
                }
            }
            if index > 0 {
                assert forall|c: int|
                    1 <= c < size && parent(c) == ii implies #[trigger] s[c] <= s[parent(ii)] by {
                    assert(parent(ii) < ii);
                    assert(s[c] == t[c] && s[parent(ii)] == t[parent(ii)]);
                    assert(t[c] <= t[ii]);
                    assert(t[ii] <= t[parent(ii)]);
                }
            }
        }
        self.sift_up(index);
    }
}

} // verus!
