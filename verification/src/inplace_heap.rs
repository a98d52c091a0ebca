//! A fixed-capacity binary max-heap layered on the bounded vector.
//!
//! `InplaceHeap<T, N>` keeps, after every public call, the max-heap order:
//! no element is greater than its parent, so the root is a maximum. Repair
//! after a mutation moves elements one level at a time, towards the root or
//! towards the leaves, until order is restored.

use vstd::prelude::*;
use vstd::std_specs::cmp::OrdSpec;
use vstd::seq_lib::group_to_multiset_ensures;
use vstd::multiset::Multiset;

use crate::errors::InplaceError;
use crate::inplace_vec::InplaceVec;

verus! {

/// The order `T::cmp` stands for: `a` is no greater than `b`.
pub open spec fn ord_le<T: Ord>(a: T, b: T) -> bool {
    a.cmp_spec(&b) != core::cmp::Ordering::Greater
}

/// The comparison behaves as a lawful total order: its result follows its
/// specification, any two values compare, and the order is transitive.
pub open spec fn ord_laws<T: Ord>() -> bool {
    &&& T::obeys_cmp_spec()
    &&& forall|a: T, b: T| #[trigger] ord_le(a, b) || #[trigger] ord_le(b, a)
    &&& forall|a: T, b: T, c: T|
        #[trigger] ord_le(a, b) && #[trigger] ord_le(b, c) ==> ord_le(a, c)
    &&& forall|a: T, b: T|
        (#[trigger] a.cmp_spec(&b)) == core::cmp::Ordering::Less <==> b.cmp_spec(&a)
            == core::cmp::Ordering::Greater
    &&& forall|a: T, b: T|
        (#[trigger] a.cmp_spec(&b)) == core::cmp::Ordering::Equal ==> b.cmp_spec(&a)
            == core::cmp::Ordering::Equal
}

/// The index of the parent of heap node `i`.
pub open spec fn heap_parent(i: int) -> int {
    (i - 1) / 2
}

/// The max-heap order: every node with a parent is no greater than it.
pub open spec fn heap_ordered<T: Ord>(s: Seq<T>) -> bool {
    forall|i: int| 1 <= i < s.len() ==> ord_le(#[trigger] s[i], s[heap_parent(i)])
}

/// Whether node `i` lies in the subtree rooted at `root`.
pub open spec fn in_subtree(root: int, i: int) -> bool
    decreases i,
{
    if i <= root {
        i == root
    } else if i <= 0 {
        false
    } else {
        in_subtree(root, heap_parent(i))
    }
}

proof fn lemma_subtree_bounds(root: int, i: int)
    requires
        0 <= root,
        in_subtree(root, i),
    ensures
        i >= root,
        i != root ==> in_subtree(root, heap_parent(i)) && heap_parent(i) >= root,
    decreases i,
{
    if i != root {
        assert(i > root);
        assert(i > 0);
        assert(heap_parent(i) < i);
        lemma_subtree_bounds(root, heap_parent(i));
    }
}

/// In a heap-ordered sequence every element is no greater than the root.
pub proof fn lemma_heap_root_max<T: Ord>(s: Seq<T>, i: int)
    requires
        ord_laws::<T>(),
        heap_ordered(s),
        0 <= i < s.len(),
    ensures
        ord_le(s[i], s[0]),
    decreases i,
{
    if i > 0 {
        lemma_heap_root_max(s, heap_parent(i));
    } else {
        assert(ord_le(s[0], s[0]) || ord_le(s[0], s[0]));
    }
}

/// Exchanging two positions of a sequence leaves its multiset unchanged.
proof fn lemma_swap_multiset<T>(s: Seq<T>, i: int, j: int)
    requires
        0 <= i < s.len(),
        0 <= j < s.len(),
    ensures
        s.update(i, s[j]).update(j, s[i]).to_multiset() == s.to_multiset(),
{
    broadcast use group_to_multiset_ensures;
    broadcast use vstd::multiset::group_multiset_axioms;

    if i == j {
        assert(s.update(i, s[j]).update(j, s[i]) =~= s);
    } else {
        let s1 = s.update(i, s[j]);
        vstd::seq_lib::to_multiset_update(s, i, s[j]);
        vstd::seq_lib::to_multiset_update(s1, j, s[i]);
        assert(s1[j] == s[j]);
        assert(s.contains(s[i]));
        assert(s.to_multiset().count(s[i]) > 0);
        assert(s1.contains(s[j]));
        assert(s1.to_multiset().count(s[j]) > 0);
        assert(s.update(i, s[j]).update(j, s[i]).to_multiset() =~= s.to_multiset());
    }
}

/// The floor of the base-two logarithm, by repeated halving; used only to
/// pick a repair strategy.
fn log2_floor(x: usize) -> (r: usize)
    requires
        x >= 1,
    ensures
        r < x,
{
    let mut v = x;
    let mut r: usize = 0;
    while v > 1
        invariant
            v >= 1,
            r as int <= x as int - v as int,
        decreases v,
    {
        v = v / 2;
        r = r + 1;
    }
    r
}

/// Every non-negative index lies in the subtree rooted at the root.
proof fn lemma_in_root_subtree(j: int)
    requires
        j >= 0,
    ensures
        in_subtree(0, j),
    decreases j,
{
    if j > 0 {
        lemma_in_root_subtree(heap_parent(j));
    }
}

/// In a prefix whose parent links hold, every prefix element is no greater
/// than the root.
proof fn lemma_heap_root_max_prefix<T: Ord>(s: Seq<T>, k: int, i: int)
    requires
        ord_laws::<T>(),
        0 <= i < k <= s.len(),
        forall|j: int| 1 <= j < k ==> ord_le(#[trigger] s[j], s[heap_parent(j)]),
    ensures
        ord_le(s[i], s[0]),
    decreases i,
{
    if i > 0 {
        lemma_heap_root_max_prefix(s, k, heap_parent(i));
    } else {
        assert(ord_le(s[0], s[0]) || ord_le(s[0], s[0]));
    }
}

/// Two sequences with one multiset draw their elements from each other.
proof fn lemma_ms_elements<T>(s1: Seq<T>, s2: Seq<T>, i: int)
    requires
        s1.to_multiset() == s2.to_multiset(),
        0 <= i < s2.len(),
    ensures
        exists|i2: int| 0 <= i2 < s1.len() && s1[i2] == s2[i],
{
    broadcast use group_to_multiset_ensures;

    assert(s2.contains(s2[i]));
    assert(s2.to_multiset().count(s2[i]) > 0);
    assert(s1.contains(s2[i]));
}

pub struct InplaceHeap<T, const N: usize> {
    data: InplaceVec<T, N>,
}

impl<T, const N: usize> View for InplaceHeap<T, N> {
    type V = Seq<T>;

    closed spec fn view(&self) -> Seq<T> {
        self.data@
    }
}

impl<T: Ord, const N: usize> InplaceHeap<T, N> {
    /// The storage is in bounds and the max-heap order holds.
    pub closed spec fn wf(&self) -> bool {
        &&& self.data.wf()
        &&& heap_ordered(self@)
    }

    pub fn new() -> (r: Self)
        ensures
            r.wf(),
            r@ == Seq::<T>::empty(),
    {
        InplaceHeap { data: InplaceVec::new() }
    }

    pub fn len(&self) -> (r: usize)
        ensures
            r == self@.len(),
    {
        self.data.len()
    }

    pub fn capacity(&self) -> (r: usize)
        ensures
            r == N,
    {
        self.data.capacity()
    }

    pub fn is_empty(&self) -> (r: bool)
        ensures
            r == (self@.len() == 0),
    {
        self.data.is_empty()
    }

    pub fn as_slice(&self) -> (r: &[T])
        ensures
            r@ == self@,
    {
        self.data.as_slice()
    }

    /// A view of the storage for iteration, in storage order.
    pub fn iter(&self) -> (r: &[T])
        ensures
            r@ == self@,
    {
        self.data.as_slice()
    }

    /// The greatest element, when one exists.
    pub fn peek(&self) -> (r: Option<&T>)
        requires
            self.wf(),
        ensures
            self@.len() > 0 ==> (r matches Some(x) && *x == self@[0]),
            self@.len() == 0 ==> r is None,
            ord_laws::<T>() ==> forall|i: int|
                0 <= i < self@.len() ==> ord_le(#[trigger] self@[i], self@[0]),
    {
        proof {
            if ord_laws::<T>() {
                assert forall|i: int| 0 <= i < self@.len() implies ord_le(
                    #[trigger] self@[i],
                    self@[0],
                ) by {
                    lemma_heap_root_max(self@, i);
                }
            }
        }
        self.data.get(0)
    }

    /// Consumes the heap, handing back its storage in heap order.
    pub fn into_vec(self) -> (r: InplaceVec<T, N>)
        ensures
            r@ == self@,
            self.wf() ==> r.wf(),
    {
        self.data
    }

    /// Destroys every element.
    pub fn clear(&mut self)
        ensures
            final(self).wf(),
            final(self)@ == Seq::<T>::empty(),
    {
        self.data.clear();
    }

    /// Moves the element at `pos` towards the root until it is no greater
    /// than its parent, restoring heap order on the prefix `[0, end)`.
    /// On entry every parent link in the prefix may assume the element at
    /// `pos` absent: links elsewhere hold, and the children of `pos` are no
    /// greater than its parent.
    fn sift_up(&mut self, end: usize, pos: usize)
        requires
            ord_laws::<T>(),
            old(self).data.wf(),
            pos < end <= old(self)@.len(),
            forall|j: int|
                1 <= j < end && j != pos ==> ord_le(
                    #[trigger] old(self)@[j],
                    old(self)@[heap_parent(j)],
                ),
            forall|j: int|
                1 <= j < end && heap_parent(j) == pos && pos > 0 ==> ord_le(
                    #[trigger] old(self)@[j],
                    old(self)@[heap_parent(pos as int)],
                ),
        ensures
            final(self).data.wf(),
            final(self)@.len() == old(self)@.len(),
            forall|j: int| end <= j < old(self)@.len() ==> final(self)@[j] == old(self)@[j],
            forall|j: int|
                1 <= j < end ==> ord_le(#[trigger] final(self)@[j], final(self)@[heap_parent(j)]),
            final(self)@.to_multiset() == old(self)@.to_multiset(),
    {
        broadcast use group_to_multiset_ensures;

        let mut pos = pos;
        while pos > 0
            invariant
                ord_laws::<T>(),
                self.data.wf(),
                pos < end <= self@.len(),
                self@.len() == old(self)@.len(),
                forall|j: int| end <= j < self@.len() ==> self@[j] == old(self)@[j],
                forall|j: int|
                    1 <= j < end && j != pos as int ==> ord_le(
                        #[trigger] self@[j],
                        self@[heap_parent(j)],
                    ),
                forall|j: int|
                    1 <= j < end && heap_parent(j) == pos as int && pos > 0 ==> ord_le(
                        #[trigger] self@[j],
                        self@[heap_parent(pos as int)],
                    ),
                self@.to_multiset() == old(self)@.to_multiset(),
            decreases pos,
        {
            let ghost pre = self@;
            let parent = (pos - 1) / 2;
            let a = self.data.get(pos).unwrap();
            let b = self.data.get(parent).unwrap();
            let ord = a.cmp(b);
            proof {
                assert(*a == pre[pos as int]);
                assert(*b == pre[parent as int]);
                assert(ord == pre[pos as int].cmp_spec(&pre[parent as int]));
            }
            let keep = match ord {
                core::cmp::Ordering::Greater => false,
                _ => true,
            };
            if keep {
                proof {
                    assert(ord_le(self@[pos as int], self@[heap_parent(pos as int)]));
                }
                return;
            }
            self.data.swap(pos, parent);
            proof {
                let p = pos as int;
                let q = parent as int;
                assert(!ord_le(pre[p], pre[q]));
                assert(ord_le(pre[q], pre[p]));
                assert(self@ =~= pre.update(p, pre[q]).update(q, pre[p]));
                lemma_swap_multiset(pre, p, q);
                assert forall|j: int|
                    1 <= j < end && j != q implies ord_le(
                    #[trigger] self@[j],
                    self@[heap_parent(j)],
                ) by {
                    if j == p {
                    } else if heap_parent(j) == p {
                        assert(ord_le(pre[j], pre[heap_parent(p)]));
                    } else if heap_parent(j) == q {
                        assert(ord_le(pre[j], pre[q]));
                        assert(!ord_le(pre[p], pre[q]));
                        assert(ord_le(pre[q], pre[p]));
                    }
                }
                assert forall|j: int|
                    1 <= j < end && heap_parent(j) == q && q > 0 implies ord_le(
                    #[trigger] self@[j],
                    self@[heap_parent(q)],
                ) by {
                    assert(ord_le(pre[q], pre[heap_parent(q)]));
                    if j == p {
                        assert(self@[j] == pre[q]);
                    } else {
                        assert(self@[j] == pre[j]);
                        assert(ord_le(pre[j], pre[q]));
                    }
                }
            }
            pos = parent;
        }
    }

    /// Moves the element at `pos` towards the leaves, one level at a time,
    /// while a present child within `[0, end)` is larger, restoring heap
    /// order throughout the subtree rooted at `pos`. On entry every link
    /// inside that subtree holds except the links into `pos` itself.
    #[verifier::rlimit(100)]
    fn sift_down_range(&mut self, pos: usize, end: usize)
        requires
            ord_laws::<T>(),
            old(self).data.wf(),
            pos < end <= old(self)@.len(),
            forall|j: int|
                1 <= j < end && in_subtree(pos as int, j) && j != pos && heap_parent(j) != pos
                    ==> ord_le(#[trigger] old(self)@[j], old(self)@[heap_parent(j)]),
        ensures
            final(self).data.wf(),
            final(self)@.len() == old(self)@.len(),
            forall|j: int|
                0 <= j < old(self)@.len() && !(in_subtree(pos as int, j) && j < end)
                    ==> #[trigger] final(self)@[j] == old(self)@[j],
            forall|j: int|
                1 <= j < end && in_subtree(pos as int, j) && j != pos ==> ord_le(
                    #[trigger] final(self)@[j],
                    final(self)@[heap_parent(j)],
                ),
            final(self)@.take(end as int).to_multiset() == old(self)@.take(end as int).to_multiset(),
    {
        broadcast use group_to_multiset_ensures;

        let mut hole = pos;
        while hole < end / 2
            invariant
                ord_laws::<T>(),
                self.data.wf(),
                pos <= hole < end <= self@.len(),
                self@.len() == old(self)@.len(),
                in_subtree(pos as int, hole as int),
                forall|j: int|
                    0 <= j < self@.len() && !(in_subtree(pos as int, j) && j < end) ==> self@[j]
                        == #[trigger] old(self)@[j],
                forall|j: int|
                    1 <= j < end && in_subtree(pos as int, j) && j != pos && j != hole as int
                        && heap_parent(j) != hole as int ==> ord_le(
                        #[trigger] self@[j],
                        self@[heap_parent(j)],
                    ),
                forall|c: int|
                    1 <= c < end && heap_parent(c) == hole as int && hole != pos ==> ord_le(
                        #[trigger] self@[c],
                        self@[heap_parent(hole as int)],
                    ),
                hole != pos ==> ord_le(self@[hole as int], self@[heap_parent(hole as int)]),
                self@.take(end as int).to_multiset() == old(self)@.take(end as int).to_multiset(),
            decreases end - hole,
        {
            let ghost pre = self@;
            let left = 2 * hole + 1;
            let mut child = left;
            if child + 1 < end {
                let a = self.data.get(child).unwrap();
                let b = self.data.get(child + 1).unwrap();
                let right_wins = match a.cmp(b) {
                    core::cmp::Ordering::Greater => false,
                    _ => true,
                };
                proof {
                    if right_wins {
                        assert(ord_le(pre[left as int], pre[left as int + 1]));
                    } else {
                        assert(!ord_le(pre[left as int], pre[left as int + 1]));
                        assert(ord_le(pre[left as int + 1], pre[left as int]));
                    }
                }
                if right_wins {
                    child = child + 1;
                }
            }
            proof {
                assert(heap_parent(child as int) == hole as int);
                assert(in_subtree(pos as int, child as int));
                assert forall|j: int|
                    1 <= j < end && heap_parent(j) == hole as int implies ord_le(
                    #[trigger] pre[j],
                    pre[child as int],
                ) by {
                    assert(j == 2 * (hole as int) + 1 || j == 2 * (hole as int) + 2);
                    assert(ord_le(pre[child as int], pre[child as int]) || ord_le(
                        pre[child as int],
                        pre[child as int],
                    ));
                }
            }
            let h = self.data.get(hole).unwrap();
            let c = self.data.get(child).unwrap();
            let descend = match c.cmp(h) {
                core::cmp::Ordering::Greater => true,
                _ => false,
            };
            if !descend {
                proof {
                    assert(ord_le(pre[child as int], pre[hole as int]));
                    assert forall|j: int|
                        1 <= j < end && in_subtree(pos as int, j) && j != pos implies ord_le(
                        #[trigger] self@[j],
                        self@[heap_parent(j)],
                    ) by {
                        if heap_parent(j) == hole as int {
                            assert(ord_le(pre[j], pre[child as int]));
                        }
                    }
                }
                return;
            }
            self.data.swap(hole, child);
            proof {
                let hh = hole as int;
                let cc = child as int;
                assert(!ord_le(pre[cc], pre[hh]) ==> ord_le(pre[hh], pre[cc]));
                assert(self@ =~= pre.update(hh, pre[cc]).update(cc, pre[hh]));
                assert(self@.take(end as int) =~= pre.take(end as int).update(hh, pre[cc]).update(
                    cc,
                    pre[hh],
                ));
                lemma_swap_multiset(pre.take(end as int), hh, cc);
                assert(in_subtree(pos as int, cc));
                assert(2 * hh + 1 < end);
                assert(cc < end);
                assert forall|j: int|
                    0 <= j < self@.len() && !(in_subtree(pos as int, j) && j < end)
                        implies self@[j] == old(self)@[j] by {
                    assert(j != hh);
                    assert(j != cc);
                    assert(self@[j] == pre[j]);
                    assert(pre[j] == old(self)@[j]);
                }
                assert forall|j: int|
                    1 <= j < end && in_subtree(pos as int, j) && j != pos && j != cc
                        && heap_parent(j) != cc implies ord_le(
                    #[trigger] self@[j],
                    self@[heap_parent(j)],
                ) by {
                    if j == hh {
                        if hole != pos {
                            assert(heap_parent(cc) == hh);
                            assert(ord_le(pre[cc], pre[heap_parent(hh)]));
                        }
                    } else if heap_parent(j) == hh {
                        assert(ord_le(pre[j], pre[cc]));
                    }
                }
            }
            hole = child;
        }
        proof {
            assert forall|j: int|
                1 <= j < end && in_subtree(pos as int, j) && j != pos implies ord_le(
                #[trigger] self@[j],
                self@[heap_parent(j)],
            ) by {
                if heap_parent(j) == hole as int {
                    lemma_subtree_bounds(pos as int, j);
                }
            }
        }
    }

    /// Moves the element at `pos` down while a child is larger, over the
    /// whole heap.
    fn sift_down(&mut self, pos: usize)
        requires
            ord_laws::<T>(),
            old(self).data.wf(),
            pos < old(self)@.len(),
            forall|j: int|
                1 <= j < old(self)@.len() && in_subtree(pos as int, j) && j != pos && heap_parent(j)
                    != pos ==> ord_le(#[trigger] old(self)@[j], old(self)@[heap_parent(j)]),
        ensures
            final(self).data.wf(),
            final(self)@.len() == old(self)@.len(),
            forall|j: int|
                0 <= j < old(self)@.len() && !in_subtree(pos as int, j) ==> final(self)@[j] == old(
                    self,
                )@[j],
            forall|j: int|
                1 <= j < old(self)@.len() && in_subtree(pos as int, j) && j != pos ==> ord_le(
                    #[trigger] final(self)@[j],
                    final(self)@[heap_parent(j)],
                ),
            final(self)@.to_multiset() == old(self)@.to_multiset(),
    {
        let len = self.data.len();
        self.sift_down_range(pos, len);
        proof {
            assert(old(self)@.take(len as int) =~= old(self)@);
            assert(final(self)@.take(len as int) =~= final(self)@);
        }
    }

    /// Takes the element at the root, moves it all the way down to a leaf by
    /// promoting the larger child at every level, then sifts it back up to
    /// its resting place. Faster when the element is expected to end deep.
    #[verifier::rlimit(100)]
    fn sift_down_to_bottom(&mut self)
        requires
            ord_laws::<T>(),
            old(self).data.wf(),
            old(self)@.len() > 0,
            forall|j: int|
                1 <= j < old(self)@.len() && heap_parent(j) != 0 ==> ord_le(
                    #[trigger] old(self)@[j],
                    old(self)@[heap_parent(j)],
                ),
        ensures
            final(self).data.wf(),
            final(self)@.len() == old(self)@.len(),
            heap_ordered(final(self)@),
            final(self)@.to_multiset() == old(self)@.to_multiset(),
    {
        broadcast use group_to_multiset_ensures;

        let end = self.data.len();
        let mut hole: usize = 0;
        while hole < end / 2
            invariant
                ord_laws::<T>(),
                self.data.wf(),
                hole < end == self@.len(),
                self@.len() == old(self)@.len(),
                forall|j: int|
                    1 <= j < end && j != hole as int && heap_parent(j) != hole as int ==> ord_le(
                        #[trigger] self@[j],
                        self@[heap_parent(j)],
                    ),
                forall|c: int|
                    1 <= c < end && heap_parent(c) == hole as int && hole != 0 ==> ord_le(
                        #[trigger] self@[c],
                        self@[heap_parent(hole as int)],
                    ),
                self@.to_multiset() == old(self)@.to_multiset(),
            decreases end - hole,
        {
            let ghost pre = self@;
            let left = 2 * hole + 1;
            let mut child = left;
            if child + 1 < end {
                let a = self.data.get(child).unwrap();
                let b = self.data.get(child + 1).unwrap();
                let right_wins = match a.cmp(b) {
                    core::cmp::Ordering::Greater => false,
                    _ => true,
                };
                proof {
                    if right_wins {
                        assert(ord_le(pre[left as int], pre[left as int + 1]));
                    } else {
                        assert(!ord_le(pre[left as int], pre[left as int + 1]));
                        assert(ord_le(pre[left as int + 1], pre[left as int]));
                    }
                }
                if right_wins {
                    child = child + 1;
                }
            }
            proof {
                assert(heap_parent(child as int) == hole as int);
                assert forall|j: int|
                    1 <= j < end && heap_parent(j) == hole as int implies ord_le(
                    #[trigger] pre[j],
                    pre[child as int],
                ) by {
                    assert(j == 2 * (hole as int) + 1 || j == 2 * (hole as int) + 2);
                    assert(ord_le(pre[child as int], pre[child as int]) || ord_le(
                        pre[child as int],
                        pre[child as int],
                    ));
                }
            }
            self.data.swap(hole, child);
            proof {
                let hh = hole as int;
                let cc = child as int;
                assert(self@ =~= pre.update(hh, pre[cc]).update(cc, pre[hh]));
                lemma_swap_multiset(pre, hh, cc);
                assert forall|j: int|
                    1 <= j < end && j != cc && heap_parent(j) != cc implies ord_le(
                    #[trigger] self@[j],
                    self@[heap_parent(j)],
                ) by {
                    if j == hh {
                        if hole != 0 {
                            assert(heap_parent(cc) == hh);
                            assert(ord_le(pre[cc], pre[heap_parent(hh)]));
                        }
                    } else if heap_parent(j) == hh {
                        assert(ord_le(pre[j], pre[cc]));
                    }
                }
            }
            hole = child;
        }
        proof {
            assert forall|j: int|
                1 <= j < end && j != hole as int implies ord_le(
                #[trigger] self@[j],
                self@[heap_parent(j)],
            ) by {}
            assert forall|j: int|
                1 <= j < end && heap_parent(j) == hole as int && hole > 0 implies ord_le(
                #[trigger] self@[j],
                self@[heap_parent(hole as int)],
            ) by {}
        }
        self.sift_up(end, hole);
    }

    /// Removes and returns the greatest element, or nothing when empty; the
    /// last element takes the root's place and sinks to a leaf before rising
    /// to where it belongs.
    pub fn pop(&mut self) -> (r: Option<T>)
        requires
            old(self).wf(),
            ord_laws::<T>(),
        ensures
            final(self).wf(),
            old(self)@.len() == 0 ==> r is None && final(self)@ == old(self)@,
            old(self)@.len() > 0 ==> ({
                &&& r == Some(old(self)@[0])
                &&& final(self)@.len() == old(self)@.len() - 1
                &&& final(self)@.to_multiset() == old(self)@.to_multiset().remove(old(self)@[0])
                &&& forall|i: int|
                    0 <= i < old(self)@.len() ==> ord_le(#[trigger] old(self)@[i], old(self)@[0])
            }),
    {
        broadcast use group_to_multiset_ensures;

        proof {
            if old(self)@.len() > 0 {
                assert forall|i: int| 0 <= i < old(self)@.len() implies ord_le(
                    #[trigger] old(self)@[i],
                    old(self)@[0],
                ) by {
                    lemma_heap_root_max(old(self)@, i);
                }
            }
        }
        let last = match self.data.pop() {
            None => {
                return None;
            },
            Some(v) => v,
        };
        if self.data.is_empty() {
            proof {
                assert(old(self)@ =~= seq![old(self)@[0]]);
                assert(old(self)@.to_multiset() =~= Multiset::<T>::empty().insert(old(self)@[0]));
                assert(final(self)@.to_multiset() =~= old(self)@.to_multiset().remove(
                    old(self)@[0],
                ));
            }
            return Some(last);
        }
        let ghost mid = self@;
        let root = self.data.replace(0, last);
        proof {
            let l = old(self)@.len() - 1;
            assert(mid == old(self)@.take(l));
            assert(self@ =~= mid.update(0, last));
            vstd::seq_lib::to_multiset_update(mid, 0, last);
            assert(mid.to_multiset().insert(old(self)@[l]) =~= old(self)@.to_multiset()) by {
                assert(mid.push(old(self)@[l]) =~= old(self)@);
            }
            assert(mid.to_multiset().count(mid[0]) > 0) by {
                assert(mid.contains(mid[0]));
            }
            assert(self@.to_multiset() =~= old(self)@.to_multiset().remove(old(self)@[0]));
            assert forall|j: int|
                1 <= j < self@.len() && heap_parent(j) != 0 implies ord_le(
                #[trigger] self@[j],
                self@[heap_parent(j)],
            ) by {
                assert(ord_le(old(self)@[j], old(self)@[heap_parent(j)]));
            }
        }
        self.sift_down_to_bottom();
        Some(root)
    }

    /// Establishes heap order from scratch: every internal node, from the
    /// middle down to the root, sinks to its place.
    fn rebuild(&mut self)
        requires
            ord_laws::<T>(),
            old(self).data.wf(),
        ensures
            final(self).wf(),
            final(self)@.len() == old(self)@.len(),
            final(self)@.to_multiset() == old(self)@.to_multiset(),
    {
        let len = self.data.len();
        let mut n = len / 2;
        proof {
            assert forall|j: int|
                1 <= j < len && heap_parent(j) >= n as int implies ord_le(
                #[trigger] self@[j],
                self@[heap_parent(j)],
            ) by {
                assert(j >= 2 * heap_parent(j) + 1);
                assert(false);
            }
        }
        while n > 0
            invariant
                ord_laws::<T>(),
                self.data.wf(),
                n <= len == self@.len(),
                self@.len() == old(self)@.len(),
                forall|j: int|
                    1 <= j < len && heap_parent(j) >= n as int ==> ord_le(
                        #[trigger] self@[j],
                        self@[heap_parent(j)],
                    ),
                self@.to_multiset() == old(self)@.to_multiset(),
            decreases n,
        {
            n -= 1;
            let ghost pre = self@;
            proof {
                assert forall|j: int|
                    1 <= j < len && in_subtree(n as int, j) && j != n as int && heap_parent(j)
                        != n as int implies ord_le(#[trigger] self@[j], self@[heap_parent(j)]) by {
                    lemma_subtree_bounds(n as int, j);
                    lemma_subtree_bounds(n as int, heap_parent(j));
                }
            }
            self.sift_down(n);
            proof {
                assert forall|j: int|
                    1 <= j < len && heap_parent(j) >= n as int implies ord_le(
                    #[trigger] self@[j],
                    self@[heap_parent(j)],
                ) by {
                    if !in_subtree(n as int, j) {
                        if in_subtree(n as int, heap_parent(j)) {
                            assert(in_subtree(n as int, j));
                        }
                        assert(self@[j] == pre[j]);
                        assert(self@[heap_parent(j)] == pre[heap_parent(j)]);
                    }
                }
            }
        }
        proof {
            assert forall|j: int| 1 <= j < self@.len() implies ord_le(
                #[trigger] self@[j],
                self@[heap_parent(j)],
            ) by {
                assert(heap_parent(j) >= 0);
            }
        }
    }

    /// Restores heap order assuming the first `start` elements already obey
    /// it, choosing between a full rebuild and repeated ascents of the new
    /// suffix by an empirically tuned crossover.
    fn rebuild_tail(&mut self, start: usize)
        requires
            ord_laws::<T>(),
            old(self).data.wf(),
            start <= old(self)@.len(),
            forall|j: int|
                1 <= j < start ==> ord_le(#[trigger] old(self)@[j], old(self)@[heap_parent(j)]),
        ensures
            final(self).wf(),
            final(self)@.len() == old(self)@.len(),
            final(self)@.to_multiset() == old(self)@.to_multiset(),
    {
        let len = self.data.len();
        if start == len {
            proof {
                assert(final(self)@ =~= old(self)@);
            }
            return;
        }
        let tail_len = len - start;
        let better_to_rebuild = if start < tail_len {
            true
        } else if len <= 2048 {
            let lg = log2_floor(start);
            proof {
                assert((tail_len as u128) * (lg as u128) <= 2048 * 2048) by (nonlinear_arith)
                    requires
                        tail_len <= 2048,
                        lg <= 2048,
                ;
            }
            2 * (len as u128) < (tail_len as u128) * (lg as u128)
        } else {
            2 * (len as u128) < (tail_len as u128) * 11
        };
        if better_to_rebuild {
            self.rebuild();
        } else {
            let mut i = start;
            while i < len
                invariant
                    ord_laws::<T>(),
                    self.data.wf(),
                    start <= i <= len,
                    len == self@.len(),
                    self@.len() == old(self)@.len(),
                    forall|j: int|
                        1 <= j < i as int ==> ord_le(#[trigger] self@[j], self@[heap_parent(j)]),
                    self@.to_multiset() == old(self)@.to_multiset(),
                decreases len - i,
            {
                self.sift_up(i + 1, i);
                i += 1;
            }
        }
    }

    /// Builds a heap from the supplied storage by a full rebuild.
    pub fn from_vec(v: InplaceVec<T, N>) -> (r: Self)
        requires
            v.wf(),
            ord_laws::<T>(),
        ensures
            r.wf(),
            r@.len() == v@.len(),
            r@.to_multiset() == v@.to_multiset(),
    {
        let mut h = InplaceHeap { data: v };
        h.rebuild();
        h
    }

    /// Merges the smaller heap into the larger one, exchanging the two first
    /// when needed, then repairs the appended suffix; refused as a whole when
    /// the combined length would exceed the capacity (the exchange stands).
    pub fn append(&mut self, other: &mut Self) -> (r: Result<(), InplaceError>)
        requires
            old(self).wf(),
            old(other).wf(),
            ord_laws::<T>(),
        ensures
            final(self).wf(),
            final(other).wf(),
            old(self)@.len() + old(other)@.len() <= N ==> r is Ok
                && final(self)@.to_multiset() == old(self)@.to_multiset().add(
                old(other)@.to_multiset(),
            ) && final(self)@.len() == old(self)@.len() + old(other)@.len() && final(other)@
                == Seq::<T>::empty(),
            old(self)@.len() + old(other)@.len() > N ==> ({
                &&& r == Result::<(), InplaceError>::Err(InplaceError::CapacityExceeded {
                    len: if old(self)@.len() >= old(other)@.len() {
                        old(self)@.len() as usize
                    } else {
                        old(other)@.len() as usize
                    },
                    additional: if old(self)@.len() >= old(other)@.len() {
                        old(other)@.len() as usize
                    } else {
                        old(self)@.len() as usize
                    },
                    capacity: N,
                })
                &&& (old(self)@.len() >= old(other)@.len() ==> final(self)@ == old(self)@
                    && final(other)@ == old(other)@)
                &&& (old(self)@.len() < old(other)@.len() ==> final(self)@ == old(other)@
                    && final(other)@ == old(self)@)
            }),
    {
        broadcast use group_to_multiset_ensures;

        if self.data.len() < other.data.len() {
            core::mem::swap(self, other);
        }
        let start = self.data.len();
        let result = self.data.append(&mut other.data);
        match result {
            Err(e) => Err(e),
            Ok(()) => {
                proof {
                    vstd::seq_lib::lemma_multiset_commutative(
                        if old(self)@.len() >= old(other)@.len() {
                            old(self)@
                        } else {
                            old(other)@
                        },
                        if old(self)@.len() >= old(other)@.len() {
                            old(other)@
                        } else {
                            old(self)@
                        },
                    );
                    broadcast use vstd::multiset::group_multiset_axioms;

                    assert(self@.to_multiset() =~= old(self)@.to_multiset().add(
                        old(other)@.to_multiset(),
                    ));
                }
                self.rebuild_tail(start);
                Ok(())
            },
        }
    }

    /// Keeps exactly the elements the predicate approves, then repairs heap
    /// order starting from the earliest disturbed position.
    #[verifier::rlimit(100)]
    pub fn retain<F: Fn(&T) -> bool>(&mut self, f: F)
        requires
            old(self).wf(),
            ord_laws::<T>(),
            forall|i: int| 0 <= i < old(self)@.len() ==> call_requires(f, (&old(self)@[i],)),
        ensures
            final(self).wf(),
            exists|keep: Seq<bool>|
                {
                    &&& keep.len() == old(self)@.len()
                    &&& (forall|i: int|
                        0 <= i < keep.len() ==> call_ensures(f, (&old(self)@[i],), #[trigger] keep[i]))
                    &&& final(self)@.to_multiset() == crate::inplace_vec::filter_by_mask(
                        old(self)@,
                        keep,
                    ).to_multiset()
                },
    {
        broadcast use group_to_multiset_ensures;

        let ghost orig = self@;
        let ghost mut keep: Seq<bool> = Seq::empty();
        let len = self.data.len();
        let mut read: usize = 0;
        let mut write: usize = 0;
        let mut first_removed = len;
        while read < len
            invariant
                ord_laws::<T>(),
                self.data.wf(),
                len == orig.len(),
                self@.len() == orig.len(),
                read <= len,
                write <= read,
                first_removed <= len,
                first_removed >= read ==> write == read && first_removed == len,
                first_removed < read ==> first_removed <= write,
                keep.len() == read as int,
                forall|i: int| 0 <= i < orig.len() ==> call_requires(f, (&orig[i],)),
                forall|i: int| 0 <= i < read ==> call_ensures(f, (&orig[i],), #[trigger] keep[i]),
                self@.subrange(0, write as int) == crate::inplace_vec::filter_by_mask(
                    orig.take(read as int),
                    keep.take(read as int),
                ),
                write as int == crate::inplace_vec::filter_by_mask(
                    orig.take(read as int),
                    keep.take(read as int),
                ).len(),
                forall|k: int| read <= k < orig.len() ==> self@[k] == orig[k],
                forall|k: int| 0 <= k < first_removed && k < read ==> self@[k] == orig[k],
                forall|j: int|
                    1 <= j < orig.len() ==> ord_le(#[trigger] orig[j], orig[heap_parent(j)]),
            decreases len - read,
        {
            proof {
                assert(self.data@[read as int] == orig[read as int]);
            }
            let keep_it = f(self.data.get(read).unwrap());
            proof {
                let prev_keep = keep;
                assert(prev_keep.take(read as int) =~= prev_keep);
                keep = keep.push(keep_it);
                assert(keep.take(read as int) =~= prev_keep);
                assert(keep.take(read as int + 1) =~= keep);
                crate::inplace_vec::lemma_filter_by_mask_step(orig, keep, read as int);
            }
            let ghost before = self@;
            if keep_it {
                if write != read {
                    self.data.swap(write, read);
                }
                proof {
                    assert(self@.subrange(0, write as int) =~= before.subrange(0, write as int));
                    assert(self@[write as int] == orig[read as int]);
                    assert(self@.subrange(0, write as int + 1) =~= before.subrange(
                        0,
                        write as int,
                    ).push(orig[read as int]));
                }
                write += 1;
            } else {
                if first_removed > read {
                    first_removed = read;
                }
            }
            read += 1;
        }
        proof {
            assert(orig.take(len as int) =~= orig);
            assert(keep.take(len as int) =~= keep);
        }
        let ghost pre = self@;
        self.data.truncate(write);
        proof {
            assert(self@ =~= pre.subrange(0, write as int));
            assert(self@ == crate::inplace_vec::filter_by_mask(orig, keep));
        }
        let repair_from = if first_removed < write {
            first_removed
        } else {
            write
        };
        proof {
            assert forall|j: int| 1 <= j < repair_from as int implies ord_le(
                #[trigger] self@[j],
                self@[heap_parent(j)],
            ) by {
                assert(self@[j] == orig[j]);
                assert(self@[heap_parent(j)] == orig[heap_parent(j)]);
            }
        }
        self.rebuild_tail(repair_from);
    }

    /// Consumes the heap and hands back its storage sorted in non-decreasing
    /// order: repeatedly swaps the maximum behind the shrinking heap prefix.
    #[verifier::rlimit(100)]
    pub fn into_sorted_vec(self) -> (r: InplaceVec<T, N>)
        requires
            self.wf(),
            ord_laws::<T>(),
        ensures
            r.wf(),
            r@.len() == self@.len(),
            r@.to_multiset() == self@.to_multiset(),
            forall|i: int, j: int| 0 <= i <= j < r@.len() ==> ord_le(#[trigger] r@[i], #[trigger] r@[j]),
    {
        broadcast use group_to_multiset_ensures;

        let mut this = self;
        let len = this.data.len();
        if len == 0 {
            return this.into_vec();
        }
        let mut end = len;
        while end > 1
            invariant
                ord_laws::<T>(),
                this.data.wf(),
                1 <= end <= len == this@.len(),
                this@.len() == self@.len(),
                this@.to_multiset() == self@.to_multiset(),
                forall|j: int|
                    1 <= j < end as int ==> ord_le(#[trigger] this@[j], this@[heap_parent(j)]),
                forall|i: int, j: int|
                    end as int <= i <= j < len as int ==> ord_le(
                        #[trigger] this@[i],
                        #[trigger] this@[j],
                    ),
                forall|i: int, j: int|
                    0 <= i < end as int && end as int <= j < len as int ==> ord_le(
                        #[trigger] this@[i],
                        #[trigger] this@[j],
                    ),
            decreases end,
        {
            end -= 1;
            let ghost pre = this@;
            proof {
                assert forall|i: int| 0 <= i <= end as int implies ord_le(
                    #[trigger] pre[i],
                    pre[0],
                ) by {
                    lemma_heap_root_max_prefix(pre, end as int + 1, i);
                }
            }
            this.data.swap(0, end);
            let ghost mid = this@;
            proof {
                assert(mid =~= pre.update(0, pre[end as int]).update(end as int, pre[0]));
                lemma_swap_multiset(pre, 0, end as int);
            }
            proof {
                // the removed maximum joins the sorted suffix in its place
                assert forall|j: int| end as int <= j < len as int implies ord_le(
                    #[trigger] mid[end as int],
                    #[trigger] mid[j],
                ) by {
                    if j == end as int {
                        assert(ord_le(mid[j], mid[j]) || ord_le(mid[j], mid[j]));
                    }
                }
                assert forall|i: int, j: int|
                    end as int <= i <= j < len as int implies ord_le(
                    #[trigger] mid[i],
                    #[trigger] mid[j],
                ) by {}
            }
            if end > 1 {
                proof {
                    assert forall|j: int|
                        1 <= j < end as int && in_subtree(0, j) && j != 0 && heap_parent(j) != 0
                            implies ord_le(#[trigger] mid[j], mid[heap_parent(j)]) by {
                        assert(ord_le(pre[j], pre[heap_parent(j)]));
                    }
                }
                this.sift_down_range(0, end);
                proof {
                    broadcast use vstd::multiset::group_multiset_axioms;

                    assert forall|j: int| 1 <= j < end as int implies ord_le(
                        #[trigger] this@[j],
                        this@[heap_parent(j)],
                    ) by {
                        lemma_in_root_subtree(j);
                    }
                    assert forall|k: int| end as int <= k < len as int implies #[trigger] this@[k]
                        == mid[k] by {}
                    assert(this@ =~= this@.take(end as int) + this@.skip(end as int));
                    assert(mid =~= mid.take(end as int) + mid.skip(end as int));
                    assert(this@.skip(end as int) =~= mid.skip(end as int));
                    vstd::seq_lib::lemma_multiset_commutative(
                        this@.take(end as int),
                        this@.skip(end as int),
                    );
                    vstd::seq_lib::lemma_multiset_commutative(
                        mid.take(end as int),
                        mid.skip(end as int),
                    );
                    assert(this@.to_multiset() == mid.to_multiset());
                    assert forall|i: int, j: int|
                        end as int <= i <= j < len as int implies ord_le(
                        #[trigger] this@[i],
                        #[trigger] this@[j],
                    ) by {
                        assert(this@[i] == mid[i]);
                        assert(this@[j] == mid[j]);
                    }
                    assert forall|i: int, j: int|
                        0 <= i < end as int && end as int <= j < len as int implies ord_le(
                        #[trigger] this@[i],
                        #[trigger] this@[j],
                    ) by {
                        lemma_ms_elements(mid.take(end as int), this@.take(end as int), i);
                        let i2 = choose|i2: int|
                            0 <= i2 < mid.take(end as int).len() && mid.take(end as int)[i2]
                                == this@.take(end as int)[i];
                        assert(this@[j] == mid[j]);
                        assert(mid.take(end as int)[i2] == mid[i2]);
                        assert(this@.take(end as int)[i] == this@[i]);
                        if i2 == 0 {
                            assert(mid[i2] == pre[end as int]);
                            if j == end as int {
                                assert(ord_le(pre[end as int], pre[0]));
                            } else {
                                assert(ord_le(pre[end as int], pre[j]));
                            }
                        } else {
                            assert(mid[i2] == pre[i2]);
                            if j == end as int {
                                assert(ord_le(pre[i2], pre[0]));
                            } else {
                                assert(ord_le(pre[i2], pre[j]));
                            }
                        }
                    }
                }
            } else {
                proof {
                    assert forall|i: int, j: int|
                        0 <= i < end as int && end as int <= j < len as int implies ord_le(
                        #[trigger] this@[i],
                        #[trigger] this@[j],
                    ) by {
                        assert(this@[i] == pre[end as int]);
                        if j == end as int {
                            assert(ord_le(pre[end as int], pre[0]));
                        } else {
                            assert(ord_le(pre[end as int], pre[j]));
                        }
                    }
                }
            }
        }
        proof {
            assert forall|i: int, j: int| 0 <= i <= j < len as int implies ord_le(
                #[trigger] this@[i],
                #[trigger] this@[j],
            ) by {
                if i == j {
                    assert(ord_le(this@[i], this@[i]) || ord_le(this@[i], this@[i]));
                }
            }
        }
        this.into_vec()
    }

    /// Hands every element out through a draining cursor, leaving the heap
    /// empty; the elements come out in storage order.
    pub fn drain(&mut self) -> (r: crate::inplace_vec::Drain<T>)
        requires
            old(self).wf(),
        ensures
            final(self).wf(),
            final(self)@ == Seq::<T>::empty(),
            r@ == old(self)@,
    {
        let len = self.data.len();
        match self.data.drain(0, len) {
            Ok(d) => {
                proof {
                    assert(d@ =~= old(self)@);
                    assert(final(self)@ =~= Seq::<T>::empty());
                }
                d
            },
            Err(_) => {
                proof {
                    assert(false);
                }
                crate::inplace_vec::Drain::empty()
            },
        }
    }

    /// Adds `item` to the heap, or returns it unchanged when full.
    pub fn push(&mut self, item: T) -> (r: Result<(), T>)
        requires
            old(self).wf(),
            ord_laws::<T>(),
        ensures
            final(self).wf(),
            old(self)@.len() < N ==> r is Ok && final(self)@.to_multiset() == old(
                self,
            )@.to_multiset().insert(item) && final(self)@.len() == old(self)@.len() + 1,
            old(self)@.len() == N ==> r == Result::<(), T>::Err(item) && final(self)@ == old(
                self,
            )@,
    {
        broadcast use group_to_multiset_ensures;

        let old_len = self.data.len();
        let result = self.data.push(item);
        match result {
            Err(v) => Err(v),
            Ok(()) => {
                proof {
                    assert(old(self)@.len() < N);
                    assert(self@ == old(self)@.push(item));
                    assert forall|j: int|
                        1 <= j < old_len as int + 1 && j != old_len as int implies ord_le(
                        #[trigger] self@[j],
                        self@[heap_parent(j)],
                    ) by {
                        assert(ord_le(old(self)@[j], old(self)@[heap_parent(j)]));
                        assert(self@[j] == old(self)@[j]);
                        assert(self@[heap_parent(j)] == old(self)@[heap_parent(j)]);
                    }
                }
                self.sift_up(old_len + 1, old_len);
                Ok(())
            },
        }
    }
}

/// A scoped handle on a non-empty heap's greatest element. While it is held
/// it owns the heap, so a mutated root can never be observed: the holder
/// either releases the handle, which repairs the order, or pops the root,
/// which discards it without a final repair.
pub struct PeekMut<T: Ord, const N: usize> {
    heap: InplaceHeap<T, N>,
}

impl<T: Ord, const N: usize> View for PeekMut<T, N> {
    type V = Seq<T>;

    closed spec fn view(&self) -> Seq<T> {
        self.heap@
    }
}

impl<T: Ord, const N: usize> InplaceHeap<T, N> {
    /// Surrenders the heap into a handle on its greatest element; an empty
    /// heap is handed back unchanged.
    pub fn peek_mut(self) -> (r: Result<PeekMut<T, N>, Self>)
        requires
            self.wf(),
        ensures
            self@.len() > 0 ==> (r matches Ok(pm) && pm.wf() && pm@ == self@),
            self@.len() == 0 ==> (r matches Err(h) && h == self),
    {
        if self.data.is_empty() {
            Err(self)
        } else {
            Ok(PeekMut { heap: self })
        }
    }
}

impl<T: Ord, const N: usize> PeekMut<T, N> {
    /// Everything but the root's own links still obeys the heap order.
    pub closed spec fn wf(&self) -> bool {
        &&& self.heap.data.wf()
        &&& self@.len() > 0
        &&& forall|j: int|
            1 <= j < self@.len() && heap_parent(j) != 0 ==> ord_le(
                #[trigger] self@[j],
                self@[heap_parent(j)],
            )
    }

    /// The element under the handle: the heap's root.
    pub fn get(&self) -> (r: &T)
        requires
            self.wf(),
        ensures
            *r == self@[0],
    {
        self.heap.data.get(0).unwrap()
    }

    /// Overwrites the element under the handle, returning the old root; the
    /// repair is deferred until the handle is released.
    pub fn set(&mut self, value: T) -> (r: T)
        requires
            old(self).wf(),
        ensures
            final(self).wf(),
            final(self)@ == old(self)@.update(0, value),
            r == old(self)@[0],
    {
        self.heap.data.replace(0, value)
    }

    /// Releases the handle: the possibly modified root sinks to where it
    /// belongs and the intact heap comes back.
    pub fn release(this: Self) -> (h: InplaceHeap<T, N>)
        requires
            this.wf(),
            ord_laws::<T>(),
        ensures
            h.wf(),
            h@.len() == this@.len(),
            h@.to_multiset() == this@.to_multiset(),
    {
        let mut heap = this.heap;
        heap.sift_down(0);
        proof {
            assert forall|j: int| 1 <= j < heap@.len() implies ord_le(
                #[trigger] heap@[j],
                heap@[heap_parent(j)],
            ) by {
                lemma_in_root_subtree(j);
            }
        }
        heap
    }

    /// Removes the element under the handle — the prior maximum, unless it
    /// was overwritten — and hands back the shrunken heap; no final repair of
    /// the removed root is needed.
    pub fn pop(this: Self) -> (r: (T, InplaceHeap<T, N>))
        requires
            this.wf(),
            ord_laws::<T>(),
        ensures
            r.0 == this@[0],
            r.1.wf(),
            r.1@.len() == this@.len() - 1,
            r.1@.to_multiset() == this@.to_multiset().remove(this@[0]),
    {
        broadcast use group_to_multiset_ensures;

        let mut heap = this.heap;
        let ghost orig = heap@;
        let last = heap.data.pop().unwrap();
        if heap.data.is_empty() {
            proof {
                assert(orig =~= seq![orig[0]]);
                assert(orig.to_multiset() =~= Multiset::<T>::empty().insert(orig[0]));
                assert(heap@.to_multiset() =~= orig.to_multiset().remove(orig[0]));
            }
            return (last, heap);
        }
        let ghost mid = heap@;
        let root = heap.data.replace(0, last);
        proof {
            let l = orig.len() - 1;
            assert(mid == orig.take(l));
            assert(heap@ =~= mid.update(0, last));
            vstd::seq_lib::to_multiset_update(mid, 0, last);
            assert(mid.to_multiset().insert(orig[l]) =~= orig.to_multiset()) by {
                assert(mid.push(orig[l]) =~= orig);
            }
            assert(mid.to_multiset().count(mid[0]) > 0) by {
                assert(mid.contains(mid[0]));
            }
            assert(heap@.to_multiset() =~= orig.to_multiset().remove(orig[0]));
            assert forall|j: int|
                1 <= j < heap@.len() && heap_parent(j) != 0 implies ord_le(
                #[trigger] heap@[j],
                heap@[heap_parent(j)],
            ) by {
                assert(ord_le(orig[j], orig[heap_parent(j)]));
            }
        }
        heap.sift_down_to_bottom();
        (root, heap)
    }
}

} // verus!
