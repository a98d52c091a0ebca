//! A fixed-capacity vector.
//!
//! `InplaceVec<T, N>` holds at most `N` elements in a contiguous live prefix;
//! the capacity is part of the type and the storage never grows past it.
//! Capacity violations hand the rejected element back to the caller.

use vstd::prelude::*;
use vstd::std_specs::cmp::PartialEqSpec;

use crate::errors::InplaceError;

verus! {

/// The subsequence of `s` at the positions where `keep` is true.
pub open spec fn filter_by_mask<T>(s: Seq<T>, keep: Seq<bool>) -> Seq<T>
    recommends
        s.len() == keep.len(),
    decreases s.len(),
{
    if s.len() == 0 {
        Seq::<T>::empty()
    } else {
        let prefix = filter_by_mask(s.drop_last(), keep.drop_last());
        if keep.len() == s.len() && keep.last() {
            prefix.push(s.last())
        } else {
            prefix
        }
    }
}

/// Extending both the elements and the mask by one position extends the
/// filtered subsequence by the new element exactly when it is kept.
pub proof fn lemma_filter_by_mask_step<T>(s: Seq<T>, keep: Seq<bool>, i: int)
    requires
        0 <= i < s.len(),
        i < keep.len(),
    ensures
        filter_by_mask(s.take(i + 1), keep.take(i + 1)) == if keep[i] {
            filter_by_mask(s.take(i), keep.take(i)).push(s[i])
        } else {
            filter_by_mask(s.take(i), keep.take(i))
        },
{
    assert(s.take(i + 1).drop_last() =~= s.take(i));
    assert(keep.take(i + 1).drop_last() =~= keep.take(i));
    assert(s.take(i + 1).last() == s[i]);
}

/// The most recent element of `s.take(i)` kept by `keep`: the element a
/// deduplication pass compares position `i` against.
pub open spec fn last_kept<T>(s: Seq<T>, keep: Seq<bool>, i: int) -> T {
    filter_by_mask(s.take(i), keep.take(i)).last()
}

/// A mask whose first position is kept filters to a non-empty subsequence.
pub proof fn lemma_filter_by_mask_nonempty<T>(s: Seq<T>, keep: Seq<bool>)
    requires
        s.len() > 0,
        keep.len() == s.len(),
        keep[0],
    ensures
        filter_by_mask(s, keep).len() > 0,
        filter_by_mask(s, keep)[0] == s[0],
    decreases s.len(),
{
    if s.len() == 1 {
        assert(s.drop_last().len() == 0);
        assert(filter_by_mask(s.drop_last(), keep.drop_last()) == Seq::<T>::empty());
    } else {
        lemma_filter_by_mask_nonempty(s.drop_last(), keep.drop_last());
    }
}

/// Every element of a filtered subsequence comes from the original sequence.
pub proof fn lemma_filter_by_mask_elements<T>(s: Seq<T>, keep: Seq<bool>, k: int)
    requires
        0 <= k < filter_by_mask(s, keep).len(),
    ensures
        exists|j: int| 0 <= j < s.len() && s[j] == filter_by_mask(s, keep)[k],
    decreases s.len(),
{
    let prefix = filter_by_mask(s.drop_last(), keep.drop_last());
    if keep.len() == s.len() && s.len() > 0 && keep.last() && k == prefix.len() {
        assert(s[s.len() - 1] == filter_by_mask(s, keep)[k]);
    } else {
        lemma_filter_by_mask_elements(s.drop_last(), keep.drop_last(), k);
        let j = choose|j: int|
            0 <= j < s.drop_last().len() && s.drop_last()[j] == filter_by_mask(
                s.drop_last(),
                keep.drop_last(),
            )[k];
        assert(s[j] == filter_by_mask(s, keep)[k]);
    }
}

/// `s` with every element removed that equals (under `eq_spec`) the most
/// recently kept element before it: the exact result of adjacent
/// deduplication by `==`.
pub open spec fn dedup_adjacent_spec<T: PartialEq>(s: Seq<T>) -> Seq<T>
    decreases s.len(),
{
    if s.len() == 0 {
        Seq::<T>::empty()
    } else {
        let prefix = dedup_adjacent_spec(s.drop_last());
        if prefix.len() > 0 && s.last().eq_spec(&prefix.last()) {
            prefix
        } else {
            prefix.push(s.last())
        }
    }
}

/// A mask that keeps position 0 and removes exactly the elements equal to
/// their most recently kept predecessor filters to the adjacent
/// deduplication of the sequence.
pub proof fn lemma_dedup_mask_exact<T: PartialEq>(s: Seq<T>, keep: Seq<bool>)
    requires
        keep.len() == s.len(),
        s.len() > 0 ==> keep[0],
        forall|i: int|
            1 <= i < s.len() ==> (#[trigger] keep[i] == !s[i].eq_spec(&last_kept(s, keep, i))),
    ensures
        filter_by_mask(s, keep) == dedup_adjacent_spec(s),
    decreases s.len(),
{
    if s.len() == 0 {
    } else if s.len() == 1 {
        assert(s.drop_last().len() == 0);
        assert(filter_by_mask(s.drop_last(), keep.drop_last()) == Seq::<T>::empty());
        assert(dedup_adjacent_spec(s.drop_last()) == Seq::<T>::empty());
        assert(filter_by_mask(s, keep) =~= dedup_adjacent_spec(s));
    } else {
        let s1 = s.drop_last();
        let k1 = keep.drop_last();
        assert forall|i: int|
            1 <= i < s1.len() implies (#[trigger] k1[i] == !s1[i].eq_spec(
            &last_kept(s1, k1, i),
        )) by {
            assert(s1.take(i) =~= s.take(i));
            assert(k1.take(i) =~= keep.take(i));
        }
        lemma_dedup_mask_exact(s1, k1);
        lemma_filter_by_mask_nonempty(s1, k1);
        assert(s.take(s.len() - 1) =~= s1);
        assert(keep.take(s.len() - 1) =~= k1);
        assert(last_kept(s, keep, s.len() - 1) == filter_by_mask(s1, k1).last());
    }
}

/// The removal decision at position `i` of a deduplication by key: some pair
/// of computed keys, for the element at `i` and for the most recently kept
/// element before it, settled it (exactly, when the key type's equality is
/// lawful).
pub open spec fn dedup_key_decision<T, K: PartialEq, F: Fn(&T) -> K>(
    orig: Seq<T>,
    keep: Seq<bool>,
    key: F,
    i: int,
) -> bool {
    exists|k1: K, k2: K|
        #![trigger call_ensures(key, (&orig[i],), k1), call_ensures(key, (&last_kept(orig, keep, i),), k2)]
        {
            &&& call_ensures(key, (&orig[i],), k1)
            &&& call_ensures(key, (&last_kept(orig, keep, i),), k2)
            &&& (K::obeys_eq_spec() ==> keep[i] == !k1.eq_spec(&k2))
        }
}

/// What a deduplication by key reports: some decision mask `keep` kept the
/// first element and exactly the undeleted positions, and each decision came
/// from comparing the position's key against the key of the most recently
/// kept element.
pub open spec fn dedup_by_key_post<T, K: PartialEq, F: Fn(&T) -> K>(
    orig: Seq<T>,
    result: Seq<T>,
    key: F,
) -> bool {
    exists|keep: Seq<bool>|
        {
            &&& keep.len() == orig.len()
            &&& (orig.len() > 0 ==> keep[0])
            &&& (forall|i: int|
                1 <= i < keep.len() ==> #[trigger] dedup_key_decision(orig, keep, key, i))
            &&& result == filter_by_mask(orig, keep)
        }
}

pub struct InplaceVec<T, const N: usize> {
    data: Vec<T>,
}

impl<T, const N: usize> View for InplaceVec<T, N> {
    type V = Seq<T>;

    closed spec fn view(&self) -> Seq<T> {
        self.data@
    }
}

impl<T, const N: usize> InplaceVec<T, N> {
    /// The live elements never outnumber the fixed capacity.
    pub open spec fn wf(&self) -> bool {
        self@.len() <= N
    }

    pub fn new() -> (r: Self)
        ensures
            r.wf(),
            r@ == Seq::<T>::empty(),
    {
        InplaceVec { data: Vec::with_capacity(N) }
    }

    pub fn capacity(&self) -> (r: usize)
        ensures
            r == N,
    {
        N
    }

    pub fn len(&self) -> (r: usize)
        ensures
            r == self@.len(),
    {
        self.data.len()
    }

    pub fn is_empty(&self) -> (r: bool)
        ensures
            r == (self@.len() == 0),
    {
        self.data.len() == 0
    }

    pub fn is_full(&self) -> (r: bool)
        ensures
            r == (self@.len() == N),
    {
        self.data.len() == N
    }

    /// Appends `value` at the end, or returns it unchanged when full.
    pub fn push(&mut self, value: T) -> (r: Result<(), T>)
        requires
            old(self).wf(),
        ensures
            final(self).wf(),
            old(self)@.len() < N ==> r is Ok && final(self)@ == old(self)@.push(value),
            old(self)@.len() == N ==> r == Result::<(), T>::Err(value) && final(self)@ == old(self)@,
    {
        if self.is_full() {
            return Err(value);
        }
        self.data.push(value);
        Ok(())
    }

    /// Removes and returns the last element, or returns nothing when empty.
    pub fn pop(&mut self) -> (r: Option<T>)
        requires
            old(self).wf(),
        ensures
            final(self).wf(),
            old(self)@.len() == 0 ==> r is None && final(self)@ == old(self)@,
            old(self)@.len() > 0 ==> r == Some(old(self)@.last()) && final(self)@ == old(self)@.drop_last(),
    {
        if self.is_empty() {
            return None;
        }
        Some(self.data.pop().unwrap())
    }

    pub fn get(&self, index: usize) -> (r: Option<&T>)
        ensures
            index < self@.len() ==> (r matches Some(x) && *x == self@[index as int]),
            index >= self@.len() ==> r is None,
    {
        if index < self.data.len() {
            Some(&self.data[index])
        } else {
            None
        }
    }

    pub fn as_slice(&self) -> (r: &[T])
        ensures
            r@ == self@,
    {
        self.data.as_slice()
    }

    /// Shortens the vector to at most `len` elements, destroying the tail;
    /// a request no shorter than the current length leaves it unchanged.
    pub fn truncate(&mut self, len: usize)
        requires
            old(self).wf(),
        ensures
            final(self).wf(),
            len <= old(self)@.len() ==> final(self)@ == old(self)@.take(len as int),
            len > old(self)@.len() ==> final(self)@ == old(self)@,
    {
        self.data.truncate(len);
    }

    pub fn clear(&mut self)
        ensures
            final(self).wf(),
            final(self)@ == Seq::<T>::empty(),
    {
        self.data.clear();
    }

    /// O(1) removal: moves the last element into the freed slot.
    pub fn swap_remove(&mut self, index: usize) -> (r: Result<T, InplaceError>)
        requires
            old(self).wf(),
        ensures
            final(self).wf(),
            index < old(self)@.len() ==> r == Result::<T, InplaceError>::Ok(old(self)@[index as int])
                && final(self)@ == old(self)@.update(index as int, old(self)@.last()).drop_last(),
            index >= old(self)@.len() ==> final(self)@ == old(self)@
                && r == Result::<T, InplaceError>::Err(InplaceError::IndexOutOfBounds {
                    index,
                    len: old(self)@.len() as usize,
                }),
    {
        let len = self.data.len();
        if index >= len {
            return Err(InplaceError::IndexOutOfBounds { index, len });
        }
        Ok(self.data.swap_remove(index))
    }

    /// Inserts `element` at `index`, shifting the tail one slot towards the
    /// back; a full vector or an index past the end hands the element back.
    pub fn insert(&mut self, index: usize, element: T) -> (r: Result<(), (T, InplaceError)>)
        requires
            old(self).wf(),
        ensures
            final(self).wf(),
            old(self)@.len() == N ==> final(self)@ == old(self)@
                && r == Result::<(), (T, InplaceError)>::Err((element, InplaceError::CapacityExceeded {
                    len: old(self)@.len() as usize,
                    additional: 1,
                    capacity: N,
                })),
            old(self)@.len() < N && index > old(self)@.len() ==> final(self)@ == old(self)@
                && r == Result::<(), (T, InplaceError)>::Err((element, InplaceError::IndexOutOfBounds {
                    index,
                    len: old(self)@.len() as usize,
                })),
            old(self)@.len() < N && index <= old(self)@.len() ==> r is Ok
                && final(self)@ == old(self)@.insert(index as int, element),
    {
        if self.is_full() {
            let len = self.data.len();
            return Err((element, InplaceError::CapacityExceeded { len, additional: 1, capacity: N }));
        }
        let len = self.data.len();
        if index > len {
            return Err((element, InplaceError::IndexOutOfBounds { index, len }));
        }
        self.data.insert(index, element);
        Ok(())
    }

    /// Removes and returns the element at `index`, shifting the tail one slot
    /// towards the front.
    pub fn remove(&mut self, index: usize) -> (r: Result<T, InplaceError>)
        requires
            old(self).wf(),
        ensures
            final(self).wf(),
            index < old(self)@.len() ==> r == Result::<T, InplaceError>::Ok(old(self)@[index as int])
                && final(self)@ == old(self)@.remove(index as int),
            index >= old(self)@.len() ==> final(self)@ == old(self)@
                && r == Result::<T, InplaceError>::Err(InplaceError::IndexOutOfBounds {
                    index,
                    len: old(self)@.len() as usize,
                }),
    {
        let len = self.data.len();
        if index >= len {
            return Err(InplaceError::IndexOutOfBounds { index, len });
        }
        Ok(self.data.remove(index))
    }

    /// Bulk-moves every element of `other` to the end of `self`; refused
    /// as a whole when the combined length would exceed the capacity.
    pub fn append(&mut self, other: &mut Self) -> (r: Result<(), InplaceError>)
        requires
            old(self).wf(),
            old(other).wf(),
        ensures
            final(self).wf(),
            final(other).wf(),
            old(self)@.len() + old(other)@.len() <= N ==> r is Ok
                && final(self)@ == old(self)@ + old(other)@
                && final(other)@ == Seq::<T>::empty(),
            old(self)@.len() + old(other)@.len() > N ==> final(self)@ == old(self)@
                && final(other)@ == old(other)@
                && r == Result::<(), InplaceError>::Err(InplaceError::CapacityExceeded {
                    len: old(self)@.len() as usize,
                    additional: old(other)@.len() as usize,
                    capacity: N,
                }),
    {
        let self_len = self.data.len();
        let other_len = other.data.len();
        if other_len > N - self_len {
            return Err(InplaceError::CapacityExceeded {
                len: self_len,
                additional: other_len,
                capacity: N,
            });
        }
        self.data.append(&mut other.data);
        Ok(())
    }

    /// Builds a vector from at most `N` supplied elements.
    pub fn from_vec(v: Vec<T>) -> (r: Self)
        requires
            v@.len() <= N,
        ensures
            r.wf(),
            r@ == v@,
    {
        InplaceVec { data: v }
    }

    /// Builds a vector from a supplied sequence of elements, silently
    /// stopping once `N` elements have been taken.
    pub fn from_iter(v: Vec<T>) -> (r: Self)
        ensures
            r.wf(),
            r@ == v@.take(if v@.len() <= N { v@.len() as int } else { N as int }),
    {
        let mut v = v;
        v.truncate(N);
        InplaceVec { data: v }
    }

    /// Consumes the vector into an owning cursor over its elements, front to
    /// back.
    pub fn into_iter(self) -> (r: Drain<T>)
        ensures
            r@ == self@,
    {
        Drain { items: self.data }
    }

    /// Exchanges the elements at positions `i` and `j`.
    pub(crate) fn swap(&mut self, i: usize, j: usize)
        requires
            old(self).wf(),
            i < old(self)@.len(),
            j < old(self)@.len(),
        ensures
            final(self).wf(),
            final(self)@ == old(self)@.update(i as int, old(self)@[j as int]).update(
                j as int,
                old(self)@[i as int],
            ),
    {
        if i == j {
            proof {
                assert(final(self)@ =~= old(self)@.update(i as int, old(self)@[j as int]).update(
                    j as int,
                    old(self)@[i as int],
                ));
            }
            return;
        }
        let ghost orig = self.data@;
        let (lo, hi): (usize, usize) = if i < j { (i, j) } else { (j, i) };
        let x = self.data.remove(hi);
        let y = self.data.remove(lo);
        self.data.insert(lo, x);
        self.data.insert(hi, y);
        proof {
            assert(final(self).data@ =~= orig.update(i as int, orig[j as int]).update(
                j as int,
                orig[i as int],
            ));
        }
    }

    /// Keeps exactly the elements the predicate approves, in their original
    /// order, compacting them into the front and shortening the vector;
    /// a single stable in-place pass.
    pub fn retain<F: Fn(&T) -> bool>(&mut self, f: F)
        requires
            old(self).wf(),
            forall|i: int| 0 <= i < old(self)@.len() ==> call_requires(f, (&old(self)@[i],)),
        ensures
            final(self).wf(),
            exists|keep: Seq<bool>|
                {
                    &&& keep.len() == old(self)@.len()
                    &&& (forall|i: int|
                        0 <= i < keep.len() ==> call_ensures(f, (&old(self)@[i],), #[trigger] keep[i]))
                    &&& final(self)@ == filter_by_mask(old(self)@, keep)
                },
    {
        let ghost orig = self@;
        let ghost mut keep: Seq<bool> = Seq::empty();
        let len = self.data.len();
        let mut read: usize = 0;
        let mut write: usize = 0;
        while read < len
            invariant
                self.wf(),
                len == orig.len(),
                self@.len() == orig.len(),
                read <= len,
                write <= read,
                keep.len() == read as int,
                forall|i: int| 0 <= i < orig.len() ==> call_requires(f, (&orig[i],)),
                forall|i: int| 0 <= i < read ==> call_ensures(f, (&orig[i],), #[trigger] keep[i]),
                self@.subrange(0, write as int) == filter_by_mask(
                    orig.take(read as int),
                    keep.take(read as int),
                ),
                write as int == filter_by_mask(orig.take(read as int), keep.take(read as int)).len(),
                forall|k: int| read <= k < orig.len() ==> self@[k] == orig[k],
            decreases len - read,
        {
            proof {
                assert(self.data@[read as int] == orig[read as int]);
            }
            let keep_it = f(&self.data[read]);
            proof {
                let prev_keep = keep;
                assert(prev_keep.take(read as int) =~= prev_keep);
                keep = keep.push(keep_it);
                assert(keep.take(read as int) =~= prev_keep);
                assert(keep.take(read as int + 1) =~= keep);
                lemma_filter_by_mask_step(orig, keep, read as int);
            }
            let ghost before = self@;
            if keep_it {
                if write != read {
                    self.swap(write, read);
                }
                proof {
                    assert(self@.subrange(0, write as int) =~= before.subrange(0, write as int));
                    assert(self@[write as int] == orig[read as int]);
                    assert(self@.subrange(0, write as int + 1) =~= before.subrange(
                        0,
                        write as int,
                    ).push(orig[read as int]));
                }
                write += 1;
            }
            read += 1;
        }
        proof {
            assert(orig.take(len as int) =~= orig);
            assert(keep.take(len as int) =~= keep);
        }
        let ghost pre = self@;
        self.data.truncate(write);
        proof {
            assert(self@ =~= pre.subrange(0, write as int));
            assert(final(self)@ == filter_by_mask(orig, keep));
        }
    }

    /// Removes and returns the last element when the predicate approves it;
    /// otherwise, or when empty, leaves the vector unchanged.
    pub fn pop_if<F: Fn(&T) -> bool>(&mut self, predicate: F) -> (r: Option<T>)
        requires
            old(self).wf(),
            old(self)@.len() > 0 ==> call_requires(predicate, (&old(self)@.last(),)),
        ensures
            final(self).wf(),
            old(self)@.len() == 0 ==> r is None && final(self)@ == old(self)@,
            old(self)@.len() > 0 ==> ({
                ||| (r == Some(old(self)@.last()) && final(self)@ == old(self)@.drop_last()
                    && call_ensures(predicate, (&old(self)@.last(),), true))
                ||| (r is None && final(self)@ == old(self)@
                    && call_ensures(predicate, (&old(self)@.last(),), false))
            }),
    {
        if self.data.len() == 0 {
            return None;
        }
        let last_index = self.data.len() - 1;
        if predicate(&self.data[last_index]) {
            self.pop()
        } else {
            None
        }
    }

    /// Removes, in one stable pass, every element the two-place predicate
    /// declares a duplicate of the most recently kept element; the predicate
    /// receives the candidate first and the kept element second.
    #[verifier::rlimit(100)]
    #[verifier::spinoff_prover]
    pub fn dedup_by<F: Fn(&T, &T) -> bool>(&mut self, same_bucket: F)
        requires
            old(self).wf(),
            forall|i: int, j: int|
                0 <= i < old(self)@.len() && 0 <= j < old(self)@.len() ==> call_requires(
                    same_bucket,
                    (&old(self)@[i], &old(self)@[j]),
                ),
        ensures
            final(self).wf(),
            exists|keep: Seq<bool>|
                {
                    &&& keep.len() == old(self)@.len()
                    &&& (old(self)@.len() > 0 ==> keep[0])
                    &&& (forall|i: int|
                        1 <= i < keep.len() ==> call_ensures(
                            same_bucket,
                            (&old(self)@[i], &last_kept(old(self)@, keep, i)),
                            !#[trigger] keep[i],
                        ))
                    &&& final(self)@ == filter_by_mask(old(self)@, keep)
                },
    {
        let ghost orig = self@;
        let len = self.data.len();
        if len <= 1 {
            proof {
                let keep = Seq::<bool>::new(orig.len(), |i: int| true);
                assert(filter_by_mask(Seq::<T>::empty(), Seq::<bool>::empty())
                    == Seq::<T>::empty());
                if orig.len() == 1 {
                    assert(orig.drop_last() =~= Seq::<T>::empty());
                    assert(keep.drop_last() =~= Seq::<bool>::empty());
                    assert(filter_by_mask(orig, keep) =~= orig);
                } else {
                    assert(orig =~= Seq::<T>::empty());
                    assert(keep =~= Seq::<bool>::empty());
                    assert(filter_by_mask(orig, keep) =~= orig);
                }
                assert(final(self)@ == filter_by_mask(orig, keep));
            }
            return;
        }
        let ghost mut keep: Seq<bool> = seq![true];
        let ghost mut last_idx: int = 0;
        let mut read: usize = 1;
        let mut write: usize = 1;
        proof {
            assert(filter_by_mask(Seq::<T>::empty(), Seq::<bool>::empty()) == Seq::<T>::empty());
            assert(orig.take(1).drop_last() =~= Seq::<T>::empty());
            assert(keep.take(1).drop_last() =~= Seq::<bool>::empty());
            assert(keep.take(1) =~= keep);
            assert(filter_by_mask(orig.take(1), keep.take(1)) =~= orig.take(1));
        }
        while read < len
            invariant
                self.wf(),
                len == orig.len(),
                self@.len() == orig.len(),
                1 <= write <= read <= len,
                keep.len() == read as int,
                keep[0],
                0 <= last_idx < read,
                keep[last_idx],
                forall|i: int, j: int|
                    0 <= i < orig.len() && 0 <= j < orig.len() ==> call_requires(
                        same_bucket,
                        (&orig[i], &orig[j]),
                    ),
                forall|i: int|
                    1 <= i < read ==> call_ensures(
                        same_bucket,
                        (&orig[i], &last_kept(orig, keep, i)),
                        !#[trigger] keep[i],
                    ),
                self@.subrange(0, write as int) == filter_by_mask(
                    orig.take(read as int),
                    keep.take(read as int),
                ),
                write as int == filter_by_mask(orig.take(read as int), keep.take(read as int)).len(),
                self@[write - 1] == orig[last_idx],
                orig[last_idx] == filter_by_mask(orig.take(read as int), keep.take(read as int)).last(),
                forall|k: int| read <= k < orig.len() ==> self@[k] == orig[k],
            decreases len - read,
        {
            proof {
                assert(self.data@[read as int] == orig[read as int]);
                assert(self.data@[write - 1] == orig[last_idx]);
            }
            let dup = same_bucket(&self.data[read], &self.data[write - 1]);
            proof {
                let prev_keep = keep;
                assert(prev_keep.take(read as int) =~= prev_keep);
                keep = keep.push(!dup);
                assert(keep.take(read as int) =~= prev_keep);
                assert(keep.take(read as int + 1) =~= keep);
                lemma_filter_by_mask_step(orig, keep, read as int);
                assert(last_kept(orig, keep, read as int) == filter_by_mask(
                    orig.take(read as int),
                    prev_keep.take(read as int),
                ).last());
                assert forall|i: int| 0 <= i <= read as int implies #[trigger] keep.take(i)
                    == prev_keep.take(i) by {
                    assert(keep.take(i) =~= prev_keep.take(i));
                }
                assert(last_kept(orig, keep, read as int) == orig[last_idx]);
                assert(call_ensures(
                    same_bucket,
                    (&orig[read as int], &last_kept(orig, keep, read as int)),
                    dup,
                ));
                assert forall|i: int| 1 <= i < read as int + 1 implies call_ensures(
                    same_bucket,
                    (&orig[i], &last_kept(orig, keep, i)),
                    !#[trigger] keep[i],
                ) by {
                    if i < read as int {
                        assert(keep[i] == prev_keep[i]);
                        assert(last_kept(orig, keep, i) == last_kept(orig, prev_keep, i));
                    }
                }
            }
            let ghost before = self@;
            if !dup {
                if write != read {
                    self.swap(write, read);
                }
                proof {
                    assert(self@.subrange(0, write as int) =~= before.subrange(0, write as int));
                    assert(self@[write as int] == orig[read as int]);
                    assert(self@.subrange(0, write as int + 1) =~= before.subrange(
                        0,
                        write as int,
                    ).push(orig[read as int]));
                    last_idx = read as int;
                }
                write += 1;
            }
            read += 1;
        }
        proof {
            assert(orig.take(len as int) =~= orig);
            assert(keep.take(len as int) =~= keep);
        }
        let ghost pre = self@;
        self.data.truncate(write);
        proof {
            assert(self@ =~= pre.subrange(0, write as int));
            assert(final(self)@ == filter_by_mask(orig, keep));
        }
    }

    /// Removes every element whose key, computed by `key`, equals the key of
    /// the most recently kept element; keeps the first of each run.
    #[verifier::rlimit(100)]
    #[verifier::spinoff_prover]
    pub fn dedup_by_key<K: PartialEq, F: Fn(&T) -> K>(&mut self, key: F)
        requires
            old(self).wf(),
            forall|i: int| 0 <= i < old(self)@.len() ==> call_requires(key, (&old(self)@[i],)),
        ensures
            final(self).wf(),
            dedup_by_key_post(old(self)@, final(self)@, key),
    {
        let ghost orig = self@;
        let key_spec: Ghost<F> = Ghost(key);
        let same = |a: &T, b: &T| -> (r: bool)
            requires
                call_requires(key_spec@, (a,)),
                call_requires(key_spec@, (b,)),
            ensures
                exists|k1: K, k2: K|
                    #![trigger call_ensures(key_spec@, (a,), k1), call_ensures(key_spec@, (b,), k2)]
                    {
                        &&& call_ensures(key_spec@, (a,), k1)
                        &&& call_ensures(key_spec@, (b,), k2)
                        &&& (K::obeys_eq_spec() ==> r == k1.eq_spec(&k2))
                    },
            {
                let k1 = key(a);
                let k2 = key(b);
                let res = k1 == k2;
                proof {
                    assert(call_ensures(key_spec@, (a,), k1));
                    assert(call_ensures(key_spec@, (b,), k2));
                    assert(K::obeys_eq_spec() ==> res == k1.eq_spec(&k2));
                }
                res
            };
        self.dedup_by(same);
        proof {
            let keep = choose|keep: Seq<bool>|
                {
                    &&& keep.len() == orig.len()
                    &&& (orig.len() > 0 ==> keep[0])
                    &&& (forall|i: int|
                        1 <= i < keep.len() ==> call_ensures(
                            same,
                            (&orig[i], &last_kept(orig, keep, i)),
                            !#[trigger] keep[i],
                        ))
                    &&& self@ == filter_by_mask(orig, keep)
                };
            assert forall|i: int| 1 <= i < keep.len() implies #[trigger] dedup_key_decision(
                orig,
                keep,
                key_spec@,
                i,
            ) by {
                assert(call_ensures(same, (&orig[i], &last_kept(orig, keep, i)), !keep[i]));
                assert(orig.take(i).len() == i && keep.take(i).len() == i);
                lemma_filter_by_mask_nonempty(orig.take(i), keep.take(i));
                lemma_filter_by_mask_elements(
                    orig.take(i),
                    keep.take(i),
                    filter_by_mask(orig.take(i), keep.take(i)).len() - 1,
                );
                let j = choose|j: int|
                    0 <= j < orig.take(i).len() && orig.take(i)[j] == filter_by_mask(
                        orig.take(i),
                        keep.take(i),
                    )[filter_by_mask(orig.take(i), keep.take(i)).len() - 1];
                assert(orig[j] == last_kept(orig, keep, i));
                assert(call_requires(key_spec@, (&orig[j],)));
                assert(call_requires(same, (&orig[i], &last_kept(orig, keep, i))));
                assert(exists|k1: K, k2: K|
                    #![trigger call_ensures(key_spec@, (&orig[i],), k1), call_ensures(key_spec@, (&last_kept(orig, keep, i),), k2)]
                    {
                        &&& call_ensures(key_spec@, (&orig[i],), k1)
                        &&& call_ensures(key_spec@, (&last_kept(orig, keep, i),), k2)
                        &&& (K::obeys_eq_spec() ==> keep[i] == !k1.eq_spec(&k2))
                    });
            }
            assert(dedup_by_key_post(orig, self@, key_spec@));
            assert(dedup_by_key_post(orig, self@, key));
        }
    }

    /// Removes the elements of logical range `[start, end)` and hands them
    /// out through a draining cursor; the surviving tail closes the gap. An
    /// invalid range is refused whole.
    pub fn drain(&mut self, start: usize, end: usize) -> (r: Result<Drain<T>, InplaceError>)
        requires
            old(self).wf(),
        ensures
            final(self).wf(),
            start <= end <= old(self)@.len() ==> (r matches Ok(d) && d@ == old(self)@.subrange(
                start as int,
                end as int,
            ) && final(self)@ == old(self)@.subrange(0, start as int) + old(self)@.subrange(
                end as int,
                old(self)@.len() as int,
            )),
            !(start <= end <= old(self)@.len()) ==> final(self)@ == old(self)@ && r == Result::<
                Drain<T>,
                InplaceError,
            >::Err(InplaceError::InvalidRange { start, end, len: old(self)@.len() as usize }),
    {
        let len = self.data.len();
        if !(start <= end && end <= len) {
            return Err(InplaceError::InvalidRange { start, end, len });
        }
        let mut tail = self.data.split_off(end);
        let items = self.data.split_off(start);
        self.data.append(&mut tail);
        proof {
            assert(final(self)@ =~= old(self)@.subrange(0, start as int) + old(self)@.subrange(
                end as int,
                old(self)@.len() as int,
            ));
            assert(items@ =~= old(self)@.subrange(start as int, end as int));
        }
        Ok(Drain { items })
    }

    /// Replaces the element at position `i`, returning the old element.
    pub(crate) fn replace(&mut self, i: usize, value: T) -> (r: T)
        requires
            old(self).wf(),
            i < old(self)@.len(),
        ensures
            final(self).wf(),
            final(self)@ == old(self)@.update(i as int, value),
            r == old(self)@[i as int],
    {
        let mut value = value;
        core::mem::swap(&mut value, &mut self.data[i]);
        value
    }

    /// Overwrites the element at position `i`.
    pub(crate) fn set(&mut self, i: usize, value: T)
        requires
            old(self).wf(),
            i < old(self)@.len(),
        ensures
            final(self).wf(),
            final(self)@ == old(self)@.update(i as int, value),
    {
        self.data[i] = value;
    }
}

impl<T: PartialEq, const N: usize> InplaceVec<T, N> {
    /// Removes consecutive repeated elements, keeping the first of each run.
    pub fn dedup(&mut self)
        requires
            old(self).wf(),
            T::obeys_eq_spec(),
        ensures
            final(self).wf(),
            final(self)@ == dedup_adjacent_spec(old(self)@),
    {
        let ghost orig = self@;
        let same = |a: &T, b: &T| -> (r: bool)
            ensures
                T::obeys_eq_spec() ==> r == a.eq_spec(b),
            {
                a == b
            };
        self.dedup_by(same);
        proof {
            let keep = choose|keep: Seq<bool>|
                {
                    &&& keep.len() == orig.len()
                    &&& (orig.len() > 0 ==> keep[0])
                    &&& (forall|i: int|
                        1 <= i < keep.len() ==> call_ensures(
                            same,
                            (&orig[i], &last_kept(orig, keep, i)),
                            !#[trigger] keep[i],
                        ))
                    &&& self@ == filter_by_mask(orig, keep)
                };
            assert forall|i: int|
                1 <= i < orig.len() implies (#[trigger] keep[i] == !orig[i].eq_spec(
                &last_kept(orig, keep, i),
            )) by {
                assert(call_ensures(same, (&orig[i], &last_kept(orig, keep, i)), !keep[i]));
            }
            lemma_dedup_mask_exact(orig, keep);
        }
    }
}

impl<T, const N: usize> Default for InplaceVec<T, N> {
    fn default() -> (r: Self)
        ensures
            r.wf(),
            r@ == Seq::<T>::empty(),
    {
        Self::new()
    }
}

impl<T: Clone, const N: usize> Clone for InplaceVec<T, N> {
    /// Clones every live element in order; the copy has the same length and
    /// capacity, and each of its elements is a clone of the original.
    fn clone(&self) -> (r: Self)
        ensures
            r@.len() == self@.len(),
            self.wf() ==> r.wf(),
            forall|i: int|
                0 <= i < self@.len() ==> vstd::pervasive::cloned::<T>(self@[i], #[trigger] r@[i]),
    {
        let mut data: Vec<T> = Vec::with_capacity(self.data.len());
        let mut i: usize = 0;
        while i < self.data.len()
            invariant
                i <= self.data@.len(),
                data@.len() == i as int,
                forall|k: int|
                    0 <= k < i as int ==> vstd::pervasive::cloned::<T>(
                        self.data@[k],
                        #[trigger] data@[k],
                    ),
            decreases self.data@.len() - i,
        {
            data.push(self.data[i].clone());
            i += 1;
        }
        InplaceVec { data }
    }
}


/// A draining cursor: owns the elements removed from a vector's range and
/// hands them out from either end.
pub struct Drain<T> {
    items: Vec<T>,
}

impl<T> View for Drain<T> {
    type V = Seq<T>;

    closed spec fn view(&self) -> Seq<T> {
        self.items@
    }
}

impl<T> Drain<T> {
    /// A cursor over the supplied elements.
    pub(crate) fn from_items(items: Vec<T>) -> (r: Self)
        ensures
            r@ == items@,
    {
        Drain { items }
    }

    /// A cursor with nothing left to hand out.
    pub(crate) fn empty() -> (r: Self)
        ensures
            r@ == Seq::<T>::empty(),
    {
        Drain { items: Vec::new() }
    }

    /// The next element from the front.
    pub fn next(&mut self) -> (r: Option<T>)
        ensures
            old(self)@.len() == 0 ==> r is None && final(self)@ == old(self)@,
            old(self)@.len() > 0 ==> r == Some(old(self)@.first()) && final(self)@ == old(
                self,
            )@.drop_first(),
    {
        if self.items.len() == 0 {
            return None;
        }
        let r = self.items.remove(0);
        proof {
            assert(final(self)@ =~= old(self)@.drop_first());
        }
        Some(r)
    }

    /// The next element from the back.
    pub fn next_back(&mut self) -> (r: Option<T>)
        ensures
            old(self)@.len() == 0 ==> r is None && final(self)@ == old(self)@,
            old(self)@.len() > 0 ==> r == Some(old(self)@.last()) && final(self)@ == old(
                self,
            )@.drop_last(),
    {
        self.items.pop()
    }

    pub fn len(&self) -> (r: usize)
        ensures
            r == self@.len(),
    {
        self.items.len()
    }

    pub fn is_empty(&self) -> (r: bool)
        ensures
            r == (self@.len() == 0),
    {
        self.items.len() == 0
    }

    /// The elements not yet handed out, in order.
    pub fn as_slice(&self) -> (r: &[T])
        ensures
            r@ == self@,
    {
        self.items.as_slice()
    }
}

} // verus!
