//! A fixed-capacity double-ended queue over a ring buffer.
//!
//! `InplaceDeque<T, N>` stores the logical element at position `i` in
//! physical slot `(head + i) mod N`; exactly the slots reachable this way are
//! occupied. Pushes at either end are O(1) and adjust `head` and `len` only;
//! every operation keeps the ring shape stated by [`InplaceDeque::wf`].

use vstd::prelude::*;
use vstd::std_specs::cmp::PartialEqSpec;
use vstd::std_specs::cmp::OrdSpec;
use vstd::arithmetic::div_mod::{lemma_small_mod, lemma_mod_multiples_vanish};

use crate::errors::InplaceError;

verus! {

/// Whether `n` is a power of two.
pub open spec fn is_pow2(n: nat) -> bool
    decreases n,
{
    if n == 0 {
        false
    } else if n == 1 {
        true
    } else {
        n % 2 == 0 && is_pow2(n / 2)
    }
}

/// The physical slot of logical position `i` in a ring of `n` slots whose
/// first element sits in slot `head`.
pub open spec fn ring_slot(head: int, i: int, n: int) -> int {
    (head + i) % n
}

/// Wrapped index arithmetic stays in range and agrees with plain addition or
/// one subtraction of `n`.
proof fn lemma_ring_slot_small(head: int, i: int, n: int)
    requires
        0 < n,
        0 <= head < n,
        0 <= i,
        head + i < 2 * n,
    ensures
        ring_slot(head, i, n) == if head + i < n {
            head + i
        } else {
            head + i - n
        },
        0 <= ring_slot(head, i, n) < n,
{
    if head + i < n {
        lemma_small_mod((head + i) as nat, n as nat);
    } else {
        lemma_mod_multiples_vanish(1, head + i - n, n);
        lemma_small_mod((head + i - n) as nat, n as nat);
    }
}

/// Reduces a doubly-wrapped index: walking `i` then `j` positions forward is
/// the same as walking `i + j` positions.
proof fn lemma_ring_slot_add(head: int, i: int, j: int, n: int)
    requires
        0 < n,
        0 <= head < n,
        0 <= i,
        0 <= j < n,
    ensures
        ring_slot(ring_slot(head, i, n), j, n) == ring_slot(head, i + j, n),
{
    let s = ring_slot(head, i, n);
    vstd::arithmetic::div_mod::lemma_mod_bound(head + i, n);
    vstd::arithmetic::div_mod::lemma_add_mod_noop(head + i, j, n);
    lemma_small_mod(j as nat, n as nat);
    vstd::arithmetic::div_mod::lemma_mod_twice(head + i, n);
    assert((s + j) % n == (head + i + j) % n);
}

/// The slot of logical position `i` lies in the ring and walking back
/// `head` positions recovers `i`.
proof fn lemma_ring_slot_inverse(head: int, i: int, n: int)
    requires
        0 < n,
        0 <= head < n,
        0 <= i < n,
    ensures
        0 <= ring_slot(head, i, n) < n,
        (ring_slot(head, i, n) - head) % n == i,
{
    lemma_ring_slot_small(head, i, n);
    let s = ring_slot(head, i, n);
    if head + i < n {
        lemma_small_mod(i as nat, n as nat);
    } else {
        lemma_mod_multiples_vanish(1, s - head, n);
        lemma_small_mod(i as nat, n as nat);
        assert(s - head + n == i);
    }
}

/// Distinct logical positions occupy distinct slots.
proof fn lemma_ring_slot_distinct(head: int, i: int, j: int, n: int)
    requires
        0 < n,
        0 <= head < n,
        0 <= i < n,
        0 <= j < n,
        i != j,
    ensures
        ring_slot(head, i, n) != ring_slot(head, j, n),
{
    lemma_ring_slot_inverse(head, i, n);
    lemma_ring_slot_inverse(head, j, n);
}

/// Whether slot `k` lies in the ring range of `count` slots starting at
/// `start`, which may wrap past the end of the storage.
pub open spec fn in_ring_range(k: int, start: int, count: int, n: int) -> bool {
    (k - start) % n < count
}

/// A ring range is one linear interval, or two when it wraps.
proof fn lemma_ring_range_char(k: int, start: int, count: int, n: int)
    requires
        0 < n,
        0 <= start < n,
        0 <= count <= n,
        0 <= k < n,
    ensures
        in_ring_range(k, start, count, n) <==> if start + count <= n {
            start <= k < start + count
        } else {
            k >= start || k < start + count - n
        },
{
    if k >= start {
        lemma_small_mod((k - start) as nat, n as nat);
    } else {
        lemma_mod_multiples_vanish(1, k - start, n);
        lemma_small_mod((k - start + n) as nat, n as nat);
    }
}

/// The wrapped difference of two in-range indices, without the modulus.
proof fn lemma_wrap_diff(d: int, s: int, n: int)
    requires
        0 < n,
        0 <= d < n,
        0 <= s < n,
    ensures
        (d + (n - s)) % n == if d >= s {
            d - s
        } else {
            d + n - s
        },
{
    if d >= s {
        lemma_mod_multiples_vanish(1, d - s, n);
        lemma_small_mod((d - s) as nat, n as nat);
    } else {
        lemma_small_mod((d + n - s) as nat, n as nat);
    }
}

/// Wrapped distance between the slots of two logical positions is the
/// wrapped difference of the positions.
proof fn lemma_ring_dist(h: int, i: int, j: int, n: int)
    requires
        0 < n,
        0 <= h < n,
    ensures
        (ring_slot(h, i, n) - ring_slot(h, j, n)) % n == (i - j) % n,
{
    vstd::arithmetic::div_mod::lemma_sub_mod_noop(h + i, h + j, n);
    vstd::arithmetic::div_mod::lemma_mod_twice(h + i - (h + j), n);
    assert((ring_slot(h, i, n) - ring_slot(h, j, n)) % n == ((h + i) - (h + j)) % n);
}

/// Evaluates a modulus whose argument lies within one period of zero.
proof fn lemma_mod_pm(x: int, n: int)
    requires
        0 < n,
        -n <= x < n,
    ensures
        x % n == if x >= 0 {
            x
        } else {
            x + n
        },
{
    if x >= 0 {
        lemma_small_mod(x as nat, n as nat);
    } else {
        lemma_mod_multiples_vanish(1, x, n);
        lemma_small_mod((x + n) as nat, n as nat);
    }
}

pub struct InplaceDeque<T, const N: usize> {
    buf: Vec<Option<T>>,
    head: usize,
    len: usize,
}

/// Reduces an index below `2 * CAPACITY` into the ring by one conditional
/// subtraction.
fn wrap_index<const CAPACITY: usize>(logical_index: usize) -> (r: usize)
    requires
        CAPACITY > 0,
        (logical_index as int) < 2 * (CAPACITY as int),
    ensures
        r as int == (logical_index as int) % (CAPACITY as int),
        r < CAPACITY,
{
    proof {
        lemma_ring_slot_small(0, logical_index as int, CAPACITY as int);
    }
    if logical_index >= CAPACITY {
        logical_index - CAPACITY
    } else {
        logical_index
    }
}

impl<T, const N: usize> View for InplaceDeque<T, N> {
    type V = Seq<T>;

    closed spec fn view(&self) -> Seq<T> {
        Seq::new(self.len as nat, |i: int| self.buf@[ring_slot(self.head as int, i, N as int)]->0)
    }
}

impl<T, const N: usize> InplaceDeque<T, N> {
    /// The ring invariant: `head` and `len` describe exactly the occupied
    /// slots, every logical position is backed by a value, and every other
    /// slot is vacant.
    pub closed spec fn wf(&self) -> bool {
        &&& self.buf@.len() == N
        &&& self.len <= N
        &&& if N == 0 {
            self.head == 0
        } else {
            self.head < N
        }
        &&& forall|i: int|
            0 <= i < N ==> ((#[trigger] self.buf@[ring_slot(self.head as int, i, N as int)])
                is Some <==> i < self.len as int)
    }

    /// The slot that backs logical position `i`.
    pub closed spec fn spec_slot(&self, i: int) -> int {
        ring_slot(self.head as int, i, N as int)
    }

    proof fn lemma_slot_live(&self, i: int)
        requires
            self.wf(),
            0 <= i < self.len,
        ensures
            0 <= self.spec_slot(i) < N,
            self.buf@[self.spec_slot(i)] is Some,
            self@[i] == self.buf@[self.spec_slot(i)]->0,
            (self.spec_slot(i) - self.head as int) % (N as int) == i,
    {
        lemma_ring_slot_inverse(self.head as int, i, N as int);
    }

    pub fn new() -> (r: Self)
        ensures
            r.wf(),
            r@ == Seq::<T>::empty(),
    {
        let mut buf: Vec<Option<T>> = Vec::with_capacity(N);
        let mut k: usize = 0;
        while k < N
            invariant
                k <= N,
                buf@.len() == k as int,
                forall|j: int| 0 <= j < k as int ==> (#[trigger] buf@[j]) is None,
            decreases N - k,
        {
            buf.push(None);
            k += 1;
        }
        let r = InplaceDeque { buf, head: 0, len: 0 };
        proof {
            assert forall|i: int|
                0 <= i < N implies !((#[trigger] r.buf@[ring_slot(0, i, N as int)]) is Some) by {
                lemma_ring_slot_inverse(0, i, N as int);
            }
            assert(r@ =~= Seq::<T>::empty());
        }
        r
    }

    /// `Self::new()`, accepted only at a power-of-two capacity, where the
    /// ring reduction could be computed by masking.
    pub fn with_pow2_capacity() -> (r: Self)
        requires
            is_pow2(N as nat),
        ensures
            r.wf(),
            r@ == Seq::<T>::empty(),
    {
        Self::new()
    }

    /// Accepted only at a power-of-two capacity; does nothing at runtime.
    pub fn assert_pow2_capacity(&self)
        requires
            is_pow2(N as nat),
    {
    }

    pub fn len(&self) -> (r: usize)
        ensures
            r == self@.len(),
    {
        self.len
    }

    pub fn capacity(&self) -> (r: usize)
        ensures
            r == N,
    {
        N
    }

    pub fn is_empty(&self) -> (r: bool)
        ensures
            r == (self@.len() == 0),
    {
        self.len == 0
    }

    pub fn is_full(&self) -> (r: bool)
        ensures
            r == (self@.len() == N),
    {
        self.len == N
    }

    fn wrap_add(&self, index: usize, addend: usize) -> (r: usize)
        requires
            N > 0,
            index < N,
            addend <= N,
        ensures
            r as int == ring_slot(index as int, addend as int, N as int),
            r < N,
    {
        proof {
            lemma_ring_slot_small(index as int, addend as int, N as int);
        }
        if addend >= N - index {
            index - (N - addend)
        } else {
            index + addend
        }
    }

    fn wrap_sub(&self, index: usize, subtrahend: usize) -> (r: usize)
        requires
            N > 0,
            index < N,
            subtrahend <= N,
        ensures
            r as int == ring_slot(index as int, N as int - subtrahend, N as int),
            r < N,
    {
        proof {
            lemma_ring_slot_small(index as int, N as int - subtrahend, N as int);
        }
        if index >= subtrahend {
            index - subtrahend
        } else {
            index + (N - subtrahend)
        }
    }

    /// The physical slot of logical position `index`.
    fn to_physical_index(&self, index: usize) -> (r: usize)
        requires
            N > 0,
            self.head < N,
            index <= N,
        ensures
            r as int == ring_slot(self.head as int, index as int, N as int),
            r < N,
    {
        proof {
            if index == N {
                lemma_ring_slot_small(self.head as int, index as int, N as int);
                lemma_mod_multiples_vanish(1, self.head as int, N as int);
                lemma_small_mod(self.head as nat, N as nat);
            }
        }
        if index == N {
            self.head
        } else {
            self.wrap_add(self.head, index)
        }
    }

    /// Appends at the back, or returns the value unchanged when full.
    pub fn push_back(&mut self, value: T) -> (r: Result<(), T>)
        requires
            old(self).wf(),
        ensures
            final(self).wf(),
            old(self)@.len() < N ==> r is Ok && final(self)@ == old(self)@.push(value),
            old(self)@.len() == N ==> r == Result::<(), T>::Err(value) && final(self)@ == old(
                self,
            )@,
    {
        if self.is_full() {
            return Err(value);
        }
        let index = self.to_physical_index(self.len);
        self.buf[index] = Some(value);
        self.len = self.len + 1;
        proof {
            let n = N as int;
            let h = self.head as int;
            let l = old(self).len as int;
            assert forall|i: int|
                0 <= i < N implies ((#[trigger] self.buf@[ring_slot(h, i, n)]) is Some <==> i
                < self.len as int) by {
                lemma_ring_slot_inverse(h, i, n);
                lemma_ring_slot_inverse(h, l, n);
            }
            assert forall|i: int| 0 <= i < l implies self@[i] == old(self)@[i] by {
                lemma_ring_slot_inverse(h, i, n);
                lemma_ring_slot_inverse(h, l, n);
            }
            assert(final(self)@ =~= old(self)@.push(value));
        }
        Ok(())
    }

    /// Prepends at the front, or returns the value unchanged when full.
    pub fn push_front(&mut self, value: T) -> (r: Result<(), T>)
        requires
            old(self).wf(),
        ensures
            final(self).wf(),
            old(self)@.len() < N ==> r is Ok && final(self)@ == seq![value] + old(self)@,
            old(self)@.len() == N ==> r == Result::<(), T>::Err(value) && final(self)@ == old(
                self,
            )@,
    {
        if self.is_full() {
            return Err(value);
        }
        let new_head = self.wrap_sub(self.head, 1);
        self.buf[new_head] = Some(value);
        self.head = new_head;
        self.len = self.len + 1;
        proof {
            let n = N as int;
            let h = old(self).head as int;
            let h2 = new_head as int;
            let l = old(self).len as int;
            assert forall|i: int| 1 <= i < N implies ring_slot(h2, i, n) == ring_slot(
                h,
                i - 1,
                n,
            ) by {
                lemma_ring_slot_add(h, n - 1, i, n);
                lemma_mod_multiples_vanish(1, h + i - 1, n);
            }
            lemma_ring_slot_inverse(h2, 0, n);
            lemma_small_mod(h2 as nat, n as nat);
            assert forall|i: int|
                0 <= i < N implies ((#[trigger] self.buf@[ring_slot(h2, i, n)]) is Some <==> i
                < self.len as int) by {
                if i >= 1 {
                    lemma_ring_slot_inverse(h, i - 1, n);
                    lemma_ring_slot_distinct(h2, 0, i, n);
                }
            }
            assert forall|i: int| 1 <= i < self.len as int implies self@[i] == old(self)@[i - 1] by {
                lemma_ring_slot_inverse(h, i - 1, n);
                lemma_ring_slot_distinct(h2, 0, i, n);
            }
            assert(final(self)@ =~= seq![value] + old(self)@);
        }
        Ok(())
    }

    /// Removes and returns the first element, or nothing when empty.
    pub fn pop_front(&mut self) -> (r: Option<T>)
        requires
            old(self).wf(),
        ensures
            final(self).wf(),
            old(self)@.len() == 0 ==> r is None && final(self)@ == old(self)@,
            old(self)@.len() > 0 ==> r == Some(old(self)@.first()) && final(self)@ == old(
                self,
            )@.drop_first(),
    {
        if self.is_empty() {
            return None;
        }
        proof {
            old(self).lemma_slot_live(0);
            lemma_small_mod(self.head as nat, N as nat);
        }
        let old_head = self.head;
        let value = self.buf[old_head].take();
        self.head = self.to_physical_index(1);
        self.len = self.len - 1;
        proof {
            let n = N as int;
            let h = old(self).head as int;
            let h2 = self.head as int;
            assert forall|i: int| 0 <= i < N - 1 implies ring_slot(h2, i, n) == ring_slot(
                h,
                i + 1,
                n,
            ) by {
                lemma_ring_slot_add(h, 1, i, n);
            }
            assert forall|i: int|
                0 <= i < N implies ((#[trigger] self.buf@[ring_slot(h2, i, n)]) is Some <==> i
                < self.len as int) by {
                if i < N - 1 {
                    lemma_ring_slot_inverse(h, i + 1, n);
                    lemma_ring_slot_distinct(h, 0, i + 1, n);
                } else {
                    lemma_ring_slot_add(h, 1, i, n);
                    lemma_mod_multiples_vanish(1, h, n);
                    lemma_small_mod(h as nat, n as nat);
                    assert(ring_slot(h2, i, n) == ring_slot(h, 0, n));
                }
            }
            assert forall|i: int| 0 <= i < self.len as int implies self@[i] == old(self)@[i + 1] by {
                lemma_ring_slot_inverse(h, i + 1, n);
                lemma_ring_slot_distinct(h, 0, i + 1, n);
            }
            assert(final(self)@ =~= old(self)@.drop_first());
        }
        Some(value.unwrap())
    }

    /// Removes and returns the last element, or nothing when empty.
    pub fn pop_back(&mut self) -> (r: Option<T>)
        requires
            old(self).wf(),
        ensures
            final(self).wf(),
            old(self)@.len() == 0 ==> r is None && final(self)@ == old(self)@,
            old(self)@.len() > 0 ==> r == Some(old(self)@.last()) && final(self)@ == old(
                self,
            )@.drop_last(),
    {
        if self.is_empty() {
            return None;
        }
        proof {
            old(self).lemma_slot_live(old(self).len - 1);
        }
        let old_tail = self.to_physical_index(self.len - 1);
        let value = self.buf[old_tail].take();
        self.len = self.len - 1;
        proof {
            let n = N as int;
            let h = self.head as int;
            let l = old(self).len as int;
            assert forall|i: int|
                0 <= i < N implies ((#[trigger] self.buf@[ring_slot(h, i, n)]) is Some <==> i
                < self.len as int) by {
                lemma_ring_slot_inverse(h, i, n);
                lemma_ring_slot_inverse(h, l - 1, n);
            }
            assert forall|i: int| 0 <= i < self.len as int implies self@[i] == old(self)@[i] by {
                lemma_ring_slot_inverse(h, i, n);
                lemma_ring_slot_inverse(h, l - 1, n);
            }
            assert(final(self)@ =~= old(self)@.drop_last());
        }
        Some(value.unwrap())
    }

    pub fn get(&self, index: usize) -> (r: Option<&T>)
        requires
            self.wf(),
        ensures
            index < self@.len() ==> (r matches Some(x) && *x == self@[index as int]),
            index >= self@.len() ==> r is None,
    {
        if index >= self.len {
            return None;
        }
        proof {
            self.lemma_slot_live(index as int);
        }
        let k = self.to_physical_index(index);
        self.buf[k].as_ref()
    }

    pub fn front(&self) -> (r: Option<&T>)
        requires
            self.wf(),
        ensures
            self@.len() > 0 ==> (r matches Some(x) && *x == self@.first()),
            self@.len() == 0 ==> r is None,
    {
        self.get(0)
    }

    /// Moves a block of `count` values from slots `src..` to slots `dst..`,
    /// choosing a direction that is safe when the two ranges overlap. Source
    /// slots that are not re-covered by the destination are left vacant.
    fn copy(&mut self, src: usize, dst: usize, count: usize)
        requires
            src as int + count as int <= N as int,
            dst as int + count as int <= N as int,
            old(self).buf@.len() == N,
            forall|j: int| 0 <= j < count ==> (#[trigger] old(self).buf@[src + j]) is Some,
        ensures
            final(self).buf@.len() == N,
            final(self).head == old(self).head,
            final(self).len == old(self).len,
            forall|j: int|
                0 <= j < count ==> #[trigger] final(self).buf@[dst + j] == old(self).buf@[src + j],
            forall|k: int|
                0 <= k < N && !(dst <= k < dst + count) && !(src <= k < src + count)
                    ==> #[trigger] final(self).buf@[k] == old(self).buf@[k],
            forall|k: int|
                src <= k < src + count && !(dst <= k < dst + count)
                    ==> (#[trigger] final(self).buf@[k]) is None,
    {
        if src == dst || count == 0 {
            return;
        }
        let ghost orig = self.buf@;
        if dst < src {
            let mut j: usize = 0;
            while j < count
                invariant
                    dst < src,
                    src as int + count as int <= N as int,
                    j <= count,
                    self.buf@.len() == N,
                    self.head == old(self).head,
                    self.len == old(self).len,
                    forall|m: int| 0 <= m < j ==> #[trigger] self.buf@[dst + m] == orig[src + m],
                    forall|k: int|
                        0 <= k < N && !(dst <= k < dst + j) && !(src <= k < src + j)
                            ==> #[trigger] self.buf@[k] == orig[k],
                    forall|k: int|
                        src <= k < src + j && !(dst <= k < dst + j) ==> (#[trigger] self.buf@[k])
                            is None,
                    forall|j2: int| 0 <= j2 < count ==> (#[trigger] orig[src + j2]) is Some,
                decreases count - j,
            {
                let v = self.buf[src + j].take();
                self.buf[dst + j] = v;
                j += 1;
            }
        } else {
            let mut j: usize = count;
            while j > 0
                invariant
                    src < dst,
                    dst as int + count as int <= N as int,
                    j <= count,
                    self.buf@.len() == N,
                    self.head == old(self).head,
                    self.len == old(self).len,
                    forall|m: int|
                        j <= m < count ==> #[trigger] self.buf@[dst + m] == orig[src + m],
                    forall|k: int|
                        0 <= k < N && !(dst + j <= k < dst + count) && !(src + j <= k < src + count)
                            ==> #[trigger] self.buf@[k] == orig[k],
                    forall|k: int|
                        src + j <= k < src + count && !(dst + j <= k < dst + count) ==> (
                        #[trigger] self.buf@[k]) is None,
                    forall|j2: int| 0 <= j2 < count ==> (#[trigger] orig[src + j2]) is Some,
                decreases j,
            {
                j -= 1;
                let v = self.buf[src + j].take();
                self.buf[dst + j] = v;
            }
        }
    }

    /// Moves a block of `count` values from slots `src..` to slots `dst..`;
    /// the ranges must not overlap, so every source slot is left vacant.
    fn copy_nonoverlapping(&mut self, src: usize, dst: usize, count: usize)
        requires
            src as int + count as int <= N as int,
            dst as int + count as int <= N as int,
            src + count <= dst || dst + count <= src,
            old(self).buf@.len() == N,
            forall|j: int| 0 <= j < count ==> (#[trigger] old(self).buf@[src + j]) is Some,
        ensures
            final(self).buf@.len() == N,
            final(self).head == old(self).head,
            final(self).len == old(self).len,
            forall|j: int|
                0 <= j < count ==> #[trigger] final(self).buf@[dst + j] == old(self).buf@[src + j],
            forall|k: int|
                0 <= k < N && !(dst <= k < dst + count) && !(src <= k < src + count)
                    ==> #[trigger] final(self).buf@[k] == old(self).buf@[k],
            forall|k: int| src <= k < src + count ==> (#[trigger] final(self).buf@[k]) is None,
    {
        self.copy(src, dst, count);
    }

    /// Moves a run of `count` values from ring position `src` to ring
    /// position `dst`, where the run may wrap past the end of storage at
    /// either end. The ranges may overlap in at most one continuous region.
    /// Decided by three questions — does the destination trail the source
    /// across the wrap point, does the source run wrap, does the destination
    /// run wrap — each case is at most three plain block moves.
    #[verifier::rlimit(100)]
    #[verifier::spinoff_prover]
    fn wrap_copy(&mut self, src: usize, dst: usize, count: usize)
        requires
            N > 0,
            src < N,
            dst < N,
            count <= N,
            old(self).buf@.len() == N,
            ({
                let diff = if src >= dst {
                    src as int - dst as int
                } else {
                    dst as int - src as int
                };
                (if diff <= N as int - diff {
                    diff
                } else {
                    N as int - diff
                }) + count as int <= N as int
            }),
            forall|j: int|
                0 <= j < count ==> (#[trigger] old(self).buf@[ring_slot(
                    src as int,
                    j,
                    N as int,
                )]) is Some,
        ensures
            final(self).buf@.len() == N,
            final(self).head == old(self).head,
            final(self).len == old(self).len,
            forall|j: int|
                0 <= j < count ==> #[trigger] final(self).buf@[ring_slot(dst as int, j, N as int)]
                    == old(self).buf@[ring_slot(src as int, j, N as int)],
            forall|k: int|
                0 <= k < N && !in_ring_range(k, src as int, count as int, N as int)
                    && !in_ring_range(k, dst as int, count as int, N as int)
                    ==> #[trigger] final(self).buf@[k] == old(self).buf@[k],
            forall|k: int|
                0 <= k < N && in_ring_range(k, src as int, count as int, N as int)
                    && !in_ring_range(k, dst as int, count as int, N as int)
                    ==> (#[trigger] final(self).buf@[k]) is None,
    {
        let ghost n = N as int;
        let ghost s = src as int;
        let ghost d = dst as int;
        let ghost c = count as int;
        let ghost g0 = self.buf@;
        proof {
            assert forall|k: int| s <= k < s + c && k < n implies (#[trigger] g0[k]) is Some by {
                lemma_ring_slot_small(s, k - s, n);
            }
            assert forall|k: int| 0 <= k < s + c - n implies (#[trigger] g0[k]) is Some by {
                lemma_ring_slot_small(s, k - s + n, n);
            }
        }
        if src == dst || count == 0 {
            proof {
                assert forall|j: int|
                    0 <= j < c implies #[trigger] final(self).buf@[ring_slot(d, j, n)] == old(
                    self,
                ).buf@[ring_slot(s, j, n)] by {}
            }
            return;
        }
        let dst_after_src = self.wrap_sub(dst, src) < count;
        proof {
            lemma_wrap_diff(d, s, n);
        }
        let src_pre_wrap_len = N - src;
        let dst_pre_wrap_len = N - dst;
        let src_wraps = src_pre_wrap_len < count;
        let dst_wraps = dst_pre_wrap_len < count;
        let ghost spw = src_pre_wrap_len as int;
        let ghost dpw = dst_pre_wrap_len as int;
        match (dst_after_src, src_wraps, dst_wraps) {
            (_, false, false) => {
                // neither run wraps: one plain move
                self.copy(src, dst, count);
                let ghost g1 = self.buf@;
                proof {
                    assert forall|k: int|
                        d <= k < d + c implies #[trigger] g1[k] == g0[s
                            + (k - d)] by {
                        assert(g1[d + (k - d)] == g0[s + (k - d)]);
                    }
                }
                proof {
                    assert forall|j: int|
                        0 <= j < c implies #[trigger] final(self).buf@[ring_slot(d, j, n)]
                        == g0[ring_slot(s, j, n)] by {
                        lemma_ring_slot_small(s, j, n);
                        lemma_ring_slot_small(d, j, n);
                    }
                    assert forall|k: int|
                        0 <= k < n && !in_ring_range(k, s, c, n) && !in_ring_range(k, d, c, n)
                            implies #[trigger] final(self).buf@[k] == g0[k] by {
                        lemma_ring_range_char(k, s, c, n);
                        lemma_ring_range_char(k, d, c, n);
                    }
                    assert forall|k: int|
                        0 <= k < n && in_ring_range(k, s, c, n) && !in_ring_range(k, d, c, n)
                            implies (#[trigger] final(self).buf@[k]) is None by {
                        lemma_ring_range_char(k, s, c, n);
                        lemma_ring_range_char(k, d, c, n);
                    }
                }
            },
            (false, false, true) => {
                // destination trails and wraps: fill its tail piece, then its
                // wrapped front piece
                self.copy(src, dst, dst_pre_wrap_len);
                let ghost g1 = self.buf@;
                proof {
                    assert forall|k: int|
                        d <= k < d + dpw implies #[trigger] g1[k] == g0[s
                            + (k - d)] by {
                        assert(g1[d + (k - d)] == g0[s + (k - d)]);
                    }
                }
                self.copy(src + dst_pre_wrap_len, 0, count - dst_pre_wrap_len);
                let ghost g2 = self.buf@;
                proof {
                    assert forall|k: int|
                        0 <= k < 0 + (c - dpw) implies #[trigger] g2[k] == g1[(s + dpw)
                            + (k - 0)] by {
                        assert(g2[0 + (k - 0)] == g1[(s + dpw) + (k - 0)]);
                    }
                }
                proof {
                    assert forall|j: int|
                        0 <= j < c implies #[trigger] final(self).buf@[ring_slot(d, j, n)]
                        == g0[ring_slot(s, j, n)] by {
                        lemma_ring_slot_small(s, j, n);
                        lemma_ring_slot_small(d, j, n);
                    }
                    assert forall|k: int|
                        0 <= k < n && !in_ring_range(k, s, c, n) && !in_ring_range(k, d, c, n)
                            implies #[trigger] final(self).buf@[k] == g0[k] by {
                        lemma_ring_range_char(k, s, c, n);
                        lemma_ring_range_char(k, d, c, n);
                    }
                    assert forall|k: int|
                        0 <= k < n && in_ring_range(k, s, c, n) && !in_ring_range(k, d, c, n)
                            implies (#[trigger] final(self).buf@[k]) is None by {
                        lemma_ring_range_char(k, s, c, n);
                        lemma_ring_range_char(k, d, c, n);
                    }
                }
            },
            (true, false, true) => {
                // source leads into a wrapping destination: fill the wrapped
                // front piece first so the tail piece is still intact
                self.copy(src + dst_pre_wrap_len, 0, count - dst_pre_wrap_len);
                let ghost g1 = self.buf@;
                proof {
                    assert forall|k: int|
                        0 <= k < 0 + (c - dpw) implies #[trigger] g1[k] == g0[(s + dpw)
                            + (k - 0)] by {
                        assert(g1[0 + (k - 0)] == g0[(s + dpw) + (k - 0)]);
                    }
                }
                self.copy(src, dst, dst_pre_wrap_len);
                let ghost g2 = self.buf@;
                proof {
                    assert forall|k: int|
                        d <= k < d + dpw implies #[trigger] g2[k] == g1[s
                            + (k - d)] by {
                        assert(g2[d + (k - d)] == g1[s + (k - d)]);
                    }
                }
                proof {
                    assert forall|j: int|
                        0 <= j < c implies #[trigger] final(self).buf@[ring_slot(d, j, n)]
                        == g0[ring_slot(s, j, n)] by {
                        lemma_ring_slot_small(s, j, n);
                        lemma_ring_slot_small(d, j, n);
                    }
                    assert forall|k: int|
                        0 <= k < n && !in_ring_range(k, s, c, n) && !in_ring_range(k, d, c, n)
                            implies #[trigger] final(self).buf@[k] == g0[k] by {
                        lemma_ring_range_char(k, s, c, n);
                        lemma_ring_range_char(k, d, c, n);
                    }
                    assert forall|k: int|
                        0 <= k < n && in_ring_range(k, s, c, n) && !in_ring_range(k, d, c, n)
                            implies (#[trigger] final(self).buf@[k]) is None by {
                        lemma_ring_range_char(k, s, c, n);
                        lemma_ring_range_char(k, d, c, n);
                    }
                }
            },
            (false, true, false) => {
                // wrapping source into a trailing destination: move the tail
                // piece first, then the wrapped front piece
                self.copy(src, dst, src_pre_wrap_len);
                let ghost g1 = self.buf@;
                proof {
                    assert forall|k: int|
                        d <= k < d + spw implies #[trigger] g1[k] == g0[s
                            + (k - d)] by {
                        assert(g1[d + (k - d)] == g0[s + (k - d)]);
                    }
                }
                self.copy(0, dst + src_pre_wrap_len, count - src_pre_wrap_len);
                let ghost g2 = self.buf@;
                proof {
                    assert forall|k: int|
                        (d + spw) <= k < (d + spw) + (c - spw) implies #[trigger] g2[k] == g1[0
                            + (k - (d + spw))] by {
                        assert(g2[(d + spw) + (k - (d + spw))] == g1[0 + (k - (d + spw))]);
                    }
                }
                proof {
                    assert forall|j: int|
                        0 <= j < c implies #[trigger] final(self).buf@[ring_slot(d, j, n)]
                        == g0[ring_slot(s, j, n)] by {
                        lemma_ring_slot_small(s, j, n);
                        lemma_ring_slot_small(d, j, n);
                    }
                    assert forall|k: int|
                        0 <= k < n && !in_ring_range(k, s, c, n) && !in_ring_range(k, d, c, n)
                            implies #[trigger] final(self).buf@[k] == g0[k] by {
                        lemma_ring_range_char(k, s, c, n);
                        lemma_ring_range_char(k, d, c, n);
                    }
                    assert forall|k: int|
                        0 <= k < n && in_ring_range(k, s, c, n) && !in_ring_range(k, d, c, n)
                            implies (#[trigger] final(self).buf@[k]) is None by {
                        lemma_ring_range_char(k, s, c, n);
                        lemma_ring_range_char(k, d, c, n);
                    }
                }
            },
            (true, true, false) => {
                // wrapping source that leads the destination: move the
                // wrapped front piece first
                self.copy(0, dst + src_pre_wrap_len, count - src_pre_wrap_len);
                let ghost g1 = self.buf@;
                proof {
                    assert forall|k: int|
                        (d + spw) <= k < (d + spw) + (c - spw) implies #[trigger] g1[k] == g0[0
                            + (k - (d + spw))] by {
                        assert(g1[(d + spw) + (k - (d + spw))] == g0[0 + (k - (d + spw))]);
                    }
                }
                self.copy(src, dst, src_pre_wrap_len);
                let ghost g2 = self.buf@;
                proof {
                    assert forall|k: int|
                        d <= k < d + spw implies #[trigger] g2[k] == g1[s
                            + (k - d)] by {
                        assert(g2[d + (k - d)] == g1[s + (k - d)]);
                    }
                }
                proof {
                    assert forall|j: int|
                        0 <= j < c implies #[trigger] final(self).buf@[ring_slot(d, j, n)]
                        == g0[ring_slot(s, j, n)] by {
                        lemma_ring_slot_small(s, j, n);
                        lemma_ring_slot_small(d, j, n);
                    }
                    assert forall|k: int|
                        0 <= k < n && !in_ring_range(k, s, c, n) && !in_ring_range(k, d, c, n)
                            implies #[trigger] final(self).buf@[k] == g0[k] by {
                        lemma_ring_range_char(k, s, c, n);
                        lemma_ring_range_char(k, d, c, n);
                    }
                    assert forall|k: int|
                        0 <= k < n && in_ring_range(k, s, c, n) && !in_ring_range(k, d, c, n)
                            implies (#[trigger] final(self).buf@[k]) is None by {
                        lemma_ring_range_char(k, s, c, n);
                        lemma_ring_range_char(k, d, c, n);
                    }
                }
            },
            (false, true, true) => {
                // both runs wrap, destination trailing: the destination's
                // pre-wrap piece is the longer one
                let delta = dst_pre_wrap_len - src_pre_wrap_len;
                self.copy(src, dst, src_pre_wrap_len);
                let ghost g1 = self.buf@;
                proof {
                    assert forall|k: int|
                        d <= k < d + spw implies #[trigger] g1[k] == g0[s
                            + (k - d)] by {
                        assert(g1[d + (k - d)] == g0[s + (k - d)]);
                    }
                }
                self.copy(0, dst + src_pre_wrap_len, delta);
                let ghost g2 = self.buf@;
                proof {
                    assert forall|k: int|
                        (d + spw) <= k < (d + spw) + (dpw - spw) implies #[trigger] g2[k] == g1[0
                            + (k - (d + spw))] by {
                        assert(g2[(d + spw) + (k - (d + spw))] == g1[0 + (k - (d + spw))]);
                    }
                }
                self.copy(delta, 0, count - dst_pre_wrap_len);
                let ghost g3 = self.buf@;
                proof {
                    assert forall|k: int|
                        0 <= k < 0 + (c - dpw) implies #[trigger] g3[k] == g2[(dpw - spw)
                            + (k - 0)] by {
                        assert(g3[0 + (k - 0)] == g2[(dpw - spw) + (k - 0)]);
                    }
                }
                proof {
                    assert forall|j: int|
                        0 <= j < c implies #[trigger] final(self).buf@[ring_slot(d, j, n)]
                        == g0[ring_slot(s, j, n)] by {
                        lemma_ring_slot_small(s, j, n);
                        lemma_ring_slot_small(d, j, n);
                    }
                    assert forall|k: int|
                        0 <= k < n && !in_ring_range(k, s, c, n) && !in_ring_range(k, d, c, n)
                            implies #[trigger] final(self).buf@[k] == g0[k] by {
                        lemma_ring_range_char(k, s, c, n);
                        lemma_ring_range_char(k, d, c, n);
                    }
                    assert forall|k: int|
                        0 <= k < n && in_ring_range(k, s, c, n) && !in_ring_range(k, d, c, n)
                            implies (#[trigger] final(self).buf@[k]) is None by {
                        lemma_ring_range_char(k, s, c, n);
                        lemma_ring_range_char(k, d, c, n);
                    }
                }
            },
            (true, true, true) => {
                // both runs wrap, source leading: the source's pre-wrap piece
                // is the longer one
                let delta = src_pre_wrap_len - dst_pre_wrap_len;
                self.copy(0, delta, count - src_pre_wrap_len);
                let ghost g1 = self.buf@;
                proof {
                    assert forall|k: int|
                        (spw - dpw) <= k < (spw - dpw) + (c - spw) implies #[trigger] g1[k] == g0[0
                            + (k - (spw - dpw))] by {
                        assert(g1[(spw - dpw) + (k - (spw - dpw))] == g0[0 + (k - (spw - dpw))]);
                    }
                }
                self.copy(N - delta, 0, delta);
                let ghost g2 = self.buf@;
                proof {
                    assert forall|k: int|
                        0 <= k < 0 + (spw - dpw) implies #[trigger] g2[k] == g1[(n - (spw - dpw))
                            + (k - 0)] by {
                        assert(g2[0 + (k - 0)] == g1[(n - (spw - dpw)) + (k - 0)]);
                    }
                }
                self.copy(src, dst, dst_pre_wrap_len);
                let ghost g3 = self.buf@;
                proof {
                    assert forall|k: int|
                        d <= k < d + dpw implies #[trigger] g3[k] == g2[s
                            + (k - d)] by {
                        assert(g3[d + (k - d)] == g2[s + (k - d)]);
                    }
                }
                proof {
                    assert forall|j: int|
                        0 <= j < c implies #[trigger] final(self).buf@[ring_slot(d, j, n)]
                        == g0[ring_slot(s, j, n)] by {
                        lemma_ring_slot_small(s, j, n);
                        lemma_ring_slot_small(d, j, n);
                    }
                    assert forall|k: int|
                        0 <= k < n && !in_ring_range(k, s, c, n) && !in_ring_range(k, d, c, n)
                            implies #[trigger] final(self).buf@[k] == g0[k] by {
                        lemma_ring_range_char(k, s, c, n);
                        lemma_ring_range_char(k, d, c, n);
                    }
                    assert forall|k: int|
                        0 <= k < n && in_ring_range(k, s, c, n) && !in_ring_range(k, d, c, n)
                            implies (#[trigger] final(self).buf@[k]) is None by {
                        lemma_ring_range_char(k, s, c, n);
                        lemma_ring_range_char(k, d, c, n);
                    }
                }
            },
        }
    }

    /// Exchanges the elements at logical positions `i` and `j`.
    pub fn swap(&mut self, i: usize, j: usize) -> (r: Result<(), InplaceError>)
        requires
            old(self).wf(),
        ensures
            final(self).wf(),
            i < old(self)@.len() && j < old(self)@.len() ==> r is Ok && final(self)@ == old(
                self,
            )@.update(i as int, old(self)@[j as int]).update(j as int, old(self)@[i as int]),
            i >= old(self)@.len() ==> final(self)@ == old(self)@ && r
                == Result::<(), InplaceError>::Err(InplaceError::IndexOutOfBounds {
                index: i,
                len: old(self)@.len() as usize,
            }),
            i < old(self)@.len() && j >= old(self)@.len() ==> final(self)@ == old(self)@ && r
                == Result::<(), InplaceError>::Err(InplaceError::IndexOutOfBounds {
                index: j,
                len: old(self)@.len() as usize,
            }),
    {
        let len = self.len;
        if i >= len {
            return Err(InplaceError::IndexOutOfBounds { index: i, len });
        }
        if j >= len {
            return Err(InplaceError::IndexOutOfBounds { index: j, len });
        }
        if i == j {
            proof {
                assert(final(self)@ =~= old(self)@.update(i as int, old(self)@[j as int]).update(
                    j as int,
                    old(self)@[i as int],
                ));
            }
            return Ok(());
        }
        proof {
            self.lemma_slot_live(i as int);
            self.lemma_slot_live(j as int);
            lemma_ring_slot_distinct(self.head as int, i as int, j as int, N as int);
        }
        let ki = self.to_physical_index(i);
        let kj = self.to_physical_index(j);
        let vi = self.buf[ki].take();
        let vj = self.buf[kj].take();
        self.buf[ki] = vj;
        self.buf[kj] = vi;
        proof {
            let n = N as int;
            let h = self.head as int;
            assert forall|i2: int|
                0 <= i2 < N implies ((#[trigger] self.buf@[ring_slot(h, i2, n)]) is Some <==> i2
                < self.len as int) by {
                lemma_ring_slot_inverse(h, i2, n);
            }
            assert forall|i2: int|
                0 <= i2 < self.len as int && i2 != i as int && i2 != j as int implies self@[i2]
                == old(self)@[i2] by {
                lemma_ring_slot_inverse(h, i2, n);
            }
            assert(final(self)@ =~= old(self)@.update(i as int, old(self)@[j as int]).update(
                j as int,
                old(self)@[i as int],
            ));
        }
        Ok(())
    }

    /// Shortens the deque to at most `len` elements, destroying the back;
    /// a request no shorter than the current length leaves it unchanged.
    pub fn truncate(&mut self, len: usize)
        requires
            old(self).wf(),
        ensures
            final(self).wf(),
            len <= old(self)@.len() ==> final(self)@ == old(self)@.take(len as int),
            len > old(self)@.len() ==> final(self)@ == old(self)@,
    {
        if len >= self.len {
            return;
        }
        while self.len > len
            invariant
                self.wf(),
                len <= self@.len() <= old(self)@.len(),
                self@ == old(self)@.take(self@.len() as int),
            decreases self@.len(),
        {
            let ghost pre = self@;
            self.pop_back();
            proof {
                assert(pre.drop_last() =~= old(self)@.take(self@.len() as int));
            }
        }
    }

    /// Removes every element and resets the ring to its initial position.
    pub fn clear(&mut self)
        requires
            old(self).wf(),
        ensures
            final(self).wf(),
            final(self)@ == Seq::<T>::empty(),
    {
        self.truncate(0);
        proof {
            let n = N as int;
            let h = self.head as int;
            assert(self@.len() == old(self)@.take(0).len());
            assert(self.len == 0);
            assert forall|k: int| 0 <= k < N implies !((#[trigger] self.buf@[k]) is Some) by {
                assert(self.wf());
                assert(0 <= (k - h) % n < n);
                vstd::arithmetic::div_mod::lemma_mod_bound(k - h, n);
                vstd::arithmetic::div_mod::lemma_add_mod_noop_right(h, k - h, n);
                lemma_small_mod(k as nat, n as nat);
                assert(ring_slot(h, (k - h) % n, n) == k);
                assert(!((self.buf@[ring_slot(h, (k - h) % n, n)]) is Some));
            }
        }
        // leave the ring in its freshly-created position
        self.head = 0;
        proof {
            assert forall|i: int|
                0 <= i < N implies !((#[trigger] self.buf@[ring_slot(0, i, N as int)]) is Some) by {
                lemma_ring_slot_inverse(0, i, N as int);
            }
            assert(final(self)@ =~= Seq::<T>::empty());
        }
    }

    /// Inserts `value` at logical position `index`, shifting whichever side
    /// of the split is shorter to minimize moves; an index past the end or a
    /// full deque hands the value back.
    #[verifier::rlimit(100)]
    #[verifier::spinoff_prover]
    pub fn insert(&mut self, index: usize, value: T) -> (r: Result<(), (T, InplaceError)>)
        requires
            old(self).wf(),
        ensures
            final(self).wf(),
            index > old(self)@.len() ==> final(self)@ == old(self)@ && r == Result::<
                (),
                (T, InplaceError),
            >::Err((value, InplaceError::IndexOutOfBounds {
                index,
                len: old(self)@.len() as usize,
            })),
            index <= old(self)@.len() && old(self)@.len() == N ==> final(self)@ == old(self)@ && r
                == Result::<(), (T, InplaceError)>::Err((value, InplaceError::CapacityExceeded {
                len: old(self)@.len() as usize,
                additional: 1,
                capacity: N,
            })),
            index <= old(self)@.len() && old(self)@.len() < N ==> r is Ok && final(self)@ == old(
                self,
            )@.insert(index as int, value),
    {
        if index > self.len {
            let len = self.len;
            return Err((value, InplaceError::IndexOutOfBounds { index, len }));
        }
        if self.is_full() {
            let len = self.len;
            return Err((value, InplaceError::CapacityExceeded { len, additional: 1, capacity: N }));
        }
        let ghost n = N as int;
        let ghost h = self.head as int;
        let ghost l = self.len as int;
        let ghost ix = index as int;
        let front_len = index;
        let back_len = self.len - index;
        if back_len < front_len {
            // the part after the split is shorter: shift it one slot back
            let src = self.to_physical_index(index);
            let dst = self.to_physical_index(index + 1);
            proof {
                assert forall|j: int|
                    0 <= j < back_len implies (#[trigger] self.buf@[ring_slot(
                    src as int,
                    j,
                    n,
                )]) is Some by {
                    lemma_ring_slot_add(h, ix, j, n);
                }
                lemma_ring_slot_add(h, ix, 1, n);
                lemma_ring_slot_small(h, ix, n);
                lemma_ring_slot_small(h, ix + 1, n);
            }
            self.wrap_copy(src, dst, back_len);
            let ghost gmid = self.buf@;
            let k = self.to_physical_index(index);
            proof {
                // the freed slot belongs to the moved run's source alone
                lemma_ring_dist(h, ix, ix, n);
                lemma_ring_dist(h, ix, ix + 1, n);
                lemma_mod_pm(0, n);
                lemma_mod_pm(-1, n);
            }
            self.buf[k] = Some(value);
            self.len = self.len + 1;
            proof {
                assert forall|i: int|
                    0 <= i < N implies ((#[trigger] self.buf@[ring_slot(h, i, n)]) is Some <==> i
                    < self.len as int) by {
                    lemma_ring_slot_inverse(h, i, n);
                    if i != ix {
                        lemma_ring_slot_distinct(h, i, ix, n);
                    }
                    lemma_ring_dist(h, i, ix, n);
                    lemma_ring_dist(h, i, ix + 1, n);
                    lemma_mod_pm(i - ix, n);
                    lemma_mod_pm(i - ix - 1, n);
                    if i > ix {
                        lemma_ring_slot_add(h, ix + 1, i - ix - 1, n);
                        lemma_ring_slot_add(h, ix, i - ix - 1, n);
                        if i <= l {
                            assert(gmid[ring_slot(dst as int, i - ix - 1, n)] == old(
                                self,
                            ).buf@[ring_slot(src as int, i - ix - 1, n)]);
                            old(self).lemma_slot_live(i - 1);
                        }
                    } else if i < ix {
                        old(self).lemma_slot_live(i);
                    }
                }
                assert forall|i: int| 0 <= i < self.len as int implies self@[i] == old(
                    self,
                )@.insert(ix, value)[i] by {
                    lemma_ring_slot_inverse(h, i, n);
                    if i != ix {
                        lemma_ring_slot_distinct(h, i, ix, n);
                    }
                    lemma_ring_dist(h, i, ix, n);
                    lemma_ring_dist(h, i, ix + 1, n);
                    lemma_mod_pm(i - ix, n);
                    lemma_mod_pm(i - ix - 1, n);
                    if i > ix {
                        lemma_ring_slot_add(h, ix + 1, i - ix - 1, n);
                        lemma_ring_slot_add(h, ix, i - ix - 1, n);
                        if i <= l {
                            assert(gmid[ring_slot(dst as int, i - ix - 1, n)] == old(
                                self,
                            ).buf@[ring_slot(src as int, i - ix - 1, n)]);
                            old(self).lemma_slot_live(i - 1);
                        }
                    } else if i < ix {
                        old(self).lemma_slot_live(i);
                    }
                }
                assert(final(self)@ =~= old(self)@.insert(ix, value));
            }
        } else {
            // the part before the split is shorter: shift it one slot forward
            let old_head = self.head;
            let new_head = self.wrap_sub(self.head, 1);
            proof {
                lemma_small_mod(h as nat, n as nat);
                assert forall|j: int|
                    0 <= j < front_len implies (#[trigger] self.buf@[ring_slot(h, j, n)])
                    is Some by {
                    lemma_small_mod(j as nat, n as nat);
                }
            }
            self.head = new_head;
            self.wrap_copy(old_head, new_head, front_len);
            let ghost gmid = self.buf@;
            let k = self.to_physical_index(index);
            let ghost h2 = new_head as int;
            proof {
                // new-head positions step back one old-head position
                assert forall|i: int| 0 <= i < N implies ring_slot(h2, i, n) == ring_slot(
                    h,
                    i - 1,
                    n,
                ) by {
                    lemma_ring_slot_add(h, n - 1, i, n);
                    lemma_mod_multiples_vanish(1, h + i - 1, n);
                }
                // the freed slot is the last source slot of the moved run
                lemma_ring_dist(h, ix - 1, 0, n);
                lemma_mod_pm(ix - 1, n);
                lemma_ring_dist(h, ix - 1, n - 1, n);
                lemma_mod_pm(ix - n, n);
                lemma_small_mod(h as nat, n as nat);
            }
            self.buf[k] = Some(value);
            self.len = self.len + 1;
            proof {
                assert forall|i: int| 0 <= i < N implies ring_slot(h2, i, n) == ring_slot(
                    h,
                    i - 1,
                    n,
                ) by {
                    lemma_ring_slot_add(h, n - 1, i, n);
                    lemma_mod_multiples_vanish(1, h + i - 1, n);
                }
                assert forall|i: int|
                    0 <= i < N implies ((#[trigger] self.buf@[ring_slot(h2, i, n)]) is Some <==> i
                    < self.len as int) by {
                    if i != ix {
                        lemma_ring_slot_distinct(h2, i, ix, n);
                    }
                    lemma_ring_dist(h, i - 1, 0, n);
                    lemma_ring_dist(h, i - 1, n - 1, n);
                    lemma_mod_pm(i - 1, n);
                    lemma_mod_pm(i - n, n);
                    lemma_small_mod(h as nat, n as nat);
                    if 0 <= i < ix {
                        assert(gmid[ring_slot(h2, i, n)] == old(self).buf@[ring_slot(h, i, n)]);
                        old(self).lemma_slot_live(i);
                    }
                }
                assert forall|i: int| 0 <= i < self.len as int implies self@[i] == old(
                    self,
                )@.insert(ix, value)[i] by {
                    if i != ix {
                        lemma_ring_slot_distinct(h2, i, ix, n);
                    }
                    lemma_ring_dist(h, i - 1, 0, n);
                    lemma_ring_dist(h, i - 1, n - 1, n);
                    lemma_mod_pm(i - 1, n);
                    lemma_mod_pm(i - n, n);
                    lemma_small_mod(h as nat, n as nat);
                    if i < ix {
                        assert(gmid[ring_slot(h2, i, n)] == old(self).buf@[ring_slot(h, i, n)]);
                        old(self).lemma_slot_live(i);
                    } else if i > ix {
                        old(self).lemma_slot_live(i - 1);
                    }
                }
                assert(final(self)@ =~= old(self)@.insert(ix, value));
            }
        }
        Ok(())
    }

    /// Removes and returns the element at logical position `index`, closing
    /// the gap by shifting whichever side is shorter; an index past the end
    /// returns nothing.
    #[verifier::rlimit(100)]
    #[verifier::spinoff_prover]
    pub fn remove(&mut self, index: usize) -> (r: Option<T>)
        requires
            old(self).wf(),
        ensures
            final(self).wf(),
            index >= old(self)@.len() ==> r is None && final(self)@ == old(self)@,
            index < old(self)@.len() ==> r == Some(old(self)@[index as int]) && final(self)@ == old(
                self,
            )@.remove(index as int),
    {
        if index >= self.len {
            return None;
        }
        let ghost n = N as int;
        let ghost h = self.head as int;
        let ghost l = self.len as int;
        let ghost ix = index as int;
        proof {
            self.lemma_slot_live(ix);
        }
        let k = self.to_physical_index(index);
        let value = self.buf[k].take();
        let front_len = index;
        let back_len = self.len - index - 1;
        if back_len < front_len {
            // the part after the gap is shorter: shift it one slot forward
            let src = self.to_physical_index(index + 1);
            proof {
                lemma_ring_slot_small(h, ix, n);
                lemma_ring_slot_small(h, ix + 1, n);
                assert forall|j: int|
                    0 <= j < back_len implies (#[trigger] self.buf@[ring_slot(
                    src as int,
                    j,
                    n,
                )]) is Some by {
                    lemma_ring_slot_add(h, ix + 1, j, n);
                    lemma_ring_slot_distinct(h, ix + 1 + j, ix, n);
                }
            }
            self.wrap_copy(src, k, back_len);
            let ghost gmid = self.buf@;
            self.len = self.len - 1;
            proof {
                assert forall|i: int|
                    0 <= i < N implies ((#[trigger] self.buf@[ring_slot(h, i, n)]) is Some <==> i
                    < self.len as int) by {
                    lemma_ring_slot_inverse(h, i, n);
                    if i != ix {
                        lemma_ring_slot_distinct(h, i, ix, n);
                    }
                    lemma_ring_dist(h, i, ix, n);
                    lemma_ring_dist(h, i, ix + 1, n);
                    lemma_mod_pm(i - ix, n);
                    lemma_mod_pm(i - ix - 1, n);
                    if ix <= i < l - 1 {
                        lemma_ring_slot_add(h, ix, i - ix, n);
                        lemma_ring_slot_add(h, ix + 1, i - ix, n);
                        assert(gmid[ring_slot(k as int, i - ix, n)] == old(self).buf@[ring_slot(
                            src as int,
                            i - ix,
                            n,
                        )]);
                        old(self).lemma_slot_live(i + 1);
                    }
                }
                assert forall|i: int| 0 <= i < self.len as int implies self@[i] == old(
                    self,
                )@.remove(ix)[i] by {
                    lemma_ring_slot_inverse(h, i, n);
                    if i != ix {
                        lemma_ring_slot_distinct(h, i, ix, n);
                    }
                    lemma_ring_dist(h, i, ix, n);
                    lemma_ring_dist(h, i, ix + 1, n);
                    lemma_mod_pm(i - ix, n);
                    lemma_mod_pm(i - ix - 1, n);
                    if ix <= i < l - 1 {
                        lemma_ring_slot_add(h, ix, i - ix, n);
                        lemma_ring_slot_add(h, ix + 1, i - ix, n);
                        assert(gmid[ring_slot(k as int, i - ix, n)] == old(self).buf@[ring_slot(
                            src as int,
                            i - ix,
                            n,
                        )]);
                        old(self).lemma_slot_live(i + 1);
                    } else if i < ix {
                        old(self).lemma_slot_live(i);
                    }
                }
                assert(final(self)@ =~= old(self)@.remove(ix));
            }
        } else {
            // the part before the gap is shorter: shift it one slot back
            let old_head = self.head;
            let new_head = self.to_physical_index(1);
            proof {
                lemma_small_mod(h as nat, n as nat);
                assert forall|j: int|
                    0 <= j < front_len implies (#[trigger] self.buf@[ring_slot(h, j, n)])
                    is Some by {
                    lemma_small_mod(j as nat, n as nat);
                    lemma_ring_slot_distinct(h, j, ix, n);
                }
            }
            self.head = new_head;
            self.wrap_copy(old_head, new_head, front_len);
            let ghost gmid = self.buf@;
            let ghost h2 = new_head as int;
            self.len = self.len - 1;
            proof {
                assert forall|i: int| 0 <= i < N implies ring_slot(h2, i, n) == ring_slot(
                    h,
                    i + 1,
                    n,
                ) by {
                    lemma_ring_slot_add(h, 1, i, n);
                }
                lemma_small_mod(h as nat, n as nat);
                assert forall|i: int|
                    0 <= i < N implies ((#[trigger] self.buf@[ring_slot(h2, i, n)]) is Some <==> i
                    < self.len as int) by {
                    lemma_ring_dist(h, i + 1, 0, n);
                    lemma_ring_dist(h, i + 1, 1, n);
                    lemma_mod_pm(i + 1 - n, n);
                    lemma_mod_pm(i, n);
                    if i + 1 < n {
                        lemma_mod_pm(i + 1, n);
                        lemma_ring_slot_inverse(h, i + 1, n);
                    } else {
                        lemma_mod_multiples_vanish(1, h, n);
                    }
                    if i < ix {
                        assert(gmid[ring_slot(h2, i, n)] == old(self).buf@[ring_slot(h, i, n)]);
                        lemma_small_mod(i as nat, n as nat);
                        lemma_ring_slot_distinct(h, i, ix, n);
                        old(self).lemma_slot_live(i);
                    } else if ix <= i < l - 1 {
                        lemma_ring_slot_distinct(h, i + 1, ix, n);
                        old(self).lemma_slot_live(i + 1);
                    }
                }
                assert forall|i: int| 0 <= i < self.len as int implies self@[i] == old(
                    self,
                )@.remove(ix)[i] by {
                    lemma_ring_dist(h, i + 1, 0, n);
                    lemma_ring_dist(h, i + 1, 1, n);
                    lemma_mod_pm(i + 1, n);
                    lemma_mod_pm(i, n);
                    if i < ix {
                        assert(gmid[ring_slot(h2, i, n)] == old(self).buf@[ring_slot(h, i, n)]);
                        lemma_small_mod(i as nat, n as nat);
                        lemma_ring_slot_distinct(h, i, ix, n);
                        old(self).lemma_slot_live(i);
                    } else {
                        lemma_ring_slot_distinct(h, i + 1, ix, n);
                        old(self).lemma_slot_live(i + 1);
                    }
                }
                assert(final(self)@ =~= old(self)@.remove(ix));
            }
        }
        Some(value.unwrap())
    }

    /// Rotates left by `mid` positions by moving the `mid` front elements
    /// behind the back; sound only while that run is at most half the length.
    #[verifier::rlimit(100)]
    #[verifier::spinoff_prover]
    fn rotate_left_inner(&mut self, mid: usize)
        requires
            old(self).wf(),
            2 * mid as int <= old(self)@.len(),
        ensures
            final(self).wf(),
            final(self)@ == old(self)@.skip(mid as int) + old(self)@.take(mid as int),
    {
        if mid == 0 {
            proof {
                assert(final(self)@ =~= old(self)@.skip(0) + old(self)@.take(0));
            }
            return;
        }
        let ghost n = N as int;
        let ghost h = self.head as int;
        let ghost l = self.len as int;
        let ghost m = mid as int;
        let src = self.head;
        let dst = self.to_physical_index(self.len);
        proof {
            lemma_small_mod(h as nat, n as nat);
            assert forall|j: int|
                0 <= j < mid implies (#[trigger] self.buf@[ring_slot(src as int, j, n)])
                is Some by {
                lemma_small_mod(j as nat, n as nat);
            }
            lemma_ring_slot_small(h, l, n);
        }
        self.wrap_copy(src, dst, mid);
        let ghost gmid = self.buf@;
        let new_head = self.to_physical_index(mid);
        self.head = new_head;
        proof {
            let h2 = new_head as int;
            assert forall|i: int| 0 <= i < N implies ring_slot(h2, i, n) == ring_slot(
                h,
                m + i,
                n,
            ) by {
                lemma_ring_slot_add(h, m, i, n);
            }
            assert forall|i: int|
                0 <= i < N implies ((#[trigger] self.buf@[ring_slot(h2, i, n)]) is Some <==> i
                < self.len as int) by {
                lemma_ring_dist(h, m + i, 0, n);
                lemma_ring_dist(h, m + i, l, n);
                lemma_mod_pm(m + i - n, n);
                lemma_mod_pm(m + i - l, n);
                if m + i >= l {
                    lemma_mod_pm(m + i - l - n, n);
                }
                if m + i < n {
                    lemma_mod_pm(m + i, n);
                    lemma_ring_slot_inverse(h, m + i, n);
                } else {
                    lemma_mod_multiples_vanish(1, h + m + i - n, n);
                    lemma_ring_slot_inverse(h, m + i - n, n);
                }
                if l - m <= i < l {
                    lemma_ring_slot_add(h, l, m + i - l, n);
                    assert(gmid[ring_slot(dst as int, m + i - l, n)] == old(self).buf@[ring_slot(
                        h,
                        m + i - l,
                        n,
                    )]);
                    old(self).lemma_slot_live(m + i - l);
                } else if i < l - m {
                    old(self).lemma_slot_live(m + i);
                }
            }
            assert forall|i: int| 0 <= i < self.len as int implies self@[i] == (old(self)@.skip(m)
                + old(self)@.take(m))[i] by {
                lemma_ring_dist(h, m + i, 0, n);
                lemma_ring_dist(h, m + i, l, n);
                lemma_mod_pm(m + i - n, n);
                lemma_mod_pm(m + i - l, n);
                if m + i >= l {
                    lemma_mod_pm(m + i - l - n, n);
                }
                if m + i < n {
                    lemma_mod_pm(m + i, n);
                }
                if l - m <= i < l {
                    lemma_ring_slot_add(h, l, m + i - l, n);
                    assert(gmid[ring_slot(dst as int, m + i - l, n)] == old(self).buf@[ring_slot(
                        h,
                        m + i - l,
                        n,
                    )]);
                    old(self).lemma_slot_live(m + i - l);
                } else {
                    old(self).lemma_slot_live(m + i);
                }
            }
            assert(final(self)@ =~= old(self)@.skip(m) + old(self)@.take(m));
        }
    }

    /// Rotates right by `k` positions by moving the `k` back elements in
    /// front of the head; sound only while that run is at most half the
    /// length.
    #[verifier::rlimit(100)]
    #[verifier::spinoff_prover]
    fn rotate_right_inner(&mut self, k: usize)
        requires
            old(self).wf(),
            2 * k as int <= old(self)@.len(),
        ensures
            final(self).wf(),
            final(self)@ == old(self)@.skip(old(self)@.len() - k as int) + old(self)@.take(
                old(self)@.len() - k as int,
            ),
    {
        let ghost n = N as int;
        let ghost h = self.head as int;
        let ghost l = self.len as int;
        let ghost kk = k as int;
        if k == 0 {
            proof {
                assert(final(self)@ =~= old(self)@.skip(l) + old(self)@.take(l));
            }
            return;
        }
        let new_head = self.wrap_sub(self.head, k);
        self.head = new_head;
        let src = self.to_physical_index(self.len);
        let ghost h2 = new_head as int;
        proof {
            assert forall|i: int| 0 <= i < N implies ring_slot(h2, i, n) == ring_slot(
                h,
                i - kk,
                n,
            ) by {
                lemma_ring_slot_add(h, n - kk, i, n);
                lemma_mod_multiples_vanish(1, h + i - kk, n);
            }
            assert(src as int == ring_slot(h, l - kk, n)) by {
                if l < n {
                    assert(ring_slot(h2, l, n) == ring_slot(h, l - kk, n));
                } else {
                    lemma_mod_multiples_vanish(1, h2, n);
                    lemma_small_mod(h2 as nat, n as nat);
                }
            }
            assert forall|j: int|
                0 <= j < k implies (#[trigger] self.buf@[ring_slot(src as int, j, n)]) is Some by {
                lemma_ring_slot_add(h, l - kk, j, n);
                lemma_small_mod(h as nat, n as nat);
                lemma_mod_pm(l - kk + j, n);
            }
        }
        self.wrap_copy(src, new_head, k);
        let ghost gmid = self.buf@;
        proof {
            assert forall|i: int| 0 <= i < N implies ring_slot(h2, i, n) == ring_slot(
                h,
                i - kk,
                n,
            ) by {
                lemma_ring_slot_add(h, n - kk, i, n);
                lemma_mod_multiples_vanish(1, h + i - kk, n);
            }
            assert forall|i: int|
                0 <= i < N implies ((#[trigger] self.buf@[ring_slot(h2, i, n)]) is Some <==> i
                < self.len as int) by {
                lemma_ring_dist(h, i - kk, l - kk, n);
                lemma_ring_dist(h, i - kk, -kk, n);
                lemma_mod_multiples_vanish(1, h - kk, n);
                lemma_mod_pm(i - l, n);
                if i < l {
                    lemma_mod_pm(i - l + n, n);
                }
                lemma_mod_pm(i, n);
                lemma_mod_pm(i - n, n);
                if i < kk {
                    assert(gmid[ring_slot(h2, i, n)] == old(self).buf@[ring_slot(
                        src as int,
                        i,
                        n,
                    )]) by {
                        lemma_ring_slot_add(h2, 0, i, n);
                        lemma_small_mod(h2 as nat, n as nat);
                    }
                    lemma_ring_slot_add(h, l - kk, i, n);
                    lemma_mod_pm(l - kk + i, n);
                    old(self).lemma_slot_live(l - kk + i);
                } else if i < l {
                    lemma_mod_pm(i - kk, n);
                    lemma_ring_slot_inverse(h, i - kk, n);
                    old(self).lemma_slot_live(i - kk);
                } else {
                    if 0 <= i - kk < n {
                        lemma_mod_pm(i - kk, n);
                        lemma_ring_slot_inverse(h, i - kk, n);
                    } else {
                        lemma_mod_multiples_vanish(1, h + i - kk - n, n);
                        lemma_ring_slot_inverse(h, i - kk - n, n);
                        lemma_mod_pm(i - kk - n, n);
                    }
                }
            }
            assert forall|i: int| 0 <= i < self.len as int implies self@[i] == (old(self)@.skip(
                l - kk,
            ) + old(self)@.take(l - kk))[i] by {
                lemma_ring_dist(h, i - kk, l - kk, n);
                lemma_ring_dist(h, i - kk, -kk, n);
                lemma_mod_multiples_vanish(1, h - kk, n);
                lemma_mod_pm(i - l, n);
                if i < l {
                    lemma_mod_pm(i - l + n, n);
                }
                lemma_mod_pm(i, n);
                lemma_mod_pm(i - n, n);
                if i < kk {
                    assert(gmid[ring_slot(h2, i, n)] == old(self).buf@[ring_slot(
                        src as int,
                        i,
                        n,
                    )]) by {
                        lemma_ring_slot_add(h2, 0, i, n);
                        lemma_small_mod(h2 as nat, n as nat);
                    }
                    lemma_ring_slot_add(h, l - kk, i, n);
                    lemma_mod_pm(l - kk + i, n);
                    old(self).lemma_slot_live(l - kk + i);
                } else {
                    lemma_mod_pm(i - kk, n);
                    lemma_ring_slot_inverse(h, i - kk, n);
                    old(self).lemma_slot_live(i - kk);
                }
            }
            assert(final(self)@ =~= old(self)@.skip(l - kk) + old(self)@.take(l - kk));
        }
    }

    /// Rotates the deque `n` positions to the left, so the element at
    /// logical position `n` becomes the front; moves whichever of the two
    /// resulting runs is shorter. `n` beyond the length is refused.
    pub fn rotate_left(&mut self, n: usize) -> (r: Result<(), InplaceError>)
        requires
            old(self).wf(),
        ensures
            final(self).wf(),
            n <= old(self)@.len() ==> r is Ok && final(self)@ == old(self)@.skip(n as int) + old(
                self,
            )@.take(n as int),
            n > old(self)@.len() ==> final(self)@ == old(self)@ && r == Result::<
                (),
                InplaceError,
            >::Err(InplaceError::IndexOutOfBounds { index: n, len: old(self)@.len() as usize }),
    {
        if n > self.len {
            let len = self.len;
            return Err(InplaceError::IndexOutOfBounds { index: n, len });
        }
        let front_len = n;
        let back_len = self.len - n;
        if front_len <= back_len {
            self.rotate_left_inner(n);
        } else {
            self.rotate_right_inner(back_len);
        }
        Ok(())
    }

    /// Rotates the deque `n` positions to the right, so the former back run
    /// of `n` elements comes in front; moves whichever of the two resulting
    /// runs is shorter. `n` beyond the length is refused.
    pub fn rotate_right(&mut self, n: usize) -> (r: Result<(), InplaceError>)
        requires
            old(self).wf(),
        ensures
            final(self).wf(),
            n <= old(self)@.len() ==> r is Ok && final(self)@ == old(self)@.skip(
                old(self)@.len() - n as int,
            ) + old(self)@.take(old(self)@.len() - n as int),
            n > old(self)@.len() ==> final(self)@ == old(self)@ && r == Result::<
                (),
                InplaceError,
            >::Err(InplaceError::IndexOutOfBounds { index: n, len: old(self)@.len() as usize }),
    {
        if n > self.len {
            let len = self.len;
            return Err(InplaceError::IndexOutOfBounds { index: n, len });
        }
        let front_len = n;
        let back_len = self.len - n;
        if front_len <= back_len {
            self.rotate_right_inner(n);
        } else {
            self.rotate_left_inner(back_len);
        }
        Ok(())
    }

    /// Reverses the values in slots `[a, b)`.
    fn reverse_region(&mut self, a: usize, b: usize)
        requires
            a <= b,
            b <= N,
            old(self).buf@.len() == N,
            forall|k: int| a <= k < b ==> (#[trigger] old(self).buf@[k]) is Some,
        ensures
            final(self).buf@.len() == N,
            final(self).head == old(self).head,
            final(self).len == old(self).len,
            forall|k: int|
                a <= k < b ==> #[trigger] final(self).buf@[k] == old(self).buf@[a + b - 1 - k],
            forall|k: int|
                0 <= k < N && !(a <= k < b) ==> #[trigger] final(self).buf@[k] == old(self).buf@[k],
    {
        let mut i: usize = a;
        let mut j: usize = b;
        while j - i > 1
            invariant
                a <= i <= j <= b <= N,
                i - a == b - j,
                self.buf@.len() == N,
                self.head == old(self).head,
                self.len == old(self).len,
                forall|k: int|
                    (a <= k < i || j <= k < b) ==> #[trigger] self.buf@[k] == old(self).buf@[a + b
                        - 1 - k],
                forall|k: int|
                    i <= k < j ==> #[trigger] self.buf@[k] == old(self).buf@[k] && self.buf@[k]
                        is Some,
                forall|k: int|
                    0 <= k < N && !(a <= k < b) ==> #[trigger] self.buf@[k] == old(self).buf@[k],
            decreases j - i,
        {
            j -= 1;
            let x = self.buf[i].take();
            let y = self.buf[j].take();
            self.buf[i] = y;
            self.buf[j] = x;
            i += 1;
        }
    }

    /// Rotates the values in slots `[a, b)` left by `t` positions, by the
    /// three-reversal method.
    fn rotate_region(&mut self, a: usize, b: usize, t: usize)
        requires
            a <= b,
            b <= N,
            t <= b - a,
            old(self).buf@.len() == N,
            forall|k: int| a <= k < b ==> (#[trigger] old(self).buf@[k]) is Some,
        ensures
            final(self).buf@.len() == N,
            final(self).head == old(self).head,
            final(self).len == old(self).len,
            forall|i: int|
                0 <= i < b - a ==> #[trigger] final(self).buf@[a + i] == old(self).buf@[a + (if i
                    + t < b - a {
                    i + t
                } else {
                    i + t - (b - a)
                })],
            forall|k: int|
                0 <= k < N && !(a <= k < b) ==> #[trigger] final(self).buf@[k] == old(self).buf@[k],
    {
        self.reverse_region(a, a + t);
        let ghost g1 = self.buf@;
        self.reverse_region(a + t, b);
        let ghost g2 = self.buf@;
        self.reverse_region(a, b);
    }

    /// Whether the logical sequence already occupies one contiguous run of
    /// slots starting at `head`.
    pub closed spec fn spec_is_contiguous(&self) -> bool {
        self.head as int + self.len as int <= N as int
    }

    fn is_contiguous(&self) -> (r: bool)
        requires
            self.wf(),
        ensures
            r == self.spec_is_contiguous(),
    {
        self.head <= N - self.len
    }

    /// Rearranges storage, without extra space, so the logical sequence
    /// occupies one contiguous run of slots. Chooses among three strategies
    /// by how much free space there is relative to the two runs split at the
    /// wrap point, to minimize moves; calling it again is a no-op.
    #[verifier::rlimit(100)]
    #[verifier::spinoff_prover]
    pub fn make_contiguous(&mut self)
        requires
            old(self).wf(),
        ensures
            final(self).wf(),
            final(self)@ == old(self)@,
            final(self).spec_is_contiguous(),
            old(self).spec_is_contiguous() ==> *final(self) == *old(self),
    {
        if self.is_contiguous() {
            return;
        }
        let ghost n = N as int;
        let ghost h = self.head as int;
        let ghost l = self.len as int;
        let head = self.head;
        let len = self.len;
        let free = N - len;
        let head_len = N - head;
        let tail_len = len - head_len;
        let ghost g0 = self.buf@;
        proof {
            // the front run and the wrapped back run are both fully occupied
            assert forall|k: int| h <= k < n implies (#[trigger] g0[k]) is Some by {
                lemma_ring_slot_small(h, k - h, n);
                assert((self.buf@[ring_slot(h, k - h, n)]) is Some);
            }
            assert forall|k: int| 0 <= k < l - (n - h) implies (#[trigger] g0[k]) is Some by {
                lemma_ring_slot_small(h, k + n - h, n);
                assert((self.buf@[ring_slot(h, k + n - h, n)]) is Some);
            }
            assert forall|k: int| l - (n - h) <= k < h implies !((#[trigger] g0[k]) is Some) by {
                lemma_ring_slot_small(h, k + n - h, n);
                assert(!((self.buf@[ring_slot(h, k + n - h, n)]) is Some));
            }
        }
        if free >= head_len {
            // enough room to move the front run in one go: shift the back
            // run out of the way, then drop the front run into place
            self.copy(0, head_len, tail_len);
            let ghost g1 = self.buf@;
            proof {
                assert forall|k: int|
                    head_len <= k < head_len + tail_len implies #[trigger] g1[k] == g0[k
                        - head_len as int] by {
                    assert(g1[head_len as int + (k - head_len as int)] == g0[0 + (k
                        - head_len as int)]);
                }
            }
            self.copy_nonoverlapping(head, 0, head_len);
            let ghost g2 = self.buf@;
            proof {
                assert forall|k: int| 0 <= k < head_len implies #[trigger] g2[k] == g1[k
                    + head as int] by {
                    assert(g2[0 + k] == g1[head as int + k]);
                }
            }
            self.head = 0;
            proof {
                assert forall|i: int|
                    0 <= i < N implies ((#[trigger] self.buf@[ring_slot(0, i, n)]) is Some <==> i
                    < self.len as int) by {
                    lemma_small_mod(i as nat, n as nat);
                }
                assert forall|i: int| 0 <= i < self.len as int implies self@[i] == old(
                    self,
                )@[i] by {
                    lemma_small_mod(i as nat, n as nat);
                    if i < n - h {
                        old(self).lemma_slot_live(i);
                        lemma_ring_slot_small(h, i, n);
                    } else {
                        old(self).lemma_slot_live(i);
                        lemma_ring_slot_small(h, i, n);
                    }
                }
                assert(final(self)@ =~= old(self)@);
            }
        } else if free >= tail_len {
            // enough room to move the back run in one go: shift the front
            // run forward, then append the back run behind it
            self.copy(head, tail_len, head_len);
            let ghost g1 = self.buf@;
            proof {
                assert forall|k: int|
                    tail_len <= k < tail_len + head_len implies #[trigger] g1[k] == g0[k
                        - tail_len as int + head as int] by {
                    assert(g1[tail_len as int + (k - tail_len as int)] == g0[head as int + (k
                        - tail_len as int)]);
                }
            }
            self.copy_nonoverlapping(0, tail_len + head_len, tail_len);
            let ghost g2 = self.buf@;
            proof {
                let base = tail_len as int + head_len as int;
                assert forall|k: int| base <= k < base + tail_len implies #[trigger] g2[k] == g1[k
                    - base] by {
                    assert(g2[(tail_len + head_len) as int + (k - base)] == g1[0 + (k - base)]);
                }
            }
            self.head = tail_len;
            proof {
                let t = tail_len as int;
                assert forall|i: int|
                    0 <= i < N implies ((#[trigger] self.buf@[ring_slot(t, i, n)]) is Some <==> i
                    < self.len as int) by {
                    lemma_ring_slot_small(t, i, n);
                }
                assert forall|i: int| 0 <= i < self.len as int implies self@[i] == old(
                    self,
                )@[i] by {
                    lemma_ring_slot_small(t, i, n);
                    old(self).lemma_slot_live(i);
                    lemma_ring_slot_small(h, i, n);
                }
                assert(final(self)@ =~= old(self)@);
            }
        } else {
            // too tight for either: bring the two runs next to each other,
            // then rotate the shorter one into final position
            if head_len > tail_len {
                if free != 0 {
                    self.copy(0, free, tail_len);
                }
                let ghost g1 = self.buf@;
                proof {
                    assert forall|k: int|
                        free <= k < free + tail_len implies #[trigger] g1[k] == g0[k
                            - free as int] by {
                        if free != 0 {
                            assert(g1[free as int + (k - free as int)] == g0[0 + (k
                                - free as int)]);
                        }
                    }
                }
                self.rotate_region(free, N, tail_len);
                self.head = free;
                proof {
                    let f = free as int;
                    assert forall|i: int|
                        0 <= i < N implies ((#[trigger] self.buf@[ring_slot(f, i, n)]) is Some
                        <==> i < self.len as int) by {
                        lemma_ring_slot_small(f, i, n);
                    }
                    assert forall|i: int| 0 <= i < self.len as int implies self@[i] == old(
                        self,
                    )@[i] by {
                        lemma_ring_slot_small(f, i, n);
                        old(self).lemma_slot_live(i);
                        lemma_ring_slot_small(h, i, n);
                    }
                    assert(final(self)@ =~= old(self)@);
                }
            } else {
                if free != 0 {
                    self.copy(head, tail_len, head_len);
                }
                let ghost g1 = self.buf@;
                proof {
                    assert forall|k: int|
                        tail_len <= k < tail_len + head_len implies #[trigger] g1[k] == g0[k
                            - tail_len as int + head as int] by {
                        if free != 0 {
                            assert(g1[tail_len as int + (k - tail_len as int)] == g0[head as int
                                + (k - tail_len as int)]);
                        }
                    }
                }
                self.rotate_region(0, len, tail_len);
                self.head = 0;
                proof {
                    assert forall|i: int|
                        0 <= i < N implies ((#[trigger] self.buf@[ring_slot(0, i, n)]) is Some
                        <==> i < self.len as int) by {
                        lemma_small_mod(i as nat, n as nat);
                    }
                    assert forall|i: int| 0 <= i < self.len as int implies self@[i] == old(
                        self,
                    )@[i] by {
                        lemma_small_mod(i as nat, n as nat);
                        old(self).lemma_slot_live(i);
                        lemma_ring_slot_small(h, i, n);
                    }
                    assert(final(self)@ =~= old(self)@);
                }
            }
        }
    }

    /// Moves every element of `other` to the back of `self`, in logical
    /// order, leaving `other` empty; refused as a whole when the combined
    /// length would exceed the capacity.
    pub fn append(&mut self, other: &mut Self) -> (r: Result<(), InplaceError>)
        requires
            old(self).wf(),
            old(other).wf(),
        ensures
            final(self).wf(),
            final(other).wf(),
            old(self)@.len() + old(other)@.len() <= N ==> r is Ok
                && final(self)@ == old(self)@ + old(other)@
                && final(other)@ == Seq::<T>::empty(),
            old(self)@.len() + old(other)@.len() > N ==> final(self)@ == old(self)@
                && final(other)@ == old(other)@
                && r == Result::<(), InplaceError>::Err(InplaceError::CapacityExceeded {
                    len: old(self)@.len() as usize,
                    additional: old(other)@.len() as usize,
                    capacity: N,
                }),
    {
        let self_len = self.len;
        let other_len = other.len;
        if other_len > N - self_len {
            return Err(InplaceError::CapacityExceeded {
                len: self_len,
                additional: other_len,
                capacity: N,
            });
        }
        let ghost sv = self@;
        let ghost ov = other@;
        let mut moved: usize = 0;
        while moved < other_len
            invariant
                self.wf(),
                other.wf(),
                moved <= other_len,
                other_len == ov.len(),
                sv.len() + ov.len() <= N,
                self@ == sv + ov.take(moved as int),
                other@ == ov.skip(moved as int),
            decreases other_len - moved,
        {
            let ghost pre_self = self@;
            let ghost pre_other = other@;
            let x = other.pop_front().unwrap();
            let result = self.push_back(x);
            proof {
                assert(result is Ok);
                assert(pre_other.first() == ov[moved as int]);
                assert(self@ =~= sv + ov.take(moved as int + 1));
                assert(other@ =~= ov.skip(moved as int + 1));
            }
            moved += 1;
        }
        proof {
            assert(self@ =~= sv + ov);
            assert(other@ =~= Seq::<T>::empty());
        }
        // leave the emptied deque in its initial position, as a fresh one
        other.clear();
        Ok(())
    }

    /// Builds a deque from at most `N` supplied elements, in order.
    pub fn from_vec(v: Vec<T>) -> (r: Self)
        requires
            v@.len() <= N,
        ensures
            r.wf(),
            r@ == v@,
    {
        let ghost vv = v@;
        let mut v = v;
        let mut r = Self::new();
        while v.len() > 0
            invariant
                r.wf(),
                vv.len() <= N,
                v@.len() + r@.len() == vv.len(),
                r@ == vv.skip(v@.len() as int),
                v@ == vv.take(v@.len() as int),
            decreases v@.len(),
        {
            let ghost pre = v@;
            let x = v.pop().unwrap();
            let result = r.push_front(x);
            proof {
                assert(result is Ok);
                assert(v@ =~= vv.take(v@.len() as int));
                assert(pre.last() == vv[v@.len() as int]);
                assert(r@ =~= vv.skip(v@.len() as int));
            }
        }
        proof {
            assert(r@ =~= vv);
        }
        r
    }

    /// Moves a bounded vector's elements into a fresh deque, in order.
    pub fn from_inplace_vec(v: crate::inplace_vec::InplaceVec<T, N>) -> (r: Self)
        requires
            v.wf(),
        ensures
            r.wf(),
            r@ == v@,
    {
        let ghost vv = v@;
        let mut v = v;
        let mut r = Self::new();
        while v.len() > 0
            invariant
                r.wf(),
                v.wf(),
                vv.len() <= N,
                v@.len() + r@.len() == vv.len(),
                r@ == vv.skip(v@.len() as int),
                v@ == vv.take(v@.len() as int),
            decreases v@.len(),
        {
            let ghost pre = v@;
            let x = v.pop().unwrap();
            let result = r.push_front(x);
            proof {
                assert(result is Ok);
                assert(v@ =~= vv.take(v@.len() as int));
                assert(pre.last() == vv[v@.len() as int]);
                assert(r@ =~= vv.skip(v@.len() as int));
            }
        }
        proof {
            assert(r@ =~= vv);
        }
        r
    }

    /// Builds a deque from a supplied sequence of elements, silently
    /// stopping once `N` elements have been taken.
    pub fn from_iter(v: Vec<T>) -> (r: Self)
        ensures
            r.wf(),
            r@ == v@.take(if v@.len() <= N {
                v@.len() as int
            } else {
                N as int
            }),
    {
        let mut v = v;
        v.truncate(N);
        Self::from_vec(v)
    }

    /// Removes the element at `index` in O(1) by swapping the front into its
    /// place and popping the front; returns nothing when out of bounds.
    pub fn swap_remove_front(&mut self, index: usize) -> (r: Option<T>)
        requires
            old(self).wf(),
        ensures
            final(self).wf(),
            index >= old(self)@.len() ==> r is None && final(self)@ == old(self)@,
            index < old(self)@.len() ==> r == Some(old(self)@[index as int]) && final(self)@ == old(
                self,
            )@.update(index as int, old(self)@.first()).drop_first(),
    {
        let len = self.len;
        if index >= len {
            return None;
        }
        if index != 0 {
            let result = self.swap(index, 0);
            proof {
                assert(result is Ok);
            }
        } else {
            proof {
                assert(old(self)@.update(0, old(self)@.first()) =~= old(self)@);
            }
        }
        let r = self.pop_front();
        proof {
            assert(final(self)@ =~= old(self)@.update(index as int, old(self)@.first()).drop_first());
        }
        r
    }

    /// Removes the element at `index` in O(1) by swapping the back into its
    /// place and popping the back; returns nothing when out of bounds.
    pub fn swap_remove_back(&mut self, index: usize) -> (r: Option<T>)
        requires
            old(self).wf(),
        ensures
            final(self).wf(),
            index >= old(self)@.len() ==> r is None && final(self)@ == old(self)@,
            index < old(self)@.len() ==> r == Some(old(self)@[index as int]) && final(self)@ == old(
                self,
            )@.update(index as int, old(self)@.last()).drop_last(),
    {
        let len = self.len;
        if index >= len {
            return None;
        }
        if index != len - 1 {
            let result = self.swap(index, len - 1);
            proof {
                assert(result is Ok);
            }
        } else {
            proof {
                assert(old(self)@.update(index as int, old(self)@.last()) =~= old(self)@);
            }
        }
        let r = self.pop_back();
        proof {
            assert(final(self)@ =~= old(self)@.update(index as int, old(self)@.last()).drop_last());
        }
        r
    }

    /// Removes and returns the first element when the predicate approves it.
    pub fn pop_front_if<F: Fn(&T) -> bool>(&mut self, predicate: F) -> (r: Option<T>)
        requires
            old(self).wf(),
            old(self)@.len() > 0 ==> call_requires(predicate, (&old(self)@.first(),)),
        ensures
            final(self).wf(),
            old(self)@.len() == 0 ==> r is None && final(self)@ == old(self)@,
            old(self)@.len() > 0 ==> ({
                ||| (r == Some(old(self)@.first()) && final(self)@ == old(self)@.drop_first()
                    && call_ensures(predicate, (&old(self)@.first(),), true))
                ||| (r is None && final(self)@ == old(self)@
                    && call_ensures(predicate, (&old(self)@.first(),), false))
            }),
    {
        if self.len == 0 {
            return None;
        }
        let approve = predicate(self.front().unwrap());
        if approve {
            self.pop_front()
        } else {
            None
        }
    }

    /// Removes and returns the last element when the predicate approves it.
    pub fn pop_back_if<F: Fn(&T) -> bool>(&mut self, predicate: F) -> (r: Option<T>)
        requires
            old(self).wf(),
            old(self)@.len() > 0 ==> call_requires(predicate, (&old(self)@.last(),)),
        ensures
            final(self).wf(),
            old(self)@.len() == 0 ==> r is None && final(self)@ == old(self)@,
            old(self)@.len() > 0 ==> ({
                ||| (r == Some(old(self)@.last()) && final(self)@ == old(self)@.drop_last()
                    && call_ensures(predicate, (&old(self)@.last(),), true))
                ||| (r is None && final(self)@ == old(self)@
                    && call_ensures(predicate, (&old(self)@.last(),), false))
            }),
    {
        if self.len == 0 {
            return None;
        }
        let approve = predicate(self.back().unwrap());
        if approve {
            self.pop_back()
        } else {
            None
        }
    }

    /// Removes the elements of logical range `[start, end)` and hands them
    /// out through a draining cursor; the gap is closed by moving whichever
    /// survivor run — before or behind it — is shorter. An invalid range is
    /// refused whole.
    #[verifier::rlimit(100)]
    #[verifier::spinoff_prover]
    pub fn drain(&mut self, start: usize, end: usize) -> (r: Result<
        crate::inplace_vec::Drain<T>,
        InplaceError,
    >)
        requires
            old(self).wf(),
        ensures
            final(self).wf(),
            start <= end <= old(self)@.len() ==> (r matches Ok(d) && d@ == old(self)@.subrange(
                start as int,
                end as int,
            ) && final(self)@ == old(self)@.subrange(0, start as int) + old(self)@.subrange(
                end as int,
                old(self)@.len() as int,
            )),
            !(start <= end <= old(self)@.len()) ==> final(self)@ == old(self)@ && r == Result::<
                crate::inplace_vec::Drain<T>,
                InplaceError,
            >::Err(InplaceError::InvalidRange { start, end, len: old(self)@.len() as usize }),
    {
        let len = self.len;
        if !(start <= end && end <= len) {
            return Err(InplaceError::InvalidRange { start, end, len });
        }
        let ghost n = N as int;
        let ghost h = self.head as int;
        let ghost l = self.len as int;
        let ghost s0 = start as int;
        let ghost e0 = end as int;
        let drain_len = end - start;
        let new_len = len - drain_len;
        // take the drained values out, in logical order
        let mut items: Vec<T> = Vec::with_capacity(drain_len);
        let mut j: usize = 0;
        while j < drain_len
            invariant
                self.buf@.len() == N,
                self.head == old(self).head,
                self.len == old(self).len,
                old(self).wf(),
                start <= end <= len,
                l == old(self)@.len(),
                len as int == l,
                h == old(self).head as int,
                s0 == start as int,
                e0 == end as int,
                drain_len == e0 - s0,
                drain_len > 0 ==> 0 < N && h < n && l <= n && n == N as int,
                j <= drain_len,
                items@.len() == j as int,
                forall|i: int| 0 <= i < j ==> items@[i] == old(self)@[s0 + i],
                forall|i: int|
                    0 <= i < N && !(s0 <= i < s0 + j) ==> #[trigger] self.buf@[ring_slot(h, i, n)]
                        == old(self).buf@[ring_slot(h, i, n)],
                forall|i: int|
                    s0 <= i < s0 + j ==> !((#[trigger] self.buf@[ring_slot(h, i, n)]) is Some),
            decreases drain_len - j,
        {
            proof {
                old(self).lemma_slot_live(s0 + j);
                lemma_ring_slot_inverse(h, s0 + j as int, n);
                assert forall|i: int| 0 <= i < N && i != s0 + j implies #[trigger] ring_slot(
                    h,
                    i,
                    n,
                ) != ring_slot(h, s0 + j, n) by {
                    lemma_ring_slot_distinct(h, i, s0 + j, n);
                }
            }
            let k = self.to_physical_index(start + j);
            let v = self.buf[k].take();
            items.push(v.unwrap());
            j += 1;
        }
        let ghost gtaken = self.buf@;
        let head_len = start;
        let tail_len = len - end;
        if head_len != 0 && tail_len != 0 {
            if head_len < tail_len {
                // move the shorter front run behind the gap
                let src = self.head;
                let dst = self.to_physical_index(drain_len);
                proof {
                    lemma_small_mod(h as nat, n as nat);
                    assert forall|j2: int|
                        0 <= j2 < head_len implies (#[trigger] self.buf@[ring_slot(
                        src as int,
                        j2,
                        n,
                    )]) is Some by {
                        lemma_small_mod(j2 as nat, n as nat);
                        assert(self.buf@[ring_slot(h, j2, n)] == old(self).buf@[ring_slot(
                            h,
                            j2,
                            n,
                        )]);
                    }
                    lemma_ring_slot_small(h, drain_len as int, n);
                }
                self.wrap_copy(src, dst, head_len);
                let ghost gmid = self.buf@;
                let new_head = self.to_physical_index(drain_len);
                self.head = new_head;
                self.len = new_len;
                proof {
                    let h2 = new_head as int;
                    let dl = drain_len as int;
                    assert forall|i: int| 0 <= i < N implies ring_slot(h2, i, n) == ring_slot(
                        h,
                        dl + i,
                        n,
                    ) by {
                        lemma_ring_slot_add(h, dl, i, n);
                    }
                    assert forall|i: int|
                        0 <= i < N implies ((#[trigger] self.buf@[ring_slot(h2, i, n)]) is Some
                        <==> i < self.len as int) by {
                        lemma_small_mod(h as nat, n as nat);
                        lemma_ring_dist(h, dl + i, 0, n);
                        lemma_ring_dist(h, dl + i, dl, n);
                        lemma_mod_pm(dl + i - n, n);
                        lemma_mod_pm(i, n);
                        if dl + i < n {
                            lemma_mod_pm(dl + i, n);
                        }
                        if i < head_len {
                            assert(gmid[ring_slot(dst as int, i, n)] == gtaken[ring_slot(
                                src as int,
                                i,
                                n,
                            )]);
                            lemma_small_mod(h as nat, n as nat);
                            lemma_small_mod(i as nat, n as nat);
                            assert(gtaken[ring_slot(h, i, n)] == old(self).buf@[ring_slot(
                                h,
                                i,
                                n,
                            )]);
                        } else if i < new_len {
                            assert(!in_ring_range(ring_slot(h, dl + i, n), src as int, head_len as int, n));
                            assert(!in_ring_range(ring_slot(h, dl + i, n), dst as int, head_len as int, n));
                            assert(gmid[ring_slot(h, dl + i, n)] == gtaken[ring_slot(
                                h,
                                dl + i,
                                n,
                            )]);
                        } else if dl + i < n {
                            // backs an old position past the length: vacant and untouched
                            assert(!in_ring_range(ring_slot(h, dl + i, n), src as int, head_len as int, n));
                            assert(!in_ring_range(ring_slot(h, dl + i, n), dst as int, head_len as int, n));
                            assert(gmid[ring_slot(h, dl + i, n)] == gtaken[ring_slot(
                                h,
                                dl + i,
                                n,
                            )]);
                        } else {
                            // wraps to an old front or drained position
                            lemma_mod_multiples_vanish(1, h + dl + i - n, n);
                            assert(ring_slot(h, dl + i, n) == ring_slot(h, dl + i - n, n));
                            lemma_ring_dist(h, dl + i - n, 0, n);
                            lemma_ring_dist(h, dl + i - n, dl, n);
                            lemma_mod_pm(dl + i - n, n);
                            lemma_mod_pm(i - n, n);
                            if dl + i - n < s0 {
                                // a source of the moved run, not re-covered: vacated
                                assert(in_ring_range(ring_slot(h, dl + i - n, n), src as int, head_len as int, n));
                                assert(!in_ring_range(ring_slot(h, dl + i - n, n), dst as int, head_len as int, n));
                                assert(!(gmid[ring_slot(h, dl + i - n, n)] is Some));
                            } else {
                                // a drained position: emptied by the taking pass
                                assert(!in_ring_range(ring_slot(h, dl + i - n, n), src as int, head_len as int, n));
                                assert(!in_ring_range(ring_slot(h, dl + i - n, n), dst as int, head_len as int, n));
                                assert(gmid[ring_slot(h, dl + i - n, n)] == gtaken[ring_slot(
                                    h,
                                    dl + i - n,
                                    n,
                                )]);
                                assert(!(gtaken[ring_slot(h, dl + i - n, n)] is Some));
                            }
                        }
                    }
                    assert forall|i: int|
                        0 <= i < self.len as int implies self@[i] == (old(self)@.subrange(0, s0)
                        + old(self)@.subrange(e0, l))[i] by {
                        lemma_small_mod(h as nat, n as nat);
                        lemma_ring_dist(h, dl + i, 0, n);
                        lemma_ring_dist(h, dl + i, dl, n);
                        lemma_mod_pm(dl + i - n, n);
                        lemma_mod_pm(i, n);
                        if dl + i < n {
                            lemma_mod_pm(dl + i, n);
                        }
                        if i < head_len {
                            assert(gmid[ring_slot(dst as int, i, n)] == gtaken[ring_slot(
                                src as int,
                                i,
                                n,
                            )]);
                            lemma_small_mod(h as nat, n as nat);
                            lemma_small_mod(i as nat, n as nat);
                            assert(gtaken[ring_slot(h, i, n)] == old(self).buf@[ring_slot(
                                h,
                                i,
                                n,
                            )]);
                            old(self).lemma_slot_live(i);
                        } else {
                            assert(gmid[ring_slot(h, dl + i, n)] == gtaken[ring_slot(
                                h,
                                dl + i,
                                n,
                            )]);
                            old(self).lemma_slot_live(dl + i);
                        }
                    }
                    assert(final(self)@ =~= old(self)@.subrange(0, s0) + old(self)@.subrange(
                        e0,
                        l,
                    ));
                }
            } else {
                // move the shorter back run over the gap
                let src = self.to_physical_index(end);
                let dst = self.to_physical_index(start);
                proof {
                    assert forall|j2: int|
                        0 <= j2 < tail_len implies (#[trigger] self.buf@[ring_slot(
                        src as int,
                        j2,
                        n,
                    )]) is Some by {
                        lemma_ring_slot_add(h, e0, j2, n);
                        lemma_mod_pm(e0 + j2, n);
                        lemma_mod_pm(e0 + j2 - n, n);
                        if e0 + j2 < n {
                            assert(self.buf@[ring_slot(h, e0 + j2, n)] == old(self).buf@[ring_slot(
                                h,
                                e0 + j2,
                                n,
                            )]);
                        } else {
                            lemma_mod_multiples_vanish(1, h + e0 + j2 - n, n);
                            assert(self.buf@[ring_slot(h, e0 + j2 - n, n)] == old(
                                self,
                            ).buf@[ring_slot(h, e0 + j2 - n, n)]);
                        }
                    }
                    lemma_ring_slot_small(h, e0, n);
                    lemma_ring_slot_small(h, s0, n);
                }
                self.wrap_copy(src, dst, tail_len);
                let ghost gmid = self.buf@;
                self.len = new_len;
                proof {
                    assert forall|i: int|
                        0 <= i < N implies ((#[trigger] self.buf@[ring_slot(h, i, n)]) is Some
                        <==> i < self.len as int) by {
                        lemma_ring_dist(h, i, s0, n);
                        lemma_ring_dist(h, i, e0, n);
                        lemma_mod_pm(i - s0, n);
                        lemma_mod_pm(i - e0, n);
                        if s0 <= i < new_len {
                            lemma_ring_slot_add(h, s0, i - s0, n);
                            lemma_ring_slot_add(h, e0, i - s0, n);
                            assert(gmid[ring_slot(dst as int, i - s0, n)] == gtaken[ring_slot(
                                src as int,
                                i - s0,
                                n,
                            )]);
                            lemma_mod_pm(e0 + (i - s0), n);
                            lemma_mod_pm(e0 + (i - s0) - n, n);
                            assert(gtaken[ring_slot(h, e0 + (i - s0), n)] == old(
                                self,
                            ).buf@[ring_slot(h, e0 + (i - s0), n)]);
                        } else if i < s0 {
                            assert(!in_ring_range(ring_slot(h, i, n), src as int, tail_len as int, n));
                            assert(!in_ring_range(ring_slot(h, i, n), dst as int, tail_len as int, n));
                            assert(gmid[ring_slot(h, i, n)] == gtaken[ring_slot(h, i, n)]);
                            assert(gtaken[ring_slot(h, i, n)] == old(self).buf@[ring_slot(
                                h,
                                i,
                                n,
                            )]);
                        } else {
                            if e0 <= i < l {
                                // a source of the moved run, not re-covered: vacated
                                assert(in_ring_range(ring_slot(h, i, n), src as int, tail_len as int, n));
                                assert(!in_ring_range(ring_slot(h, i, n), dst as int, tail_len as int, n));
                                assert(!(gmid[ring_slot(h, i, n)] is Some));
                            } else {
                                // drained or past the length: vacant and untouched
                                assert(!in_ring_range(ring_slot(h, i, n), src as int, tail_len as int, n));
                                assert(!in_ring_range(ring_slot(h, i, n), dst as int, tail_len as int, n));
                                assert(gmid[ring_slot(h, i, n)] == gtaken[ring_slot(h, i, n)]);
                            }
                        }
                    }
                    assert forall|i: int|
                        0 <= i < self.len as int implies self@[i] == (old(self)@.subrange(0, s0)
                        + old(self)@.subrange(e0, l))[i] by {
                        lemma_ring_dist(h, i, s0, n);
                        lemma_ring_dist(h, i, e0, n);
                        lemma_mod_pm(i - s0, n);
                        lemma_mod_pm(i - e0, n);
                        if s0 <= i < new_len {
                            lemma_ring_slot_add(h, s0, i - s0, n);
                            lemma_ring_slot_add(h, e0, i - s0, n);
                            assert(gmid[ring_slot(dst as int, i - s0, n)] == gtaken[ring_slot(
                                src as int,
                                i - s0,
                                n,
                            )]);
                            lemma_mod_pm(e0 + (i - s0), n);
                            lemma_mod_pm(e0 + (i - s0) - n, n);
                            assert(gtaken[ring_slot(h, e0 + (i - s0), n)] == old(
                                self,
                            ).buf@[ring_slot(h, e0 + (i - s0), n)]);
                            old(self).lemma_slot_live(e0 + (i - s0));
                        } else {
                            assert(!in_ring_range(ring_slot(h, i, n), src as int, tail_len as int, n));
                            assert(!in_ring_range(ring_slot(h, i, n), dst as int, tail_len as int, n));
                            assert(gmid[ring_slot(h, i, n)] == gtaken[ring_slot(h, i, n)]);
                            assert(gtaken[ring_slot(h, i, n)] == old(self).buf@[ring_slot(
                                h,
                                i,
                                n,
                            )]);
                            old(self).lemma_slot_live(i);
                        }
                    }
                    assert(final(self)@ =~= old(self)@.subrange(0, s0) + old(self)@.subrange(
                        e0,
                        l,
                    ));
                }
            }
        } else if new_len == 0 {
            // everything was drained: reset the ring
            self.len = 0;
            self.head = 0;
            proof {
                assert forall|k: int| 0 <= k < N implies !((#[trigger] self.buf@[k]) is Some) by {
                    vstd::arithmetic::div_mod::lemma_mod_bound(k - h, n);
                    vstd::arithmetic::div_mod::lemma_add_mod_noop_right(h, k - h, n);
                    lemma_small_mod(k as nat, n as nat);
                    assert(ring_slot(h, (k - h) % n, n) == k);
                    assert(!((self.buf@[ring_slot(h, (k - h) % n, n)]) is Some));
                }
                assert forall|i: int|
                    0 <= i < N implies !((#[trigger] self.buf@[ring_slot(0, i, n)]) is Some) by {
                    lemma_ring_slot_inverse(0, i, n);
                }
                assert(final(self)@ =~= old(self)@.subrange(0, s0) + old(self)@.subrange(e0, l));
            }
        } else if tail_len == 0 {
            // drained at the back: only the length shrinks
            self.len = new_len;
            proof {
                assert forall|i: int|
                    0 <= i < N implies ((#[trigger] self.buf@[ring_slot(h, i, n)]) is Some <==> i
                    < self.len as int) by {}
                assert forall|i: int| 0 <= i < self.len as int implies self@[i] == old(
                    self,
                )@[i] by {}
                assert(final(self)@ =~= old(self)@.subrange(0, s0) + old(self)@.subrange(e0, l));
            }
        } else {
            // drained at the front: only the head moves
            let new_head = self.to_physical_index(drain_len);
            self.head = new_head;
            self.len = new_len;
            proof {
                let h2 = new_head as int;
                let dl = drain_len as int;
                assert forall|i: int| 0 <= i < N implies ring_slot(h2, i, n) == ring_slot(
                    h,
                    dl + i,
                    n,
                ) by {
                    lemma_ring_slot_add(h, dl, i, n);
                }
                assert forall|i: int|
                    0 <= i < N implies ((#[trigger] self.buf@[ring_slot(h2, i, n)]) is Some <==> i
                    < self.len as int) by {
                    lemma_ring_dist(h, dl + i, 0, n);
                    lemma_mod_pm(i, n);
                    lemma_mod_pm(dl + i - n, n);
                    if dl + i < n {
                        lemma_mod_pm(dl + i, n);
                    } else {
                        lemma_mod_multiples_vanish(1, h + dl + i - n, n);
                        assert(ring_slot(h, dl + i, n) == ring_slot(h, dl + i - n, n));
                    }
                    assert(self.buf@[ring_slot(h, dl + i, n)] == gtaken[ring_slot(h, dl + i, n)]);
                }
                assert forall|i: int| 0 <= i < self.len as int implies self@[i] == old(self)@[dl
                    + i] by {
                    lemma_mod_pm(dl + i, n);
                    old(self).lemma_slot_live(dl + i);
                }
                assert(final(self)@ =~= old(self)@.subrange(0, s0) + old(self)@.subrange(e0, l));
            }
        }
        proof {
            assert(items@ =~= old(self)@.subrange(s0, e0));
        }
        Ok(crate::inplace_vec::Drain::from_items(items))
    }

    /// Keeps exactly the elements the predicate approves, in their original
    /// order, compacting them towards the front; a single stable pass of
    /// swaps followed by one truncation.
    pub fn retain<F: Fn(&T) -> bool>(&mut self, f: F)
        requires
            old(self).wf(),
            forall|i: int| 0 <= i < old(self)@.len() ==> call_requires(f, (&old(self)@[i],)),
        ensures
            final(self).wf(),
            exists|keep: Seq<bool>|
                {
                    &&& keep.len() == old(self)@.len()
                    &&& (forall|i: int|
                        0 <= i < keep.len() ==> call_ensures(f, (&old(self)@[i],), #[trigger] keep[i]))
                    &&& final(self)@ == crate::inplace_vec::filter_by_mask(old(self)@, keep)
                },
    {
        let ghost orig = self@;
        let ghost mut keep: Seq<bool> = Seq::empty();
        let len = self.len;
        let mut current: usize = 0;
        let mut index: usize = 0;
        while current < len
            invariant
                self.wf(),
                len == orig.len(),
                self@.len() == orig.len(),
                current <= len,
                index <= current,
                keep.len() == current as int,
                forall|i: int| 0 <= i < orig.len() ==> call_requires(f, (&orig[i],)),
                forall|i: int|
                    0 <= i < current ==> call_ensures(f, (&orig[i],), #[trigger] keep[i]),
                self@.subrange(0, index as int) == crate::inplace_vec::filter_by_mask(
                    orig.take(current as int),
                    keep.take(current as int),
                ),
                index as int == crate::inplace_vec::filter_by_mask(
                    orig.take(current as int),
                    keep.take(current as int),
                ).len(),
                forall|k: int| current <= k < orig.len() ==> self@[k] == orig[k],
            decreases len - current,
        {
            proof {
                assert(self@[current as int] == orig[current as int]);
            }
            let keep_it = f(self.get(current).unwrap());
            proof {
                let prev_keep = keep;
                assert(prev_keep.take(current as int) =~= prev_keep);
                keep = keep.push(keep_it);
                assert(keep.take(current as int) =~= prev_keep);
                assert(keep.take(current as int + 1) =~= keep);
                crate::inplace_vec::lemma_filter_by_mask_step(orig, keep, current as int);
            }
            let ghost before = self@;
            if keep_it {
                if index != current {
                    let swapped = self.swap(index, current);
                    proof {
                        assert(swapped is Ok);
                    }
                }
                proof {
                    assert(self@.subrange(0, index as int) =~= before.subrange(0, index as int));
                    assert(self@[index as int] == orig[current as int]);
                    assert(self@.subrange(0, index as int + 1) =~= before.subrange(
                        0,
                        index as int,
                    ).push(orig[current as int]));
                }
                index += 1;
            }
            current += 1;
        }
        proof {
            assert(orig.take(len as int) =~= orig);
            assert(keep.take(len as int) =~= keep);
        }
        let ghost pre = self@;
        self.truncate(index);
        proof {
            assert(self@ =~= pre.subrange(0, index as int));
            assert(final(self)@ == crate::inplace_vec::filter_by_mask(orig, keep));
        }
    }

    /// Whether some element equals `x`, read through the type's own `==`.
    pub fn contains(&self, x: &T) -> (r: bool) where T: PartialEq
        requires
            self.wf(),
        ensures
            T::obeys_eq_spec() ==> (r <==> exists|i: int|
                0 <= i < self@.len() && (#[trigger] self@[i]).eq_spec(x)),
    {
        let len = self.len;
        let mut i: usize = 0;
        while i < len
            invariant
                self.wf(),
                i <= len == self@.len(),
                T::obeys_eq_spec() ==> forall|j: int|
                    0 <= j < i as int ==> !((#[trigger] self@[j]).eq_spec(x)),
            decreases len - i,
        {
            let candidate = self.get(i).unwrap();
            if candidate == x {
                proof {
                    if T::obeys_eq_spec() {
                        assert(self@[i as int].eq_spec(x));
                    }
                }
                return true;
            }
            i += 1;
        }
        false
    }

    /// The logical contents split at the physical wrap point: references to
    /// the run up to the end of storage, then to the wrapped remainder. The
    /// two runs concatenated are exactly the logical sequence, and the second
    /// is empty exactly when the deque is contiguous.
    pub fn as_slices(&self) -> (r: (Vec<&T>, Vec<&T>))
        requires
            self.wf(),
        ensures
            r.0@.len() + r.1@.len() == self@.len(),
            forall|i: int| 0 <= i < r.0@.len() ==> *(#[trigger] r.0@[i]) == self@[i],
            forall|i: int|
                0 <= i < r.1@.len() ==> *(#[trigger] r.1@[i]) == self@[r.0@.len() + i],
            self@.len() > 0 ==> (r.1@.len() == 0 <==> self.spec_is_contiguous()),
    {
        let first_len = if self.head <= N - self.len {
            self.len
        } else {
            N - self.head
        };
        let mut front: Vec<&T> = Vec::new();
        let mut i: usize = 0;
        while i < first_len
            invariant
                self.wf(),
                first_len <= self@.len(),
                i <= first_len,
                front@.len() == i as int,
                forall|j: int| 0 <= j < i as int ==> *(#[trigger] front@[j]) == self@[j],
            decreases first_len - i,
        {
            front.push(self.get(i).unwrap());
            i += 1;
        }
        let mut back: Vec<&T> = Vec::new();
        let mut j: usize = first_len;
        while j < self.len
            invariant
                self.wf(),
                first_len <= j <= self@.len(),
                back@.len() == j as int - first_len as int,
                forall|k: int|
                    0 <= k < back@.len() ==> *(#[trigger] back@[k]) == self@[first_len + k],
            decreases self@.len() - j,
        {
            back.push(self.get(j).unwrap());
            j += 1;
        }
        (front, back)
    }

    /// A borrowing cursor over the logical sequence.
    pub fn iter(&self) -> (r: Iter<T, N>)
        requires
            self.wf(),
        ensures
            r.wf(),
            r@ == self@,
    {
        Iter { deque: self, front: 0, back: self.len }
    }

    /// Consumes the deque, handing back its elements as a bounded vector in
    /// logical order; contiguity is rebuilt in the move.
    pub fn into_inplace_vec(self) -> (r: crate::inplace_vec::InplaceVec<T, N>)
        requires
            self.wf(),
        ensures
            r.wf(),
            r@ == self@,
    {
        let ghost orig = self@;
        let mut this = self;
        let mut r = crate::inplace_vec::InplaceVec::new();
        while this.len > 0
            invariant
                this.wf(),
                r.wf(),
                orig.len() <= N,
                r@ + this@ == orig,
            decreases this@.len(),
        {
            let ghost pre = this@;
            let x = this.pop_front().unwrap();
            let pushed = r.push(x);
            proof {
                assert(pushed is Ok);
                assert(r@ + this@ =~= orig);
            }
        }
        proof {
            assert(r@ =~= orig);
        }
        r
    }
}

impl<T: Ord, const N: usize> InplaceDeque<T, N> {
    /// Searches a deque sorted in non-decreasing order for `x`. On a match
    /// the index of one matching element comes back; otherwise the index
    /// where `x` could be inserted keeping the order.
    pub fn binary_search(&self, x: &T) -> (r: Result<usize, usize>)
        requires
            self.wf(),
            crate::inplace_heap::ord_laws::<T>(),
            forall|i: int, j: int|
                0 <= i <= j < self@.len() ==> crate::inplace_heap::ord_le(
                    #[trigger] self@[i],
                    #[trigger] self@[j],
                ),
        ensures
            r matches Ok(i) ==> i < self@.len() && self@[i as int].cmp_spec(x)
                == core::cmp::Ordering::Equal,
            r matches Err(i) ==> i <= self@.len() && (forall|j: int|
                0 <= j < i as int ==> (#[trigger] self@[j]).cmp_spec(x)
                    == core::cmp::Ordering::Less) && (forall|j: int|
                i as int <= j < self@.len() ==> (#[trigger] self@[j]).cmp_spec(x)
                    == core::cmp::Ordering::Greater),
    {
        let mut lo: usize = 0;
        let mut hi: usize = self.len;
        while lo < hi
            invariant
                self.wf(),
                crate::inplace_heap::ord_laws::<T>(),
                forall|i: int, j: int|
                    0 <= i <= j < self@.len() ==> crate::inplace_heap::ord_le(
                        #[trigger] self@[i],
                        #[trigger] self@[j],
                    ),
                lo <= hi <= self@.len(),
                forall|j: int|
                    0 <= j < lo as int ==> (#[trigger] self@[j]).cmp_spec(x)
                        == core::cmp::Ordering::Less,
                forall|j: int|
                    hi as int <= j < self@.len() ==> (#[trigger] self@[j]).cmp_spec(x)
                        == core::cmp::Ordering::Greater,
            decreases hi - lo,
        {
            let mid = lo + (hi - lo) / 2;
            let probe = self.get(mid).unwrap();
            let ord = probe.cmp(x);
            match ord {
                core::cmp::Ordering::Less => {
                    proof {
                        assert forall|j: int|
                            0 <= j < mid as int + 1 implies (#[trigger] self@[j]).cmp_spec(x)
                            == core::cmp::Ordering::Less by {
                            lemma_sorted_probe_less(self@, j, mid as int, *x);
                        }
                    }
                    lo = mid + 1;
                },
                core::cmp::Ordering::Greater => {
                    proof {
                        assert forall|j: int|
                            mid as int <= j < self@.len() implies (#[trigger] self@[j]).cmp_spec(x)
                            == core::cmp::Ordering::Greater by {
                            lemma_sorted_probe_greater(self@, j, mid as int, *x);
                        }
                    }
                    hi = mid;
                },
                core::cmp::Ordering::Equal => {
                    return Ok(mid);
                },
            }
        }
        Err(lo)
    }

    /// Searches with a caller-supplied comparator that must judge the deque
    /// non-decreasing: earlier positions never compare above later ones. On a
    /// match the index of one matching element comes back; otherwise the
    /// index where a matching element could be inserted keeping the order.
    pub fn binary_search_by<F: Fn(&T) -> core::cmp::Ordering>(&self, f: F) -> (r: Result<
        usize,
        usize,
    >)
        requires
            self.wf(),
            forall|i: int| 0 <= i < self@.len() ==> call_requires(f, (&self@[i],)),
            forall|i: int, j: int, oi: core::cmp::Ordering, oj: core::cmp::Ordering|
                0 <= i <= j < self@.len() && call_ensures(f, (&self@[i],), oi) && call_ensures(
                    f,
                    (&self@[j],),
                    oj,
                ) ==> ordering_rank(oi) <= ordering_rank(oj),
        ensures
            r matches Ok(i) ==> i < self@.len() && call_ensures(
                f,
                (&self@[i as int],),
                core::cmp::Ordering::Equal,
            ),
            r matches Err(i) ==> i <= self@.len() && (forall|j: int, o: core::cmp::Ordering|
                0 <= j < i as int && call_ensures(f, (&self@[j],), o) ==> o
                    == core::cmp::Ordering::Less) && (forall|j: int, o: core::cmp::Ordering|
                i as int <= j < self@.len() && call_ensures(f, (&self@[j],), o) ==> o
                    == core::cmp::Ordering::Greater),
    {
        let mut lo: usize = 0;
        let mut hi: usize = self.len;
        while lo < hi
            invariant
                self.wf(),
                lo <= hi <= self@.len(),
                forall|i: int| 0 <= i < self@.len() ==> call_requires(f, (&self@[i],)),
                forall|i: int, j: int, oi: core::cmp::Ordering, oj: core::cmp::Ordering|
                    0 <= i <= j < self@.len() && call_ensures(f, (&self@[i],), oi) && call_ensures(
                        f,
                        (&self@[j],),
                        oj,
                    ) ==> ordering_rank(oi) <= ordering_rank(oj),
                forall|j: int, o: core::cmp::Ordering|
                    0 <= j < lo as int && call_ensures(f, (&self@[j],), o) ==> o
                        == core::cmp::Ordering::Less,
                forall|j: int, o: core::cmp::Ordering|
                    hi as int <= j < self@.len() && call_ensures(f, (&self@[j],), o) ==> o
                        == core::cmp::Ordering::Greater,
            decreases hi - lo,
        {
            let mid = lo + (hi - lo) / 2;
            let ord = f(self.get(mid).unwrap());
            match ord {
                core::cmp::Ordering::Less => {
                    proof {
                        assert(call_ensures(f, (&self@[mid as int],), core::cmp::Ordering::Less));
                        assert forall|j: int, o: core::cmp::Ordering|
                            0 <= j < mid as int + 1 && call_ensures(f, (&self@[j],), o) implies o
                            == core::cmp::Ordering::Less by {
                            assert(call_ensures(f, (&self@[j],), o) && call_ensures(
                                f,
                                (&self@[mid as int],),
                                core::cmp::Ordering::Less,
                            ));
                        }
                    }
                    lo = mid + 1;
                },
                core::cmp::Ordering::Greater => {
                    proof {
                        assert(call_ensures(
                            f,
                            (&self@[mid as int],),
                            core::cmp::Ordering::Greater,
                        ));
                        assert forall|j: int, o: core::cmp::Ordering|
                            mid as int <= j < self@.len() && call_ensures(f, (&self@[j],), o)
                            implies o == core::cmp::Ordering::Greater by {
                            assert(call_ensures(f, (&self@[j],), o) && call_ensures(
                                f,
                                (&self@[mid as int],),
                                core::cmp::Ordering::Greater,
                            ));
                        }
                    }
                    hi = mid;
                },
                core::cmp::Ordering::Equal => {
                    return Ok(mid);
                },
            }
        }
        Err(lo)
    }

    /// Searches by an extracted key, with a key map that must judge the
    /// deque non-decreasing under the key type's lawful order.
    pub fn binary_search_by_key<B: Ord, F: Fn(&T) -> B>(&self, b: &B, f: F) -> (r: Result<
        usize,
        usize,
    >)
        requires
            self.wf(),
            crate::inplace_heap::ord_laws::<B>(),
            forall|i: int| 0 <= i < self@.len() ==> call_requires(f, (&self@[i],)),
            forall|i: int, j: int, ki: B, kj: B|
                0 <= i <= j < self@.len() && call_ensures(f, (&self@[i],), ki) && call_ensures(
                    f,
                    (&self@[j],),
                    kj,
                ) ==> crate::inplace_heap::ord_le(ki, kj),
        ensures
            r matches Ok(i) ==> i < self@.len() && exists|k: B|
                #[trigger] call_ensures(f, (&self@[i as int],), k) && k.cmp_spec(b)
                    == core::cmp::Ordering::Equal,
            r matches Err(i) ==> i <= self@.len() && (forall|j: int, k: B|
                0 <= j < i as int && call_ensures(f, (&self@[j],), k) ==> k.cmp_spec(b)
                    == core::cmp::Ordering::Less) && (forall|j: int, k: B|
                i as int <= j < self@.len() && call_ensures(f, (&self@[j],), k) ==> k.cmp_spec(b)
                    == core::cmp::Ordering::Greater),
    {
        let mut lo: usize = 0;
        let mut hi: usize = self.len;
        while lo < hi
            invariant
                self.wf(),
                crate::inplace_heap::ord_laws::<B>(),
                lo <= hi <= self@.len(),
                forall|i: int| 0 <= i < self@.len() ==> call_requires(f, (&self@[i],)),
                forall|i: int, j: int, ki: B, kj: B|
                    0 <= i <= j < self@.len() && call_ensures(f, (&self@[i],), ki) && call_ensures(
                        f,
                        (&self@[j],),
                        kj,
                    ) ==> crate::inplace_heap::ord_le(ki, kj),
                forall|j: int, k: B|
                    0 <= j < lo as int && call_ensures(f, (&self@[j],), k) ==> k.cmp_spec(b)
                        == core::cmp::Ordering::Less,
                forall|j: int, k: B|
                    hi as int <= j < self@.len() && call_ensures(f, (&self@[j],), k) ==> k.cmp_spec(
                        b,
                    ) == core::cmp::Ordering::Greater,
            decreases hi - lo,
        {
            let mid = lo + (hi - lo) / 2;
            let key = f(self.get(mid).unwrap());
            let ord = key.cmp(b);
            match ord {
                core::cmp::Ordering::Less => {
                    proof {
                        assert(call_ensures(f, (&self@[mid as int],), key));
                        assert forall|j: int, k: B|
                            0 <= j < mid as int + 1 && call_ensures(f, (&self@[j],), k) implies k.cmp_spec(
                            b,
                        ) == core::cmp::Ordering::Less by {
                            assert(crate::inplace_heap::ord_le(k, key));
                            lemma_key_below_less(k, key, *b);
                        }
                    }
                    lo = mid + 1;
                },
                core::cmp::Ordering::Greater => {
                    proof {
                        assert(call_ensures(f, (&self@[mid as int],), key));
                        assert forall|j: int, k: B|
                            mid as int <= j < self@.len() && call_ensures(f, (&self@[j],), k)
                            implies k.cmp_spec(b) == core::cmp::Ordering::Greater by {
                            assert(crate::inplace_heap::ord_le(key, k));
                            lemma_key_above_greater(k, key, *b);
                        }
                    }
                    hi = mid;
                },
                core::cmp::Ordering::Equal => {
                    proof {
                        assert(call_ensures(f, (&self@[mid as int],), key) && key.cmp_spec(b)
                            == core::cmp::Ordering::Equal);
                    }
                    return Ok(mid);
                },
            }
        }
        Err(lo)
    }

    /// The index of the first element of the partition's second half: the
    /// predicate holds on an initial run of the deque and nowhere after it,
    /// and the boundary comes back.
    pub fn partition_point<F: Fn(&T) -> bool>(&self, pred: F) -> (r: usize)
        requires
            self.wf(),
            forall|i: int| 0 <= i < self@.len() ==> call_requires(pred, (&self@[i],)),
            // the predicate partitions the deque: wherever it can answer
            // true, it can answer nothing but true at every earlier position
            forall|i: int, j: int, bi: bool, bj: bool|
                0 <= i <= j < self@.len() && call_ensures(pred, (&self@[i],), bi) && call_ensures(
                    pred,
                    (&self@[j],),
                    bj,
                ) ==> (bj ==> bi),
        ensures
            r <= self@.len(),
            forall|j: int, b: bool|
                0 <= j < r as int && call_ensures(pred, (&self@[j],), b) ==> b,
            forall|j: int, b: bool|
                r as int <= j < self@.len() && call_ensures(pred, (&self@[j],), b) ==> !b,
    {
        let mut lo: usize = 0;
        let mut hi: usize = self.len;
        while lo < hi
            invariant
                self.wf(),
                lo <= hi <= self@.len(),
                forall|i: int| 0 <= i < self@.len() ==> call_requires(pred, (&self@[i],)),
                forall|i: int, j: int, bi: bool, bj: bool|
                    0 <= i <= j < self@.len() && call_ensures(pred, (&self@[i],), bi)
                        && call_ensures(pred, (&self@[j],), bj) ==> (bj ==> bi),
                forall|j: int, b: bool|
                    0 <= j < lo as int && call_ensures(pred, (&self@[j],), b) ==> b,
                forall|j: int, b: bool|
                    hi as int <= j < self@.len() && call_ensures(pred, (&self@[j],), b) ==> !b,
            decreases hi - lo,
        {
            let mid = lo + (hi - lo) / 2;
            let holds = pred(self.get(mid).unwrap());
            if holds {
                proof {
                    assert(call_ensures(pred, (&self@[mid as int],), true));
                    assert forall|j: int, b: bool|
                        0 <= j < mid as int + 1 && call_ensures(pred, (&self@[j],), b) implies b by {
                        assert(call_ensures(pred, (&self@[j],), b) && call_ensures(
                            pred,
                            (&self@[mid as int],),
                            true,
                        ));
                    }
                }
                lo = mid + 1;
            } else {
                proof {
                    assert(call_ensures(pred, (&self@[mid as int],), false));
                    assert forall|j: int, b: bool|
                        mid as int <= j < self@.len() && call_ensures(pred, (&self@[j],), b)
                            implies !b by {
                        assert(call_ensures(pred, (&self@[mid as int],), false) && call_ensures(
                            pred,
                            (&self@[j],),
                            b,
                        ));
                    }
                }
                hi = mid;
            }
        }
        lo
    }

    /// Consumes the deque into an owning cursor over its elements, front to
    /// back.
    pub fn into_iter(self) -> (r: IntoIter<T, N>)
        requires
            self.wf(),
        ensures
            r.wf(),
            r@ == self@,
    {
        IntoIter { inner: self }
    }
}

/// In a non-decreasing sequence, once a probe compares below the key, so
/// does everything before it.
proof fn lemma_sorted_probe_less<T: Ord>(s: Seq<T>, j: int, mid: int, x: T)
    requires
        crate::inplace_heap::ord_laws::<T>(),
        0 <= j <= mid < s.len(),
        forall|i: int, j2: int|
            0 <= i <= j2 < s.len() ==> crate::inplace_heap::ord_le(
                #[trigger] s[i],
                #[trigger] s[j2],
            ),
        s[mid].cmp_spec(&x) == core::cmp::Ordering::Less,
    ensures
        s[j].cmp_spec(&x) == core::cmp::Ordering::Less,
{
    assert(crate::inplace_heap::ord_le(s[j], s[mid]));
    assert(crate::inplace_heap::ord_le(s[mid], x));
    assert(crate::inplace_heap::ord_le(s[j], x));
    if s[j].cmp_spec(&x) == core::cmp::Ordering::Equal {
        assert(crate::inplace_heap::ord_le(x, s[j]));
        assert(crate::inplace_heap::ord_le(x, s[mid]));
        assert(false);
    }
}

/// In a non-decreasing sequence, once a probe compares above the key, so
/// does everything after it.
proof fn lemma_sorted_probe_greater<T: Ord>(s: Seq<T>, j: int, mid: int, x: T)
    requires
        crate::inplace_heap::ord_laws::<T>(),
        0 <= mid <= j < s.len(),
        forall|i: int, j2: int|
            0 <= i <= j2 < s.len() ==> crate::inplace_heap::ord_le(
                #[trigger] s[i],
                #[trigger] s[j2],
            ),
        s[mid].cmp_spec(&x) == core::cmp::Ordering::Greater,
    ensures
        s[j].cmp_spec(&x) == core::cmp::Ordering::Greater,
{
    assert(crate::inplace_heap::ord_le(s[mid], s[j]));
    assert(!crate::inplace_heap::ord_le(s[mid], x));
    if s[j].cmp_spec(&x) != core::cmp::Ordering::Greater {
        assert(crate::inplace_heap::ord_le(s[j], x));
        assert(crate::inplace_heap::ord_le(s[mid], x));
        assert(false);
    }
}

/// The position of an ordering outcome along the sorted axis.
pub open spec fn ordering_rank(o: core::cmp::Ordering) -> int {
    match o {
        core::cmp::Ordering::Less => 0,
        core::cmp::Ordering::Equal => 1,
        core::cmp::Ordering::Greater => 2,
    }
}

/// A key at most another key that compares below the target also compares
/// below the target.
proof fn lemma_key_below_less<B: Ord>(k: B, key: B, b: B)
    requires
        crate::inplace_heap::ord_laws::<B>(),
        crate::inplace_heap::ord_le(k, key),
        key.cmp_spec(&b) == core::cmp::Ordering::Less,
    ensures
        k.cmp_spec(&b) == core::cmp::Ordering::Less,
{
    assert(crate::inplace_heap::ord_le(key, b));
    assert(crate::inplace_heap::ord_le(k, b));
    if k.cmp_spec(&b) == core::cmp::Ordering::Equal {
        assert(crate::inplace_heap::ord_le(b, k));
        assert(crate::inplace_heap::ord_le(b, key));
        assert(false);
    }
}

/// A key at least another key that compares above the target also compares
/// above the target.
proof fn lemma_key_above_greater<B: Ord>(k: B, key: B, b: B)
    requires
        crate::inplace_heap::ord_laws::<B>(),
        crate::inplace_heap::ord_le(key, k),
        key.cmp_spec(&b) == core::cmp::Ordering::Greater,
    ensures
        k.cmp_spec(&b) == core::cmp::Ordering::Greater,
{
    assert(!crate::inplace_heap::ord_le(key, b));
    if k.cmp_spec(&b) != core::cmp::Ordering::Greater {
        assert(crate::inplace_heap::ord_le(k, b));
        assert(crate::inplace_heap::ord_le(key, b));
        assert(false);
    }
}

/// An owning cursor over a deque's elements; ends can be consumed
/// independently.
pub struct IntoIter<T, const N: usize> {
    inner: InplaceDeque<T, N>,
}

impl<T, const N: usize> View for IntoIter<T, N> {
    type V = Seq<T>;

    closed spec fn view(&self) -> Seq<T> {
        self.inner@
    }
}

impl<T, const N: usize> IntoIter<T, N> {
    pub closed spec fn wf(&self) -> bool {
        self.inner.wf()
    }

    /// The next element from the front, or nothing when exhausted.
    pub fn next(&mut self) -> (r: Option<T>)
        requires
            old(self).wf(),
        ensures
            final(self).wf(),
            old(self)@.len() == 0 ==> r is None && final(self)@ == old(self)@,
            old(self)@.len() > 0 ==> r == Some(old(self)@.first()) && final(self)@ == old(
                self,
            )@.drop_first(),
    {
        self.inner.pop_front()
    }

    /// The next element from the back, or nothing when exhausted.
    pub fn next_back(&mut self) -> (r: Option<T>)
        requires
            old(self).wf(),
        ensures
            final(self).wf(),
            old(self)@.len() == 0 ==> r is None && final(self)@ == old(self)@,
            old(self)@.len() > 0 ==> r == Some(old(self)@.last()) && final(self)@ == old(
                self,
            )@.drop_last(),
    {
        self.inner.pop_back()
    }

    /// How many elements remain.
    pub fn len(&self) -> (r: usize)
        ensures
            r == self@.len(),
    {
        self.inner.len()
    }
}

/// A borrowing cursor over a deque's logical sequence; ends can be consumed
/// independently.
pub struct Iter<'a, T, const N: usize> {
    deque: &'a InplaceDeque<T, N>,
    front: usize,
    back: usize,
}

impl<'a, T, const N: usize> View for Iter<'a, T, N> {
    type V = Seq<T>;

    closed spec fn view(&self) -> Seq<T> {
        self.deque@.subrange(self.front as int, self.back as int)
    }
}

impl<'a, T, const N: usize> Iter<'a, T, N> {
    pub closed spec fn wf(&self) -> bool {
        &&& self.deque.wf()
        &&& self.front <= self.back <= self.deque@.len()
    }

    /// The next element from the front, or nothing when exhausted.
    pub fn next(&mut self) -> (r: Option<&'a T>)
        requires
            old(self).wf(),
        ensures
            final(self).wf(),
            old(self)@.len() == 0 ==> r is None && final(self)@ == old(self)@,
            old(self)@.len() > 0 ==> (r matches Some(x) && *x == old(self)@.first()
                && final(self)@ == old(self)@.drop_first()),
    {
        if self.front == self.back {
            return None;
        }
        let r = self.deque.get(self.front).unwrap();
        self.front = self.front + 1;
        proof {
            assert(final(self)@ =~= old(self)@.drop_first());
        }
        Some(r)
    }

    /// The next element from the back, or nothing when exhausted.
    pub fn next_back(&mut self) -> (r: Option<&'a T>)
        requires
            old(self).wf(),
        ensures
            final(self).wf(),
            old(self)@.len() == 0 ==> r is None && final(self)@ == old(self)@,
            old(self)@.len() > 0 ==> (r matches Some(x) && *x == old(self)@.last()
                && final(self)@ == old(self)@.drop_last()),
    {
        if self.front == self.back {
            return None;
        }
        let r = self.deque.get(self.back - 1).unwrap();
        self.back = self.back - 1;
        proof {
            assert(final(self)@ =~= old(self)@.drop_last());
        }
        Some(r)
    }

    /// How many elements remain.
    pub fn len(&self) -> (r: usize)
        requires
            self.wf(),
        ensures
            r == self@.len(),
    {
        self.back - self.front
    }
}

impl<T, const N: usize> InplaceDeque<T, N> {
    /// Compares two deques purely as logical sequences, whatever their
    /// independent physical layouts.
    pub fn eq_elements(&self, other: &InplaceDeque<T, N>) -> (r: bool) where T: PartialEq
        requires
            self.wf(),
            other.wf(),
        ensures
            T::obeys_eq_spec() ==> (r <==> (self@.len() == other@.len() && forall|i: int|
                0 <= i < self@.len() ==> (#[trigger] self@[i]).eq_spec(&other@[i]))),
    {
        if self.len != other.len {
            return false;
        }
        let len = self.len;
        let mut i: usize = 0;
        while i < len
            invariant
                self.wf(),
                other.wf(),
                i <= len == self@.len(),
                self@.len() == other@.len(),
                T::obeys_eq_spec() ==> forall|j: int|
                    0 <= j < i as int ==> (#[trigger] self@[j]).eq_spec(&other@[j]),
            decreases len - i,
        {
            let a = self.get(i).unwrap();
            let b = other.get(i).unwrap();
            if !(a == b) {
                proof {
                    if T::obeys_eq_spec() {
                        assert(!self@[i as int].eq_spec(&other@[i as int]));
                    }
                }
                return false;
            }
            i += 1;
        }
        true
    }

    pub fn back(&self) -> (r: Option<&T>)
        requires
            self.wf(),
        ensures
            self@.len() > 0 ==> (r matches Some(x) && *x == self@.last()),
            self@.len() == 0 ==> r is None,
    {
        if self.len == 0 {
            return None;
        }
        self.get(self.len - 1)
    }
}

} // verus!
