use inplace::errors::InplaceError;
use inplace::inplace_deque::InplaceDeque;
use inplace::inplace_heap::InplaceHeap;
use inplace::inplace_vec::InplaceVec;

#[test]
fn t_new() {
    let q = InplaceDeque::<i32, 128>::new();
    q.assert_pow2_capacity();
    let _q = InplaceDeque::<i32, 64>::with_pow2_capacity();
}

#[test]
fn t_drain() {
    let mut q = InplaceDeque::<i32, 5>::from_vec(vec![1, 2, 3, 4, 5]);
    let drained: Vec<i32> = {
        let mut d = q.drain(1, 3).unwrap();
        let mut out = Vec::new();
        while let Some(x) = d.next() {
            out.push(x);
        }
        out
    };
    assert_eq!(drained, vec![2, 3]);
    let v = q.into_inplace_vec();
    assert_eq!(v.as_slice(), &[1, 4, 5][..]);
}

#[test]
fn vec_t1() {
    let mut v = InplaceVec::<i32, 5>::from_vec(vec![1, 2, 3, 4, 5]);
    assert_eq!(v.push(42), Err(42));
    v.retain(|x| *x % 2 == 1);
    assert_eq!(v.as_slice(), &[1, 3, 5][..]);
    assert_eq!(v.len(), 3);
}

#[test]
fn vec_t2() {
    let v = InplaceVec::<i32, 5>::from_iter((0..10).collect());
    assert_eq!(v.as_slice(), &[0, 1, 2, 3, 4][..]);
}

#[test]
fn lib_t1() {}

#[test]
fn vec_full_push_keeps_length() {
    let mut v = InplaceVec::<i32, 5>::from_vec(vec![1, 2, 3, 4, 5]);
    assert_eq!(v.push(42), Err(42));
    assert_eq!(v.len(), 5);
    assert_eq!(v.as_slice(), &[1, 2, 3, 4, 5][..]);
}

#[test]
fn vec_insert_remove_swap_remove() {
    let mut v = InplaceVec::<i32, 4>::new();
    assert_eq!(v.push(10), Ok(()));
    assert_eq!(v.push(30), Ok(()));
    assert_eq!(v.insert(1, 20), Ok(()));
    assert_eq!(v.as_slice(), &[10, 20, 30][..]);
    assert_eq!(
        v.insert(5, 99),
        Err((99, InplaceError::IndexOutOfBounds { index: 5, len: 3 }))
    );
    assert_eq!(v.remove(0), Ok(10));
    assert_eq!(
        v.remove(7),
        Err(InplaceError::IndexOutOfBounds { index: 7, len: 2 })
    );
    assert_eq!(v.push(40), Ok(()));
    assert_eq!(v.as_slice(), &[20, 30, 40][..]);
    assert_eq!(v.swap_remove(0), Ok(20));
    assert_eq!(v.as_slice(), &[40, 30][..]);
}

#[test]
fn vec_append_capacity_error() {
    let mut a = InplaceVec::<i32, 4>::from_vec(vec![1, 2, 3]);
    let mut b = InplaceVec::<i32, 4>::from_vec(vec![4, 5]);
    assert_eq!(
        a.append(&mut b),
        Err(InplaceError::CapacityExceeded { len: 3, additional: 2, capacity: 4 })
    );
    assert_eq!(b.len(), 2);
    let mut c = InplaceVec::<i32, 8>::from_vec(vec![1, 2, 3]);
    let mut d = InplaceVec::<i32, 8>::from_vec(vec![4, 5]);
    assert_eq!(c.append(&mut d), Ok(()));
    assert_eq!(c.as_slice(), &[1, 2, 3, 4, 5][..]);
    assert_eq!(d.len(), 0);
}

#[test]
fn vec_dedup_family() {
    let mut v = InplaceVec::<i32, 8>::from_vec(vec![1, 1, 2, 2, 2, 3, 1]);
    v.dedup();
    assert_eq!(v.as_slice(), &[1, 2, 3, 1][..]);

    let mut w = InplaceVec::<i32, 8>::from_vec(vec![10, 11, 20, 21, 30]);
    w.dedup_by_key(|x| *x / 10);
    assert_eq!(w.as_slice(), &[10, 20, 30][..]);

    let mut u = InplaceVec::<i32, 8>::from_vec(vec![1, 2, 4, 8, 3, 9]);
    u.dedup_by(|a, b| (*a - *b) % 2 == 0 || (*b - *a) % 2 == 0);
    assert_eq!(u.as_slice(), &[1, 2, 3][..]);

    let mut single = InplaceVec::<i32, 8>::from_vec(vec![7]);
    single.dedup();
    assert_eq!(single.as_slice(), &[7][..]);
}

#[test]
fn vec_pop_and_pop_if() {
    let mut v = InplaceVec::<i32, 4>::from_vec(vec![1, 2, 3]);
    assert_eq!(v.pop_if(|x| *x > 2), Some(3));
    assert_eq!(v.pop_if(|x| *x > 2), None);
    assert_eq!(v.pop(), Some(2));
    assert_eq!(v.len(), 1);
    v.clear();
    assert_eq!(v.pop(), None);
}

#[test]
fn vec_drain_cursor() {
    let mut v = InplaceVec::<i32, 8>::from_vec(vec![1, 2, 3, 4, 5, 6]);
    let mut d = v.drain(2, 5).unwrap();
    assert_eq!(v.as_slice(), &[1, 2, 6][..]);
    assert_eq!(d.len(), 3);
    assert_eq!(d.next(), Some(3));
    assert_eq!(d.next_back(), Some(5));
    assert_eq!(d.next(), Some(4));
    assert_eq!(d.next(), None);
    let refused = v.drain(3, 2);
    assert!(refused.is_err());
    assert_eq!(
        refused.err().unwrap(),
        InplaceError::InvalidRange { start: 3, end: 2, len: 3 }
    );
}

#[test]
fn deque_fifo_across_wrap() {
    // the physical storage wraps several times; the pop order stays the
    // push order and the length tracks pushes minus pops
    let mut q = InplaceDeque::<u32, 3>::new();
    let mut pushed: u32 = 0;
    let mut popped: u32 = 0;
    let mut expected_next: u32 = 0;
    for round in 0..10u32 {
        while q.len() < 3 {
            assert_eq!(q.push_back(pushed), Ok(()));
            pushed += 1;
        }
        assert_eq!(q.push_back(999), Err(999));
        let take = 1 + (round as usize % 2);
        for _ in 0..take {
            assert_eq!(q.pop_front(), Some(expected_next));
            expected_next += 1;
            popped += 1;
        }
        assert_eq!(q.len() as u32, pushed - popped);
    }
}

#[test]
fn deque_mirror_fifo() {
    let mut q = InplaceDeque::<u32, 4>::new();
    assert_eq!(q.push_front(1), Ok(()));
    assert_eq!(q.push_front(2), Ok(()));
    assert_eq!(q.push_front(3), Ok(()));
    assert_eq!(q.pop_back(), Some(1));
    assert_eq!(q.pop_back(), Some(2));
    assert_eq!(q.push_front(4), Ok(()));
    assert_eq!(q.pop_back(), Some(3));
    assert_eq!(q.pop_back(), Some(4));
    assert_eq!(q.pop_back(), None);
}

#[test]
fn deque_slices_and_contiguity() {
    // drive the deque into a wrapped layout
    let mut q = InplaceDeque::<i32, 4>::new();
    assert_eq!(q.push_back(1), Ok(()));
    assert_eq!(q.push_back(2), Ok(()));
    assert_eq!(q.push_back(3), Ok(()));
    assert_eq!(q.pop_front(), Some(1));
    assert_eq!(q.pop_front(), Some(2));
    assert_eq!(q.push_back(4), Ok(()));
    assert_eq!(q.push_back(5), Ok(()));
    // logical contents are [3, 4, 5], physically split
    let logical: Vec<i32> = {
        let (a, b) = q.as_slices();
        assert!(!b.is_empty());
        a.into_iter().chain(b.into_iter()).copied().collect()
    };
    assert_eq!(logical, vec![3, 4, 5]);
    let iterated: Vec<i32> = {
        let mut it = q.iter();
        let mut out = Vec::new();
        while let Some(x) = it.next() {
            out.push(*x);
        }
        out
    };
    assert_eq!(iterated, logical);
    q.make_contiguous();
    let (a, b) = q.as_slices();
    assert!(b.is_empty());
    let flattened: Vec<i32> = a.into_iter().copied().collect();
    assert_eq!(flattened, vec![3, 4, 5]);
    // a second call changes nothing
    q.make_contiguous();
    let (a2, b2) = q.as_slices();
    assert!(b2.is_empty());
    let again: Vec<i32> = a2.into_iter().copied().collect();
    assert_eq!(again, vec![3, 4, 5]);
}

#[test]
fn deque_insert_remove_shorter_side() {
    let mut q = InplaceDeque::<i32, 8>::from_vec(vec![1, 2, 4, 5]);
    assert_eq!(q.insert(2, 3), Ok(()));
    let v = q.into_inplace_vec();
    assert_eq!(v.as_slice(), &[1, 2, 3, 4, 5][..]);

    let mut q2 = InplaceDeque::<i32, 8>::from_vec(vec![1, 2, 3, 4, 5]);
    assert_eq!(q2.remove(1), Some(2));
    assert_eq!(q2.remove(9), None);
    assert_eq!(q2.remove(3), Some(5));
    let v2 = q2.into_inplace_vec();
    assert_eq!(v2.as_slice(), &[1, 3, 4][..]);

    let mut q3 = InplaceDeque::<i32, 4>::from_vec(vec![1, 2, 3, 4]);
    assert_eq!(
        q3.insert(1, 9),
        Err((9, InplaceError::CapacityExceeded { len: 4, additional: 1, capacity: 4 }))
    );
    assert_eq!(
        q3.insert(6, 9),
        Err((9, InplaceError::IndexOutOfBounds { index: 6, len: 4 }))
    );
}

#[test]
fn deque_rotations() {
    let mut q = InplaceDeque::<i32, 6>::from_vec(vec![1, 2, 3, 4, 5]);
    assert_eq!(q.rotate_left(2), Ok(()));
    let v = q.into_inplace_vec();
    assert_eq!(v.as_slice(), &[3, 4, 5, 1, 2][..]);

    let mut q2 = InplaceDeque::<i32, 6>::from_vec(vec![1, 2, 3, 4, 5]);
    assert_eq!(q2.rotate_right(1), Ok(()));
    assert_eq!(
        q2.rotate_right(9),
        Err(InplaceError::IndexOutOfBounds { index: 9, len: 5 })
    );
    let v2 = q2.into_inplace_vec();
    assert_eq!(v2.as_slice(), &[5, 1, 2, 3, 4][..]);
}

#[test]
fn deque_retain_contains_eq() {
    let mut q = InplaceDeque::<i32, 8>::from_vec(vec![1, 2, 3, 4, 5, 6]);
    q.retain(|x| *x % 2 == 0);
    let other = InplaceDeque::<i32, 8>::from_vec(vec![2, 4, 6]);
    assert!(q.eq_elements(&other));
    assert!(q.contains(&4));
    assert!(!q.contains(&5));
    let shorter = InplaceDeque::<i32, 8>::from_vec(vec![2, 4]);
    assert!(!q.eq_elements(&shorter));
}

#[test]
fn deque_swap_removes_and_append() {
    let mut q = InplaceDeque::<i32, 8>::from_vec(vec![1, 2, 3, 4]);
    assert_eq!(q.swap_remove_front(2), Some(3));
    // the deque is now [2, 1, 4]
    assert_eq!(q.swap_remove_back(0), Some(2));
    assert_eq!(q.len(), 2);

    let mut a = InplaceDeque::<i32, 8>::from_vec(vec![1, 2]);
    let mut b = InplaceDeque::<i32, 8>::from_vec(vec![3, 4, 5]);
    assert_eq!(a.append(&mut b), Ok(()));
    assert_eq!(b.len(), 0);
    let v = a.into_inplace_vec();
    assert_eq!(v.as_slice(), &[1, 2, 3, 4, 5][..]);
}

#[test]
fn heap_orders_and_drains_non_increasing() {
    let mut h = InplaceHeap::<u64, 16>::new();
    for x in [5u64, 1, 9, 3, 9, 2, 7] {
        assert_eq!(h.push(x), Ok(()));
    }
    assert_eq!(h.peek(), Some(&9));
    // every internal node is at least its children
    let s = h.as_slice();
    for i in 1..s.len() {
        assert!(s[i] <= s[(i - 1) / 2]);
    }
    let mut out = Vec::new();
    while let Some(x) = h.pop() {
        out.push(x);
    }
    assert_eq!(out, vec![9, 9, 7, 5, 3, 2, 1]);
}

#[test]
fn heap_capacity_and_from_vec() {
    let mut h = InplaceHeap::<u64, 3>::from_vec(InplaceVec::from_vec(vec![2u64, 3, 1]));
    assert_eq!(h.push(8), Err(8));
    assert_eq!(h.len(), 3);
    let sorted = h.into_sorted_vec();
    assert_eq!(sorted.as_slice(), &[1, 2, 3][..]);
}

#[test]
fn heap_append_and_retain() {
    let mut a = InplaceHeap::<u64, 16>::new();
    let mut b = InplaceHeap::<u64, 16>::new();
    for x in [4u64, 6] {
        assert_eq!(a.push(x), Ok(()));
    }
    for x in [1u64, 7, 5] {
        assert_eq!(b.push(x), Ok(()));
    }
    assert_eq!(a.append(&mut b), Ok(()));
    assert_eq!(a.len(), 5);
    assert_eq!(b.len(), 0);
    a.retain(|x| *x % 2 == 1);
    assert_eq!(a.peek(), Some(&7));
    assert_eq!(a.len(), 3);
    let sorted = a.into_sorted_vec();
    assert_eq!(sorted.as_slice(), &[1, 5, 7][..]);
}

#[test]
fn heap_peek_guard() {
    let mut h = InplaceHeap::<u64, 8>::new();
    for x in [3u64, 8, 5] {
        assert_eq!(h.push(x), Ok(()));
    }
    // mutate through the guard and release it without popping: the heap
    // invariant is re-established
    let mut guard = h.peek_mut().ok().unwrap();
    assert_eq!(*guard.get(), 8);
    let old_root = guard.set(1);
    assert_eq!(old_root, 8);
    let h = inplace::inplace_heap::PeekMut::release(guard);
    assert_eq!(h.peek(), Some(&5));

    // popping through the guard returns exactly the prior maximum and
    // shrinks the length by one
    let guard = h.peek_mut().ok().unwrap();
    let (top, h) = inplace::inplace_heap::PeekMut::pop(guard);
    assert_eq!(top, 5);
    assert_eq!(h.len(), 2);
    assert_eq!(h.peek(), Some(&3));
}

#[test]
fn heap_drain_empties() {
    let mut h = InplaceHeap::<u64, 8>::new();
    for x in [2u64, 1, 3] {
        assert_eq!(h.push(x), Ok(()));
    }
    let mut d = h.drain();
    assert_eq!(d.len(), 3);
    let mut seen = Vec::new();
    while let Some(x) = d.next() {
        seen.push(x);
    }
    seen.sort();
    assert_eq!(seen, vec![1, 2, 3]);
    assert_eq!(h.len(), 0);
    assert_eq!(h.pop(), None);
}

#[test]
fn range_checks() {
    assert_eq!(inplace::slice_range::range(1, 3, 5), Ok((1, 3)));
    assert_eq!(
        inplace::slice_range::range(4, 2, 5),
        Err(InplaceError::InvalidRange { start: 4, end: 2, len: 5 })
    );
    assert_eq!(
        inplace::slice_range::range(2, 6, 5),
        Err(InplaceError::InvalidRange { start: 2, end: 6, len: 5 })
    );
}

#[test]
fn deque_drain_front_back_and_all() {
    let mut q = InplaceDeque::<i32, 6>::from_vec(vec![1, 2, 3, 4, 5]);
    {
        let mut d = q.drain(0, 2).unwrap();
        assert_eq!(d.next(), Some(1));
        assert_eq!(d.next(), Some(2));
        assert_eq!(d.next(), None);
    }
    assert_eq!(q.len(), 3);
    {
        let mut d = q.drain(2, 3).unwrap();
        assert_eq!(d.next_back(), Some(5));
    }
    let v = q.into_inplace_vec();
    assert_eq!(v.as_slice(), &[3, 4][..]);
}

#[test]
fn deque_searches() {
    let q = InplaceDeque::<u64, 8>::from_vec(vec![1, 3, 5, 7, 9]);
    assert_eq!(q.binary_search(&5), Ok(2));
    assert_eq!(q.binary_search(&6), Err(3));
    assert_eq!(q.binary_search(&0), Err(0));
    assert_eq!(q.binary_search(&10), Err(5));
    assert_eq!(q.binary_search_by(|x| x.cmp(&7)), Ok(3));
    assert_eq!(q.binary_search_by(|x| x.cmp(&2)), Err(1));
    assert_eq!(q.binary_search_by_key(&14, |x| *x * 2), Ok(3));
    assert_eq!(q.binary_search_by_key(&4, |x| *x * 2), Err(1));
    assert_eq!(q.partition_point(|x| *x < 7), 3);
    assert_eq!(q.partition_point(|x| *x < 100), 5);
}

#[test]
fn deque_vec_round_trip() {
    let v = InplaceVec::<i32, 6>::from_vec(vec![1, 2, 3, 4]);
    let q = InplaceDeque::from_inplace_vec(v);
    assert_eq!(q.len(), 4);
    assert_eq!(q.front(), Some(&1));
    assert_eq!(q.back(), Some(&4));
    let v2 = q.into_inplace_vec();
    assert_eq!(v2.as_slice(), &[1, 2, 3, 4][..]);
}

#[test]
fn deque_into_iter_both_ends() {
    let q = InplaceDeque::<i32, 4>::from_vec(vec![1, 2, 3]);
    let mut it = q.into_iter();
    assert_eq!(it.len(), 3);
    assert_eq!(it.next(), Some(1));
    assert_eq!(it.next_back(), Some(3));
    assert_eq!(it.next(), Some(2));
    assert_eq!(it.next(), None);
    assert_eq!(it.next_back(), None);
}

#[test]
fn vec_truncate_and_get() {
    let mut v = InplaceVec::<i32, 6>::from_vec(vec![1, 2, 3, 4, 5]);
    v.truncate(2);
    assert_eq!(v.as_slice(), &[1, 2][..]);
    v.truncate(9);
    assert_eq!(v.as_slice(), &[1, 2][..]);
    assert_eq!(v.get(1), Some(&2));
    assert_eq!(v.get(2), None);
    assert!(!v.is_full());
    assert!(!v.is_empty());
    assert_eq!(v.capacity(), 6);
}

#[test]
fn vec_into_iter_consumes_in_order() {
    let v = InplaceVec::<i32, 4>::from_vec(vec![7, 8, 9]);
    let mut it = v.into_iter();
    assert_eq!(it.next(), Some(7));
    assert_eq!(it.next_back(), Some(9));
    assert_eq!(it.next(), Some(8));
    assert_eq!(it.next(), None);
}
