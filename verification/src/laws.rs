//! Whole-history statements about the containers, proved over the same
//! mathematical views their contracts use.

use vstd::prelude::*;
use vstd::multiset::Multiset;

use crate::inplace_heap::{ord_laws, ord_le};

verus! {

/// One queue operation: an attempted push of a value, or an attempted pop.
pub enum QueueOp<T> {
    Push(T),
    Pop,
}

/// The queue contents after one operation, exactly as `push_back` and
/// `pop_front` describe themselves: a push on a full queue and a pop on an
/// empty one leave the contents unchanged.
pub open spec fn queue_step<T>(s: Seq<T>, op: QueueOp<T>, cap: nat) -> Seq<T> {
    match op {
        QueueOp::Push(v) => if s.len() < cap {
            s.push(v)
        } else {
            s
        },
        QueueOp::Pop => if s.len() > 0 {
            s.drop_first()
        } else {
            s
        },
    }
}

/// The queue contents after a whole history of operations, starting empty.
pub open spec fn queue_run<T>(ops: Seq<QueueOp<T>>, cap: nat) -> Seq<T>
    decreases ops.len(),
{
    if ops.len() == 0 {
        Seq::<T>::empty()
    } else {
        queue_step(queue_run(ops.drop_last(), cap), ops.last(), cap)
    }
}

/// The values of the pushes the queue accepted, in push order.
pub open spec fn accepted_pushes<T>(ops: Seq<QueueOp<T>>, cap: nat) -> Seq<T>
    decreases ops.len(),
{
    if ops.len() == 0 {
        Seq::<T>::empty()
    } else {
        let prefix = accepted_pushes(ops.drop_last(), cap);
        match ops.last() {
            QueueOp::Push(v) => if queue_run(ops.drop_last(), cap).len() < cap {
                prefix.push(v)
            } else {
                prefix
            },
            QueueOp::Pop => prefix,
        }
    }
}

/// The values the pops observed, in pop order.
pub open spec fn observed_pops<T>(ops: Seq<QueueOp<T>>, cap: nat) -> Seq<T>
    decreases ops.len(),
{
    if ops.len() == 0 {
        Seq::<T>::empty()
    } else {
        let prefix = observed_pops(ops.drop_last(), cap);
        match ops.last() {
            QueueOp::Pop => if queue_run(ops.drop_last(), cap).len() > 0 {
                prefix.push(queue_run(ops.drop_last(), cap).first())
            } else {
                prefix
            },
            QueueOp::Push(v) => prefix,
        }
    }
}

/// First-in, first-out: after any interleaving of pushes and pops, the
/// values the pops observed, followed by what remains in the queue, are
/// exactly the accepted pushed values in push order — so repeated popping
/// yields the pushed values in push order — and the length never exceeds the
/// capacity.
pub proof fn lemma_queue_fifo<T>(ops: Seq<QueueOp<T>>, cap: nat)
    ensures
        observed_pops(ops, cap) + queue_run(ops, cap) == accepted_pushes(ops, cap),
        queue_run(ops, cap).len() <= cap,
        queue_run(ops, cap).len() + observed_pops(ops, cap).len() == accepted_pushes(
            ops,
            cap,
        ).len(),
    decreases ops.len(),
{
    if ops.len() == 0 {
        assert(observed_pops(ops, cap) + queue_run(ops, cap) =~= accepted_pushes(ops, cap));
    } else {
        let prev = ops.drop_last();
        lemma_queue_fifo(prev, cap);
        let s = queue_run(prev, cap);
        match ops.last() {
            QueueOp::Push(v) => {
                if s.len() < cap {
                    assert(observed_pops(ops, cap) + queue_run(ops, cap) =~= (observed_pops(
                        prev,
                        cap,
                    ) + s).push(v));
                    assert(accepted_pushes(ops, cap) =~= accepted_pushes(prev, cap).push(v));
                } else {
                    assert(observed_pops(ops, cap) + queue_run(ops, cap) =~= observed_pops(
                        prev,
                        cap,
                    ) + s);
                }
            },
            QueueOp::Pop => {
                if s.len() > 0 {
                    assert(observed_pops(ops, cap) + queue_run(ops, cap) =~= observed_pops(
                        prev,
                        cap,
                    ) + s);
                } else {
                    assert(observed_pops(ops, cap) + queue_run(ops, cap) =~= observed_pops(
                        prev,
                        cap,
                    ) + s);
                }
            },
        }
    }
}

/// The front/back mirror of the queue history: pushes prepend at the front,
/// pops take the back.
pub open spec fn mirror_step<T>(s: Seq<T>, op: QueueOp<T>, cap: nat) -> Seq<T> {
    match op {
        QueueOp::Push(v) => if s.len() < cap {
            seq![v] + s
        } else {
            s
        },
        QueueOp::Pop => if s.len() > 0 {
            s.drop_last()
        } else {
            s
        },
    }
}

pub open spec fn mirror_run<T>(ops: Seq<QueueOp<T>>, cap: nat) -> Seq<T>
    decreases ops.len(),
{
    if ops.len() == 0 {
        Seq::<T>::empty()
    } else {
        mirror_step(mirror_run(ops.drop_last(), cap), ops.last(), cap)
    }
}

pub open spec fn mirror_accepted<T>(ops: Seq<QueueOp<T>>, cap: nat) -> Seq<T>
    decreases ops.len(),
{
    if ops.len() == 0 {
        Seq::<T>::empty()
    } else {
        let prefix = mirror_accepted(ops.drop_last(), cap);
        match ops.last() {
            QueueOp::Push(v) => if mirror_run(ops.drop_last(), cap).len() < cap {
                prefix.push(v)
            } else {
                prefix
            },
            QueueOp::Pop => prefix,
        }
    }
}

pub open spec fn mirror_observed<T>(ops: Seq<QueueOp<T>>, cap: nat) -> Seq<T>
    decreases ops.len(),
{
    if ops.len() == 0 {
        Seq::<T>::empty()
    } else {
        let prefix = mirror_observed(ops.drop_last(), cap);
        match ops.last() {
            QueueOp::Pop => if mirror_run(ops.drop_last(), cap).len() > 0 {
                prefix.push(mirror_run(ops.drop_last(), cap).last())
            } else {
                prefix
            },
            QueueOp::Push(v) => prefix,
        }
    }
}

/// The mirror of first-in, first-out, for `push_front` with `pop_back`: the
/// observed values followed by the remaining contents read back-to-front are
/// the accepted pushed values in push order.
pub proof fn lemma_mirror_fifo<T>(ops: Seq<QueueOp<T>>, cap: nat)
    ensures
        mirror_observed(ops, cap) + mirror_run(ops, cap).reverse() == mirror_accepted(ops, cap),
        mirror_run(ops, cap).len() <= cap,
    decreases ops.len(),
{
    if ops.len() == 0 {
        assert(mirror_observed(ops, cap) + mirror_run(ops, cap).reverse() =~= mirror_accepted(
            ops,
            cap,
        ));
    } else {
        let prev = ops.drop_last();
        lemma_mirror_fifo(prev, cap);
        let s = mirror_run(prev, cap);
        match ops.last() {
            QueueOp::Push(v) => {
                if s.len() < cap {
                    assert((seq![v] + s).reverse() =~= s.reverse().push(v));
                    assert(mirror_observed(ops, cap) + mirror_run(ops, cap).reverse()
                        =~= (mirror_observed(prev, cap) + s.reverse()).push(v));
                    assert(mirror_accepted(ops, cap) =~= mirror_accepted(prev, cap).push(v));
                } else {
                    assert(mirror_observed(ops, cap) + mirror_run(ops, cap).reverse()
                        =~= mirror_observed(prev, cap) + s.reverse());
                }
            },
            QueueOp::Pop => {
                if s.len() > 0 {
                    assert(s.drop_last().reverse() =~= s.reverse().drop_first());
                    assert(s.reverse().first() == s.last());
                    assert(mirror_observed(ops, cap) + mirror_run(ops, cap).reverse()
                        =~= mirror_observed(prev, cap) + s.reverse());
                } else {
                    assert(mirror_observed(ops, cap) + mirror_run(ops, cap).reverse()
                        =~= mirror_observed(prev, cap) + s.reverse());
                }
            },
        }
    }
}

/// Two successive maxima come out in non-increasing order: what `pop`
/// returns right after an earlier `pop` is no greater than what the earlier
/// one returned.
pub proof fn lemma_pops_non_increasing<T: Ord>(first: T, second: T, m: Multiset<T>)
    requires
        ord_laws::<T>(),
        m.remove(first).count(second) > 0,
        forall|x: T| m.count(x) > 0 ==> ord_le(x, first),
    ensures
        ord_le(second, first),
{
    broadcast use vstd::multiset::group_multiset_axioms;

    assert(m.count(second) > 0);
}

} // verus!
