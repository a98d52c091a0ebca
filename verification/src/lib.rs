//! Fixed-capacity, allocation-free containers: a bounded vector, a bounded
//! double-ended ring-buffer queue, and a bounded binary max-heap layered on
//! the vector. Capacity is a parameter of each type and never grows; every
//! operation reports capacity or bounds violations through its return value.

pub mod errors;
pub mod inplace_deque;
pub mod inplace_heap;
pub mod inplace_vec;
pub mod laws;
pub mod slice_range;
