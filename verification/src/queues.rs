//! Trusted boundary to `crossbeam_queue`: the lock-free queues that hold the
//! retired, reusable native buffer handles of one thread's sub-pool.
//!
//! The queue's own operations take `&self`; these wrappers demand exclusive
//! access instead, so that the contents can be tracked as one sequence.

use vstd::prelude::*;

verus! {

#[verifier::external_type_specification]
#[verifier::external_body]
#[verifier::reject_recursive_types(T)]
pub struct ExSegQueue<T>(crossbeam_queue::SegQueue<T>);

/// The native handle ids a recycle queue holds, front (next to be popped) first.
pub uninterp spec fn queue_ids(q: crossbeam_queue::SegQueue<u64>) -> Seq<u64>;

/// Relies on `crossbeam_queue::SegQueue::new`: creates a new, empty queue.
#[verifier::external_body]
pub(crate) fn queue_new() -> (q: crossbeam_queue::SegQueue<u64>)
    ensures
        queue_ids(q) == Seq::<u64>::empty(),
{
    crossbeam_queue::SegQueue::new()
}

/// Relies on `crossbeam_queue::SegQueue::push`: appends the element at the tail.
#[verifier::external_body]
pub(crate) fn queue_push(q: &mut crossbeam_queue::SegQueue<u64>, id: u64)
    ensures
        queue_ids(*final(q)) == queue_ids(*old(q)).push(id),
{
    q.push(id)
}

/// Relies on `crossbeam_queue::SegQueue::pop`: removes and returns the element
/// at the head, or returns `None` when the queue is empty.
#[verifier::external_body]
pub(crate) fn queue_pop(q: &mut crossbeam_queue::SegQueue<u64>) -> (r: Option<u64>)
    ensures
        match r {
            Some(id) => queue_ids(*old(q)).len() > 0 && id == queue_ids(*old(q))[0]
                && queue_ids(*final(q)) == queue_ids(*old(q)).drop_first(),
            None => queue_ids(*old(q)).len() == 0 && queue_ids(*final(q)) == queue_ids(*old(q)),
        },
{
    q.pop()
}

/// Relies on `crossbeam_queue::SegQueue::len`: the number of elements held.
#[verifier::external_body]
pub(crate) fn queue_len(q: &crossbeam_queue::SegQueue<u64>) -> (r: usize)
    ensures
        r == queue_ids(*q).len(),
{
    q.len()
}

} // verus!
