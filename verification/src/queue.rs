//! The ready queue of the greedy disciplines: a double-ended priority queue
//! from the `priority_queue` crate, holding indices into the sorted workload
//! keyed by their dispatch keys.
//!
//! The queue is trusted: each wrapper states, over the abstract contents
//! `dpq_contents`, what the crate's source shows of the call.

use vstd::prelude::*;

use priority_queue::DoublePriorityQueue;

use crate::model::lex4_le;

verus! {

/// A dispatch key: the policy key, the arrival time, the pid, and the index
/// into the sorted workload, compared lexicographically.
pub type DispatchKey = (u64, u64, u64, u64);

/// The ready queue of the greedy engines: sorted-workload indices keyed by
/// their dispatch keys.
pub type ReadyQueue = DoublePriorityQueue<usize, DispatchKey>;

#[verifier::external_type_specification]
#[verifier::external_body]
#[verifier::reject_recursive_types(I)]
#[verifier::reject_recursive_types(P)]
#[verifier::reject_recursive_types(H)]
pub struct ExDoublePriorityQueue<I, P, H>(DoublePriorityQueue<I, P, H>);

/// What a ready queue holds: each queued index with its dispatch key.
pub uninterp spec fn dpq_contents(q: ReadyQueue) -> Map<usize, DispatchKey>;

/// The contents of a queue with nothing in it.
pub open spec fn no_contents() -> Map<usize, DispatchKey> {
    Map::empty()
}

/// Relies on DoublePriorityQueue::new: creates an empty queue.
#[verifier::external_body]
pub(crate) fn dpq_new() -> (r: ReadyQueue)
    ensures
        dpq_contents(r) == no_contents(),
{
    DoublePriorityQueue::new()
}

/// Relies on DoublePriorityQueue::push: inserts the item with the given
/// priority, updating the priority if the item is already queued.
#[verifier::external_body]
pub(crate) fn dpq_push(
    q: &mut ReadyQueue,
    item: usize,
    priority: DispatchKey,
)
    ensures
        dpq_contents(*final(q)) == dpq_contents(*old(q)).insert(item, priority),
{
    q.push(item, priority);
}

/// Relies on DoublePriorityQueue::pop_min: removes and returns a pair whose
/// priority is minimal among the queued pairs, or None exactly when the
/// queue is empty.  The priorities are 4-tuples of integers, which std
/// orders lexicographically, so minimality is stated through `lex4_le`.
#[verifier::external_body]
pub(crate) fn dpq_pop_min(q: &mut ReadyQueue) -> (r: Option<(usize, DispatchKey)>)
    ensures
        (match r {
            None => dpq_contents(*old(q)) == no_contents() && dpq_contents(*final(q))
                == dpq_contents(*old(q)),
            Some((item, priority)) => dpq_contents(*old(q)).contains_pair(item, priority) && (
            forall|j: usize|
                dpq_contents(*old(q)).dom().contains(j) ==> lex4_le(
                    priority,
                    dpq_contents(*old(q))[j],
                )) && dpq_contents(*final(q)) == dpq_contents(*old(q)).remove(item),
        }),
{
    q.pop_min()
}

} // verus!
