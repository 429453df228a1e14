use vstd::prelude::*;
use std::collections::hash_map::RandomState;
use priority_queue::PriorityQueue;

verus! {

#[verifier::external_type_specification]
#[verifier::external_body]
#[verifier::reject_recursive_types(I)]
#[verifier::reject_recursive_types(P)]
#[verifier::reject_recursive_types(H)]
pub struct ExPriorityQueue<I, P, H>(PriorityQueue<I, P, H>);

/// The frontier queue of the spanning-tree construction: candidate edges
/// (as ordered endpoint pairs) keyed by priority.
pub type EdgeQueue = PriorityQueue<(usize, usize), u64, RandomState>;

/// What an `EdgeQueue` holds: each queued edge, mapped to its priority.
pub uninterp spec fn edge_queue_entries(q: EdgeQueue) -> Map<(usize, usize), u64>;

/// The entries of a queue that holds nothing.
pub open spec fn no_edge_entries() -> Map<(usize, usize), u64> {
    Map::empty()
}

/// Relies on priority_queue::PriorityQueue::new: the new queue is empty.
#[verifier::external_body]
pub(crate) fn edge_queue_new() -> (queue: EdgeQueue)
    ensures
        edge_queue_entries(queue) == no_edge_entries(),
{
    PriorityQueue::new()
}

/// Relies on priority_queue::PriorityQueue::push: the item is inserted with
/// the given priority; if it was already queued, its priority is replaced.
#[verifier::external_body]
pub(crate) fn edge_queue_push(q: &mut EdgeQueue, item: (usize, usize), priority: u64)
    ensures
        edge_queue_entries(*final(q)) == edge_queue_entries(*old(q)).insert(item, priority),
{
    q.push(item, priority);
}

/// Relies on priority_queue::PriorityQueue::pop: removes and returns an item
/// of greatest priority, or `None` exactly when the queue is empty.
#[verifier::external_body]
pub(crate) fn edge_queue_pop(q: &mut EdgeQueue) -> (r: Option<((usize, usize), u64)>)
    ensures
        match r {
            None => {
                &&& edge_queue_entries(*old(q)) == no_edge_entries()
                &&& edge_queue_entries(*final(q)) == edge_queue_entries(*old(q))
            },
            Some(entry) => {
                &&& edge_queue_entries(*old(q)).contains_pair(entry.0, entry.1)
                &&& edge_queue_entries(*final(q)) == edge_queue_entries(*old(q)).remove(entry.0)
                &&& forall|other: (usize, usize)|
                        #[trigger] edge_queue_entries(*old(q)).dom().contains(other)
                        ==> edge_queue_entries(*old(q))[other] <= entry.1
            },
        },
{
    q.pop()
}

} // verus!
