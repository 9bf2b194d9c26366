use std::hash::Hash;

use priority_queue::PriorityQueue;
use vstd::prelude::*;

verus! {

#[verifier::external_type_specification]
#[verifier::external_body]
#[verifier::reject_recursive_types(I)]
#[verifier::reject_recursive_types(P)]
#[verifier::reject_recursive_types(H)]
pub struct ExPriorityQueue<I: Hash + Eq, P: Ord, H>(PriorityQueue<I, P, H>);

/// The queue of the search: state indices, by priority.
pub type Queue = PriorityQueue<usize, usize>;

/// Queue items mapped to their priorities.
pub type Items = Map<usize, usize>;

/// The items of a queue, each with its priority.
pub uninterp spec fn queue_items(q: Queue) -> Items;

/// Relies on `PriorityQueue::new`: a new queue holds no items.
#[verifier::external_body]
pub(crate) fn queue_new() -> (r: Queue)
    ensures
        queue_items(r) == Items::empty(),
{
    PriorityQueue::new()
}

/// Relies on `PriorityQueue::push`: the item is stored with the given
/// priority; if it was already there, its old priority is returned.
#[verifier::external_body]
pub(crate) fn queue_push(q: &mut Queue, item: usize, priority: usize) -> (r: Option<usize>)
    ensures
        queue_items(*final(q)) == queue_items(*old(q)).insert(item, priority),
        r == if queue_items(*old(q)).contains_key(item) {
            Some(queue_items(*old(q))[item])
        } else {
            None::<usize>
        },
{
    q.push(item, priority)
}

/// Relies on `PriorityQueue::pop`: removes and returns an item of highest
/// priority, or returns `None` when the queue is empty.
#[verifier::external_body]
pub(crate) fn queue_pop(q: &mut Queue) -> (r: Option<(usize, usize)>)
    ensures
        match r {
            None => queue_items(*old(q)) == Items::empty() && queue_items(*final(q))
                == queue_items(*old(q)),
            Some((item, priority)) => {
                &&& queue_items(*old(q)).contains_key(item)
                &&& queue_items(*old(q))[item] == priority
                &&& queue_items(*final(q)) == queue_items(*old(q)).remove(item)
                &&& forall|j: usize| #[trigger]
                    queue_items(*old(q)).contains_key(j) ==> queue_items(*old(q))[j] <= priority
            },
        },
{
    q.pop()
}

} // verus!
