//! The search frontier: a priority queue of node ids.
//!
//! The queue is the one of the `priority_queue` crate. Its behaviour is not
//! proved here: the contracts of this module state what the crate documents,
//! and the search is verified against them.

use priority_queue::PriorityQueue;
use std::cmp::Reverse;
use std::hash::Hash;
use vstd::prelude::*;

verus! {

/// `std::cmp::Reverse`, the wrapper that turns the order of what it holds
/// round. Nothing is stated of it here.
#[verifier::external_type_specification]
#[verifier::external_body]
#[verifier::reject_recursive_types(T)]
pub struct ExReverse<T>(Reverse<T>);

/// `priority_queue::PriorityQueue`. What a queue holds is known through
/// [`frontier_entries`] alone.
#[verifier::external_type_specification]
#[verifier::external_body]
#[verifier::reject_recursive_types(I)]
#[verifier::reject_recursive_types(P)]
#[verifier::reject_recursive_types(H)]
pub struct ExPriorityQueue<I: Hash + Eq, P: Ord, H>(PriorityQueue<I, P, H>);

/// The queue that holds the frontier: node ids, smallest priority first.
pub type Frontier = PriorityQueue<u32, Reverse<u128>>;

/// The entries of a frontier: each queued node id, once, with its
/// priority.
pub uninterp spec fn frontier_entries(q: PriorityQueue<u32, Reverse<u128>>) -> Map<u32, u128>;

/// `PriorityQueue::new`: a queue without entries.
#[verifier::external_body]
pub(crate) fn frontier_new() -> (queue: Frontier)
    ensures
        frontier_entries(queue) == (Map::<u32, u128>::empty()),
{
    PriorityQueue::new()
}

/// `PriorityQueue::is_empty`: whether the queue holds no entry.
#[verifier::external_body]
pub(crate) fn frontier_is_empty(q: &Frontier) -> (empty: bool)
    ensures
        empty <==> frontier_entries(*q).dom() == Set::<u32>::empty(),
{
    q.is_empty()
}

/// `PriorityQueue::push`: the item gets the given priority, whether or not
/// it was queued before; the priority it had before is returned.
#[verifier::external_body]
pub(crate) fn frontier_push(q: &mut Frontier, item: u32, priority: u128) -> (previous: Option<
    u128,
>)
    ensures
        frontier_entries(*final(q)) == frontier_entries(*old(q)).insert(item, priority),
        previous == if frontier_entries(*old(q)).contains_key(item) {
            Some(frontier_entries(*old(q))[item])
        } else {
            None
        },
{
    q.push(item, Reverse(priority)).map(|p| p.0)
}

/// `PriorityQueue::pop`: removes and returns an entry which, in the queue's
/// order, is greatest. Priorities are held reversed, so no entry of the
/// queue has a smaller priority than the one returned. Which of several
/// entries with that priority leaves is not stated.
#[verifier::external_body]
pub(crate) fn frontier_pop(q: &mut Frontier) -> (entry: Option<(u32, u128)>)
    ensures
        match entry {
            Some((item, priority)) => {
                &&& frontier_entries(*old(q)).contains_key(item)
                &&& frontier_entries(*old(q))[item] == priority
                &&& forall|other: u32| #[trigger]
                    frontier_entries(*old(q)).contains_key(other) ==> priority
                        <= frontier_entries(*old(q))[other]
                &&& frontier_entries(*final(q)) == frontier_entries(*old(q)).remove(item)
            },
            None => {
                &&& frontier_entries(*old(q)).dom() == Set::<u32>::empty()
                &&& frontier_entries(*final(q)) == frontier_entries(*old(q))
            },
        },
{
    q.pop().map(|(item, priority)| (item, priority.0))
}

} // verus!
