//! Trusted view of the outside priority queue used by the best-first
//! trust spreader.
//!
//! The queue is modeled as a finite map from item (as a character
//! sequence) to its priority: pushing inserts or re-prioritizes, popping
//! removes some entry of greatest priority. Which of several equally
//! urgent items leaves first is left open, as the crate's heap order
//! depends on hashing.

use vstd::prelude::*;
use std::collections::hash_map::RandomState;
use priority_queue::PriorityQueue;

verus! {

#[verifier::external_type_specification]
#[verifier::external_body]
#[verifier::reject_recursive_types(I)]
#[verifier::reject_recursive_types(P)]
#[verifier::reject_recursive_types(H)]
pub struct ExPriorityQueue<I, P, H>(PriorityQueue<I, P, H>);

/// The concrete queue the spreader works with: peer names prioritized by
/// their current net score.
pub type NodeQueue = PriorityQueue<String, i32, RandomState>;

/// What a queue holds: each queued item's name mapped to its priority.
pub uninterp spec fn pq_view(q: NodeQueue) -> Map<Seq<char>, int>;

/// The view of a queue with nothing in it.
pub open spec fn pq_empty() -> Map<Seq<char>, int> {
    Map::empty()
}

/// Relies on priority_queue::PriorityQueue::new: creates an empty queue.
#[verifier::external_body]
pub(crate) fn pq_new() -> (q: NodeQueue)
    ensures
        pq_view(q) == pq_empty(),
{
    PriorityQueue::new()
}

/// Relies on priority_queue::PriorityQueue::is_empty: true exactly when
/// the queue holds no item.
#[verifier::external_body]
pub(crate) fn pq_is_empty(q: &NodeQueue) -> (r: bool)
    ensures
        r <==> pq_view(*q) == pq_empty(),
{
    q.is_empty()
}

/// Relies on priority_queue::PriorityQueue::push: inserts the pair, or,
/// for an item already queued, replaces its priority and returns the old
/// one.
#[verifier::external_body]
pub(crate) fn pq_push(q: &mut NodeQueue, item: String, priority: i32) -> (old_p: Option<i32>)
    ensures
        pq_view(*final(q)) == pq_view(*old(q)).insert(item@, priority as int),
        old_p matches Some(p) ==> pq_view(*old(q)).contains_key(item@) && pq_view(*old(q))[item@]
            == p as int,
        old_p is None ==> !pq_view(*old(q)).contains_key(item@),
{
    q.push(item, priority)
}

/// Relies on priority_queue::PriorityQueue::pop: removes and returns an
/// item of greatest priority, or returns None on an empty queue.
#[verifier::external_body]
pub(crate) fn pq_pop(q: &mut NodeQueue) -> (r: Option<(String, i32)>)
    ensures
        match r {
            Option::None => pq_view(*old(q)) == pq_empty() && pq_view(*final(q)) == pq_view(
                *old(q),
            ),
            Option::Some(pair) => {
                &&& pq_view(*old(q)).contains_key(pair.0@)
                &&& pq_view(*old(q))[pair.0@] == pair.1 as int
                &&& forall|k: Seq<char>|
                    pq_view(*old(q)).contains_key(k) ==> pq_view(*old(q))[k] <= pair.1 as int
                &&& pq_view(*final(q)) == pq_view(*old(q)).remove(pair.0@)
            },
        },
{
    q.pop()
}

} // verus!
