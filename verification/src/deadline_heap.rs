//! The heap that orders wake requests by deadline.
//!
//! The heap is a `priority_queue::PriorityQueue`. This file declares its
//! type, gives a name to what the heap holds, and states for each call into
//! the queue what that call does to it. Those statements are taken from the
//! documentation of `priority_queue`; the verifier believes them as they
//! stand.

use core::cmp::Reverse;
use foldhash::fast::FixedState;
use priority_queue::PriorityQueue;
use vstd::prelude::*;

verus! {

/// `priority_queue::PriorityQueue`: a heap of items that are found again by
/// their hash.
#[verifier::external_type_specification]
#[verifier::external_body]
#[verifier::reject_recursive_types(I)]
#[verifier::reject_recursive_types(P)]
#[verifier::reject_recursive_types(H)]
pub struct ExPriorityQueue<I, P, H>(PriorityQueue<I, P, H>);

/// `foldhash::fast::FixedState`: the state of the queue's hasher.
#[verifier::external_type_specification]
#[verifier::external_body]
pub struct ExFixedState(FixedState);

/// `core::cmp::Reverse`: turns the order of deadlines round, so that the
/// greatest priority of the queue is the earliest deadline.
#[verifier::external_type_specification]
#[verifier::external_body]
#[verifier::reject_recursive_types(T)]
pub struct ExReverse<T>(Reverse<T>);

/// One wake request: the task that asked, and the number of the request.
pub type Ticket = (usize, u64);

/// The wake requests of one core, the earliest deadline on top.
pub type DeadlineHeap = PriorityQueue<Ticket, Reverse<u64>, FixedState>;

/// The wake requests that `heap` holds, each with its deadline.
pub uninterp spec fn heap_entries(heap: DeadlineHeap) -> Map<Ticket, u64>;

/// A deadline has passed unless it still lies in the future.
pub open spec fn is_expired(deadline: u64, now: u64) -> bool {
    deadline <= now
}

/// Whether `deadline` has passed at `now`.
pub fn deadline_passed(deadline: u64, now: u64) -> (passed: bool)
    ensures
        passed == is_expired(deadline, now),
{
    deadline <= now
}

/// No request of `entries` is due before `ticket` is.
pub open spec fn is_earliest(entries: Map<Ticket, u64>, ticket: Ticket) -> bool {
    &&& entries.dom().contains(ticket)
    &&& forall|other: Ticket| #[trigger]
        entries.dom().contains(other) ==> entries[ticket] <= entries[other]
}

/// The heap that holds nothing.
pub open spec fn no_entries() -> Map<Ticket, u64> {
    Map::empty()
}

/// `FixedState::with_seed`: a hasher state that is the same in every run.
#[verifier::external_body]
pub(crate) fn fixed_hasher(seed: u64) -> FixedState {
    FixedState::with_seed(seed)
}

/// `PriorityQueue::with_hasher`: an empty queue.
#[verifier::external_body]
pub(crate) fn heap_with_hasher(hasher: FixedState) -> (heap: DeadlineHeap)
    ensures
        heap_entries(heap) == no_entries(),
{
    PriorityQueue::with_hasher(hasher)
}

/// `PriorityQueue::push`: the ticket is in the queue with the given
/// deadline afterwards, whether it was there before or not, and the deadline
/// that it had before is returned.
#[verifier::external_body]
pub(crate) fn heap_push(heap: &mut DeadlineHeap, ticket: Ticket, deadline: u64) -> (previous:
    Option<u64>)
    ensures
        heap_entries(*final(heap)) == heap_entries(*old(heap)).insert(ticket, deadline),
        previous == previous_deadline(heap_entries(*old(heap)), ticket),
{
    match heap.push(ticket, Reverse(deadline)) {
        Some(Reverse(previous)) => Some(previous),
        None => None,
    }
}

/// The deadline that `ticket` has in `entries`, if it is there.
pub open spec fn previous_deadline(entries: Map<Ticket, u64>, ticket: Ticket) -> Option<u64> {
    if entries.dom().contains(ticket) {
        Some(entries[ticket])
    } else {
        None
    }
}

/// `PriorityQueue::remove`: the ticket leaves the queue, if it was there,
/// and the deadline that it had is returned.
#[verifier::external_body]
pub(crate) fn heap_remove(heap: &mut DeadlineHeap, ticket: Ticket) -> (removed: Option<u64>)
    ensures
        heap_entries(*final(heap)) == heap_entries(*old(heap)).remove(ticket),
        removed == previous_deadline(heap_entries(*old(heap)), ticket),
{
    match heap.remove(&ticket) {
        Some((_, Reverse(deadline))) => Some(deadline),
        None => None,
    }
}

/// `PriorityQueue::pop_if`, asked whether the deadline has passed at `now`:
/// a request with the earliest deadline leaves the queue if that deadline
/// has passed. Which one of several with the same deadline leaves is the
/// queue's choice. Nothing happens on an empty queue, or when the earliest
/// deadline has not passed.
#[verifier::external_body]
pub(crate) fn heap_pop_expired(heap: &mut DeadlineHeap, now: u64) -> (popped: Option<
    (Ticket, u64),
>)
    ensures
        pop_outcome(heap_entries(*old(heap)), now, popped, heap_entries(*final(heap))),
{
    match heap.pop_if(|_, deadline| deadline_passed(deadline.0, now)) {
        Some((ticket, Reverse(deadline))) => Some((ticket, deadline)),
        None => None,
    }
}

/// What asking the heap `before` at `now` for an expired request gives.
pub open spec fn pop_outcome(
    before: Map<Ticket, u64>,
    now: u64,
    popped: Option<(Ticket, u64)>,
    after: Map<Ticket, u64>,
) -> bool {
    match popped {
        Some((ticket, deadline)) => {
            &&& is_earliest(before, ticket)
            &&& before[ticket] == deadline
            &&& is_expired(deadline, now)
            &&& after == before.remove(ticket)
        },
        None => {
            &&& after == before
            &&& forall|ticket: Ticket|
                is_earliest(before, ticket) ==> !is_expired(#[trigger] before[ticket], now)
        },
    }
}

/// `PriorityQueue::iter`, collected: every request of the queue with its
/// deadline, in no particular order.
#[verifier::external_body]
pub(crate) fn heap_snapshot(heap: &DeadlineHeap) -> (entries: Vec<(Ticket, u64)>)
    ensures
        (forall|ticket: Ticket, deadline: u64|
            entries@.contains((ticket, deadline)) <==> heap_entries(*heap).contains_pair(
                ticket,
                deadline,
            )),
{
    heap.iter().map(|(ticket, deadline)| (*ticket, deadline.0)).collect()
}

} // verus!
