//! What holds of the sleep timers over several operations.

use vstd::prelude::*;

use crate::deadline_heap::Ticket;
use crate::timers::{lemma_arm_keeps_valid, lemma_oldest, TaskPtr, TimerListView, Wakeup};

verus! {

/// Among the outstanding requests of a task, one is the oldest.
pub proof fn lemma_oldest_exists(timers: TimerListView, task: usize)
    requires
        timers.is_armed(task),
    ensures
        timers.is_oldest(task, timers.oldest(task)),
{
    let serial = choose|serial: u64| timers.entries.dom().contains((task, serial));
    lemma_oldest_below(timers, task, serial);
}

/// Where a task has a request, one of its requests is the oldest.
proof fn lemma_oldest_below(timers: TimerListView, task: usize, serial: u64)
    requires
        timers.entries.dom().contains((task, serial)),
    ensures
        exists|oldest: u64| timers.is_oldest(task, oldest),
    decreases serial,
{
    if !timers.is_oldest(task, serial) {
        let other = choose|other: u64|
            timers.entries.dom().contains((task, other)) && !(serial <= other);
        lemma_oldest_below(timers, task, other);
    }
}

/// Withdrawing a request of a task takes exactly one of its requests away,
/// and where the task has none, it is a no-op. Either way the requests of
/// every other task stay as they are.
pub proof fn lemma_disarm(timers: TimerListView, task: usize)
    ensures
        !timers.is_armed(task) ==> timers.disarm(task) == timers,
        timers.is_armed(task) ==> timers.entries.dom().contains((task, timers.oldest(task))),
        timers.is_armed(task) ==> timers.disarm(task).entries == timers.entries.remove(
            (task, timers.oldest(task)),
        ),
        forall|ticket: Ticket|
            ticket.0 != task ==> (timers.disarm(task).entries.dom().contains(ticket)
                <==> #[trigger] timers.entries.dom().contains(ticket)),
        forall|ticket: Ticket|
            ticket.0 != task && #[trigger] timers.entries.dom().contains(ticket) ==> timers.disarm(
                task,
            ).entries[ticket] == timers.entries[ticket],
        timers.disarm(task).next_serial == timers.next_serial,
{
    if timers.is_armed(task) {
        lemma_oldest_exists(timers, task);
    }
}

/// A task that asks twice has two requests, and each can be withdrawn on its
/// own: the first withdrawal leaves the later request, the second leaves
/// what was there before the task asked.
pub proof fn lemma_rearm_keeps_both(timers: TimerListView, task: usize, first: u64, second: u64)
    requires
        timers.wf(),
        timers.next_serial + 1 < u64::MAX,
        first < second,
    ensures
        timers.arm(task, first).arm(task, second).wf(),
        timers.arm(task, first).arm(task, second).entries == timers.entries.insert(
            (task, timers.next_serial as u64),
            first,
        ).insert((task, (timers.next_serial + 1) as u64), second),
        !timers.entries.dom().contains((task, timers.next_serial as u64)),
        !timers.entries.dom().contains((task, (timers.next_serial + 1) as u64)),
        !timers.is_armed(task) ==> timers.arm(task, first).arm(task, second).disarm(task).entries
            == timers.entries.insert((task, (timers.next_serial + 1) as u64), second),
        !timers.is_armed(task) ==> timers.arm(task, first).arm(task, second).disarm(task).disarm(
            task,
        ).entries == timers.entries,
{
    let a: Ticket = (task, timers.next_serial as u64);
    let b: Ticket = (task, (timers.next_serial + 1) as u64);
    let one = timers.arm(task, first);
    let both = one.arm(task, second);
    lemma_arm_keeps_valid(timers, task, first);
    lemma_arm_keeps_valid(one, task, second);
    if timers.entries.dom().contains(b) {
        assert(false);
    }
    if !timers.is_armed(task) {
        assert forall|other: u64| #[trigger]
            both.entries.dom().contains((task, other)) implies a.1 <= other by {
            if (task, other) != a && (task, other) != b {
                assert(timers.entries.dom().contains((task, other)));
            }
        }
        assert(both.entries.dom().contains(a));
        lemma_oldest(both, task, a.1);
        let rest = both.disarm(task);
        assert(rest.entries =~= timers.entries.insert(b, second));
        assert forall|other: u64| #[trigger]
            rest.entries.dom().contains((task, other)) implies b.1 <= other by {
            if (task, other) != b {
                assert(timers.entries.dom().contains((task, other)));
            }
        }
        assert(rest.entries.dom().contains(b));
        lemma_oldest(rest, task, b.1);
        assert(rest.disarm(task).entries =~= timers.entries);
    }
}

/// When a task has asked to be woken at `first` and then at `second`, a tick
/// at `first` or later and before `second` wakes it for the first request,
/// once, and leaves the second request in place for a later tick.
pub proof fn lemma_rearm_wakes_once(
    timers: TimerListView,
    task: usize,
    first: u64,
    second: u64,
    now: u64,
    wakeups: Seq<Wakeup>,
)
    requires
        timers.wf(),
        timers.next_serial + 1 < u64::MAX,
        first <= now < second,
        timers.arm(task, first).arm(task, second).is_drained_as(now, wakeups),
    ensures
        exists|i: int|
            0 <= i < wakeups.len() && #[trigger] wakeups[i] == (Wakeup {
                task: TaskPtr(task),
                serial: timers.next_serial as u64,
                deadline: first,
            }),
        forall|i: int, j: int|
            0 <= i < wakeups.len() && 0 <= j < wakeups.len() && (#[trigger] wakeups[i]).ticket() == (
                task,
                timers.next_serial as u64,
            ) && (#[trigger] wakeups[j]).ticket() == (task, timers.next_serial as u64) ==> i == j,
        forall|i: int|
            0 <= i < wakeups.len() ==> (#[trigger] wakeups[i]).ticket() != (
                task,
                (timers.next_serial + 1) as u64,
            ),
        !timers.is_armed(task) ==> forall|i: int, j: int|
            0 <= i < wakeups.len() && 0 <= j < wakeups.len() && (#[trigger] wakeups[i]).task
                == TaskPtr(task) && (#[trigger] wakeups[j]).task == TaskPtr(task) ==> i == j,
        timers.arm(task, first).arm(task, second).drain(now).entries.contains_pair(
            (task, (timers.next_serial + 1) as u64),
            second,
        ),
        !timers.arm(task, first).arm(task, second).drain(now).entries.dom().contains(
            (task, timers.next_serial as u64),
        ),
{
    let a: Ticket = (task, timers.next_serial as u64);
    let b: Ticket = (task, (timers.next_serial + 1) as u64);
    let both = timers.arm(task, first).arm(task, second);
    lemma_rearm_keeps_both(timers, task, first, second);
    assert(both.is_due(a, now));
    assert(!both.is_due(b, now));
    let i = choose|i: int| 0 <= i < wakeups.len() && (#[trigger] wakeups[i]).ticket() == a;
    assert(both.entries[wakeups[i].ticket()] == wakeups[i].deadline);
    assert(wakeups[i] == Wakeup { task: TaskPtr(task), serial: a.1, deadline: first });
    assert forall|k: int| 0 <= k < wakeups.len() implies (#[trigger] wakeups[k]).ticket() != b by {
        assert(both.is_due(wakeups[k].ticket(), now));
    }
    if !timers.is_armed(task) {
        assert forall|k: int| 0 <= k < wakeups.len() && (#[trigger] wakeups[k]).task
            == TaskPtr(task) implies wakeups[k].ticket() == a by {
            let ticket = wakeups[k].ticket();
            assert(both.is_due(ticket, now));
            if ticket != a && ticket != b {
                assert(timers.entries.dom().contains((task, ticket.1)));
            }
        }
        assert forall|k: int, l: int|
            0 <= k < wakeups.len() && 0 <= l < wakeups.len() && (#[trigger] wakeups[k]).task
                == TaskPtr(task) && (#[trigger] wakeups[l]).task == TaskPtr(task) implies k
            == l by {
            assert(wakeups[k].ticket() == a);
            assert(wakeups[l].ticket() == a);
            if k < l {
                assert(wakeups[k].ticket() != wakeups[l].ticket());
            }
            if l < k {
                assert(wakeups[l].ticket() != wakeups[k].ticket());
            }
        }
    }
    assert forall|k: int, l: int|
        0 <= k < wakeups.len() && 0 <= l < wakeups.len() && (#[trigger] wakeups[k]).ticket() == a && (
        #[trigger] wakeups[l]).ticket() == a implies k == l by {
        if k < l {
            assert(wakeups[k].ticket() != wakeups[l].ticket());
        }
        if l < k {
            assert(wakeups[l].ticket() != wakeups[k].ticket());
        }
    }
}

/// A tick takes the requests whose deadline has passed and no others.
pub proof fn lemma_drain(timers: TimerListView, now: u64)
    requires
        timers.wf(),
    ensures
        timers.drain(now).wf(),
        forall|ticket: Ticket|
            #[trigger] timers.drain(now).entries.dom().contains(ticket) <==> (
            timers.entries.dom().contains(ticket) && now < timers.entries[ticket]),
        forall|ticket: Ticket|
            #[trigger] timers.drain(now).entries.dom().contains(ticket) ==> timers.drain(
                now,
            ).entries[ticket] == timers.entries[ticket],
        timers.drain(now).drain(now) == timers.drain(now),
{
    let after = timers.drain(now);
    assert(after.entries.dom().subset_of(timers.entries.dom()));
    vstd::set_lib::lemma_len_subset(after.entries.dom(), timers.entries.dom());
    assert(after.drain(now).entries =~= after.entries);
}

} // verus!
