//! The sleep timers of one core: tasks that block with a timeout ask to be
//! woken at a deadline, and the core's timer tick wakes those whose deadline
//! has passed.

use vstd::prelude::*;

use crate::deadline_heap::{
    fixed_hasher, heap_entries, heap_pop_expired, heap_push, heap_remove, heap_snapshot,
    heap_with_hasher, is_earliest, is_expired, no_entries, DeadlineHeap, Ticket,
};

verus! {

/// A task, known by its identity alone: two of these are the same task
/// exactly when they hold the same address, whatever the task does meanwhile.
#[derive(Clone, Copy, Debug, PartialEq, Eq, Structural, Hash)]
pub struct TaskPtr(pub usize);

impl TaskPtr {
    /// The task that lives at `addr`.
    pub fn new(addr: usize) -> (task: Self)
        ensures
            task == TaskPtr(addr),
    {
        TaskPtr(addr)
    }
}

/// A wake request whose deadline has passed: the task to unblock, the number
/// of the request, and the deadline that it was made for.
#[derive(Clone, Copy, Debug, PartialEq, Eq, Structural)]
pub struct Wakeup {
    pub task: TaskPtr,
    pub serial: u64,
    pub deadline: u64,
}

impl Wakeup {
    /// The request that this wakeup answers.
    pub open spec fn ticket(self) -> Ticket {
        (self.task.0, self.serial)
    }
}

/// The timers of one core, as a value: the outstanding wake requests with
/// their deadlines, and the number that the next request will get.
pub struct TimerListView {
    pub entries: Map<Ticket, u64>,
    pub next_serial: nat,
}

impl TimerListView {
    /// No request is outstanding, and none was ever made.
    pub open spec fn empty() -> TimerListView {
        TimerListView { entries: no_entries(), next_serial: 0 }
    }

    /// The outstanding requests are finitely many, and each has a number
    /// that was already given out.
    pub open spec fn wf(self) -> bool {
        &&& self.entries.dom().finite()
        &&& forall|ticket: Ticket| #[trigger]
            self.entries.dom().contains(ticket) ==> ticket.1 < self.next_serial
    }

    /// The task at `task` has a wake request outstanding.
    pub open spec fn is_armed(self, task: usize) -> bool {
        exists|serial: u64| self.entries.dom().contains((task, serial))
    }

    /// The timers after the task at `task` has asked to be woken at
    /// `deadline`: one more request, under a number of its own.
    pub open spec fn arm(self, task: usize, deadline: u64) -> TimerListView {
        TimerListView {
            entries: self.entries.insert((task, self.next_serial as u64), deadline),
            next_serial: self.next_serial + 1,
        }
    }

    /// `serial` is the number of the oldest outstanding request of `task`.
    pub open spec fn is_oldest(self, task: usize, serial: u64) -> bool {
        &&& self.entries.dom().contains((task, serial))
        &&& forall|other: u64| #[trigger]
            self.entries.dom().contains((task, other)) ==> serial <= other
    }

    /// The number of the oldest outstanding request of `task`. It means
    /// nothing where the task has none.
    pub open spec fn oldest(self, task: usize) -> u64 {
        choose|serial: u64| self.is_oldest(task, serial)
    }

    /// The timers after the task at `task` has withdrawn a wake request: its
    /// oldest outstanding request is gone, and where it has none, nothing
    /// changes.
    pub open spec fn disarm(self, task: usize) -> TimerListView {
        if self.is_armed(task) {
            TimerListView { entries: self.entries.remove((task, self.oldest(task))), ..self }
        } else {
            self
        }
    }

    /// The request under `ticket` is outstanding and its deadline has passed
    /// at `now`.
    pub open spec fn is_due(self, ticket: Ticket, now: u64) -> bool {
        self.entries.dom().contains(ticket) && is_expired(self.entries[ticket], now)
    }

    /// The timers after the tick at `now`: the requests whose deadline has
    /// passed are gone.
    pub open spec fn drain(self, now: u64) -> TimerListView {
        TimerListView {
            entries: self.entries.remove_keys(Set::new(|ticket: Ticket| self.is_due(ticket, now))),
            ..self
        }
    }

    /// `wakeups` are the requests of these timers whose deadline has passed
    /// at `now`, each once, the earlier deadline first.
    pub open spec fn is_drained_as(self, now: u64, wakeups: Seq<Wakeup>) -> bool {
        &&& forall|i: int|
            0 <= i < wakeups.len() ==> {
                &&& self.is_due((#[trigger] wakeups[i]).ticket(), now)
                &&& self.entries[wakeups[i].ticket()] == wakeups[i].deadline
            }
        &&& forall|ticket: Ticket|
            self.is_due(ticket, now) ==> exists|i: int|
                0 <= i < wakeups.len() && (#[trigger] wakeups[i]).ticket() == ticket
        &&& forall|i: int, j: int|
            0 <= i < j < wakeups.len() ==> {
                &&& (#[trigger] wakeups[i]).ticket() != (#[trigger] wakeups[j]).ticket()
                &&& wakeups[i].deadline <= wakeups[j].deadline
            }
    }

    /// What one step of the tick at `now` gives: a request whose deadline has
    /// passed and that no other request precedes, which then is gone, or
    /// nothing where no deadline has passed.
    pub open spec fn is_popped_as(self, now: u64, popped: Option<Wakeup>, after: TimerListView) -> bool {
        match popped {
            Some(wakeup) => {
                &&& is_earliest(self.entries, wakeup.ticket())
                &&& self.entries[wakeup.ticket()] == wakeup.deadline
                &&& is_expired(wakeup.deadline, now)
                &&& after == TimerListView { entries: self.entries.remove(wakeup.ticket()), ..self }
            },
            None => {
                &&& after == self
                &&& forall|ticket: Ticket| !self.is_due(ticket, now)
            },
        }
    }
}

/// A task has one oldest request at most.
pub proof fn lemma_oldest(timers: TimerListView, task: usize, serial: u64)
    requires
        timers.is_oldest(task, serial),
    ensures
        timers.is_armed(task),
        timers.oldest(task) == serial,
{
    let chosen = timers.oldest(task);
    assert(timers.is_oldest(task, chosen));
    assert(timers.entries.dom().contains((task, chosen)));
    assert(timers.entries.dom().contains((task, serial)));
}

/// The sleep timers of one core.
pub struct TimerList {
    heap: DeadlineHeap,
    next_serial: u64,
}

impl View for TimerList {
    type V = TimerListView;

    closed spec fn view(&self) -> TimerListView {
        TimerListView { entries: heap_entries(self.heap), next_serial: self.next_serial as nat }
    }
}

impl TimerList {
    /// What the timers keep true of themselves.
    pub open spec fn wf(&self) -> bool {
        self@.wf()
    }

    /// Whether one more wake request can get a number.
    pub open spec fn has_room(&self) -> bool {
        self@.next_serial < u64::MAX
    }

    /// Whether one more wake request can get a number.
    pub fn can_arm(&self) -> (room: bool)
        ensures
            room == self.has_room(),
    {
        self.next_serial < u64::MAX
    }

    /// Timers without any wake request.
    pub fn new() -> (list: Self)
        ensures
            list.wf(),
            list@ == TimerListView::empty(),
    {
        TimerList { heap: heap_with_hasher(fixed_hasher(0)), next_serial: 0 }
    }
}

/// Asks that `task` be woken once `deadline` has passed. A task may ask more
/// than once; each request stands on its own.
pub fn set_alarm_wakeup(list: &mut TimerList, deadline: u64, task: &TaskPtr)
    requires
        old(list).wf(),
        old(list).has_room(),
    ensures
        final(list).wf(),
        final(list)@ == old(list)@.arm(task.0, deadline),
{
    let _ = heap_push(&mut list.heap, (task.0, list.next_serial), deadline);
    list.next_serial = list.next_serial + 1;
    proof {
        lemma_arm_keeps_valid(old(list)@, task.0, deadline);
    }
}

/// Withdraws the oldest wake request of `task`. Nothing happens where the
/// task has none, which is the usual case when it was woken by its timer.
pub fn clear_alarm_wakeup(list: &mut TimerList, task: &TaskPtr)
    requires
        old(list).wf(),
    ensures
        final(list).wf(),
        final(list)@ == old(list)@.disarm(task.0),
{
    let entries = heap_snapshot(&list.heap);
    let ghost timers = list@;
    let mut oldest: Option<u64> = None;
    let mut i: usize = 0;
    while i < entries.len()
        invariant
            i <= entries.len(),
            forall|ticket: Ticket, deadline: u64|
                entries@.contains((ticket, deadline)) <==> timers.entries.contains_pair(
                    ticket,
                    deadline,
                ),
            oldest is None ==> forall|k: int| 0 <= k < i ==> (#[trigger] entries@[k]).0.0 != task.0,
            oldest is Some ==> timers.entries.dom().contains((task.0, oldest->0)),
            oldest is Some ==> forall|k: int|
                0 <= k < i && (#[trigger] entries@[k]).0.0 == task.0 ==> oldest->0 <= entries@[k].0.1,
        decreases entries.len() - i,
    {
        let (ticket, deadline) = entries[i];
        if ticket.0 == task.0 {
            assert(entries@[i as int] == (ticket, deadline));
            assert(entries@.contains((ticket, deadline)));
            assert(timers.entries.contains_pair(ticket, deadline));
            assert(ticket == (task.0, ticket.1));
            let older = match oldest {
                Some(serial) => serial <= ticket.1,
                None => false,
            };
            if !older {
                oldest = Some(ticket.1);
            }
        }
        i += 1;
    }
    proof {
        assert forall|serial: u64| timers.entries.dom().contains((task.0, serial)) implies oldest
            is Some && oldest->0 <= serial by {
            let deadline = timers.entries[(task.0, serial)];
            assert(timers.entries.contains_pair((task.0, serial), deadline));
            assert(entries@.contains(((task.0, serial), deadline)));
            let k = choose|k: int| 0 <= k < entries@.len() && entries@[k] == ((task.0, serial), deadline);
            assert(entries@[k].0.0 == task.0);
        }
    }
    match oldest {
        Some(serial) => {
            proof {
                lemma_oldest(timers, task.0, serial);
            }
            let _ = heap_remove(&mut list.heap, (task.0, serial));
            proof {
                lemma_remove_keeps_valid(timers, (task.0, serial));
            }
        },
        None => {},
    }
}

/// One step of the timer tick at `now`: takes a wake request whose deadline
/// has passed, the earliest first, out of the timers.
pub fn next_expired(list: &mut TimerList, now: u64) -> (popped: Option<Wakeup>)
    requires
        old(list).wf(),
    ensures
        final(list).wf(),
        old(list)@.is_popped_as(now, popped, final(list)@),
{
    match heap_pop_expired(&mut list.heap, now) {
        Some((ticket, deadline)) => {
            proof {
                lemma_remove_keeps_valid(old(list)@, ticket);
            }
            Some(Wakeup { task: TaskPtr(ticket.0), serial: ticket.1, deadline })
        },
        None => {
            proof {
                lemma_none_due(old(list)@, now);
            }
            None
        },
    }
}

/// A new request keeps the timers valid.
pub proof fn lemma_arm_keeps_valid(timers: TimerListView, task: usize, deadline: u64)
    requires
        timers.wf(),
        timers.next_serial < u64::MAX,
    ensures
        timers.arm(task, deadline).wf(),
        !timers.entries.dom().contains((task, timers.next_serial as u64)),
{
    let after = timers.arm(task, deadline);
    assert forall|ticket: Ticket| #[trigger] after.entries.dom().contains(ticket) implies ticket.1
        < after.next_serial by {
        if ticket != (task, timers.next_serial as u64) {
            assert(timers.entries.dom().contains(ticket));
        }
    }
    if timers.entries.dom().contains((task, timers.next_serial as u64)) {
        assert(false);
    }
}

/// Taking a request away keeps the timers valid.
pub proof fn lemma_remove_keeps_valid(timers: TimerListView, ticket: Ticket)
    requires
        timers.wf(),
    ensures
        (TimerListView { entries: timers.entries.remove(ticket), ..timers }).wf(),
{
    let after = TimerListView { entries: timers.entries.remove(ticket), ..timers };
    assert forall|other: Ticket| #[trigger] after.entries.dom().contains(other) implies other.1
        < after.next_serial by {
        assert(timers.entries.dom().contains(other));
    }
}

/// The requests that `wakeups` answer.
pub open spec fn tickets_of(wakeups: Seq<Wakeup>) -> Set<Ticket> {
    Set::new(|ticket: Ticket| exists|i: int| 0 <= i < wakeups.len() && (#[trigger] wakeups[i]).ticket() == ticket)
}

/// The timer tick at `now`: takes every wake request whose deadline has
/// passed out of the timers and returns them, the earliest deadline first.
/// The caller unblocks their tasks.
pub fn check_events(list: &mut TimerList, now: u64) -> (wakeups: Vec<Wakeup>)
    requires
        old(list).wf(),
    ensures
        final(list).wf(),
        final(list)@ == old(list)@.drain(now),
        old(list)@.is_drained_as(now, wakeups@),
{
    let ghost start = list@;
    let mut wakeups: Vec<Wakeup> = Vec::new();
    assert(start.entries.remove_keys(tickets_of(wakeups@)) =~= start.entries);
    loop
        invariant_except_break
            list.wf(),
            list@.next_serial == start.next_serial,
            list@.entries == start.entries.remove_keys(tickets_of(wakeups@)),
            forall|i: int|
                0 <= i < wakeups@.len() ==> {
                    &&& start.is_due((#[trigger] wakeups@[i]).ticket(), now)
                    &&& start.entries[wakeups@[i].ticket()] == wakeups@[i].deadline
                },
            forall|i: int, j: int|
                0 <= i < j < wakeups@.len() ==> {
                    &&& (#[trigger] wakeups@[i]).ticket() != (#[trigger] wakeups@[j]).ticket()
                    &&& wakeups@[i].deadline <= wakeups@[j].deadline
                },
            forall|i: int, ticket: Ticket|
                0 <= i < wakeups@.len() && #[trigger] list@.entries.dom().contains(ticket) ==> (
                #[trigger] wakeups@[i]).deadline <= list@.entries[ticket],
        ensures
            list.wf(),
            list@ == start.drain(now),
            start.is_drained_as(now, wakeups@),
        decreases list@.entries.dom().len(),
    {
        let ghost current = list@;
        let ghost done = wakeups@;
        match next_expired(list, now) {
            Some(wakeup) => {
                wakeups.push(wakeup);
                proof {
                    let ticket = wakeup.ticket();
                    assert(current.entries.dom().contains(ticket));
                    assert(start.entries.dom().contains(ticket));
                    assert forall|t: Ticket| tickets_of(wakeups@).contains(t) <==> (tickets_of(
                        done,
                    ).contains(t) || t == ticket) by {
                        if tickets_of(done).contains(t) {
                            let i = choose|i: int| 0 <= i < done.len() && done[i].ticket() == t;
                            assert(wakeups@[i].ticket() == t);
                        }
                        if t == ticket {
                            assert(wakeups@[done.len() as int].ticket() == t);
                        }
                        if tickets_of(wakeups@).contains(t) {
                            let i = choose|i: int|
                                0 <= i < wakeups@.len() && wakeups@[i].ticket() == t;
                            if i < done.len() {
                                assert(done[i].ticket() == t);
                            }
                        }
                    }
                    assert(list@.entries =~= start.entries.remove_keys(tickets_of(wakeups@)));
                    assert forall|i: int| 0 <= i < done.len() implies (#[trigger] done[i]).ticket()
                        != ticket && done[i].deadline <= wakeup.deadline by {
                        assert(tickets_of(done).contains(done[i].ticket()));
                    }
                }
            },
            None => {
                proof {
                    let due = Set::new(|ticket: Ticket| start.is_due(ticket, now));
                    assert forall|t: Ticket| due.contains(t) implies tickets_of(wakeups@).contains(
                        t,
                    ) by {
                        if !tickets_of(wakeups@).contains(t) {
                            assert(list@.entries.dom().contains(t));
                            assert(list@.is_due(t, now));
                        }
                    }
                    assert(due =~= tickets_of(wakeups@));
                    assert forall|t: Ticket| start.is_due(t, now) implies exists|i: int|
                        0 <= i < wakeups@.len() && (#[trigger] wakeups@[i]).ticket() == t by {
                        assert(tickets_of(wakeups@).contains(t));
                    }
                }
                break ;
            },
        }
    }
    wakeups
}

/// Where the earliest deadline has not passed, none has.
pub proof fn lemma_none_due(timers: TimerListView, now: u64)
    requires
        forall|ticket: Ticket|
            is_earliest(timers.entries, ticket) ==> !is_expired(#[trigger] timers.entries[ticket], now),
    ensures
        forall|ticket: Ticket| !timers.is_due(ticket, now),
{
    // A due request would make the set of due deadlines non-empty, and that
    // set would have a least member: an earliest request that is due.
    if exists|ticket: Ticket| timers.is_due(ticket, now) {
        let due = choose|ticket: Ticket| timers.is_due(ticket, now);
        lemma_earliest_exists(timers.entries, due, timers.entries[due] as nat);
        let first = choose|first: Ticket|
            is_earliest(timers.entries, first) && timers.entries[first] <= timers.entries[due];
        assert(!is_expired(timers.entries[first], now));
    }
}

/// Below any request there is one that no request precedes.
pub proof fn lemma_earliest_exists(entries: Map<Ticket, u64>, ticket: Ticket, bound: nat)
    requires
        entries.dom().contains(ticket),
        entries[ticket] <= bound,
    ensures
        exists|first: Ticket| is_earliest(entries, first) && entries[first] <= entries[ticket],
    decreases bound,
{
    if is_earliest(entries, ticket) {
    } else {
        let other = choose|other: Ticket|
            entries.dom().contains(other) && entries[ticket] > entries[other];
        lemma_earliest_exists(entries, other, entries[other] as nat);
        let first = choose|first: Ticket|
            is_earliest(entries, first) && entries[first] <= entries[other];
        assert(is_earliest(entries, first) && entries[first] <= entries[ticket]);
    }
}

} // verus!
