//! The passive-open table as a mathematical value, and what each of its
//! operations does to that value.
//!
//! A listener is a value of its own, a slot holds a listener or nothing, and
//! the table maps each port that is listened on to its listener. What an
//! operation does to the table is what it does to the slot of its port.

use smoltcp::iface::SocketHandle;
use vstd::prelude::*;

use crate::consts::{TCP_RX_BUF_LEN, TCP_TX_BUF_LEN};
use crate::sockets::TcpSocketInfo;
use crate::wire::{IpAddress, IpEndpoint, IpListenEndpoint};

verus! {

/// Why an operation on the table was refused.
#[derive(Clone, Copy, Debug, PartialEq, Eq, Structural)]
pub enum TableError {
    /// The port already has a listener.
    AddressInUse,
    /// The port has no listener.
    InvalidOperation,
    /// No pending connection has finished its handshake yet.
    TryAgain,
    /// The connection that was due was reset before it could be accepted.
    ConnectionReset,
}

/// What a socket registry holds, as far as the table is concerned.
pub type Registry = Map<SocketHandle, TcpSocketInfo>;

/// What an acceptor gets: the handle of the connection, its local end and
/// its remote end.
pub type Accepted = (SocketHandle, (IpEndpoint, IpEndpoint));

/// The backlog `s` after the connection at `i` has been taken out of it: the
/// last connection moves into the gap.
pub open spec fn swap_removed<T>(s: Seq<T>, i: int) -> Seq<T>
    recommends
        0 <= i < s.len(),
{
    s.update(i, s.last()).drop_last()
}

/// The connection at `i` has left the handshake.
pub open spec fn is_ready_at(backlog: Seq<SocketHandle>, reg: Registry, i: int) -> bool {
    0 <= i < backlog.len() && reg[backlog[i]].is_connected()
}

/// Some connection of the backlog has left the handshake.
pub open spec fn has_ready(backlog: Seq<SocketHandle>, reg: Registry) -> bool {
    exists|i: int| is_ready_at(backlog, reg, i)
}

/// The connection at `i` has left the handshake and none before it has.
pub open spec fn is_first_ready(backlog: Seq<SocketHandle>, reg: Registry, i: int) -> bool {
    &&& is_ready_at(backlog, reg, i)
    &&& forall|j: int| 0 <= j < i ==> !is_ready_at(backlog, reg, j)
}

/// The place of the first connection, in queue order, that has left the
/// handshake. It means nothing where there is none.
pub open spec fn first_ready(backlog: Seq<SocketHandle>, reg: Registry) -> int {
    choose|i: int| is_first_ready(backlog, reg, i)
}

/// The registry `reg` without the sockets of `backlog`.
pub open spec fn released(reg: Registry, backlog: Seq<SocketHandle>) -> Registry {
    Map::new(|h: SocketHandle| reg.dom().contains(h) && !backlog.contains(h), |h: SocketHandle| reg[h])
}

/// One listener, as a value: where it is bound, the connections that wait
/// for an acceptor in queue order, and how many of them it may hold.
pub struct ListenEntryView {
    pub endpoint: IpListenEndpoint,
    pub backlog: Seq<SocketHandle>,
    pub capacity: nat,
}

/// One slot of the table, as a value: the listener of its port, if there is
/// one.
pub struct PortSlotView {
    pub entry: Option<ListenEntryView>,
}

/// The table as a value: the listener of each port that has one, and the
/// backlog capacity that it gives to a new listener.
pub struct ListenTableView {
    pub entries: Map<u16, ListenEntryView>,
    pub queue_size: nat,
}

impl ListenEntryView {
    /// A listener that has just been installed.
    pub open spec fn empty(endpoint: IpListenEndpoint, capacity: nat) -> ListenEntryView {
        ListenEntryView { endpoint, backlog: Seq::empty(), capacity }
    }

    /// The listener has a port, its backlog is within its capacity, and no
    /// connection is queued twice.
    pub open spec fn wf(self) -> bool {
        &&& self.endpoint.port != 0
        &&& self.backlog.len() <= self.capacity
        &&& self.backlog.no_duplicates()
    }

    /// Every queued connection is a socket of `reg`, and one that can be
    /// handed to an acceptor knows both its ends.
    pub open spec fn registered_in(self, reg: Registry) -> bool {
        forall|i: int|
            0 <= i < self.backlog.len() ==> {
                &&& reg.dom().contains(#[trigger] self.backlog[i])
                &&& reg[self.backlog[i]].is_addressed()
            }
    }

    /// Whether a SYN addressed to `dst` is queued: the listener is bound to
    /// that address and its backlog has room.
    pub open spec fn admits(self, dst: IpAddress) -> bool {
        self.endpoint.accepts(dst) && self.backlog.len() < self.capacity
    }

    /// The socket that is made for a SYN to this listener: it listens where
    /// the listener is bound, and its buffers have the configured lengths.
    pub open spec fn pending_socket(self) -> TcpSocketInfo {
        TcpSocketInfo::listening(self.endpoint, TCP_RX_BUF_LEN as nat, TCP_TX_BUF_LEN as nat)
    }

    /// The listener with `handle` queued behind the others.
    pub open spec fn enqueue(self, handle: SocketHandle) -> ListenEntryView {
        ListenEntryView { backlog: self.backlog.push(handle), ..self }
    }

    /// The listener after an acceptor has been served: without its first
    /// ready connection, if it has one.
    pub open spec fn accept(self, reg: Registry) -> ListenEntryView {
        if has_ready(self.backlog, reg) {
            ListenEntryView {
                backlog: swap_removed(self.backlog, first_ready(self.backlog, reg)),
                ..self
            }
        } else {
            self
        }
    }

    /// What an acceptor is told: to try again while no connection is ready,
    /// else the first ready connection with its two ends, unless that one
    /// was reset in the meantime.
    pub open spec fn accept_result(self, reg: Registry) -> Result<Accepted, TableError> {
        if !has_ready(self.backlog, reg) {
            Err(TableError::TryAgain)
        } else {
            let handle = self.backlog[first_ready(self.backlog, reg)];
            if reg[handle].is_closed() {
                Err(TableError::ConnectionReset)
            } else {
                Ok((handle, reg[handle].tuple->0))
            }
        }
    }
}

impl PortSlotView {
    /// The slot without a listener.
    pub open spec fn free() -> PortSlotView {
        PortSlotView { entry: None }
    }

    /// The slot with the listener `entry`.
    pub open spec fn of(entry: ListenEntryView) -> PortSlotView {
        PortSlotView { entry: Some(entry) }
    }

    /// No listener occupies the slot.
    pub open spec fn is_free(self) -> bool {
        self.entry is None
    }

    /// The listener of the slot, if it has one, is valid.
    pub open spec fn wf(self) -> bool {
        self.entry is Some ==> self.entry->0.wf()
    }

    /// Every connection that waits in the slot is a socket of `reg`.
    pub open spec fn registered_in(self, reg: Registry) -> bool {
        self.entry is Some ==> self.entry->0.registered_in(reg)
    }

    /// The connections that wait in the slot; none where nobody listens.
    pub open spec fn backlog(self) -> Seq<SocketHandle> {
        match self.entry {
            Some(entry) => entry.backlog,
            None => Seq::empty(),
        }
    }

    /// What a request to listen is answered.
    pub open spec fn listen_result(self) -> Result<(), TableError> {
        if self.is_free() {
            Ok(())
        } else {
            Err(TableError::AddressInUse)
        }
    }

    /// The slot after a request to listen on `endpoint`: a free slot gets a
    /// listener with an empty backlog of the given capacity, an occupied one
    /// stays as it is.
    pub open spec fn listen(self, endpoint: IpListenEndpoint, capacity: nat) -> PortSlotView {
        if self.is_free() {
            PortSlotView::of(ListenEntryView::empty(endpoint, capacity))
        } else {
            self
        }
    }

    /// Whether a SYN addressed to `dst` is queued.
    pub open spec fn admits(self, dst: IpAddress) -> bool {
        self.entry is Some && self.entry->0.admits(dst)
    }

    /// The slot after a SYN for `dst` has arrived: where the SYN is queued,
    /// `handle` is the last of the backlog, and where it is not, nothing
    /// changes.
    pub open spec fn deliver(self, dst: IpAddress, handle: SocketHandle) -> PortSlotView {
        if self.admits(dst) {
            PortSlotView::of(self.entry->0.enqueue(handle))
        } else {
            self
        }
    }

    /// The registry after a SYN for `dst` has arrived: where the SYN is
    /// queued, the listener's pending socket is new under `handle`, and where
    /// it is not, nothing changes.
    pub open spec fn deliver_registry(
        self,
        reg: Registry,
        dst: IpAddress,
        handle: SocketHandle,
    ) -> Registry {
        if self.admits(dst) {
            reg.insert(handle, self.entry->0.pending_socket())
        } else {
            reg
        }
    }

    /// What the delivery of a SYN for `dst` does to the slot and to the
    /// registry, whatever handle the registry picks: the handle of the new
    /// socket, where one is made, was free in the registry and is the last of
    /// the backlog afterwards.
    pub open spec fn is_delivered_as(
        self,
        reg: Registry,
        dst: IpAddress,
        after: PortSlotView,
        reg_after: Registry,
    ) -> bool {
        let handle = after.backlog().last();
        &&& self.admits(dst) ==> !reg.dom().contains(handle)
        &&& after == self.deliver(dst, handle)
        &&& reg_after == self.deliver_registry(reg, dst, handle)
    }

    /// What a query for a ready connection is answered.
    pub open spec fn can_accept_result(self, reg: Registry) -> Result<bool, TableError> {
        match self.entry {
            Some(entry) => Ok(has_ready(entry.backlog, reg)),
            None => Err(TableError::InvalidOperation),
        }
    }

    /// What an acceptor is told.
    pub open spec fn accept_result(self, reg: Registry) -> Result<Accepted, TableError> {
        match self.entry {
            Some(entry) => entry.accept_result(reg),
            None => Err(TableError::InvalidOperation),
        }
    }

    /// The slot after an acceptor has been served.
    pub open spec fn accept(self, reg: Registry) -> PortSlotView {
        match self.entry {
            Some(entry) => PortSlotView::of(entry.accept(reg)),
            None => self,
        }
    }
}

impl ListenTableView {
    /// The table in which nobody listens.
    pub open spec fn empty(queue_size: nat) -> ListenTableView {
        ListenTableView { entries: Map::empty(), queue_size }
    }

    /// The slot of `port`.
    pub open spec fn slot(self, port: u16) -> PortSlotView {
        if self.entries.dom().contains(port) {
            PortSlotView::of(self.entries[port])
        } else {
            PortSlotView::free()
        }
    }

    /// The table with `slot` in the place of the slot of `port`.
    pub open spec fn with_slot(self, port: u16, slot: PortSlotView) -> ListenTableView {
        match slot.entry {
            Some(entry) => ListenTableView { entries: self.entries.insert(port, entry), ..self },
            None => ListenTableView { entries: self.entries.remove(port), ..self },
        }
    }

    /// No listener occupies `port`.
    pub open spec fn is_free(self, port: u16) -> bool {
        self.slot(port).is_free()
    }

    /// The connections that wait at `port`; none where nobody listens.
    pub open spec fn backlog(self, port: u16) -> Seq<SocketHandle> {
        self.slot(port).backlog()
    }

    /// Every listener sits in the slot of its own port, port 0 has none, and
    /// no backlog is longer than its capacity.
    pub open spec fn slots_valid(self) -> bool {
        forall|p: u16| #[trigger]
            self.entries.dom().contains(p) ==> {
                &&& p != 0
                &&& self.entries[p].endpoint.port == p
                &&& self.entries[p].backlog.len() <= self.entries[p].capacity
            }
    }

    /// No connection is queued twice, in one backlog or in two.
    pub open spec fn handles_distinct(self) -> bool {
        forall|p: u16, i: int, q: u16, j: int|
            self.entries.dom().contains(p) && 0 <= i < self.entries[p].backlog.len()
                && self.entries.dom().contains(q) && 0 <= j < self.entries[q].backlog.len() && (p
                != q || i != j) ==> #[trigger] self.entries[p].backlog[i]
                != #[trigger] self.entries[q].backlog[j]
    }

    /// What the table keeps true of itself.
    pub open spec fn wf(self) -> bool {
        self.slots_valid() && self.handles_distinct()
    }

    /// Every queued connection is a socket of `reg`, and one that can be
    /// handed to an acceptor knows both its ends.
    pub open spec fn registered_in(self, reg: Registry) -> bool {
        forall|p: u16| #[trigger] self.entries.dom().contains(p) ==> self.entries[p].registered_in(reg)
    }

    /// What a request to listen on `endpoint` is answered.
    pub open spec fn listen_result(self, endpoint: IpListenEndpoint) -> Result<(), TableError> {
        self.slot(endpoint.port).listen_result()
    }

    /// The table after a request to listen on `endpoint`: a free port gets a
    /// listener with an empty backlog, an occupied one stays as it is.
    pub open spec fn listen(self, endpoint: IpListenEndpoint) -> ListenTableView {
        self.with_slot(endpoint.port, self.slot(endpoint.port).listen(endpoint, self.queue_size))
    }

    /// The table without the listener of `port`.
    pub open spec fn unlisten(self, port: u16) -> ListenTableView {
        self.with_slot(port, PortSlotView::free())
    }

    /// Whether a SYN addressed to `dst` is queued.
    pub open spec fn admits(self, dst: IpEndpoint) -> bool {
        self.slot(dst.port).admits(dst.addr)
    }

    /// The table after a SYN for `dst` has arrived: where the SYN is queued,
    /// `handle` is the last of the backlog of its port, and where it is not,
    /// nothing changes.
    pub open spec fn deliver(self, dst: IpEndpoint, handle: SocketHandle) -> ListenTableView {
        self.with_slot(dst.port, self.slot(dst.port).deliver(dst.addr, handle))
    }

    /// The registry after a SYN for `dst` has arrived.
    pub open spec fn deliver_registry(
        self,
        reg: Registry,
        dst: IpEndpoint,
        handle: SocketHandle,
    ) -> Registry {
        self.slot(dst.port).deliver_registry(reg, dst.addr, handle)
    }

    /// What the delivery of a SYN for `dst` does to the table and to the
    /// registry, whatever handle the registry picks: the handle of the new
    /// socket, where one is made, was free in the registry and is the last of
    /// the backlog of its port afterwards.
    pub open spec fn is_delivered_as(
        self,
        reg: Registry,
        dst: IpEndpoint,
        after: ListenTableView,
        reg_after: Registry,
    ) -> bool {
        let handle = after.backlog(dst.port).last();
        &&& self.admits(dst) ==> !reg.dom().contains(handle)
        &&& after == self.deliver(dst, handle)
        &&& reg_after == self.deliver_registry(reg, dst, handle)
    }

    /// What a query for a ready connection at `port` is answered.
    pub open spec fn can_accept_result(self, port: u16, reg: Registry) -> Result<bool, TableError> {
        self.slot(port).can_accept_result(reg)
    }

    /// What an acceptor at `port` is told.
    pub open spec fn accept_result(self, port: u16, reg: Registry) -> Result<Accepted, TableError> {
        self.slot(port).accept_result(reg)
    }

    /// The table after an acceptor at `port` has been served.
    pub open spec fn accept(self, port: u16, reg: Registry) -> ListenTableView {
        self.with_slot(port, self.slot(port).accept(reg))
    }
}

/// There is one first ready connection at most.
pub proof fn lemma_first_ready(backlog: Seq<SocketHandle>, reg: Registry, i: int)
    requires
        is_first_ready(backlog, reg, i),
    ensures
        has_ready(backlog, reg),
        first_ready(backlog, reg) == i,
{
    let k = first_ready(backlog, reg);
    assert(is_first_ready(backlog, reg, k));
    if k < i {
        assert(!is_ready_at(backlog, reg, k));
    }
    if i < k {
        assert(!is_ready_at(backlog, reg, i));
    }
}

/// Taking one connection out of a backlog leaves the others, each where it
/// was but for the last, which stands in the gap.
pub proof fn lemma_swap_removed<T>(s: Seq<T>, i: int)
    requires
        0 <= i < s.len(),
    ensures
        swap_removed(s, i).len() == s.len() - 1,
        forall|k: int|
            0 <= k < s.len() - 1 ==> #[trigger] swap_removed(s, i)[k] == if k == i {
                s.last()
            } else {
                s[k]
            },
{
}

/// Putting a slot back as it was changes nothing.
pub proof fn lemma_same_slot(table: ListenTableView, port: u16)
    ensures
        table.with_slot(port, table.slot(port)) == table,
{
    assert(table.with_slot(port, table.slot(port)).entries =~= table.entries);
}

/// A valid table has valid slots, and what is registered of the table is
/// registered of each slot.
pub proof fn lemma_slot_valid(table: ListenTableView, reg: Registry, port: u16)
    requires
        table.wf(),
    ensures
        table.slot(port).wf(),
        table.registered_in(reg) ==> table.slot(port).registered_in(reg),
{
    if table.entries.dom().contains(port) {
        let backlog = table.entries[port].backlog;
        assert forall|i: int, j: int| 0 <= i < backlog.len() && 0 <= j < backlog.len() && i
            != j implies backlog[i] != backlog[j] by {
            assert(table.entries[port].backlog[i] != table.entries[port].backlog[j]);
        }
    }
}

/// Listening keeps the table valid.
pub proof fn lemma_listen_keeps_valid(table: ListenTableView, reg: Registry, endpoint: IpListenEndpoint)
    requires
        table.wf(),
        endpoint.port != 0,
    ensures
        table.listen(endpoint).wf(),
        table.registered_in(reg) ==> table.listen(endpoint).registered_in(reg),
{
    let after = table.listen(endpoint);
    if table.is_free(endpoint.port) {
        assert forall|p: u16, i: int, q: u16, j: int|
            after.entries.dom().contains(p) && 0 <= i < after.entries[p].backlog.len()
                && after.entries.dom().contains(q) && 0 <= j < after.entries[q].backlog.len() && (p
                != q || i != j) implies #[trigger] after.entries[p].backlog[i]
            != #[trigger] after.entries[q].backlog[j] by {
            assert(table.entries[p].backlog[i] != table.entries[q].backlog[j]);
        }
    } else {
        lemma_same_slot(table, endpoint.port);
    }
}

/// Clearing a port keeps the table valid, and the connections of the other
/// ports stay registered once those of the cleared port have been released.
pub proof fn lemma_unlisten_keeps_valid(table: ListenTableView, reg: Registry, port: u16)
    requires
        table.wf(),
    ensures
        table.unlisten(port).wf(),
        table.registered_in(reg) ==> table.unlisten(port).registered_in(
            released(reg, table.backlog(port)),
        ),
{
    let cleared = table.unlisten(port);
    let rest = released(reg, table.backlog(port));
    assert forall|p: u16, i: int, q: u16, j: int|
        cleared.entries.dom().contains(p) && 0 <= i < cleared.entries[p].backlog.len()
            && cleared.entries.dom().contains(q) && 0 <= j < cleared.entries[q].backlog.len() && (p
            != q || i != j) implies #[trigger] cleared.entries[p].backlog[i]
        != #[trigger] cleared.entries[q].backlog[j] by {
        assert(table.entries[p].backlog[i] != table.entries[q].backlog[j]);
    }
    if table.registered_in(reg) {
        assert forall|p: u16| #[trigger] cleared.entries.dom().contains(p) implies cleared.entries[p].registered_in(
            rest,
        ) by {
            assert(table.entries.dom().contains(p));
            assert forall|i: int| 0 <= i < cleared.entries[p].backlog.len() implies {
                &&& rest.dom().contains(#[trigger] cleared.entries[p].backlog[i])
                &&& rest[cleared.entries[p].backlog[i]].is_addressed()
            } by {
                let handle = table.entries[p].backlog[i];
                assert(reg.dom().contains(handle));
                if table.backlog(port).contains(handle) {
                    let j = choose|j: int|
                        0 <= j < table.backlog(port).len() && table.backlog(port)[j] == handle;
                    assert(table.entries[port].backlog[j] == handle);
                    assert(false);
                }
            }
        }
    }
}

/// Queuing a socket that is new in the registry keeps the table valid.
pub proof fn lemma_deliver_keeps_valid(
    table: ListenTableView,
    reg: Registry,
    dst: IpEndpoint,
    handle: SocketHandle,
)
    requires
        table.wf(),
        table.registered_in(reg),
        table.admits(dst) ==> !reg.dom().contains(handle),
    ensures
        table.deliver(dst, handle).wf(),
        table.deliver(dst, handle).registered_in(table.deliver_registry(reg, dst, handle)),
{
    let after = table.deliver(dst, handle);
    let port = dst.port;
    if table.admits(dst) {
        let last = table.entries[port].backlog.len() as int;
        assert forall|p: u16, i: int|
            after.entries.dom().contains(p) && 0 <= i < after.entries[p].backlog.len() implies (
            #[trigger] after.entries[p].backlog[i]) == (if p == port && i == last {
            handle
        } else {
            table.entries[p].backlog[i]
        }) by {}
        assert forall|p: u16, i: int, q: u16, j: int|
            after.entries.dom().contains(p) && 0 <= i < after.entries[p].backlog.len()
                && after.entries.dom().contains(q) && 0 <= j < after.entries[q].backlog.len() && (p
                != q || i != j) implies #[trigger] after.entries[p].backlog[i]
            != #[trigger] after.entries[q].backlog[j] by {
            if !(p == port && i == last) {
                assert(table.entries[p].registered_in(reg));
                assert(reg.dom().contains(table.entries[p].backlog[i]));
            }
            if !(q == port && j == last) {
                assert(table.entries[q].registered_in(reg));
                assert(reg.dom().contains(table.entries[q].backlog[j]));
            }
        }
        let after_reg = table.deliver_registry(reg, dst, handle);
        assert forall|p: u16| #[trigger] after.entries.dom().contains(p) implies after.entries[p].registered_in(
            after_reg,
        ) by {
            assert(table.entries[p].registered_in(reg));
            assert forall|i: int| 0 <= i < after.entries[p].backlog.len() implies {
                &&& after_reg.dom().contains(#[trigger] after.entries[p].backlog[i])
                &&& after_reg[after.entries[p].backlog[i]].is_addressed()
            } by {
                if !(p == port && i == last) {
                    assert(reg.dom().contains(table.entries[p].backlog[i]));
                }
            }
        }
    } else {
        lemma_same_slot(table, port);
    }
}

/// Serving an acceptor keeps the table valid and its connections registered.
pub proof fn lemma_accept_keeps_valid(table: ListenTableView, reg: Registry, port: u16)
    requires
        table.wf(),
    ensures
        table.accept(port, reg).wf(),
        table.registered_in(reg) ==> table.accept(port, reg).registered_in(reg),
{
    let after = table.accept(port, reg);
    if !table.is_free(port) && has_ready(table.entries[port].backlog, reg) {
        let before = table.entries[port].backlog;
        let i = first_ready(before, reg);
        assert(is_first_ready(before, reg, i)) by {
            let k = choose|k: int| is_ready_at(before, reg, k);
            lemma_first_ready_exists(before, reg, k);
        }
        lemma_swap_removed(before, i);
        let origin = |p: u16, k: int| if p == port && k == i { before.len() - 1 } else { k };
        assert forall|p: u16, k: int|
            after.entries.dom().contains(p) && 0 <= k < after.entries[p].backlog.len() implies (
            #[trigger] after.entries[p].backlog[k]) == table.entries[p].backlog[origin(p, k)] && 0
            <= origin(p, k) < table.entries[p].backlog.len() by {}
        assert forall|p: u16, k: int, q: u16, l: int|
            after.entries.dom().contains(p) && 0 <= k < after.entries[p].backlog.len()
                && after.entries.dom().contains(q) && 0 <= l < after.entries[q].backlog.len() && (p
                != q || k != l) implies #[trigger] after.entries[p].backlog[k]
            != #[trigger] after.entries[q].backlog[l] by {
            assert(table.entries[p].backlog[origin(p, k)] != table.entries[q].backlog[origin(q, l)]);
        }
        if table.registered_in(reg) {
            assert forall|p: u16| #[trigger] after.entries.dom().contains(p) implies after.entries[p].registered_in(
                reg,
            ) by {
                assert(table.entries[p].registered_in(reg));
                assert forall|k: int| 0 <= k < after.entries[p].backlog.len() implies {
                    &&& reg.dom().contains(#[trigger] after.entries[p].backlog[k])
                    &&& reg[after.entries[p].backlog[k]].is_addressed()
                } by {
                    assert(reg.dom().contains(table.entries[p].backlog[origin(p, k)]));
                }
            }
        }
    } else {
        lemma_same_slot(table, port);
    }
}

/// Serving an acceptor keeps a slot valid and its connections registered.
pub proof fn lemma_slot_accept_keeps_valid(slot: PortSlotView, reg: Registry)
    requires
        slot.wf(),
    ensures
        slot.accept(reg).wf(),
        slot.registered_in(reg) ==> slot.accept(reg).registered_in(reg),
{
    if slot.entry is Some && has_ready(slot.entry->0.backlog, reg) {
        let before = slot.entry->0.backlog;
        let after = slot.accept(reg).entry->0.backlog;
        let i = first_ready(before, reg);
        assert(is_first_ready(before, reg, i)) by {
            let k = choose|k: int| is_ready_at(before, reg, k);
            lemma_first_ready_exists(before, reg, k);
        }
        lemma_swap_removed(before, i);
        let origin = |k: int| if k == i { before.len() - 1 } else { k };
        assert forall|k: int| 0 <= k < after.len() implies #[trigger] after[k] == before[origin(k)]
            && 0 <= origin(k) < before.len() by {}
        assert forall|k: int, l: int| 0 <= k < after.len() && 0 <= l < after.len() && k
            != l implies after[k] != after[l] by {
            assert(before[origin(k)] != before[origin(l)]);
        }
        if slot.registered_in(reg) {
            assert forall|k: int| 0 <= k < after.len() implies {
                &&& reg.dom().contains(#[trigger] after[k])
                &&& reg[after[k]].is_addressed()
            } by {
                assert(reg.dom().contains(before[origin(k)]));
            }
        }
    }
}

/// Queuing a socket that is new in the registry keeps a slot valid and its
/// connections registered.
pub proof fn lemma_slot_deliver_keeps_valid(
    slot: PortSlotView,
    reg: Registry,
    dst: IpAddress,
    handle: SocketHandle,
)
    requires
        slot.wf(),
        slot.registered_in(reg),
        slot.admits(dst) ==> !reg.dom().contains(handle),
    ensures
        slot.deliver(dst, handle).wf(),
        slot.deliver(dst, handle).registered_in(slot.deliver_registry(reg, dst, handle)),
{
    if slot.admits(dst) {
        let before = slot.entry->0.backlog;
        let after = slot.deliver(dst, handle).entry->0.backlog;
        assert forall|k: int, l: int| 0 <= k < after.len() && 0 <= l < after.len() && k
            != l implies after[k] != after[l] by {
            if k < before.len() {
                assert(reg.dom().contains(before[k]));
            }
            if l < before.len() {
                assert(reg.dom().contains(before[l]));
            }
        }
        let after_reg = slot.deliver_registry(reg, dst, handle);
        assert forall|k: int| 0 <= k < after.len() implies {
            &&& after_reg.dom().contains(#[trigger] after[k])
            &&& after_reg[after[k]].is_addressed()
        } by {
            if k < before.len() {
                assert(reg.dom().contains(before[k]));
            }
        }
    }
}

/// Where a connection is ready, one is the first.
pub proof fn lemma_first_ready_exists(backlog: Seq<SocketHandle>, reg: Registry, k: int)
    requires
        is_ready_at(backlog, reg, k),
    ensures
        is_first_ready(backlog, reg, first_ready(backlog, reg)),
        first_ready(backlog, reg) <= k,
    decreases k,
{
    if is_first_ready(backlog, reg, k) {
        lemma_first_ready(backlog, reg, k);
    } else {
        let j = choose|j: int| 0 <= j < k && is_ready_at(backlog, reg, j);
        lemma_first_ready_exists(backlog, reg, j);
    }
}

} // verus!
