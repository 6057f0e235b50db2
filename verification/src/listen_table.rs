//! The TCP passive-open table: one slot per port, each guarding the backlog
//! of connections that have been opened by a peer and not yet accepted.
//!
//! A slot is complete in itself, so that each can sit behind a lock of its
//! own: whoever holds a slot can listen, accept and queue on it without
//! looking at any other. The table is the slots of all ports side by side.

use std::collections::VecDeque;

use smoltcp::iface::{SocketHandle, SocketSet};
use vstd::prelude::*;

use crate::consts::{LISTEN_QUEUE_SIZE, TCP_RX_BUF_LEN, TCP_TX_BUF_LEN};
use crate::listen_model::{
    has_ready, is_first_ready, is_ready_at, lemma_accept_keeps_valid, lemma_deliver_keeps_valid,
    lemma_first_ready, lemma_listen_keeps_valid, lemma_slot_accept_keeps_valid,
    lemma_slot_deliver_keeps_valid, lemma_slot_valid, lemma_unlisten_keeps_valid, released,
    swap_removed, Accepted, ListenEntryView, ListenTableView, PortSlotView, TableError,
};
use crate::sockets::{
    registry_add_socket, registry_growable, registry_listen, registry_local_endpoint,
    registry_remote_endpoint, registry_remove, registry_sockets, registry_state, TcpState,
};
use crate::wire::{IpAddress, IpEndpoint, IpListenEndpoint};

verus! {

/// The number of ports, and so of slots in the table.
pub const PORT_NUM: usize = 65536;

/// `VecDeque::swap_remove_back`: the element at `index` leaves the queue and
/// the last element takes its place; out of bounds, nothing happens.
#[verifier::external_body]
fn swap_remove_back<T>(queue: &mut VecDeque<T>, index: usize) -> (removed: Option<T>)
    ensures
        index < old(queue)@.len() ==> removed == Some(old(queue)@[index as int]),
        index < old(queue)@.len() ==> final(queue)@ == swap_removed(old(queue)@, index as int),
        index >= old(queue)@.len() ==> removed is None && final(queue)@ == old(queue)@,
{
    queue.swap_remove_back(index)
}

/// Whether the connection under `handle` has left the handshake.
pub fn is_connected(sockets: &SocketSet<'static>, handle: SocketHandle) -> (connected: bool)
    requires
        registry_sockets(*sockets).dom().contains(handle),
    ensures
        connected == registry_sockets(*sockets)[handle].is_connected(),
{
    match registry_state(sockets, handle) {
        TcpState::Listen | TcpState::SynReceived => false,
        _ => true,
    }
}

/// Whether the connection under `handle` was reset or has run to its end.
pub fn is_closed(sockets: &SocketSet<'static>, handle: SocketHandle) -> (closed: bool)
    requires
        registry_sockets(*sockets).dom().contains(handle),
    ensures
        closed == registry_sockets(*sockets)[handle].is_closed(),
{
    match registry_state(sockets, handle) {
        TcpState::Closed => true,
        _ => false,
    }
}

/// The local and the remote end of the connection under `handle`.
pub fn get_addr_tuple(sockets: &SocketSet<'static>, handle: SocketHandle) -> (ends: (
    IpEndpoint,
    IpEndpoint,
))
    requires
        registry_sockets(*sockets).dom().contains(handle),
        registry_sockets(*sockets)[handle].tuple is Some,
    ensures
        Some(ends) == registry_sockets(*sockets)[handle].tuple,
{
    let local = registry_local_endpoint(sockets, handle);
    let remote = registry_remote_endpoint(sockets, handle);
    match (local, remote) {
        (Some(local), Some(remote)) => (local, remote),
        _ => vstd::pervasive::unreached(),
    }
}

/// The place of the first connection of `queue` that has left the handshake.
fn find_ready(queue: &VecDeque<SocketHandle>, sockets: &SocketSet<'static>) -> (found: Option<
    usize,
>)
    requires
        forall|i: int|
            0 <= i < queue@.len() ==> registry_sockets(*sockets).dom().contains(#[trigger] queue@[i]),
    ensures
        found is Some ==> is_first_ready(queue@, registry_sockets(*sockets), found->0 as int),
        found is None ==> !has_ready(queue@, registry_sockets(*sockets)),
{
    let len = queue.len();
    let mut idx: usize = 0;
    while idx < len
        invariant
            idx <= len,
            len == queue@.len(),
            forall|i: int|
                0 <= i < queue@.len() ==> registry_sockets(*sockets).dom().contains(
                    #[trigger] queue@[i],
                ),
            forall|j: int| 0 <= j < idx ==> !is_ready_at(queue@, registry_sockets(*sockets), j),
        decreases len - idx,
    {
        if is_connected(sockets, queue[idx]) {
            return Some(idx);
        }
        idx += 1;
    }
    None
}

/// One active listener: where it is bound, and the connections that peers
/// have opened to it and that no acceptor has taken yet.
pub struct ListenTableEntry {
    listen_endpoint: IpListenEndpoint,
    syn_queue: VecDeque<SocketHandle>,
    capacity: usize,
}

impl View for ListenTableEntry {
    type V = ListenEntryView;

    closed spec fn view(&self) -> ListenEntryView {
        ListenEntryView {
            endpoint: self.listen_endpoint,
            backlog: self.syn_queue@,
            capacity: self.capacity as nat,
        }
    }
}

impl ListenTableEntry {
    /// A listener on `listen_endpoint` with an empty backlog of the usual
    /// capacity.
    pub fn new(listen_endpoint: IpListenEndpoint) -> (entry: Self)
        ensures
            entry@ == ListenEntryView::empty(listen_endpoint, LISTEN_QUEUE_SIZE as nat),
    {
        Self::with_capacity(listen_endpoint, LISTEN_QUEUE_SIZE)
    }

    /// A listener on `listen_endpoint` with an empty backlog that holds up to
    /// `capacity` connections.
    pub fn with_capacity(listen_endpoint: IpListenEndpoint, capacity: usize) -> (entry: Self)
        ensures
            entry@ == ListenEntryView::empty(listen_endpoint, capacity as nat),
    {
        let reserve = if capacity < LISTEN_QUEUE_SIZE {
            capacity
        } else {
            LISTEN_QUEUE_SIZE
        };
        Self { listen_endpoint, syn_queue: VecDeque::with_capacity(reserve), capacity }
    }

    /// Whether a packet addressed to `dst` is meant for this listener.
    #[inline]
    pub fn can_accept(&self, dst: IpAddress) -> (accepted: bool)
        ensures
            accepted == self@.endpoint.accepts(dst),
    {
        match self.listen_endpoint.addr {
            Some(addr) => addr == dst,
            None => true,
        }
    }

    /// Ends the listener: every connection that still waits in its backlog
    /// is removed from the socket registry.
    pub fn release(self, sockets: &mut SocketSet<'static>)
        requires
            self@.backlog.no_duplicates(),
            forall|i: int|
                0 <= i < self@.backlog.len() ==> registry_sockets(*old(sockets)).dom().contains(
                    #[trigger] self@.backlog[i],
                ),
        ensures
            registry_sockets(*final(sockets)) == released(
                registry_sockets(*old(sockets)),
                self@.backlog,
            ),
            registry_growable(*final(sockets)) == registry_growable(*old(sockets)),
    {
        let ghost before = registry_sockets(*sockets);
        let ghost backlog = self.syn_queue@;
        let len = self.syn_queue.len();
        let mut i: usize = 0;
        assert(released(before, backlog.take(0)) =~= before);
        while i < len
            invariant
                i <= len,
                len == backlog.len(),
                backlog == self.syn_queue@,
                backlog.no_duplicates(),
                forall|k: int| 0 <= k < backlog.len() ==> before.dom().contains(#[trigger] backlog[k]),
                registry_sockets(*sockets) == released(before, backlog.take(i as int)),
                registry_growable(*sockets) == registry_growable(*old(sockets)),
            decreases len - i,
        {
            let handle = self.syn_queue[i];
            assert(!backlog.take(i as int).contains(handle));
            registry_remove(sockets, handle);
            assert(released(before, backlog.take(i as int)).remove(handle) =~= released(
                before,
                backlog.take(i as int + 1),
            )) by {
                let shorter = backlog.take(i as int);
                let longer = backlog.take(i as int + 1);
                assert(longer =~= shorter.push(handle));
                assert forall|h: SocketHandle| longer.contains(h) <==> (shorter.contains(h) || h
                    == handle) by {
                    if shorter.contains(h) {
                        let k = choose|k: int| 0 <= k < shorter.len() && shorter[k] == h;
                        assert(longer[k] == h);
                    }
                    if h == handle {
                        assert(longer[i as int] == h);
                    }
                }
            }
            i += 1;
        }
        assert(backlog.take(len as int) =~= backlog);
    }
}

/// The slot of one port: the listener of that port, if there is one.
pub struct PortSlot {
    entry: Option<ListenTableEntry>,
}

impl View for PortSlot {
    type V = PortSlotView;

    closed spec fn view(&self) -> PortSlotView {
        match self.entry {
            Some(entry) => PortSlotView::of(entry@),
            None => PortSlotView::free(),
        }
    }
}

impl PortSlot {
    /// A slot without a listener.
    pub fn new() -> (slot: Self)
        ensures
            slot@ == PortSlotView::free(),
    {
        PortSlot { entry: None }
    }

    /// Whether the slot has no listener.
    pub fn can_listen(&self) -> (free: bool)
        ensures
            free == self@.is_free(),
    {
        self.entry.is_none()
    }

    /// Installs a listener on `listen_endpoint` with an empty backlog of the
    /// given capacity, unless the slot has a listener already.
    pub fn listen(&mut self, listen_endpoint: IpListenEndpoint, capacity: usize) -> (result: Result<
        (),
        TableError,
    >)
        requires
            old(self)@.wf(),
            listen_endpoint.port != 0,
        ensures
            final(self)@.wf(),
            result == old(self)@.listen_result(),
            final(self)@ == old(self)@.listen(listen_endpoint, capacity as nat),
    {
        if self.entry.is_none() {
            self.entry = Some(ListenTableEntry::with_capacity(listen_endpoint, capacity));
            Ok(())
        } else {
            Err(TableError::AddressInUse)
        }
    }

    /// Clears the slot. The connections that still wait in it are removed
    /// from the socket registry.
    pub fn unlisten(&mut self, sockets: &mut SocketSet<'static>)
        requires
            old(self)@.wf(),
            old(self)@.registered_in(registry_sockets(*old(sockets))),
        ensures
            final(self)@ == PortSlotView::free(),
            registry_sockets(*final(sockets)) == released(
                registry_sockets(*old(sockets)),
                old(self)@.backlog(),
            ),
            registry_growable(*final(sockets)) == registry_growable(*old(sockets)),
    {
        match self.entry.take() {
            Some(entry) => {
                entry.release(sockets);
            },
            None => {
                assert(released(registry_sockets(*sockets), Seq::empty()) =~= registry_sockets(
                    *sockets,
                ));
            },
        }
    }

    /// Whether a connection of the slot has left the handshake and can be
    /// accepted.
    pub fn can_accept(&self, sockets: &SocketSet<'static>) -> (result: Result<bool, TableError>)
        requires
            self@.registered_in(registry_sockets(*sockets)),
        ensures
            result == self@.can_accept_result(registry_sockets(*sockets)),
    {
        match &self.entry {
            Some(entry) => Ok(find_ready(&entry.syn_queue, sockets).is_some()),
            None => Err(TableError::InvalidOperation),
        }
    }

    /// Takes the first connection of the slot, in queue order, that has left
    /// the handshake out of the backlog and hands it to the caller. The last
    /// connection of the backlog moves into its place.
    pub fn accept(&mut self, sockets: &SocketSet<'static>) -> (result: Result<Accepted, TableError>)
        requires
            old(self)@.wf(),
            old(self)@.registered_in(registry_sockets(*sockets)),
        ensures
            final(self)@.wf(),
            final(self)@.registered_in(registry_sockets(*sockets)),
            result == old(self)@.accept_result(registry_sockets(*sockets)),
            final(self)@ == old(self)@.accept(registry_sockets(*sockets)),
    {
        let ghost reg = registry_sockets(*sockets);
        proof {
            lemma_slot_accept_keeps_valid(old(self)@, reg);
        }
        let Some(mut entry) = self.entry.take() else {
            return Err(TableError::InvalidOperation);
        };
        let ghost before = entry@;
        let Some(idx) = find_ready(&entry.syn_queue, sockets) else {
            self.entry = Some(entry);
            return Err(TableError::TryAgain);  // wait for connection
        };
        proof {
            lemma_first_ready(before.backlog, reg, idx as int);
        }
        let removed = swap_remove_back(&mut entry.syn_queue, idx);
        let handle = removed.unwrap();
        self.entry = Some(entry);
        // If the connection is reset, the handle is gone all the same.
        if is_closed(sockets, handle) {
            Err(TableError::ConnectionReset)
        } else {
            Ok((handle, get_addr_tuple(sockets, handle)))
        }
    }

    /// Queues a pending connection for a SYN addressed to `dst`. The SYN is
    /// ignored where the slot has no listener or the listener is bound to
    /// another address, and dropped where the backlog is full. Otherwise a
    /// socket in passive listen is added to `sockets` and its handle goes to
    /// the end of the backlog.
    pub fn incoming_tcp_packet(&mut self, dst: IpAddress, sockets: &mut SocketSet<'static>)
        requires
            old(self)@.wf(),
            old(self)@.registered_in(registry_sockets(*old(sockets))),
            registry_growable(*old(sockets)),
        ensures
            final(self)@.wf(),
            final(self)@.registered_in(registry_sockets(*final(sockets))),
            registry_growable(*final(sockets)),
            old(self)@.is_delivered_as(
                registry_sockets(*old(sockets)),
                dst,
                final(self)@,
                registry_sockets(*final(sockets)),
            ),
    {
        let Some(mut entry) = self.entry.take() else {
            return ;
        };
        if !entry.can_accept(dst) {
            // not listening on this address
            self.entry = Some(entry);
            return ;
        }
        if entry.syn_queue.len() >= entry.capacity {
            // the backlog is full: the peer will send its SYN again
            self.entry = Some(entry);
            return ;
        }
        let handle = registry_add_socket(sockets, TCP_RX_BUF_LEN, TCP_TX_BUF_LEN);
        if registry_listen(sockets, handle, &entry.listen_endpoint) {
            entry.syn_queue.push_back(handle);
            proof {
                lemma_slot_deliver_keeps_valid(
                    old(self)@,
                    registry_sockets(*old(sockets)),
                    dst,
                    handle,
                );
                assert(registry_sockets(*sockets) =~= old(self)@.deliver_registry(
                    registry_sockets(*old(sockets)),
                    dst,
                    handle,
                ));
            }
        } else {
            registry_remove(sockets, handle);
            assert(registry_sockets(*sockets) =~= registry_sockets(*old(sockets)));
        }
        self.entry = Some(entry);
    }
}

/// The table of listeners, one slot per port.
pub struct ListenTable {
    tcp: Vec<PortSlot>,
    queue_size: usize,
}

impl View for ListenTable {
    type V = ListenTableView;

    closed spec fn view(&self) -> ListenTableView {
        ListenTableView {
            entries: Map::new(
                |p: u16| p < self.tcp@.len() && self.tcp@[p as int]@.entry is Some,
                |p: u16| self.tcp@[p as int]@.entry->0,
            ),
            queue_size: self.queue_size as nat,
        }
    }
}

impl ListenTable {
    /// Every port has its slot, and the listeners are as the model asks.
    pub closed spec fn wf(&self) -> bool {
        self.tcp@.len() == PORT_NUM && self@.wf()
    }

    /// A table without listeners; its listeners will hold up to
    /// `LISTEN_QUEUE_SIZE` pending connections each.
    pub fn new() -> (table: Self)
        ensures
            table.wf(),
            table@ == ListenTableView::empty(LISTEN_QUEUE_SIZE as nat),
    {
        Self::with_queue_size(LISTEN_QUEUE_SIZE)
    }

    /// A table without listeners; its listeners will hold up to `queue_size`
    /// pending connections each.
    pub fn with_queue_size(queue_size: usize) -> (table: Self)
        ensures
            table.wf(),
            table@ == ListenTableView::empty(queue_size as nat),
    {
        let mut tcp: Vec<PortSlot> = Vec::with_capacity(PORT_NUM);
        let mut i: usize = 0;
        while i < PORT_NUM
            invariant
                i <= PORT_NUM,
                tcp@.len() == i,
                forall|k: int| 0 <= k < i ==> (#[trigger] tcp@[k])@ == PortSlotView::free(),
            decreases PORT_NUM - i,
        {
            tcp.push(PortSlot::new());
            i += 1;
        }
        let table = Self { tcp, queue_size };
        assert(table@.entries =~= Map::empty());
        table
    }

    /// The slot of `port` holds what the table holds at `port`.
    proof fn lemma_slot(&self, port: u16)
        requires
            self.tcp@.len() == PORT_NUM,
        ensures
            self.tcp@[port as int]@ == self@.slot(port),
    {
    }

    /// A table that differs from `self` in the slot of `port` only holds
    /// what `self` holds, but for that slot.
    proof fn lemma_slot_replaced(&self, after: &ListenTable, port: u16)
        requires
            self.tcp@.len() == PORT_NUM,
            after.tcp@ == self.tcp@.update(port as int, after.tcp@[port as int]),
            after.queue_size == self.queue_size,
        ensures
            after@ == self@.with_slot(port, after.tcp@[port as int]@),
            after.tcp@[port as int]@ == after@.slot(port),
    {
        assert(after@.entries =~= self@.with_slot(port, after.tcp@[port as int]@).entries);
    }

    /// Whether `port` has no listener.
    pub fn can_listen(&self, port: u16) -> (free: bool)
        requires
            self.wf(),
        ensures
            free == self@.is_free(port),
    {
        proof {
            self.lemma_slot(port);
        }
        self.tcp[port as usize].can_listen()
    }

    /// Installs a listener with an empty backlog on the port of
    /// `listen_endpoint`, unless the port has one already.
    pub fn listen(&mut self, listen_endpoint: IpListenEndpoint) -> (result: Result<(), TableError>)
        requires
            old(self).wf(),
            listen_endpoint.port != 0,
        ensures
            final(self).wf(),
            result == old(self)@.listen_result(listen_endpoint),
            final(self)@ == old(self)@.listen(listen_endpoint),
    {
        let port = listen_endpoint.port;
        proof {
            old(self).lemma_slot(port);
            lemma_slot_valid(old(self)@, Map::empty(), port);
            lemma_listen_keeps_valid(old(self)@, Map::empty(), listen_endpoint);
        }
        let queue_size = self.queue_size;
        let result = self.tcp[port as usize].listen(listen_endpoint, queue_size);
        assert(self.tcp@ =~= old(self).tcp@.update(port as int, self.tcp@[port as int]));
        proof {
            old(self).lemma_slot_replaced(self, port);
        }
        result
    }

    /// Clears the slot of `port`. The connections that still wait there are
    /// removed from the socket registry.
    pub fn unlisten(&mut self, port: u16, sockets: &mut SocketSet<'static>)
        requires
            old(self).wf(),
            old(self)@.registered_in(registry_sockets(*old(sockets))),
        ensures
            final(self).wf(),
            final(self)@ == old(self)@.unlisten(port),
            registry_sockets(*final(sockets)) == released(
                registry_sockets(*old(sockets)),
                old(self)@.backlog(port),
            ),
            registry_growable(*final(sockets)) == registry_growable(*old(sockets)),
            final(self)@.registered_in(registry_sockets(*final(sockets))),
    {
        proof {
            old(self).lemma_slot(port);
            lemma_slot_valid(old(self)@, registry_sockets(*old(sockets)), port);
            lemma_unlisten_keeps_valid(old(self)@, registry_sockets(*old(sockets)), port);
        }
        self.tcp[port as usize].unlisten(sockets);
        assert(self.tcp@ =~= old(self).tcp@.update(port as int, self.tcp@[port as int]));
        proof {
            old(self).lemma_slot_replaced(self, port);
        }
    }

    /// Whether a connection at `port` has left the handshake and can be
    /// accepted.
    pub fn can_accept(&self, port: u16, sockets: &SocketSet<'static>) -> (result: Result<
        bool,
        TableError,
    >)
        requires
            self.wf(),
            self@.registered_in(registry_sockets(*sockets)),
        ensures
            result == self@.can_accept_result(port, registry_sockets(*sockets)),
    {
        proof {
            self.lemma_slot(port);
            lemma_slot_valid(self@, registry_sockets(*sockets), port);
        }
        self.tcp[port as usize].can_accept(sockets)
    }

    /// Takes the first connection at `port`, in queue order, that has left
    /// the handshake out of the backlog and hands it to the caller. The last
    /// connection of the backlog moves into its place.
    pub fn accept(&mut self, port: u16, sockets: &SocketSet<'static>) -> (result: Result<
        Accepted,
        TableError,
    >)
        requires
            old(self).wf(),
            old(self)@.registered_in(registry_sockets(*sockets)),
        ensures
            final(self).wf(),
            final(self)@.registered_in(registry_sockets(*sockets)),
            result == old(self)@.accept_result(port, registry_sockets(*sockets)),
            final(self)@ == old(self)@.accept(port, registry_sockets(*sockets)),
    {
        proof {
            old(self).lemma_slot(port);
            lemma_slot_valid(old(self)@, registry_sockets(*sockets), port);
            lemma_accept_keeps_valid(old(self)@, registry_sockets(*sockets), port);
        }
        let result = self.tcp[port as usize].accept(sockets);
        assert(self.tcp@ =~= old(self).tcp@.update(port as int, self.tcp@[port as int]));
        proof {
            old(self).lemma_slot_replaced(self, port);
        }
        result
    }

    /// Queues a pending connection for a SYN that came from `src` for `dst`.
    /// The SYN is ignored where nobody listens on the port of `dst` or the
    /// listener is bound to another address, and dropped where the backlog is
    /// full. Otherwise a socket in passive listen is added to `sockets` and
    /// its handle goes to the end of the backlog.
    pub fn incoming_tcp_packet(
        &mut self,
        src: IpEndpoint,
        dst: IpEndpoint,
        sockets: &mut SocketSet<'static>,
    )
        requires
            old(self).wf(),
            old(self)@.registered_in(registry_sockets(*old(sockets))),
            registry_growable(*old(sockets)),
        ensures
            final(self).wf(),
            final(self)@.registered_in(registry_sockets(*final(sockets))),
            registry_growable(*final(sockets)),
            old(self)@.is_delivered_as(
                registry_sockets(*old(sockets)),
                dst,
                final(self)@,
                registry_sockets(*final(sockets)),
            ),
    {
        proof {
            old(self).lemma_slot(dst.port);
            lemma_slot_valid(old(self)@, registry_sockets(*old(sockets)), dst.port);
        }
        self.tcp[dst.port as usize].incoming_tcp_packet(dst.addr, sockets);
        assert(self.tcp@ =~= old(self).tcp@.update(dst.port as int, self.tcp@[dst.port as int]));
        proof {
            old(self).lemma_slot_replaced(self, dst.port);
            lemma_deliver_keeps_valid(
                old(self)@,
                registry_sockets(*old(sockets)),
                dst,
                self@.backlog(dst.port).last(),
            );
        }
    }
}

} // verus!
