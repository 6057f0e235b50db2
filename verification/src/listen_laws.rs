//! What holds of the passive-open table over several operations.

use smoltcp::iface::SocketHandle;
use vstd::prelude::*;

use crate::listen_model::{
    has_ready, is_first_ready, is_ready_at, lemma_first_ready, lemma_same_slot, released,
    swap_removed, ListenEntryView, ListenTableView, Registry, TableError,
};
use crate::sockets::TcpSocketInfo;
use crate::wire::{IpEndpoint, IpListenEndpoint};

verus! {

/// A port takes one listener at a time. However a request to listen on a
/// port went, a second request on that port is refused as address in use and
/// changes nothing; once the port has been cleared, a request succeeds.
pub proof fn lemma_listen_is_exclusive(
    table: ListenTableView,
    first: IpListenEndpoint,
    second: IpListenEndpoint,
)
    requires
        first.port == second.port,
    ensures
        table.listen(first).listen_result(second) == Err::<(), TableError>(TableError::AddressInUse),
        table.listen(first).listen(second) == table.listen(first),
        table.listen(first).unlisten(first.port).listen_result(second) == Ok::<(), TableError>(()),
        table.listen(first).unlisten(first.port).listen(second).entries[second.port]
            == ListenEntryView::empty(second, table.queue_size),
{
    lemma_same_slot(table.listen(first), second.port);
}

/// The table after one SYN for `dst` has arrived for each of `handles`, in
/// that order; `handles[i]` is the handle under which the socket for the
/// `i`-th SYN is registered if that SYN is queued.
pub open spec fn deliver_all(
    table: ListenTableView,
    dst: IpEndpoint,
    handles: Seq<SocketHandle>,
) -> ListenTableView
    decreases handles.len(),
{
    if handles.len() == 0 {
        table
    } else {
        deliver_all(table, dst, handles.drop_last()).deliver(dst, handles.last())
    }
}

/// The registry after the same SYNs.
pub open spec fn deliver_all_registry(
    table: ListenTableView,
    reg: Registry,
    dst: IpEndpoint,
    handles: Seq<SocketHandle>,
) -> Registry
    decreases handles.len(),
{
    if handles.len() == 0 {
        reg
    } else {
        deliver_all(table, dst, handles.drop_last()).deliver_registry(
            deliver_all_registry(table, reg, dst, handles.drop_last()),
            dst,
            handles.last(),
        )
    }
}

/// The registry `reg` with the socket `pending` under each of `handles`.
pub open spec fn with_pending(
    reg: Registry,
    handles: Seq<SocketHandle>,
    pending: TcpSocketInfo,
) -> Registry {
    Map::new(
        |h: SocketHandle| reg.dom().contains(h) || handles.contains(h),
        |h: SocketHandle|
            if handles.contains(h) {
                pending
            } else {
                reg[h]
            },
    )
}

/// How many of `arrivals` SYNs a listener still queues.
pub open spec fn queued_of(entry: ListenEntryView, arrivals: nat) -> nat {
    if entry.backlog.len() + arrivals <= entry.capacity {
        arrivals
    } else {
        (entry.capacity - entry.backlog.len()) as nat
    }
}

/// A listener queues the SYNs that are meant for it while its backlog has
/// room, in the order of their arrival, and no more: of `handles.len()` SYNs
/// the first `queued_of(..)` are queued behind what was there, each with its
/// pending socket in the registry, and the others leave no trace.
pub proof fn lemma_deliver_all(
    table: ListenTableView,
    reg: Registry,
    dst: IpEndpoint,
    handles: Seq<SocketHandle>,
)
    requires
        !table.is_free(dst.port),
        table.entries[dst.port].endpoint.accepts(dst.addr),
        table.entries[dst.port].backlog.len() <= table.entries[dst.port].capacity,
    ensures
        deliver_all(table, dst, handles) == (ListenTableView {
            entries: table.entries.insert(
                dst.port,
                ListenEntryView {
                    backlog: table.entries[dst.port].backlog + handles.take(
                        queued_of(table.entries[dst.port], handles.len()) as int,
                    ),
                    ..table.entries[dst.port]
                },
            ),
            ..table
        }),
        deliver_all_registry(table, reg, dst, handles) == with_pending(
            reg,
            handles.take(queued_of(table.entries[dst.port], handles.len()) as int),
            table.entries[dst.port].pending_socket(),
        ),
    decreases handles.len(),
{
    let entry = table.entries[dst.port];
    if handles.len() == 0 {
        assert(entry.backlog + handles.take(0) =~= entry.backlog);
        assert(table.entries.insert(dst.port, entry) =~= table.entries);
        assert(with_pending(reg, handles.take(0), entry.pending_socket()) =~= reg);
    } else {
        let shorter = handles.drop_last();
        lemma_deliver_all(table, reg, dst, shorter);
        let k = queued_of(entry, shorter.len()) as int;
        let mid = deliver_all(table, dst, shorter);
        let mid_reg = deliver_all_registry(table, reg, dst, shorter);
        assert(mid.entries[dst.port].backlog == entry.backlog + shorter.take(k));
        if mid.admits(dst) {
            assert(k == shorter.len());
            assert(shorter.take(k) =~= shorter);
            assert(handles.take(k + 1) =~= handles);
            assert((entry.backlog + shorter).push(handles.last()) =~= entry.backlog + handles);
            assert(mid.deliver(dst, handles.last()).entries =~= table.entries.insert(
                dst.port,
                ListenEntryView { backlog: entry.backlog + handles, ..entry },
            ));
            assert forall|h: SocketHandle| handles.contains(h) <==> (shorter.contains(h) || h
                == handles.last()) by {
                if shorter.contains(h) {
                    let i = choose|i: int| 0 <= i < shorter.len() && shorter[i] == h;
                    assert(handles[i] == h);
                }
                if h == handles.last() {
                    assert(handles[handles.len() - 1] == h);
                }
                if handles.contains(h) {
                    let i = choose|i: int| 0 <= i < handles.len() && handles[i] == h;
                    if i < shorter.len() {
                        assert(shorter[i] == h);
                    }
                }
            }
            assert(mid.entries[dst.port].pending_socket() == entry.pending_socket());
            assert(mid_reg.insert(handles.last(), entry.pending_socket()) =~= with_pending(
                reg,
                handles,
                entry.pending_socket(),
            ));
        } else {
            lemma_same_slot(mid, dst.port);
            assert(handles.take(k) =~= shorter.take(k));
        }
    }
}

/// A backlog never grows beyond its capacity: when one SYN more arrives than
/// an empty backlog holds, all but the last are queued in the order of their
/// arrival, and the last changes neither the table nor the registry.
pub proof fn lemma_backlog_overflow(
    table: ListenTableView,
    reg: Registry,
    dst: IpEndpoint,
    handles: Seq<SocketHandle>,
)
    requires
        !table.is_free(dst.port),
        table.entries[dst.port].endpoint.accepts(dst.addr),
        table.entries[dst.port].backlog.len() == 0,
        handles.len() == table.entries[dst.port].capacity + 1,
    ensures
        deliver_all(table, dst, handles).backlog(dst.port) == handles.drop_last(),
        deliver_all(table, dst, handles).backlog(dst.port).len() == table.entries[dst.port].capacity,
        deliver_all(table, dst, handles) == deliver_all(table, dst, handles.drop_last()),
        deliver_all_registry(table, reg, dst, handles) == deliver_all_registry(
            table,
            reg,
            dst,
            handles.drop_last(),
        ),
{
    let entry = table.entries[dst.port];
    lemma_deliver_all(table, reg, dst, handles);
    lemma_deliver_all(table, reg, dst, handles.drop_last());
    assert(handles.take(entry.capacity as int) =~= handles.drop_last());
    assert(handles.drop_last().take(entry.capacity as int) =~= handles.drop_last());
    assert(entry.backlog + handles.drop_last() =~= handles.drop_last());
}

/// Clearing a port releases every connection that waits there, touches no
/// other socket, and frees the port at once.
pub proof fn lemma_unlisten_releases(table: ListenTableView, reg: Registry, endpoint: IpListenEndpoint)
    ensures
        forall|i: int|
            0 <= i < table.backlog(endpoint.port).len() ==> !released(
                reg,
                table.backlog(endpoint.port),
            ).dom().contains(#[trigger] table.backlog(endpoint.port)[i]),
        forall|h: SocketHandle|
            reg.dom().contains(h) && !table.backlog(endpoint.port).contains(h) ==> #[trigger] released(
                reg,
                table.backlog(endpoint.port),
            ).contains_pair(h, reg[h]),
        released(reg, table.backlog(endpoint.port)).dom().subset_of(reg.dom()),
        table.unlisten(endpoint.port).is_free(endpoint.port),
        table.unlisten(endpoint.port).listen_result(endpoint) == Ok::<(), TableError>(()),
{
    let backlog = table.backlog(endpoint.port);
    assert forall|i: int| 0 <= i < backlog.len() implies !released(reg, backlog).dom().contains(
        #[trigger] backlog[i],
    ) by {
        assert(backlog.contains(backlog[i]));
    }
}

/// Clearing a port takes the registry back to where it was before the
/// listener's connections were queued: after any number of SYNs for a
/// listener with an empty backlog, each under a handle that was free before,
/// clearing the port leaves the registry as it was before the first of them.
pub proof fn lemma_unlisten_restores_registry(
    table: ListenTableView,
    reg: Registry,
    dst: IpEndpoint,
    handles: Seq<SocketHandle>,
)
    requires
        !table.is_free(dst.port),
        table.entries[dst.port].endpoint.accepts(dst.addr),
        table.entries[dst.port].backlog.len() == 0,
        forall|i: int| 0 <= i < handles.len() ==> !reg.dom().contains(#[trigger] handles[i]),
    ensures
        released(
            deliver_all_registry(table, reg, dst, handles),
            deliver_all(table, dst, handles).backlog(dst.port),
        ) == reg,
        deliver_all(table, dst, handles).unlisten(dst.port).is_free(dst.port),
{
    let entry = table.entries[dst.port];
    lemma_deliver_all(table, reg, dst, handles);
    let queued = handles.take(queued_of(entry, handles.len()) as int);
    assert(entry.backlog + queued =~= queued);
    assert forall|h: SocketHandle| queued.contains(h) implies !reg.dom().contains(h) by {
        let i = choose|i: int| 0 <= i < queued.len() && queued[i] == h;
        assert(handles[i] == h);
    }
    assert(released(with_pending(reg, queued, entry.pending_socket()), queued) =~= reg);
}

/// An acceptor is told to try again while nothing is ready, and an empty
/// backlog has nothing ready.
pub proof fn lemma_accept_nothing_ready(table: ListenTableView, reg: Registry, port: u16)
    requires
        !table.is_free(port),
        forall|i: int| 0 <= i < table.backlog(port).len() ==> !is_ready_at(table.backlog(port), reg, i),
    ensures
        table.accept_result(port, reg) == Err::<
            (SocketHandle, (IpEndpoint, IpEndpoint)),
            TableError,
        >(TableError::TryAgain),
        table.accept(port, reg).backlog(port) == table.backlog(port),
        table.can_accept_result(port, reg) == Ok::<bool, TableError>(false),
{
    let backlog = table.backlog(port);
    assert(backlog == table.entries[port].backlog);
    if has_ready(backlog, reg) {
        let i = choose|i: int| is_ready_at(backlog, reg, i);
        assert(!is_ready_at(table.backlog(port), reg, i));
    }
    assert(table.accept(port, reg).entries =~= table.entries);
}

/// Once one connection of a backlog has left the handshake, an acceptor
/// gets that connection, with its two ends, and the backlog is shorter by
/// that one.
pub proof fn lemma_accept_the_ready_one(table: ListenTableView, reg: Registry, port: u16, i: int)
    requires
        !table.is_free(port),
        is_ready_at(table.backlog(port), reg, i),
        forall|j: int| 0 <= j < table.backlog(port).len() && j != i ==> !is_ready_at(table.backlog(port), reg, j),
        table.backlog(port).no_duplicates(),
    ensures
        table.can_accept_result(port, reg) == Ok::<bool, TableError>(true),
        !reg[table.backlog(port)[i]].is_closed() ==> table.accept_result(port, reg) == Ok::<
            (SocketHandle, (IpEndpoint, IpEndpoint)),
            TableError,
        >((table.backlog(port)[i], reg[table.backlog(port)[i]].tuple->0)),
        reg[table.backlog(port)[i]].is_closed() ==> table.accept_result(port, reg) == Err::<
            (SocketHandle, (IpEndpoint, IpEndpoint)),
            TableError,
        >(TableError::ConnectionReset),
        table.accept(port, reg).backlog(port).len() == table.backlog(port).len() - 1,
        !table.accept(port, reg).backlog(port).contains(table.backlog(port)[i]),
        forall|j: int|
            0 <= j < table.backlog(port).len() && j != i ==> table.accept(port, reg).backlog(
                port,
            ).contains(#[trigger] table.backlog(port)[j]),
{
    let backlog = table.backlog(port);
    assert(is_first_ready(backlog, reg, i));
    lemma_first_ready(backlog, reg, i);
    let after = table.accept(port, reg).backlog(port);
    assert(after == swap_removed(backlog, i));
    if after.contains(backlog[i]) {
        let k = choose|k: int| 0 <= k < after.len() && after[k] == backlog[i];
        if k == i {
            assert(backlog[backlog.len() - 1] == backlog[i]);
        } else {
            assert(backlog[k] == backlog[i]);
        }
        assert(false);
    }
    assert forall|j: int| 0 <= j < backlog.len() && j != i implies after.contains(
        #[trigger] backlog[j],
    ) by {
        if j == backlog.len() - 1 {
            assert(after[i] == backlog[j]);
        } else {
            assert(after[j] == backlog[j]);
        }
    }
}

} // verus!
