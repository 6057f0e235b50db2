//! The socket registry, as the connection table sees it.
//!
//! Sockets live in a `smoltcp` socket set and are known to the table only by
//! their handles. This file declares the types of `smoltcp` that the table
//! carries, gives a name to what a socket set holds, and states for each call
//! into `smoltcp` what that call does to it. Those statements are taken from
//! the source of `smoltcp`; the verifier believes them as they stand.

use smoltcp::iface::{SocketHandle, SocketSet};
use smoltcp::socket::tcp;
use vstd::prelude::*;

use crate::wire::{IpAddress, IpEndpoint, IpListenEndpoint};

verus! {

/// `smoltcp::iface::SocketHandle`: the name of a socket in a socket set.
#[verifier::external_type_specification]
#[verifier::external_body]
pub struct ExSocketHandle(SocketHandle);

/// `smoltcp::iface::SocketSet`: the sockets of an interface.
#[verifier::external_type_specification]
#[verifier::external_body]
pub struct ExSocketSet<'a>(SocketSet<'a>);

/// The state of a TCP connection, in the terms of RFC 793.
#[derive(Clone, Copy, Debug, PartialEq, Eq, Structural)]
pub enum TcpState {
    Closed,
    Listen,
    SynSent,
    SynReceived,
    Established,
    FinWait1,
    FinWait2,
    CloseWait,
    Closing,
    LastAck,
    TimeWait,
}

/// What the table knows of one TCP socket: its state, where it listens,
/// once it has a peer the local and the remote end of the connection, and
/// the lengths of its two buffers.
pub struct TcpSocketInfo {
    pub state: TcpState,
    pub listen_endpoint: IpListenEndpoint,
    pub tuple: Option<(IpEndpoint, IpEndpoint)>,
    pub rx_capacity: nat,
    pub tx_capacity: nat,
}

impl TcpState {
    /// The handshake is still pending: the socket waits for a SYN, or has
    /// answered one and waits for the final ACK.
    pub open spec fn awaits_handshake(self) -> bool {
        self == TcpState::Listen || self == TcpState::SynReceived
    }
}

impl TcpSocketInfo {
    /// A socket that has just been created, with buffers of the given
    /// lengths: it is closed, listens nowhere and has no peer.
    pub open spec fn fresh(rx_capacity: nat, tx_capacity: nat) -> TcpSocketInfo {
        TcpSocketInfo {
            state: TcpState::Closed,
            listen_endpoint: IpListenEndpoint { addr: None, port: 0 },
            tuple: None,
            rx_capacity,
            tx_capacity,
        }
    }

    /// The socket once it has been put into passive listen on `endpoint`.
    pub open spec fn listen(self, endpoint: IpListenEndpoint) -> TcpSocketInfo {
        TcpSocketInfo { state: TcpState::Listen, listen_endpoint: endpoint, tuple: None, ..self }
    }

    /// A socket with buffers of the given lengths that has just been put
    /// into passive listen on `endpoint`.
    pub open spec fn listening(
        endpoint: IpListenEndpoint,
        rx_capacity: nat,
        tx_capacity: nat,
    ) -> TcpSocketInfo {
        TcpSocketInfo::fresh(rx_capacity, tx_capacity).listen(endpoint)
    }

    /// The connection has left the handshake, for better or worse.
    pub open spec fn is_connected(self) -> bool {
        !self.state.awaits_handshake()
    }

    /// The connection was reset, or has run to its end.
    pub open spec fn is_closed(self) -> bool {
        self.state == TcpState::Closed
    }

    /// A connection that can be handed to an acceptor knows both its ends.
    pub open spec fn is_addressed(self) -> bool {
        self.is_connected() && !self.is_closed() ==> self.tuple is Some
    }
}

/// The TCP sockets that `set` holds, by handle.
pub uninterp spec fn registry_sockets(set: SocketSet<'static>) -> Map<SocketHandle, TcpSocketInfo>;

/// Whether `set` owns its storage and can therefore always take one more socket.
pub uninterp spec fn registry_growable(set: SocketSet<'static>) -> bool;

/// `SocketSet::new` on an empty `Vec`: a set that holds no socket and grows
/// on demand.
#[verifier::external_body]
pub(crate) fn registry_new() -> (set: SocketSet<'static>)
    ensures
        registry_sockets(set) == no_sockets(),
        registry_growable(set),
{
    SocketSet::new(Vec::new())
}

/// The registry that holds no socket.
pub open spec fn no_sockets() -> Map<SocketHandle, TcpSocketInfo> {
    Map::empty()
}

/// `tcp::Socket::new` on two zeroed ring buffers of the given lengths, and
/// `SocketSet::add`: the new socket is closed, without a peer and without a
/// place to listen, and it is stored under a handle that was free; no other
/// socket is touched. `smoltcp` panics on a receive buffer of more than
/// 1 GiB, and when a set over borrowed storage is full.
#[verifier::external_body]
pub(crate) fn registry_add_socket(set: &mut SocketSet<'static>, rx_len: usize, tx_len: usize) -> (handle:
    SocketHandle)
    requires
        registry_growable(*old(set)),
        rx_len <= 0x4000_0000,
    ensures
        !registry_sockets(*old(set)).dom().contains(handle),
        registry_sockets(*final(set)) == registry_sockets(*old(set)).insert(
            handle,
            TcpSocketInfo::fresh(rx_len as nat, tx_len as nat),
        ),
        registry_growable(*final(set)),
{
    let rx_buffer = tcp::SocketBuffer::new(vec![0; rx_len]);
    let tx_buffer = tcp::SocketBuffer::new(vec![0; tx_len]);
    set.add(tcp::Socket::new(rx_buffer, tx_buffer))
}

/// `SocketSet::get_mut` and `tcp::Socket::listen` on a closed socket: it
/// fails on port 0 and leaves the socket as it was, and otherwise puts the
/// socket into passive listen on `endpoint`, without a peer and with the
/// buffers that it has. No other socket is touched. `smoltcp` panics on a
/// handle that holds no TCP socket.
#[verifier::external_body]
pub(crate) fn registry_listen(
    set: &mut SocketSet<'static>,
    handle: SocketHandle,
    endpoint: &IpListenEndpoint,
) -> (ok: bool)
    requires
        registry_sockets(*old(set)).dom().contains(handle),
        registry_sockets(*old(set))[handle].state == TcpState::Closed,
    ensures
        ok == (endpoint.port != 0),
        registry_sockets(*final(set)) == listen_outcome(
            registry_sockets(*old(set)),
            handle,
            *endpoint,
            ok,
        ),
        registry_growable(*final(set)) == registry_growable(*old(set)),
{
    let addr = match endpoint.addr {
        Some(IpAddress::Ipv4(bits)) => Some(smoltcp::wire::IpAddress::Ipv4(bits.into())),
        Some(IpAddress::Ipv6(bits)) => Some(smoltcp::wire::IpAddress::Ipv6(bits.into())),
        None => None,
    };
    let endpoint = smoltcp::wire::IpListenEndpoint { addr, port: endpoint.port };
    set.get_mut::<tcp::Socket>(handle).listen(endpoint).is_ok()
}

/// The registry after the socket under `handle` was asked to listen on
/// `endpoint`, according to whether it did.
pub open spec fn listen_outcome(
    sockets: Map<SocketHandle, TcpSocketInfo>,
    handle: SocketHandle,
    endpoint: IpListenEndpoint,
    ok: bool,
) -> Map<SocketHandle, TcpSocketInfo> {
    if ok {
        sockets.insert(handle, sockets[handle].listen(endpoint))
    } else {
        sockets
    }
}

/// `SocketSet::remove`: the socket under `handle` leaves the set and is
/// dropped; no other socket is touched. `smoltcp` panics on a handle that
/// holds no socket.
#[verifier::external_body]
pub(crate) fn registry_remove(set: &mut SocketSet<'static>, handle: SocketHandle)
    requires
        registry_sockets(*old(set)).dom().contains(handle),
    ensures
        registry_sockets(*final(set)) == registry_sockets(*old(set)).remove(handle),
        registry_growable(*final(set)) == registry_growable(*old(set)),
{
    let _ = set.remove(handle);
}

/// `SocketSet::get` and `tcp::Socket::state`: the state of the TCP socket
/// under `handle`. `smoltcp` panics on a handle that holds no TCP socket.
#[verifier::external_body]
pub(crate) fn registry_state(set: &SocketSet<'static>, handle: SocketHandle) -> (state: TcpState)
    requires
        registry_sockets(*set).dom().contains(handle),
    ensures
        state == registry_sockets(*set)[handle].state,
{
    match set.get::<tcp::Socket>(handle).state() {
        tcp::State::Closed => TcpState::Closed,
        tcp::State::Listen => TcpState::Listen,
        tcp::State::SynSent => TcpState::SynSent,
        tcp::State::SynReceived => TcpState::SynReceived,
        tcp::State::Established => TcpState::Established,
        tcp::State::FinWait1 => TcpState::FinWait1,
        tcp::State::FinWait2 => TcpState::FinWait2,
        tcp::State::CloseWait => TcpState::CloseWait,
        tcp::State::Closing => TcpState::Closing,
        tcp::State::LastAck => TcpState::LastAck,
        tcp::State::TimeWait => TcpState::TimeWait,
    }
}

/// `SocketSet::get` and `tcp::Socket::local_endpoint`: the local end of the
/// connection under `handle`, if it has a peer.
#[verifier::external_body]
pub(crate) fn registry_local_endpoint(set: &SocketSet<'static>, handle: SocketHandle) -> (local: Option<IpEndpoint>)
    requires
        registry_sockets(*set).dom().contains(handle),
    ensures
        local == local_of(registry_sockets(*set)[handle]),
{
    match set.get::<tcp::Socket>(handle).local_endpoint() {
        Some(smoltcp::wire::IpEndpoint { addr: smoltcp::wire::IpAddress::Ipv4(a), port }) =>
            Some(IpEndpoint { addr: IpAddress::Ipv4(a.to_bits()), port }),
        Some(smoltcp::wire::IpEndpoint { addr: smoltcp::wire::IpAddress::Ipv6(a), port }) =>
            Some(IpEndpoint { addr: IpAddress::Ipv6(a.to_bits()), port }),
        None => None,
    }
}

/// `SocketSet::get` and `tcp::Socket::remote_endpoint`: the remote end of the
/// connection under `handle`, if it has a peer.
#[verifier::external_body]
pub(crate) fn registry_remote_endpoint(set: &SocketSet<'static>, handle: SocketHandle) -> (remote: Option<IpEndpoint>)
    requires
        registry_sockets(*set).dom().contains(handle),
    ensures
        remote == remote_of(registry_sockets(*set)[handle]),
{
    match set.get::<tcp::Socket>(handle).remote_endpoint() {
        Some(smoltcp::wire::IpEndpoint { addr: smoltcp::wire::IpAddress::Ipv4(a), port }) =>
            Some(IpEndpoint { addr: IpAddress::Ipv4(a.to_bits()), port }),
        Some(smoltcp::wire::IpEndpoint { addr: smoltcp::wire::IpAddress::Ipv6(a), port }) =>
            Some(IpEndpoint { addr: IpAddress::Ipv6(a.to_bits()), port }),
        None => None,
    }
}

/// The local end of a connection, if it has a peer.
pub open spec fn local_of(info: TcpSocketInfo) -> Option<IpEndpoint> {
    match info.tuple {
        Some(ends) => Some(ends.0),
        None => None,
    }
}

/// The remote end of a connection, if it has a peer.
pub open spec fn remote_of(info: TcpSocketInfo) -> Option<IpEndpoint> {
    match info.tuple {
        Some(ends) => Some(ends.1),
        None => None,
    }
}

/// A socket set that holds no socket yet and grows on demand.
pub fn new_socket_set() -> (set: SocketSet<'static>)
    ensures
        registry_sockets(set) == no_sockets(),
        registry_growable(set),
{
    registry_new()
}

} // verus!
