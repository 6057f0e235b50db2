use listen_timers::consts::{LISTEN_QUEUE_SIZE, TCP_RX_BUF_LEN, TCP_TX_BUF_LEN};
use listen_timers::listen_model::TableError;
use listen_timers::listen_table::{
    get_addr_tuple, is_closed, is_connected, ListenTable, ListenTableEntry, PortSlot, PORT_NUM,
};
use listen_timers::sockets::new_socket_set;
use listen_timers::wire::{IpAddress, IpEndpoint, IpListenEndpoint};
use smoltcp::iface::{Config, Interface, SocketHandle, SocketSet};
use smoltcp::phy::{Loopback, Medium};
use smoltcp::socket::tcp;
use smoltcp::time::Instant;
use smoltcp::wire::{HardwareAddress, IpCidr};

fn local(port: u16) -> IpEndpoint {
    IpEndpoint::new(IpAddress::v4(127, 0, 0, 1), port)
}

fn peer(last: u8, port: u16) -> IpEndpoint {
    IpEndpoint::new(IpAddress::v4(10, 0, 0, last), port)
}

fn any(port: u16) -> IpListenEndpoint {
    IpListenEndpoint::new(None, port)
}

fn handles(sockets: &SocketSet<'static>) -> Vec<SocketHandle> {
    sockets.iter().map(|(handle, _)| handle).collect()
}

fn state_of(sockets: &SocketSet<'static>, handle: SocketHandle) -> tcp::State {
    sockets.get::<tcp::Socket>(handle).state()
}

/// Connects a client on the loopback interface to port `port` and lets the
/// handshake run to its end. Returns the client's handle.
fn connect_over_loopback(sockets: &mut SocketSet<'static>, port: u16, client_port: u16) -> SocketHandle {
    let mut device = Loopback::new(Medium::Ip);
    let mut iface = Interface::new(Config::new(HardwareAddress::Ip), &mut device, Instant::ZERO);
    iface.update_ip_addrs(|addrs| {
        addrs.push(IpCidr::new(smoltcp::wire::IpAddress::v4(127, 0, 0, 1), 8)).unwrap();
    });
    let mut client = tcp::Socket::new(
        tcp::SocketBuffer::new(vec![0; 1024]),
        tcp::SocketBuffer::new(vec![0; 1024]),
    );
    client
        .connect(iface.context(), (smoltcp::wire::IpAddress::v4(127, 0, 0, 1), port), client_port)
        .unwrap();
    let client = sockets.add(client);
    for step in 0..16 {
        iface.poll(Instant::from_millis(step), &mut device, sockets);
    }
    client
}

#[test]
fn new_table_has_every_port_free() {
    let table = ListenTable::new();
    assert_eq!(PORT_NUM, 65536);
    assert!(table.can_listen(0));
    assert!(table.can_listen(1));
    assert!(table.can_listen(8080));
    assert!(table.can_listen(65535));
}

#[test]
fn listen_occupies_the_port_only() {
    let mut table = ListenTable::new();
    assert_eq!(table.listen(any(8080)), Ok(()));
    assert!(!table.can_listen(8080));
    assert!(table.can_listen(8079));
    assert!(table.can_listen(8081));
}

#[test]
fn listen_twice_is_address_in_use() {
    let mut table = ListenTable::new();
    let mut sockets = new_socket_set();
    assert_eq!(table.listen(any(80)), Ok(()));
    assert_eq!(table.listen(any(80)), Err(TableError::AddressInUse));
    assert_eq!(
        table.listen(IpListenEndpoint::new(Some(IpAddress::v4(127, 0, 0, 1)), 80)),
        Err(TableError::AddressInUse)
    );
    table.unlisten(80, &mut sockets);
    assert!(table.can_listen(80));
    assert_eq!(table.listen(any(80)), Ok(()));
}

#[test]
fn unlisten_is_idempotent() {
    let mut table = ListenTable::new();
    let mut sockets = new_socket_set();
    table.unlisten(443, &mut sockets);
    assert!(table.can_listen(443));
    assert_eq!(table.listen(any(443)), Ok(()));
    table.unlisten(443, &mut sockets);
    table.unlisten(443, &mut sockets);
    assert!(table.can_listen(443));
    assert_eq!(handles(&sockets).len(), 0);
}

#[test]
fn accept_without_listener_is_invalid() {
    let mut table = ListenTable::new();
    let sockets = new_socket_set();
    assert_eq!(table.can_accept(22, &sockets), Err(TableError::InvalidOperation));
    assert_eq!(table.accept(22, &sockets), Err(TableError::InvalidOperation));
}

#[test]
fn accept_on_empty_backlog_is_try_again() {
    let mut table = ListenTable::new();
    let sockets = new_socket_set();
    assert_eq!(table.listen(any(22)), Ok(()));
    assert_eq!(table.can_accept(22, &sockets), Ok(false));
    assert_eq!(table.accept(22, &sockets), Err(TableError::TryAgain));
}

#[test]
fn syn_for_a_port_without_listener_is_ignored() {
    let mut table = ListenTable::new();
    let mut sockets = new_socket_set();
    table.incoming_tcp_packet(peer(1, 40000), local(8080), &mut sockets);
    assert_eq!(handles(&sockets).len(), 0);
    assert!(table.can_listen(8080));
}

#[test]
fn syn_adds_a_listening_socket() {
    let mut table = ListenTable::new();
    let mut sockets = new_socket_set();
    assert_eq!(table.listen(any(8080)), Ok(()));
    table.incoming_tcp_packet(peer(1, 40000), local(8080), &mut sockets);
    let all = handles(&sockets);
    assert_eq!(all.len(), 1);
    assert_eq!(state_of(&sockets, all[0]), tcp::State::Listen);
    assert_eq!(sockets.get::<tcp::Socket>(all[0]).listen_endpoint().port, 8080);
    assert_eq!(sockets.get::<tcp::Socket>(all[0]).listen_endpoint().addr, None);
    assert_eq!(sockets.get::<tcp::Socket>(all[0]).local_endpoint(), None);
    assert_eq!(sockets.get::<tcp::Socket>(all[0]).remote_endpoint(), None);
    assert_eq!(TCP_RX_BUF_LEN, 65536);
    assert_eq!(TCP_TX_BUF_LEN, 65536);
    assert_eq!(sockets.get::<tcp::Socket>(all[0]).recv_capacity(), TCP_RX_BUF_LEN);
    assert_eq!(sockets.get::<tcp::Socket>(all[0]).send_capacity(), TCP_TX_BUF_LEN);
    assert!(!is_connected(&sockets, all[0]));
    assert!(!is_closed(&sockets, all[0]));
    assert_eq!(table.can_accept(8080, &sockets), Ok(false));
    assert_eq!(table.accept(8080, &sockets), Err(TableError::TryAgain));
}

#[test]
fn syn_for_another_address_is_ignored() {
    let mut table = ListenTable::new();
    let mut sockets = new_socket_set();
    let bound = IpListenEndpoint::new(Some(IpAddress::v4(192, 168, 1, 1)), 8080);
    assert_eq!(table.listen(bound), Ok(()));
    table.incoming_tcp_packet(peer(1, 40000), local(8080), &mut sockets);
    assert_eq!(handles(&sockets).len(), 0);
    table.incoming_tcp_packet(
        peer(1, 40000),
        IpEndpoint::new(IpAddress::Ipv6(1), 8080),
        &mut sockets,
    );
    assert_eq!(handles(&sockets).len(), 0);
    table.incoming_tcp_packet(
        peer(1, 40000),
        IpEndpoint::new(IpAddress::v4(192, 168, 1, 1), 8080),
        &mut sockets,
    );
    let all = handles(&sockets);
    assert_eq!(all.len(), 1);
    assert_eq!(
        sockets.get::<tcp::Socket>(all[0]).listen_endpoint().addr,
        Some(smoltcp::wire::IpAddress::v4(192, 168, 1, 1))
    );
}

#[test]
fn listener_bound_to_ipv6_gets_its_address() {
    let mut table = ListenTable::new();
    let mut sockets = new_socket_set();
    let bound = IpListenEndpoint::new(Some(IpAddress::Ipv6(1)), 8080);
    assert_eq!(table.listen(bound), Ok(()));
    table.incoming_tcp_packet(peer(1, 40000), IpEndpoint::new(IpAddress::Ipv6(1), 8080), &mut sockets);
    let all = handles(&sockets);
    assert_eq!(all.len(), 1);
    assert_eq!(
        sockets.get::<tcp::Socket>(all[0]).listen_endpoint().addr,
        Some(smoltcp::wire::IpAddress::v6(0, 0, 0, 0, 0, 0, 0, 1))
    );
}

#[test]
fn backlog_keeps_no_more_than_its_capacity() {
    let mut table = ListenTable::with_queue_size(3);
    let mut sockets = new_socket_set();
    assert_eq!(table.listen(any(8080)), Ok(()));
    for i in 0..3 {
        table.incoming_tcp_packet(peer(i, 40000), local(8080), &mut sockets);
        assert_eq!(handles(&sockets).len(), usize::from(i) + 1);
    }
    let before = handles(&sockets);
    table.incoming_tcp_packet(peer(3, 40000), local(8080), &mut sockets);
    assert_eq!(handles(&sockets), before);
    table.incoming_tcp_packet(peer(4, 40000), local(8080), &mut sockets);
    assert_eq!(handles(&sockets), before);
    assert_eq!(table.can_accept(8080, &sockets), Ok(false));
}

#[test]
fn backlog_of_capacity_zero_drops_every_syn() {
    let mut table = ListenTable::with_queue_size(0);
    let mut sockets = new_socket_set();
    assert_eq!(table.listen(any(8080)), Ok(()));
    table.incoming_tcp_packet(peer(1, 40000), local(8080), &mut sockets);
    assert_eq!(handles(&sockets).len(), 0);
}

#[test]
fn default_backlog_holds_the_usual_number() {
    let mut table = ListenTable::new();
    let mut sockets = new_socket_set();
    assert_eq!(LISTEN_QUEUE_SIZE, 512);
    assert_eq!(table.listen(any(8080)), Ok(()));
    for _ in 0..LISTEN_QUEUE_SIZE + 1 {
        table.incoming_tcp_packet(peer(1, 40000), local(8080), &mut sockets);
    }
    assert_eq!(handles(&sockets).len(), LISTEN_QUEUE_SIZE);
}

#[test]
fn unlisten_releases_the_backlog() {
    let mut table = ListenTable::with_queue_size(8);
    let mut sockets = new_socket_set();
    let other = sockets.add(tcp::Socket::new(
        tcp::SocketBuffer::new(vec![0; 64]),
        tcp::SocketBuffer::new(vec![0; 64]),
    ));
    let baseline = handles(&sockets);
    assert_eq!(baseline, vec![other]);
    assert_eq!(table.listen(any(8080)), Ok(()));
    assert_eq!(table.listen(any(9090)), Ok(()));
    for i in 0..5 {
        table.incoming_tcp_packet(peer(i, 40000), local(8080), &mut sockets);
    }
    table.incoming_tcp_packet(peer(9, 40000), local(9090), &mut sockets);
    assert_eq!(handles(&sockets).len(), 7);
    table.unlisten(8080, &mut sockets);
    assert_eq!(handles(&sockets).len(), 2);
    assert!(table.can_listen(8080));
    assert!(!table.can_listen(9090));
    assert_eq!(table.listen(any(8080)), Ok(()));
    assert_eq!(table.accept(8080, &sockets), Err(TableError::TryAgain));
    table.unlisten(9090, &mut sockets);
    assert_eq!(handles(&sockets), baseline);
}

#[test]
fn accept_of_a_reset_connection_consumes_it() {
    let mut table = ListenTable::with_queue_size(4);
    let mut sockets = new_socket_set();
    assert_eq!(table.listen(any(8080)), Ok(()));
    table.incoming_tcp_packet(peer(1, 40000), local(8080), &mut sockets);
    table.incoming_tcp_packet(peer(2, 40000), local(8080), &mut sockets);
    let all = handles(&sockets);
    sockets.get_mut::<tcp::Socket>(all[1]).abort();
    assert!(is_connected(&sockets, all[1]));
    assert!(is_closed(&sockets, all[1]));
    assert_eq!(table.can_accept(8080, &sockets), Ok(true));
    assert_eq!(table.accept(8080, &sockets), Err(TableError::ConnectionReset));
    assert_eq!(table.can_accept(8080, &sockets), Ok(false));
    assert_eq!(table.accept(8080, &sockets), Err(TableError::TryAgain));
    // the listener has not removed the socket: one of its two is still queued
    table.unlisten(8080, &mut sockets);
    assert_eq!(handles(&sockets), vec![all[1]]);
}

#[test]
fn accept_takes_the_first_ready_and_moves_the_last_into_its_place() {
    let mut table = ListenTable::with_queue_size(8);
    let mut sockets = new_socket_set();
    assert_eq!(table.listen(any(8080)), Ok(()));
    for i in 0..5 {
        table.incoming_tcp_packet(peer(i, 40000), local(8080), &mut sockets);
    }
    let all = handles(&sockets);
    // queue: 0 1 2 3 4; ready (reset): 1 and 3
    sockets.get_mut::<tcp::Socket>(all[1]).abort();
    sockets.get_mut::<tcp::Socket>(all[3]).abort();
    assert_eq!(table.accept(8080, &sockets), Err(TableError::ConnectionReset));
    // queue: 0 4 2 3; make 4 ready as well: it now stands before 3
    sockets.get_mut::<tcp::Socket>(all[4]).abort();
    sockets.remove(all[1]);
    assert_eq!(table.accept(8080, &sockets), Err(TableError::ConnectionReset));
    // queue: 0 3 2 if 4 was taken
    sockets.remove(all[4]);
    assert_eq!(table.accept(8080, &sockets), Err(TableError::ConnectionReset));
    sockets.remove(all[3]);
    assert_eq!(table.accept(8080, &sockets), Err(TableError::TryAgain));
    table.unlisten(8080, &mut sockets);
    assert_eq!(handles(&sockets).len(), 0);
}

#[test]
fn accept_hands_out_the_connection_that_finished_its_handshake() {
    let mut table = ListenTable::with_queue_size(4);
    let mut sockets = new_socket_set();
    assert_eq!(table.listen(any(8080)), Ok(()));
    for i in 0..4 {
        table.incoming_tcp_packet(peer(i, 40000 + u16::from(i)), local(8080), &mut sockets);
    }
    let queued = handles(&sockets);
    assert_eq!(queued.len(), 4);
    assert_eq!(table.can_accept(8080, &sockets), Ok(false));
    assert_eq!(table.accept(8080, &sockets), Err(TableError::TryAgain));

    let client = connect_over_loopback(&mut sockets, 8080, 49500);
    assert_eq!(state_of(&sockets, client), tcp::State::Established);
    assert_eq!(state_of(&sockets, queued[0]), tcp::State::Established);
    assert_eq!(state_of(&sockets, queued[1]), tcp::State::Listen);
    assert!(is_connected(&sockets, queued[0]));
    assert!(!is_connected(&sockets, queued[1]));
    assert_eq!(get_addr_tuple(&sockets, queued[0]), (local(8080), local(49500)));

    assert_eq!(table.can_accept(8080, &sockets), Ok(true));
    assert_eq!(
        table.accept(8080, &sockets),
        Ok((queued[0], (local(8080), local(49500))))
    );
    assert_eq!(table.can_accept(8080, &sockets), Ok(false));
    assert_eq!(table.accept(8080, &sockets), Err(TableError::TryAgain));

    // three connections are left in the backlog, and there is room for one more
    table.incoming_tcp_packet(peer(7, 40007), local(8080), &mut sockets);
    table.incoming_tcp_packet(peer(8, 40008), local(8080), &mut sockets);
    assert_eq!(handles(&sockets).len(), 6);
    table.unlisten(8080, &mut sockets);
    assert_eq!(handles(&sockets), vec![queued[0], client]);
}

#[test]
fn entry_accepts_by_its_address() {
    let wildcard = ListenTableEntry::new(any(80));
    assert!(wildcard.can_accept(IpAddress::v4(1, 2, 3, 4)));
    assert!(wildcard.can_accept(IpAddress::Ipv6(7)));
    let bound = ListenTableEntry::with_capacity(
        IpListenEndpoint::new(Some(IpAddress::v4(1, 2, 3, 4)), 80),
        2,
    );
    assert!(bound.can_accept(IpAddress::v4(1, 2, 3, 4)));
    assert!(!bound.can_accept(IpAddress::v4(1, 2, 3, 5)));
    assert!(!bound.can_accept(IpAddress::Ipv6(0x0102_0304)));
}

#[test]
fn entry_release_leaves_the_registry_alone_when_empty() {
    let mut sockets = new_socket_set();
    let other = sockets.add(tcp::Socket::new(
        tcp::SocketBuffer::new(vec![0; 64]),
        tcp::SocketBuffer::new(vec![0; 64]),
    ));
    ListenTableEntry::new(any(80)).release(&mut sockets);
    assert_eq!(handles(&sockets), vec![other]);
}

#[test]
fn addresses_are_the_integers_of_their_octets() {
    assert_eq!(IpAddress::v4(127, 0, 0, 1), IpAddress::Ipv4(0x7f00_0001));
    assert_eq!(IpAddress::v4(255, 255, 255, 255), IpAddress::Ipv4(u32::MAX));
    assert_eq!(IpAddress::v4(0, 0, 0, 0), IpAddress::Ipv4(0));
    assert_ne!(IpAddress::Ipv4(1), IpAddress::Ipv6(1));
    let endpoint = IpEndpoint::new(IpAddress::v4(10, 0, 0, 2), 1234);
    assert_eq!(endpoint.addr, IpAddress::Ipv4(0x0a00_0002));
    assert_eq!(endpoint.port, 1234);
}

#[test]
fn slot_listens_once() {
    let mut slot = PortSlot::new();
    let mut sockets = new_socket_set();
    assert!(slot.can_listen());
    assert_eq!(slot.listen(any(8080), 2), Ok(()));
    assert!(!slot.can_listen());
    assert_eq!(slot.listen(any(8080), 2), Err(TableError::AddressInUse));
    slot.unlisten(&mut sockets);
    assert!(slot.can_listen());
    slot.unlisten(&mut sockets);
    assert!(slot.can_listen());
    assert_eq!(slot.listen(any(8080), 2), Ok(()));
}

#[test]
fn slot_without_listener_refuses_acceptors_and_ignores_syns() {
    let mut slot = PortSlot::new();
    let mut sockets = new_socket_set();
    assert_eq!(slot.can_accept(&sockets), Err(TableError::InvalidOperation));
    assert_eq!(slot.accept(&sockets), Err(TableError::InvalidOperation));
    slot.incoming_tcp_packet(IpAddress::v4(127, 0, 0, 1), &mut sockets);
    assert_eq!(handles(&sockets).len(), 0);
}

#[test]
fn slot_queues_up_to_its_capacity_and_releases_all() {
    let mut slot = PortSlot::new();
    let mut sockets = new_socket_set();
    assert_eq!(slot.listen(any(8080), 2), Ok(()));
    assert_eq!(slot.accept(&sockets), Err(TableError::TryAgain));
    for _ in 0..5 {
        slot.incoming_tcp_packet(IpAddress::v4(127, 0, 0, 1), &mut sockets);
    }
    let queued = handles(&sockets);
    assert_eq!(queued.len(), 2);
    assert_eq!(slot.can_accept(&sockets), Ok(false));
    sockets.get_mut::<tcp::Socket>(queued[0]).abort();
    assert_eq!(slot.can_accept(&sockets), Ok(true));
    assert_eq!(slot.accept(&sockets), Err(TableError::ConnectionReset));
    assert_eq!(slot.accept(&sockets), Err(TableError::TryAgain));
    slot.incoming_tcp_packet(IpAddress::v4(127, 0, 0, 1), &mut sockets);
    slot.incoming_tcp_packet(IpAddress::v4(127, 0, 0, 1), &mut sockets);
    assert_eq!(handles(&sockets).len(), 3);
    slot.unlisten(&mut sockets);
    assert_eq!(handles(&sockets), vec![queued[0]]);
}

#[test]
fn slot_hands_out_the_connection_with_its_ends() {
    let mut slot = PortSlot::new();
    let mut sockets = new_socket_set();
    assert_eq!(slot.listen(any(9000), 4), Ok(()));
    slot.incoming_tcp_packet(IpAddress::v4(127, 0, 0, 1), &mut sockets);
    let queued = handles(&sockets);
    let client = connect_over_loopback(&mut sockets, 9000, 50000);
    assert_eq!(state_of(&sockets, client), tcp::State::Established);
    assert_eq!(slot.accept(&sockets), Ok((queued[0], (local(9000), local(50000)))));
    assert_eq!(slot.accept(&sockets), Err(TableError::TryAgain));
}
