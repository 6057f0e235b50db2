//! Plain address values that cross the boundary of the connection table.
//!
//! The table never looks inside a packet; it only compares addresses and
//! ports. An address is therefore kept as the integer that its octets spell
//! in network order, which gives it an equality that the verifier can see.

use vstd::prelude::*;

verus! {

/// An internetworking address, as the big-endian integer of its octets.
#[derive(Clone, Copy, Debug, PartialEq, Eq, Structural)]
pub enum IpAddress {
    /// An IPv4 address; `127.0.0.1` is `0x7f00_0001`.
    Ipv4(u32),
    /// An IPv6 address; `::1` is `1`.
    Ipv6(u128),
}

/// An address together with a port: one end of a connection.
#[derive(Clone, Copy, Debug, PartialEq, Eq, Structural)]
pub struct IpEndpoint {
    pub addr: IpAddress,
    pub port: u16,
}

/// Where a listener is bound. Without an address it is bound to the port on
/// every local address.
#[derive(Clone, Copy, Debug)]
pub struct IpListenEndpoint {
    pub addr: Option<IpAddress>,
    pub port: u16,
}

impl IpAddress {
    /// The IPv4 address `a0.a1.a2.a3`.
    pub fn v4(a0: u8, a1: u8, a2: u8, a3: u8) -> (addr: IpAddress)
        ensures
            addr == IpAddress::Ipv4(ipv4_bits(a0, a1, a2, a3)),
    {
        let (b0, b1, b2, b3) = (a0 as u32, a1 as u32, a2 as u32, a3 as u32);
        let bits: u32 = (b0 << 24) | (b1 << 16) | (b2 << 8) | b3;
        assert(bits == b0 * 0x100_0000 + b1 * 0x1_0000 + b2 * 0x100 + b3) by (bit_vector)
            requires
                bits == (b0 << 24) | (b1 << 16) | (b2 << 8) | b3,
                b0 < 256,
                b1 < 256,
                b2 < 256,
                b3 < 256,
        ;
        IpAddress::Ipv4(bits)
    }
}

/// The integer that the four octets of an IPv4 address spell in network order.
pub open spec fn ipv4_bits(a0: u8, a1: u8, a2: u8, a3: u8) -> u32 {
    (a0 * 0x100_0000 + a1 * 0x1_0000 + a2 * 0x100 + a3) as u32
}

impl IpEndpoint {
    pub fn new(addr: IpAddress, port: u16) -> (endpoint: IpEndpoint)
        ensures
            endpoint.addr == addr,
            endpoint.port == port,
    {
        IpEndpoint { addr, port }
    }
}

impl IpListenEndpoint {
    /// A listener bound to `port` on one address, or on all of them.
    pub fn new(addr: Option<IpAddress>, port: u16) -> (endpoint: IpListenEndpoint)
        ensures
            endpoint.addr == addr,
            endpoint.port == port,
    {
        IpListenEndpoint { addr, port }
    }

    /// Whether a packet addressed to `dst` is meant for this listener: always
    /// when the listener is bound to every address, else only on an exact match.
    pub open spec fn accepts(self, dst: IpAddress) -> bool {
        match self.addr {
            Some(addr) => addr == dst,
            None => true,
        }
    }
}

} // verus!
