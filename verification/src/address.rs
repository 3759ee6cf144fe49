//! Plain IPv4 socket addresses, as the scanners store and compare them.
use vstd::prelude::*;

verus! {

/// An IPv4 address, held as its four octets in network order.
#[derive(Clone, Copy, Debug, PartialEq, Eq, Structural)]
pub struct Ipv4Address {
    pub a: u8,
    pub b: u8,
    pub c: u8,
    pub d: u8,
}

impl Ipv4Address {
    /// The address `a.b.c.d`.
    pub fn new(a: u8, b: u8, c: u8, d: u8) -> (ip: Ipv4Address)
        ensures
            ip.a == a && ip.b == b && ip.c == c && ip.d == d,
    {
        Ipv4Address { a, b, c, d }
    }
}

/// An IPv4 address together with a port.
#[derive(Clone, Copy, Debug, PartialEq, Eq, Structural)]
pub struct SocketAddress {
    pub ip: Ipv4Address,
    pub port: u16,
}

impl SocketAddress {
    /// The socket address `ip:port`.
    pub fn new(ip: Ipv4Address, port: u16) -> (addr: SocketAddress)
        ensures
            addr.ip == ip,
            addr.port == port,
    {
        SocketAddress { ip, port }
    }

    /// The address part.
    pub fn ip(&self) -> (ip: Ipv4Address)
        ensures
            ip == self.ip,
    {
        self.ip
    }

    /// The port part.
    pub fn port(&self) -> (port: u16)
        ensures
            port == self.port,
    {
        self.port
    }
}

} // verus!
