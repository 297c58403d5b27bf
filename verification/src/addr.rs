//! Network addresses as plain integers.
//!
//! An IPv4 address is held as the big-endian value of its four octets and
//! an IPv6 address as the big-endian value of its sixteen octets, so that
//! the integer order is the order of the octets.
use vstd::prelude::*;

verus! {

/// An IP address.
#[derive(Clone, Copy, Debug, PartialEq, Eq, Structural, Hash, PartialOrd, Ord)]
pub enum IpAddress {
    V4(u32),
    V6(u128),
}

/// A socket address: an IP address and a port (and, for IPv6, the flow
/// information and the scope id).
#[derive(Clone, Copy, Debug, PartialEq, Eq, Structural, Hash, PartialOrd, Ord)]
#[allow(inconsistent_fields)]
pub enum SockAddr {
    V4 { ip: u32, port: u16 },
    V6 { ip: u128, port: u16, flowinfo: u32, scope_id: u32 },
}

impl SockAddr {
    /// The socket address for `ip` and `port` (IPv6 with no flow information
    /// and scope id 0).
    pub fn new(ip: IpAddress, port: u16) -> (r: SockAddr)
        ensures
            r == SockAddr::spec_new(ip, port),
    {
        match ip {
            IpAddress::V4(a) => SockAddr::V4 { ip: a, port },
            IpAddress::V6(a) => SockAddr::V6 { ip: a, port, flowinfo: 0, scope_id: 0 },
        }
    }

    pub open spec fn spec_new(ip: IpAddress, port: u16) -> SockAddr {
        match ip {
            IpAddress::V4(a) => SockAddr::V4 { ip: a, port },
            IpAddress::V6(a) => SockAddr::V6 { ip: a, port, flowinfo: 0, scope_id: 0 },
        }
    }

    /// The port of the address.
    pub fn port(&self) -> (r: u16)
        ensures
            r == self.spec_port(),
    {
        match self {
            SockAddr::V4 { port, .. } => *port,
            SockAddr::V6 { port, .. } => *port,
        }
    }

    pub open spec fn spec_port(&self) -> u16 {
        match self {
            SockAddr::V4 { port, .. } => *port,
            SockAddr::V6 { port, .. } => *port,
        }
    }
}

/// The strict order of socket addresses: every IPv4 address comes before
/// every IPv6 address; within a family the order is lexicographic over
/// (ip, port) for IPv4 and (ip, port, flowinfo, scope id) for IPv6.
pub open spec fn addr_lt(a: SockAddr, b: SockAddr) -> bool {
    match (a, b) {
        (SockAddr::V4 { .. }, SockAddr::V6 { .. }) => true,
        (SockAddr::V6 { .. }, SockAddr::V4 { .. }) => false,
        (SockAddr::V4 { ip: i1, port: p1 }, SockAddr::V4 { ip: i2, port: p2 }) => {
            i1 < i2 || (i1 == i2 && p1 < p2)
        },
        (
            SockAddr::V6 { ip: i1, port: p1, flowinfo: f1, scope_id: s1 },
            SockAddr::V6 { ip: i2, port: p2, flowinfo: f2, scope_id: s2 },
        ) => {
            ||| i1 < i2
            ||| (i1 == i2 && p1 < p2)
            ||| (i1 == i2 && p1 == p2 && f1 < f2)
            ||| (i1 == i2 && p1 == p2 && f1 == f2 && s1 < s2)
        },
    }
}

/// Whether `a` comes strictly before `b`.
pub fn addr_less(a: &SockAddr, b: &SockAddr) -> (r: bool)
    ensures
        r == addr_lt(*a, *b),
{
    match (a, b) {
        (SockAddr::V4 { .. }, SockAddr::V6 { .. }) => true,
        (SockAddr::V6 { .. }, SockAddr::V4 { .. }) => false,
        (SockAddr::V4 { ip: i1, port: p1 }, SockAddr::V4 { ip: i2, port: p2 }) => {
            *i1 < *i2 || (*i1 == *i2 && *p1 < *p2)
        },
        (
            SockAddr::V6 { ip: i1, port: p1, flowinfo: f1, scope_id: s1 },
            SockAddr::V6 { ip: i2, port: p2, flowinfo: f2, scope_id: s2 },
        ) => {
            if *i1 != *i2 {
                *i1 < *i2
            } else if *p1 != *p2 {
                *p1 < *p2
            } else if *f1 != *f2 {
                *f1 < *f2
            } else {
                *s1 < *s2
            }
        },
    }
}

/// `addr_lt` is a strict total order.
pub proof fn lemma_addr_order(a: SockAddr, b: SockAddr, c: SockAddr)
    ensures
        !addr_lt(a, a),
        addr_lt(a, b) ==> !addr_lt(b, a),
        addr_lt(a, b) && addr_lt(b, c) ==> addr_lt(a, c),
        a == b || addr_lt(a, b) || addr_lt(b, a),
{
}

} // verus!
