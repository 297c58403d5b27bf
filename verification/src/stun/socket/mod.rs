//! The choice of a local network interface.
use vstd::prelude::*;

use crate::addr::IpAddress;

verus! {

/// A local network interface that sockets may be bound to: its index and,
/// when known, its name.
#[derive(Debug)]
pub struct LocalInterface {
    index: u32,
    name: Option<String>,
}

impl LocalInterface {
    pub closed spec fn spec_index(&self) -> u32 {
        self.index
    }

    pub closed spec fn spec_name(&self) -> Option<Seq<char>> {
        match self.name {
            Some(n) => Some(n@),
            None => None,
        }
    }

    /// The index of the interface (0 for none in particular).
    pub fn index(&self) -> (r: u32)
        ensures
            r == self.spec_index(),
    {
        self.index
    }

    /// The name of the interface, when known.
    pub fn name(&self) -> (r: Option<&String>)
        ensures
            match r {
                Some(n) => self.spec_name() == Some(n@),
                None => self.spec_name() is None,
            },
    {
        match &self.name {
            Some(n) => Some(n),
            None => None,
        }
    }
}

impl Clone for LocalInterface {
    fn clone(&self) -> (r: Self)
        ensures
            r.spec_index() == self.spec_index(),
            r.spec_name() == self.spec_name(),
    {
        let name = match &self.name {
            Some(n) => Some(n.clone()),
            None => None,
        };
        LocalInterface { index: self.index, name }
    }
}

impl Default for LocalInterface {
    /// No interface in particular: index 0 and no name.
    fn default() -> (r: Self)
        ensures
            r.spec_index() == 0,
            r.spec_name() is None,
    {
        LocalInterface { index: 0, name: None }
    }
}

/// A network interface of this host, as the system lists it.
pub struct InterfaceInfo {
    pub index: u32,
    pub name: String,
    pub addrs: Vec<IpAddress>,
}

/// Whether `iface` has the IPv4 address `ip`.
pub open spec fn has_ipv4(iface: InterfaceInfo, ip: u32) -> bool {
    iface.addrs@.contains(IpAddress::V4(ip))
}

/// No interface with the IPv4 address was found.
#[derive(Copy, Clone, PartialEq, Eq, Debug, Structural)]
pub enum InterfaceError {
    NotFound(u32),
}

/// The first interface of `ifaces` that has the IPv4 address `dest_ip`.
pub fn get_interface(ifaces: &Vec<InterfaceInfo>, dest_ip: u32) -> (r: Result<LocalInterface, InterfaceError>)
    ensures
        match r {
            Ok(li) => exists|i: int|
                0 <= i < ifaces@.len() && has_ipv4(#[trigger] ifaces@[i], dest_ip) && (forall|j: int|
                    0 <= j < i ==> !has_ipv4(#[trigger] ifaces@[j], dest_ip)) && li.spec_index()
                    == ifaces@[i].index && li.spec_name() == Some(ifaces@[i].name@),
            Err(e) => e == InterfaceError::NotFound(dest_ip) && forall|j: int|
                0 <= j < ifaces@.len() ==> !has_ipv4(#[trigger] ifaces@[j], dest_ip),
        },
{
    let mut i: usize = 0;
    while i < ifaces.len()
        invariant
            i <= ifaces@.len(),
            forall|j: int| 0 <= j < i ==> !has_ipv4(#[trigger] ifaces@[j], dest_ip),
        decreases ifaces@.len() - i,
    {
        let iface = &ifaces[i];
        let mut a: usize = 0;
        while a < iface.addrs.len()
            invariant
                i < ifaces@.len(),
                *iface == ifaces@[i as int],
                forall|j: int| 0 <= j < i ==> !has_ipv4(#[trigger] ifaces@[j], dest_ip),
                a <= iface.addrs@.len(),
                forall|b: int| 0 <= b < a ==> iface.addrs@[b] != IpAddress::V4(dest_ip),
            decreases iface.addrs@.len() - a,
        {
            match iface.addrs[a] {
                IpAddress::V4(ip) => {
                    if ip == dest_ip {
                        let li = LocalInterface { index: iface.index, name: Some(iface.name.clone()) };
                        proof {
                            assert(iface.addrs@[a as int] == IpAddress::V4(dest_ip));
                            assert(has_ipv4(ifaces@[i as int], dest_ip));
                        }
                        return Ok(li);
                    }
                },
                IpAddress::V6(_) => {},
            }
            a = a + 1;
        }
        i = i + 1;
    }
    Err(InterfaceError::NotFound(dest_ip))
}

/// The interface with the IPv4 address `dest_ip` (see `get_interface`), or no
/// interface in particular when there is none.
pub fn get_best_interface(ifaces: &Vec<InterfaceInfo>, dest_ip: u32) -> (r: LocalInterface)
    ensures
        (exists|i: int| 0 <= i < ifaces@.len() && has_ipv4(#[trigger] ifaces@[i], dest_ip)) ==> exists|i: int|
            0 <= i < ifaces@.len() && has_ipv4(#[trigger] ifaces@[i], dest_ip) && (forall|j: int|
                0 <= j < i ==> !has_ipv4(#[trigger] ifaces@[j], dest_ip)) && r.spec_index()
                == ifaces@[i].index && r.spec_name() == Some(ifaces@[i].name@),
        (forall|i: int| 0 <= i < ifaces@.len() ==> !has_ipv4(#[trigger] ifaces@[i], dest_ip)) ==> r.spec_index()
            == 0 && r.spec_name() is None,
{
    match get_interface(ifaces, dest_ip) {
        Ok(li) => li,
        Err(_) => LocalInterface::default(),
    }
}

} // verus!
