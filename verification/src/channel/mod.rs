//! Routes, route keys and the rules of a channel.
pub mod table;
use vstd::prelude::*;

use crate::addr::{addr_less, addr_lt, lemma_addr_order, SockAddr};
use crate::punch::NatType;

verus! {

/// The socket index of a route key that names the channel's default socket.
pub const DEFAULT_TOKEN_INDEX: usize = 100000;

/// Identifies where a datagram came from: the index of the local socket that
/// received it and the remote address.
#[derive(Clone, Copy, Debug, PartialEq, Eq, Structural, Hash, PartialOrd, Ord)]
pub struct RouteKey {
    pub index: usize,
    pub addr: SockAddr,
}

impl RouteKey {
    pub fn new(index: usize, addr: SockAddr) -> (r: RouteKey)
        ensures
            r.index == index,
            r.addr == addr,
    {
        RouteKey { index, addr }
    }
}

/// The strict order of route keys: by socket index, then by address.
pub open spec fn key_lt(a: RouteKey, b: RouteKey) -> bool {
    a.index < b.index || (a.index == b.index && addr_lt(a.addr, b.addr))
}

/// Whether `a` comes strictly before `b`.
pub fn key_less(a: &RouteKey, b: &RouteKey) -> (r: bool)
    ensures
        r == key_lt(*a, *b),
{
    if a.index != b.index {
        a.index < b.index
    } else {
        addr_less(&a.addr, &b.addr)
    }
}

/// `key_lt` is a strict total order.
pub proof fn lemma_key_order(a: RouteKey, b: RouteKey, c: RouteKey)
    ensures
        !key_lt(a, a),
        key_lt(a, b) ==> !key_lt(b, a),
        key_lt(a, b) && key_lt(b, c) ==> key_lt(a, c),
        a == b || key_lt(a, b) || key_lt(b, a),
{
    lemma_addr_order(a.addr, b.addr, c.addr);
}

/// A route to a peer: the route key, a metric and a round-trip time.
#[derive(Clone, Copy, Debug, PartialEq, Eq, Structural)]
pub struct Route {
    pub index: usize,
    pub addr: SockAddr,
    pub metric: u8,
    pub rt: i64,
}

impl Route {
    pub fn new(index: usize, addr: SockAddr, metric: u8, rt: i64) -> (r: Route)
        ensures
            r == (Route { index, addr, metric, rt }),
    {
        Route { index, addr, metric, rt }
    }

    /// The route that leads through `route_key`.
    pub fn from(route_key: RouteKey, metric: u8, rt: i64) -> (r: Route)
        ensures
            r == (Route { index: route_key.index, addr: route_key.addr, metric, rt }),
    {
        Route { index: route_key.index, addr: route_key.addr, metric, rt }
    }

    pub open spec fn spec_route_key(self) -> RouteKey {
        RouteKey { index: self.index, addr: self.addr }
    }

    pub fn route_key(&self) -> (r: RouteKey)
        ensures
            r == self.spec_route_key(),
    {
        RouteKey { index: self.index, addr: self.addr }
    }
}

/// The wake-up token of a channel's poll that tells it to rebuild its
/// socket list.
pub const CHANGE_TOKEN_INDEX: usize = 100001;

/// The shared state of a channel.
#[derive(Copy, Clone, PartialEq, Eq, Debug, Structural)]
pub enum Status {
    /// This host is behind a cone NAT: only the default socket is used.
    Cone,
    /// This host is behind a symmetric NAT: a group of extra sockets is used.
    Symmetric,
    /// The channel is closed.
    Close,
}

/// The errors of channel operations.
#[derive(Copy, Clone, PartialEq, Eq, Debug, Structural)]
pub enum ChannelError {
    /// No route or socket for the request.
    NotFound,
    /// The channel is closed.
    Closed,
    /// The punch queue is full.
    Busy,
}

impl Status {
    pub fn is_close(&self) -> (r: bool)
        ensures
            r == (*self == Status::Close),
    {
        *self == Status::Close
    }

    /// Whether this host is behind a cone NAT.
    pub fn is_cone(&self) -> (r: bool)
        ensures
            r == (*self == Status::Cone),
    {
        *self == Status::Cone
    }

    /// The NAT type a status stands for; a closed channel has none.
    pub fn nat_type(&self) -> (r: Result<NatType, ChannelError>)
        ensures
            r == status_nat_type(*self),
    {
        match self {
            Status::Cone => Ok(NatType::Cone),
            Status::Symmetric => Ok(NatType::Symmetric),
            Status::Close => Err(ChannelError::Closed),
        }
    }

    /// The effect of setting the NAT type to `nat_type`: the new status when
    /// it changes (the channels are then woken to rebuild their sockets),
    /// `None` when it stays, an error when the channel is closed.
    pub fn set_nat_type(&self, nat_type: NatType) -> (r: Result<Option<Status>, ChannelError>)
        ensures
            match *self {
                Status::Close => r == Err::<Option<Status>, ChannelError>(ChannelError::Closed),
                _ => r == Ok::<Option<Status>, ChannelError>(
                    if status_after_set(*self, nat_type) == *self { None } else { Some(status_after_set(*self, nat_type)) },
                ),
            },
    {
        match self {
            Status::Cone => {
                if nat_type == NatType::Symmetric {
                    Ok(Some(Status::Symmetric))
                } else {
                    Ok(None)
                }
            },
            Status::Symmetric => {
                if nat_type == NatType::Cone {
                    Ok(Some(Status::Cone))
                } else {
                    Ok(None)
                }
            },
            Status::Close => Err(ChannelError::Closed),
        }
    }
}

/// The spec form of `Status::nat_type`.
pub open spec fn status_nat_type(s: Status) -> Result<NatType, ChannelError> {
    match s {
        Status::Cone => Ok(NatType::Cone),
        Status::Symmetric => Ok(NatType::Symmetric),
        Status::Close => Err(ChannelError::Closed),
    }
}

/// What a readiness event asks of a channel.
#[derive(Copy, Clone, PartialEq, Eq, Debug, Structural)]
pub enum TokenAction {
    /// Read from the default socket.
    ReadDefault,
    /// Rebuild the extra sockets after a change of status.
    Rebuild,
    /// Read from this extra socket.
    ReadSocket(usize),
    /// The socket is gone: nothing to do.
    Skip,
}

/// What a readiness event with `token` asks of a channel with `sockets`
/// extra sockets.
pub open spec fn token_action_spec(token: usize, sockets: usize) -> TokenAction {
    if token == DEFAULT_TOKEN_INDEX {
        TokenAction::ReadDefault
    } else if token == CHANGE_TOKEN_INDEX {
        TokenAction::Rebuild
    } else if token < sockets {
        TokenAction::ReadSocket(token)
    } else {
        TokenAction::Skip
    }
}

/// The socket index that a read asked for by `a` names in the route key it
/// makes, if `a` reads.
pub open spec fn read_socket(a: TokenAction) -> Option<usize> {
    match a {
        TokenAction::ReadDefault => Some(DEFAULT_TOKEN_INDEX),
        TokenAction::ReadSocket(i) => Some(i),
        _ => None,
    }
}

/// What a readiness event with `token` asks (see `token_action_spec`).
pub fn token_action(token: usize, sockets: usize) -> (r: TokenAction)
    ensures
        r == token_action_spec(token, sockets),
{
    if token == DEFAULT_TOKEN_INDEX {
        TokenAction::ReadDefault
    } else if token == CHANGE_TOKEN_INDEX {
        TokenAction::Rebuild
    } else if token < sockets {
        TokenAction::ReadSocket(token)
    } else {
        TokenAction::Skip
    }
}

/// Which local socket sends to a route key.
#[derive(Copy, Clone, PartialEq, Eq, Debug, Structural)]
pub enum SendVia {
    /// The default socket.
    Default,
    /// This extra socket.
    Socket(usize),
}

/// The socket for the route key with socket index `index` when the channel
/// has `sockets` extra sockets; `NotFound` when there is no such socket.
pub open spec fn send_via_spec(index: usize, sockets: usize) -> Result<SendVia, ChannelError> {
    if index == DEFAULT_TOKEN_INDEX {
        Ok(SendVia::Default)
    } else if index < sockets {
        Ok(SendVia::Socket(index))
    } else {
        Err::<SendVia, ChannelError>(ChannelError::NotFound)
    }
}

/// The socket index of the socket `v` names.
pub open spec fn via_index(v: SendVia) -> usize {
    match v {
        SendVia::Default => DEFAULT_TOKEN_INDEX,
        SendVia::Socket(i) => i,
    }
}

/// The socket that sends to a route key (see `send_via_spec`).
pub fn send_via(index: usize, sockets: usize) -> (r: Result<SendVia, ChannelError>)
    ensures
        r == send_via_spec(index, sockets),
{
    if index == DEFAULT_TOKEN_INDEX {
        Ok(SendVia::Default)
    } else if index < sockets {
        Ok(SendVia::Socket(index))
    } else {
        Err(ChannelError::NotFound)
    }
}

/// How a channel rebuilds its extra sockets for a status.
#[derive(Copy, Clone, PartialEq, Eq, Debug, Structural)]
pub enum SocketChange {
    /// Drop every extra socket, and the shared list too.
    Clear,
    /// Drop this channel's extra sockets, bind `bind` new shared sockets, and
    /// take one socket for each shared socket.
    Rebuild { bind: usize },
}

/// The socket change for `status`, when the shared list of sockets is empty
/// or not and `size` sockets make a group.
pub fn socket_change(status: Status, shared_empty: bool, size: usize) -> (r: Result<SocketChange, ChannelError>)
    ensures
        r == match status {
            Status::Cone => Ok(SocketChange::Clear),
            Status::Symmetric => Ok(SocketChange::Rebuild { bind: if shared_empty { size } else { 0 } }),
            Status::Close => Err::<SocketChange, ChannelError>(ChannelError::Closed),
        },
{
    match status {
        Status::Cone => Ok(SocketChange::Clear),
        Status::Symmetric => Ok(SocketChange::Rebuild { bind: if shared_empty { size } else { 0 } }),
        Status::Close => Err(ChannelError::Closed),
    }
}

/// Whether to pause briefly after the `count`-th send from the extra
/// sockets: after the 2nd and 3rd, the 6th and 7th, and so on.
pub fn pause_after(count: usize) -> (r: bool)
    ensures
        r == ((count / 2) % 2 == 1),
{
    assert(count & 2 == 2 <==> (count / 2) % 2 == 1) by (bit_vector);
    count & 2 == 2
}

/// The new status after setting the NAT type of an open channel (the
/// status itself when it stays).
pub open spec fn status_after_set(s: Status, nat_type: NatType) -> Status {
    match nat_type {
        NatType::Cone => Status::Cone,
        NatType::Symmetric => Status::Symmetric,
    }
}

/// A NAT type reads back as set on an open channel, and a closed channel
/// stays closed: setting fails and reading fails.
pub proof fn law_set_then_read_nat_type(s: Status, nat_type: NatType)
    ensures
        s != Status::Close ==> status_nat_type(status_after_set(s, nat_type)) == Ok::<NatType, ChannelError>(nat_type),
        s == Status::Close ==> status_nat_type(s) == Err::<NatType, ChannelError>(ChannelError::Closed),
{
}

/// A route made from the route key of a received datagram leads back to
/// that route key, so sending to the peer goes out where its data came in.
pub proof fn law_route_from_key(route_key: RouteKey, metric: u8, rt: i64)
    ensures
        (Route { index: route_key.index, addr: route_key.addr, metric, rt }).spec_route_key() == route_key,
{
}

/// A reply leaves through the socket its request came in on: the route key
/// of a datagram read from the default socket, or from extra socket `i`
/// while the channel has `sockets` extra sockets, sends through that same
/// socket, to the datagram's sender, as long as the channel keeps its
/// sockets; a key naming no socket of the channel finds none.
pub proof fn law_reply_same_socket(token: usize, index: usize, sockets: usize, addr: SockAddr)
    ensures
        read_socket(token_action_spec(token, sockets)) matches Some(i) ==> {
            let key = RouteKey { index: i, addr };
            &&& send_via_spec(key.index, sockets) matches Ok(v) && via_index(v) == i
            &&& key.addr == addr
        },
        index == DEFAULT_TOKEN_INDEX || index < sockets ==> (send_via_spec(index, sockets) matches Ok(v)
            && via_index(v) == index),
        !(index == DEFAULT_TOKEN_INDEX || index < sockets) ==> send_via_spec(index, sockets) == Err::<
            SendVia,
            ChannelError,
        >(ChannelError::NotFound),
{
}

} // verus!
