use p2p_channel::addr::{addr_less, IpAddress, SockAddr};
use p2p_channel::channel::{
    key_less, pause_after, send_via, socket_change, token_action, ChannelError, RouteKey, SendVia, SocketChange,
    Status, TokenAction, CHANGE_TOKEN_INDEX, DEFAULT_TOKEN_INDEX,
};
use p2p_channel::punch::NatType;

#[test]
fn nat_type_reads_back_as_set() {
    assert_eq!(Status::Cone.set_nat_type(NatType::Symmetric), Ok(Some(Status::Symmetric)));
    assert_eq!(Status::Cone.set_nat_type(NatType::Cone), Ok(None));
    assert_eq!(Status::Symmetric.set_nat_type(NatType::Cone), Ok(Some(Status::Cone)));
    assert_eq!(Status::Symmetric.set_nat_type(NatType::Symmetric), Ok(None));
    assert_eq!(Status::Symmetric.nat_type(), Ok(NatType::Symmetric));
    assert_eq!(Status::Cone.nat_type(), Ok(NatType::Cone));
}

#[test]
fn closed_channel_stays_closed() {
    assert_eq!(Status::Close.set_nat_type(NatType::Cone), Err(ChannelError::Closed));
    assert_eq!(Status::Close.nat_type(), Err(ChannelError::Closed));
    assert!(Status::Close.is_close());
    assert!(!Status::Cone.is_close());
    assert!(Status::Cone.is_cone());
    assert!(!Status::Symmetric.is_cone());
}

#[test]
fn tokens_and_sockets() {
    assert_eq!(token_action(DEFAULT_TOKEN_INDEX, 10), TokenAction::ReadDefault);
    assert_eq!(token_action(CHANGE_TOKEN_INDEX, 10), TokenAction::Rebuild);
    assert_eq!(token_action(3, 10), TokenAction::ReadSocket(3));
    assert_eq!(token_action(10, 10), TokenAction::Skip);
    assert_eq!(send_via(DEFAULT_TOKEN_INDEX, 0), Ok(SendVia::Default));
    assert_eq!(send_via(2, 5), Ok(SendVia::Socket(2)));
    assert_eq!(send_via(5, 5), Err(ChannelError::NotFound));
}

#[test]
fn socket_changes_by_status() {
    assert_eq!(socket_change(Status::Cone, true, 8), Ok(SocketChange::Clear));
    assert_eq!(socket_change(Status::Symmetric, true, 8), Ok(SocketChange::Rebuild { bind: 8 }));
    assert_eq!(socket_change(Status::Symmetric, false, 8), Ok(SocketChange::Rebuild { bind: 0 }));
    assert_eq!(socket_change(Status::Close, true, 8), Err(ChannelError::Closed));
}

#[test]
fn pauses_after_every_other_pair_of_sends() {
    let pauses: Vec<usize> = (1..=8).filter(|&c| pause_after(c)).collect();
    assert_eq!(pauses, vec![2, 3, 6, 7]);
}

#[test]
fn route_key_order() {
    let a = RouteKey::new(0, SockAddr::V6 { ip: 0, port: 0, flowinfo: 0, scope_id: 0 });
    let b = RouteKey::new(1, SockAddr::V4 { ip: 0, port: 0 });
    assert!(key_less(&a, &b));
    assert!(!key_less(&b, &a));
    assert!(!key_less(&a, &a));
    let v4 = SockAddr::new(IpAddress::V4(u32::MAX), u16::MAX);
    let v6 = SockAddr::new(IpAddress::V6(0), 0);
    assert!(addr_less(&v4, &v6));
    assert!(addr_less(&SockAddr::V4 { ip: 1, port: 9 }, &SockAddr::V4 { ip: 2, port: 1 }));
    assert!(addr_less(&SockAddr::V4 { ip: 1, port: 1 }, &SockAddr::V4 { ip: 1, port: 2 }));
}

#[test]
fn derived_order_agrees_with_key_order() {
    let keys = vec![
        RouteKey::new(0, SockAddr::V4 { ip: 5, port: 1 }),
        RouteKey::new(0, SockAddr::V4 { ip: 5, port: 2 }),
        RouteKey::new(0, SockAddr::V4 { ip: 6, port: 0 }),
        RouteKey::new(0, SockAddr::V6 { ip: 0, port: 0, flowinfo: 0, scope_id: 1 }),
        RouteKey::new(0, SockAddr::V6 { ip: 0, port: 0, flowinfo: 1, scope_id: 0 }),
        RouteKey::new(1, SockAddr::V4 { ip: 0, port: 0 }),
    ];
    for a in &keys {
        for b in &keys {
            assert_eq!(key_less(a, b), a < b);
        }
    }
}

#[test]
fn reply_goes_out_on_the_receiving_socket() {
    // read on extra socket 3 of 5: the reply goes out on socket 3
    assert_eq!(token_action(3, 5), TokenAction::ReadSocket(3));
    assert_eq!(send_via(3, 5), Ok(SendVia::Socket(3)));
    // read on the default socket: the reply goes out on it
    assert_eq!(token_action(DEFAULT_TOKEN_INDEX, 5), TokenAction::ReadDefault);
    assert_eq!(send_via(DEFAULT_TOKEN_INDEX, 5), Ok(SendVia::Default));
    // after the extra sockets are gone, the key finds no socket
    assert_eq!(send_via(3, 0), Err(ChannelError::NotFound));
}
