use p2p_channel::addr::IpAddress;
use p2p_channel::stun::socket::{get_best_interface, get_interface, InterfaceError, InterfaceInfo, LocalInterface};

fn ifaces() -> Vec<InterfaceInfo> {
    vec![
        InterfaceInfo { index: 1, name: "lo".to_string(), addrs: vec![IpAddress::V4(0x7f000001), IpAddress::V6(1)] },
        InterfaceInfo { index: 2, name: "eth0".to_string(), addrs: vec![IpAddress::V6(5), IpAddress::V4(0xc0a80105)] },
        InterfaceInfo { index: 3, name: "eth1".to_string(), addrs: vec![IpAddress::V4(0xc0a80105)] },
    ]
}

#[test]
fn finds_first_interface_with_the_address() {
    let li = get_interface(&ifaces(), 0xc0a80105).unwrap();
    assert_eq!(li.index(), 2);
    assert_eq!(li.name().map(|n| n.as_str()), Some("eth0"));
}

#[test]
fn unknown_address_is_an_error() {
    assert!(matches!(get_interface(&ifaces(), 0x0a000001), Err(InterfaceError::NotFound(0x0a000001))));
    // an IPv6 address with the same low bits does not match
    let list = vec![InterfaceInfo { index: 4, name: "x".to_string(), addrs: vec![IpAddress::V6(5)] }];
    assert!(get_interface(&list, 5).is_err());
}

#[test]
fn best_interface_falls_back_to_none_in_particular() {
    let li = get_best_interface(&ifaces(), 0x0a000001);
    assert_eq!(li.index(), 0);
    assert!(li.name().is_none());
    let li = get_best_interface(&ifaces(), 0x7f000001);
    assert_eq!(li.index(), 1);
    let d = LocalInterface::default();
    assert_eq!(d.index(), 0);
    let c = li.clone();
    assert_eq!(c.name().map(|n| n.as_str()), Some("lo"));
}
