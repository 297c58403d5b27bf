use p2p_channel::addr::{IpAddress, SockAddr};
use p2p_channel::channel::table::RouteTable;
use p2p_channel::channel::{Route, RouteKey};
use p2p_channel::idle::IdleScan;

fn v4(a: u8, b: u8, c: u8, d: u8, port: u16) -> SockAddr {
    SockAddr::V4 { ip: u32::from_be_bytes([a, b, c, d]), port }
}

fn key(index: usize, addr: SockAddr) -> RouteKey {
    RouteKey::new(index, addr)
}

#[test]
fn route_reads_back_after_add() {
    let mut t: RouteTable<u64> = RouteTable::new();
    let r = Route::new(3, v4(10, 0, 0, 1, 4000), 1, 20);
    t.add_route(7, r);
    assert_eq!(t.route(&7), Some(r));
    assert_eq!(t.route(&8), None);
    assert_eq!(t.route_to_id(&r.route_key()), Some(7));
    assert!(!t.is_empty());
}

#[test]
fn route_replaced_moves_peer_between_keys() {
    let mut t: RouteTable<u64> = RouteTable::new();
    let r1 = Route::new(0, v4(1, 2, 3, 4, 10), 1, 5);
    let r2 = Route::new(1, v4(1, 2, 3, 4, 11), 2, 6);
    t.add_route(1, r1);
    t.add_route(1, r2);
    assert_eq!(t.route(&1), Some(r2));
    assert_eq!(t.route_to_id(&r1.route_key()), None);
    assert_eq!(t.route_to_id(&r2.route_key()), Some(1));
    assert_eq!(t.route_table(), vec![(1, r2)]);
}

#[test]
fn peers_share_a_route_key_in_arrival_order() {
    let mut t: RouteTable<u64> = RouteTable::new();
    let r = Route::new(100000, v4(8, 8, 8, 8, 53), 1, 0);
    t.add_route(5, r);
    t.add_route(2, r);
    t.add_route(5, r);
    assert_eq!(t.route_to_id(&r.route_key()), Some(5));
    t.remove_route(&5);
    assert_eq!(t.route_to_id(&r.route_key()), Some(2));
    t.remove_route(&2);
    assert_eq!(t.route_to_id(&r.route_key()), None);
    assert!(t.is_empty());
}

#[test]
fn remove_then_route_is_none() {
    let mut t: RouteTable<String> = RouteTable::new();
    let r = Route::from(key(2, v4(192, 168, 1, 9, 7000)), 3, 44);
    t.add_route("peer".to_string(), r);
    t.remove_route(&"peer".to_string());
    assert_eq!(t.route(&"peer".to_string()), None);
    assert_eq!(t.route_to_id(&r.route_key()), None);
    assert!(t.route_table().is_empty());
    assert!(t.is_empty());
    // removing an absent route changes nothing
    t.remove_route(&"other".to_string());
    assert!(t.is_empty());
}

#[test]
fn add_then_remove_restores_the_table() {
    let mut t: RouteTable<u64> = RouteTable::new();
    let a = Route::new(0, v4(1, 1, 1, 1, 1), 1, 1);
    let b = Route::new(0, v4(2, 2, 2, 2, 2), 1, 1);
    t.add_route(1, a);
    t.add_route(2, b);
    let before = {
        let mut v = t.route_table();
        v.sort_by_key(|e| e.0);
        v
    };
    t.add_route(3, a);
    t.remove_route(&3);
    let mut after = t.route_table();
    after.sort_by_key(|e| e.0);
    assert_eq!(before, after);
    assert_eq!(t.route_to_id(&a.route_key()), Some(1));
    assert_eq!(t.route_to_id(&b.route_key()), Some(2));
}

#[test]
fn route_table_lists_each_peer_once() {
    let mut t: RouteTable<u64> = RouteTable::new();
    let a = Route::new(0, v4(1, 1, 1, 1, 1), 1, 1);
    let b = Route::new(1, v4(1, 1, 1, 1, 1), 2, 2);
    t.add_route(10, a);
    t.add_route(11, a);
    t.add_route(12, b);
    t.add_route(11, b);
    let mut all = t.route_table();
    all.sort_by_key(|e| e.0);
    assert_eq!(all, vec![(10, a), (11, b), (12, b)]);
}

#[test]
fn update_route_sets_metric_and_rt_only() {
    let mut t: RouteTable<u64> = RouteTable::new();
    let r = Route::new(4, v4(9, 9, 9, 9, 99), 1, 10);
    t.add_route(1, r);
    t.update_route(&1, 7, 250);
    let u = t.route(&1).unwrap();
    assert_eq!(u.metric, 7);
    assert_eq!(u.rt, 250);
    assert_eq!(u.route_key(), r.route_key());
    assert_eq!(t.route_to_id(&r.route_key()), Some(1));
    // no route: nothing happens
    t.update_route(&2, 7, 250);
    assert_eq!(t.route(&2), None);
}

#[test]
fn traffic_times_do_not_touch_routes() {
    let mut t: RouteTable<u64> = RouteTable::new();
    let r = Route::new(0, v4(3, 3, 3, 3, 3), 1, 1);
    t.add_route_at(1, r, 1000);
    t.record_read_at(&r.route_key(), 5000);
    t.record_write_at(&r.route_key(), 6000);
    t.record_read(&key(9, v4(3, 3, 3, 3, 3)));
    assert_eq!(t.route(&1), Some(r));
    assert_eq!(t.route_table(), vec![(1, r)]);
}

#[test]
fn ipv6_route_keys() {
    let mut t: RouteTable<u64> = RouteTable::new();
    let a = SockAddr::V6 { ip: 1, port: 80, flowinfo: 0, scope_id: 0 };
    let r = Route::new(0, a, 1, 1);
    t.add_route(1, r);
    assert_eq!(t.route_to_id(&key(0, a)), Some(1));
    let b = SockAddr::new(IpAddress::V6(1), 80);
    assert_eq!(b, a);
}

#[test]
fn route_from_key_leads_back_to_it() {
    let k = key(5, v4(4, 3, 2, 1, 999));
    let r = Route::from(k, 9, -1);
    assert_eq!(r.route_key(), k);
    assert_eq!(r.metric, 9);
    assert_eq!(r.rt, -1);
    let mut t: RouteTable<u64> = RouteTable::new();
    t.add_route(42, r);
    assert_eq!(t.route_to_id(&k), Some(42));
}

#[test]
fn string_ids_new_key_starts_at_now_and_keeps_its_times() {
    let mut t: RouteTable<String> = RouteTable::new();
    let r = Route::new(2, v4(10, 0, 0, 9, 7000), 1, 0);
    t.add_route_at("a".to_string(), r, 1000);
    assert!(matches!(t.scan_idle_at(1, 0, 1000), IdleScan::Active(1000)));
    // the key is already in use: its times stay
    t.add_route_at("b".to_string(), r, 5000);
    assert!(matches!(t.scan_idle_at(1, 0, 1000), IdleScan::Active(1000)));
    assert_eq!(t.route_to_id(&r.route_key()), Some("a".to_string()));
    assert_eq!(t.route_to_id(&key(3, v4(10, 0, 0, 9, 7000))), None);
}
