use p2p_channel::addr::SockAddr;
use p2p_channel::channel::table::RouteTable;
use p2p_channel::channel::{Route, RouteKey};
use p2p_channel::idle::{idle_status, wait_after_scan, IdleScan, IdleStatus, IdleStep};

fn route(index: usize, port: u16) -> Route {
    Route::new(index, SockAddr::V4 { ip: 0x7f000001, port }, 1, 1)
}

#[test]
fn idle_status_by_direction() {
    // read idle after 100 ms, write idle after 200 ms, at time 1000
    assert_eq!(idle_status(100, 200, 1000, 950, 900), None);
    assert_eq!(idle_status(100, 200, 1000, 899, 900), Some(IdleStatus::Read));
    assert_eq!(idle_status(100, 200, 1000, 950, 799), Some(IdleStatus::Write));
    assert_eq!(idle_status(100, 200, 1000, 899, 799), Some(IdleStatus::Both));
    // exactly at the limit is not idle
    assert_eq!(idle_status(100, 200, 1000, 900, 800), None);
}

#[test]
fn zero_idle_time_turns_the_check_off() {
    assert_eq!(idle_status(0, 0, 1_000_000, 0, 0), None);
    assert_eq!(idle_status(0, 10, 1_000_000, 0, 0), Some(IdleStatus::Write));
    assert_eq!(idle_status(10, -5, 1_000_000, 0, 0), Some(IdleStatus::Read));
}

#[test]
fn no_overflow_on_extreme_times() {
    assert_eq!(idle_status(i64::MAX, 1, i64::MIN, i64::MIN, i64::MIN), None);
    assert_eq!(idle_status(1, 1, i64::MAX, i64::MIN, i64::MAX), Some(IdleStatus::Read));
}

#[test]
fn scan_reports_first_idle_key_in_key_order() {
    let mut t: RouteTable<u64> = RouteTable::new();
    t.add_route_at(1, route(2, 10), 100);
    t.add_route_at(2, route(1, 10), 100);
    t.add_route_at(3, route(1, 20), 500);
    t.add_route_at(4, route(1, 10), 100);
    match t.scan_idle_at(300, 0, 1000) {
        IdleScan::Idle(status, ids, key) => {
            assert_eq!(status, IdleStatus::Read);
            assert_eq!(key, RouteKey::new(1, SockAddr::V4 { ip: 0x7f000001, port: 10 }));
            assert_eq!(ids, vec![2, 4]);
        }
        IdleScan::Active(_) => panic!("expected an idle route"),
    }
}

#[test]
fn scan_without_idle_key_gives_earliest_time() {
    let mut t: RouteTable<u64> = RouteTable::new();
    t.add_route_at(1, route(0, 1), 900);
    t.add_route_at(2, route(0, 2), 950);
    t.record_write_at(&route(0, 2).route_key(), 870);
    match t.scan_idle_at(500, 500, 1000) {
        IdleScan::Active(earliest) => assert_eq!(earliest, 870),
        IdleScan::Idle(..) => panic!("nothing is idle"),
    }
    let empty: RouteTable<u64> = RouteTable::new();
    match empty.scan_idle_at(500, 500, 1000) {
        IdleScan::Active(earliest) => assert_eq!(earliest, i64::MAX),
        IdleScan::Idle(..) => panic!("nothing is idle"),
    }
}

#[test]
fn wait_after_scan_steps() {
    assert!(matches!(wait_after_scan::<u64>(true, 10, 0), IdleStep::Park));
    assert!(matches!(wait_after_scan::<u64>(false, 1500, 1000), IdleStep::ParkFor(500)));
    assert!(matches!(wait_after_scan::<u64>(false, 1000, 1000), IdleStep::Rescan));
    assert!(matches!(wait_after_scan::<u64>(false, 1000, i64::MAX), IdleStep::Rescan));
    assert!(matches!(wait_after_scan::<u64>(false, i64::MAX, i64::MIN), IdleStep::ParkFor(u64::MAX)));
}

#[test]
fn idle_step_reports_idle_route() {
    let mut t: RouteTable<u64> = RouteTable::new();
    t.add_route_at(9, route(0, 1), 0);
    match t.idle_step(1, 1) {
        IdleStep::Report(status, ids, _) => {
            assert_eq!(status, IdleStatus::Both);
            assert_eq!(ids, vec![9]);
        }
        _ => panic!("the route is idle"),
    }
    let empty: RouteTable<u64> = RouteTable::new();
    assert!(matches!(empty.idle_step(1, 1), IdleStep::Park));
}

#[test]
fn new_route_goes_idle_after_the_idle_time() {
    let mut t: RouteTable<u64> = RouteTable::new();
    t.add_route_at(1, route(0, 5), 1000);
    assert!(matches!(t.scan_idle_at(100, 0, 1100), IdleScan::Active(1000)));
    match t.scan_idle_at(100, 0, 1101) {
        IdleScan::Idle(status, ids, _) => {
            assert_eq!(status, IdleStatus::Read);
            assert_eq!(ids, vec![1]);
        }
        IdleScan::Active(_) => panic!("the route is read idle"),
    }
}

#[test]
fn traffic_resets_idleness() {
    let mut t: RouteTable<u64> = RouteTable::new();
    let r = route(0, 5);
    t.add_route_at(1, r, 0);
    t.record_read_at(&r.route_key(), 5000);
    assert!(matches!(t.scan_idle_at(1, 0, 5000), IdleScan::Active(5000)));
    match t.scan_idle_at(1, 1, 5000) {
        IdleScan::Idle(status, _, _) => assert_eq!(status, IdleStatus::Write),
        IdleScan::Active(_) => panic!("the route is write idle"),
    }
    t.record_write_at(&r.route_key(), 5000);
    assert!(matches!(t.scan_idle_at(1, 1, 5000), IdleScan::Active(5000)));
}
