use p2p_channel::addr::{IpAddress, SockAddr};
use p2p_channel::punch::{spread_targets, NatInfo, NatType, PunchPlan, PunchPlanner, PORT_COUNT};

fn ip(a: u8, b: u8, c: u8, d: u8) -> IpAddress {
    IpAddress::V4(u32::from_be_bytes([a, b, c, d]))
}

fn port_of(a: &SockAddr) -> u16 {
    a.port()
}

#[test]
fn port_order_is_a_shuffled_permutation() {
    let p: PunchPlanner<u64> = PunchPlanner::new();
    let mut ports = p.port_order().clone();
    assert_eq!(ports.len(), PORT_COUNT);
    let sorted: Vec<u16> = (1..=65535).collect();
    assert_ne!(ports, sorted);
    ports.sort();
    assert_eq!(ports, sorted);
    let q = p.try_clone();
    let mut other = q.port_order().clone();
    assert_ne!(other, *p.port_order());
    other.sort();
    assert_eq!(other, sorted);
}

#[test]
fn cone_peer_gets_its_port_at_each_ip() {
    let p: PunchPlanner<u64> = PunchPlanner::new();
    let info = NatInfo::new(vec![ip(1, 2, 3, 4), ip(5, 6, 7, 8)], 4000, 0, NatType::Cone);
    match p.plan(&1, &info, true) {
        PunchPlan::Direct(t) => assert_eq!(
            t,
            vec![SockAddr::new(ip(1, 2, 3, 4), 4000), SockAddr::new(ip(5, 6, 7, 8), 4000)]
        ),
        _ => panic!("a cone peer gets a direct plan"),
    }
}

#[test]
fn spread_targets_counts_attempts() {
    let ports = vec![10u16, 11, 12];
    let ips = vec![ip(1, 1, 1, 1), ip(2, 2, 2, 2)];
    // limit 5: the first 4 pairs, port by port
    let t = spread_targets(&ports, 0, 3, &ips, 5);
    assert_eq!(
        t,
        vec![
            SockAddr::new(ips[0], 10),
            SockAddr::new(ips[1], 10),
            SockAddr::new(ips[0], 11),
            SockAddr::new(ips[1], 11)
        ]
    );
    // a large limit: every pair
    assert_eq!(spread_targets(&ports, 1, 3, &ips, 100).len(), 4);
    // limit 1: nothing
    assert!(spread_targets(&ports, 0, 3, &ips, 1).is_empty());
}

#[test]
fn symmetric_peer_near_ports_and_sweep() {
    let mut p: PunchPlanner<u64> = PunchPlanner::new();
    let info = NatInfo::new(vec![ip(9, 9, 9, 9)], 1000, 3, NatType::Symmetric);
    let plan = p.plan(&7, &info, true);
    match plan {
        PunchPlan::Sweep { near, sweep, spread, next_index } => {
            // ports 997..=1003, fewer than 60: all seven
            assert_eq!(near.len(), 7);
            let mut ports: Vec<u16> = near.iter().map(port_of).collect();
            ports.sort();
            assert_eq!(ports, (997..=1003).collect::<Vec<u16>>());
            assert!(!spread);
            assert_eq!(next_index, 800);
            // the first 799 ports of the port order
            let order = p.port_order();
            let expect: Vec<SockAddr> = order[..799].iter().map(|&q| SockAddr::new(ip(9, 9, 9, 9), q)).collect();
            assert_eq!(sweep, expect);
            p.record_sweep(7, next_index);
        }
        _ => panic!("a symmetric peer gets a sweep"),
    }
    match p.plan(&7, &info, true) {
        PunchPlan::Sweep { sweep, next_index, .. } => {
            assert_eq!(next_index, 1600);
            assert_eq!(port_of(&sweep[0]), p.port_order()[800]);
        }
        _ => panic!("a symmetric peer gets a sweep"),
    }
}

#[test]
fn symmetric_from_a_symmetric_host_uses_small_limits() {
    let p: PunchPlanner<u64> = PunchPlanner::new();
    let info = NatInfo::new(vec![ip(9, 9, 9, 9), ip(8, 8, 8, 8)], 65534, 4, NatType::Symmetric);
    match p.plan(&1, &info, false) {
        PunchPlan::Sweep { near, sweep, spread, next_index } => {
            // ports 65530..=65535, at most 5 counted: 4 addresses
            assert_eq!(near.len(), 4);
            for a in &near {
                assert!(port_of(a) >= 65530);
            }
            assert_eq!(sweep.len(), 9);
            assert!(spread);
            assert_eq!(next_index, 10);
        }
        _ => panic!("a symmetric peer gets a sweep"),
    }
}

#[test]
fn wide_port_range_skips_near_ports() {
    let p: PunchPlanner<u64> = PunchPlanner::new();
    let info = NatInfo::new(vec![ip(9, 9, 9, 9)], 2, 500, NatType::Symmetric);
    match p.plan(&1, &info, true) {
        PunchPlan::Sweep { near, .. } => assert!(near.is_empty()),
        _ => panic!("a symmetric peer gets a sweep"),
    }
    // low port: the near span starts at 1
    let info = NatInfo::new(vec![ip(9, 9, 9, 9)], 2, 5, NatType::Symmetric);
    match p.plan(&1, &info, true) {
        PunchPlan::Sweep { near, .. } => {
            let mut ports: Vec<u16> = near.iter().map(port_of).collect();
            ports.sort();
            assert_eq!(ports, (1..=7).collect::<Vec<u16>>());
        }
        _ => panic!("a symmetric peer gets a sweep"),
    }
}

#[test]
fn sweep_wraps_at_the_end_of_the_port_order() {
    let mut p: PunchPlanner<u64> = PunchPlanner::new();
    let info = NatInfo::new(vec![ip(9, 9, 9, 9)], 1000, 500, NatType::Symmetric);
    p.record_sweep(3, 65000);
    match p.plan(&3, &info, true) {
        PunchPlan::Sweep { sweep, next_index, .. } => {
            assert_eq!(next_index, 0);
            assert_eq!(sweep.len(), 535);
        }
        _ => panic!("a symmetric peer gets a sweep"),
    }
    assert_eq!(info.nat_type(), NatType::Symmetric);
}

#[test]
fn spread_targets_without_a_limit_gives_every_pair() {
    let ports = vec![10u16, 11, 12];
    let ips = vec![ip(1, 1, 1, 1), ip(2, 2, 2, 2)];
    let t = spread_targets(&ports, 0, 3, &ips, 0);
    assert_eq!(t.len(), 6);
    assert_eq!(t[5], SockAddr::new(ips[1], 12));
}

#[test]
fn sweeps_cover_the_port_order_once_and_start_over() {
    let mut p: PunchPlanner<String> = PunchPlanner::new();
    let info = NatInfo::new(vec![ip(1, 2, 3, 4)], 3000, 120, NatType::Symmetric);
    let id = "a".to_string();
    let mut seen = std::collections::HashSet::new();
    let mut first: Vec<SockAddr> = Vec::new();
    let mut next = usize::MAX;
    for n in 0..82 {
        match p.plan(&id, &info, true) {
            PunchPlan::Sweep { near, sweep, next_index, .. } => {
                assert!(near.is_empty());
                for a in &sweep {
                    assert!(port_of(a) >= 1);
                    assert!(seen.insert(port_of(a)), "port swept twice");
                }
                if n == 0 {
                    first = sweep;
                }
                next = next_index;
                p.record_sweep(id.clone(), next_index);
            }
            _ => panic!("a symmetric peer gets a sweep"),
        }
        if n < 81 {
            assert_eq!(next, 800 * (n + 1));
        }
    }
    assert_eq!(next, 0);
    // 81 full windows of 799 ports and the last 735 ports
    assert_eq!(seen.len(), 81 * 799 + 735);
    match p.plan(&id, &info, true) {
        PunchPlan::Sweep { sweep, .. } => assert_eq!(sweep, first),
        _ => panic!("a symmetric peer gets a sweep"),
    }
}
