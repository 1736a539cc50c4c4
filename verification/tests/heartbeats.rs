use chronos::assoc::AssocMap;
use chronos::heartbeat::DeterministicHeartbeat;
use chronos::types::NodeId;

fn zones(list: &[(u32, u32)]) -> AssocMap<NodeId, u32> {
    let mut m = AssocMap::new();
    for (n, z) in list {
        m.insert(NodeId(*n), *z);
    }
    m
}

fn links(list: &[(u32, u32, u64)]) -> AssocMap<(u32, u32), u64> {
    let mut m = AssocMap::new();
    for (a, b, ms) in list {
        m.insert((*a, *b), *ms);
    }
    m
}

#[test]
fn test_heartbeat_scheduling_and_skew() {
    let peers = vec![NodeId(1), NodeId(2)];
    let peer_zones = zones(&[(1, 1), (2, 2)]);
    let zone_connectivity = links(&[(1, 1, 5), (1, 2, 80)]);

    let base_time = 1000;
    let mut tracker = DeterministicHeartbeat::new(
        &peers,
        base_time,
        100,
        3,
        &zone_connectivity,
        1,
        &peer_zones,
    );

    tracker.on_heartbeat(NodeId(1), 1006, 0);
    assert!(!tracker.unhealthy_nodes.contains(&NodeId(1)));

    tracker.on_heartbeat(NodeId(2), 1020, 0);
    assert!(tracker.unhealthy_nodes.contains(&NodeId(2)));
}

#[test]
fn test_heartbeat_dead_nodes() {
    let peers = vec![NodeId(1)];
    let peer_zones = zones(&[(1, 1)]);
    let zone_connectivity = links(&[(1, 1, 5)]);

    let mut tracker =
        DeterministicHeartbeat::new(&peers, 1000, 100, 3, &zone_connectivity, 1, &peer_zones);

    let dead = tracker.check_health(1550, 2);
    assert_eq!(dead.len(), 1);
    assert_eq!(dead[0], NodeId(1));
}

#[test]
fn schedules_follow_the_link() {
    let peers = vec![NodeId(1), NodeId(2)];
    let t = DeterministicHeartbeat::new(
        &peers,
        1000,
        100,
        3,
        &links(&[(1, 2, 80)]),
        1,
        &zones(&[(2, 2)]),
    );
    let due = t.expected_schedule.get(&NodeId(2)).unwrap();
    assert_eq!(due.len(), 100);
    assert_eq!(due[0], 1080);
    assert_eq!(due[99], 1080 + 9900);
    // A peer of no known zone is taken to be five milliseconds away.
    assert_eq!(t.expected_schedule.get(&NodeId(1)).unwrap()[0], 1005);
}

#[test]
fn punctual_peers_stay_healthy() {
    let peers = vec![NodeId(1)];
    let mut t = DeterministicHeartbeat::new(
        &peers,
        1000,
        100,
        3,
        &links(&[(1, 1, 5)]),
        1,
        &zones(&[(1, 1)]),
    );
    t.on_heartbeat(NodeId(1), 1010, 0);
    assert!(!t.unhealthy_nodes.contains(&NodeId(1)));
    assert_eq!(t.last_heartbeats.get(&NodeId(1)), Some(&1010));
    t.on_heartbeat(NodeId(1), 1111, 1);
    assert!(t.unhealthy_nodes.contains(&NodeId(1)));
    t.on_heartbeat(NodeId(9), 1111, 1);
    assert!(!t.unhealthy_nodes.contains(&NodeId(9)));
}
