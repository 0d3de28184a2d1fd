use gv_netcode::broadcasting::{
    updates_to_send, GameUpdatesBroadcastingSystem, ServerWorldUpdate, ServerWorldUpdates,
};

fn queue(keys: &[(u64, u64)]) -> Vec<(u64, ServerWorldUpdate<&'static str>)> {
    keys.iter()
        .map(|&(id, frame_number)| (id, ServerWorldUpdate { frame_number, data: "world" }))
        .collect()
}

#[test]
fn a_client_gets_the_updates_after_its_acknowledgement() {
    let updates = queue(&[(1, 10), (2, 11), (3, 12), (4, 13)]);
    assert_eq!(updates_to_send(&updates, None), vec![0, 1, 2, 3]);
    assert_eq!(updates_to_send(&updates, Some(2)), vec![2, 3]);
    assert_eq!(updates_to_send(&updates, Some(0)), vec![0, 1, 2, 3]);
}

#[test]
fn a_client_that_acknowledged_the_latest_update_gets_nothing() {
    let updates = queue(&[(1, 10), (2, 11)]);
    assert!(updates_to_send(&updates, Some(2)).is_empty());
    assert!(updates_to_send(&updates, Some(5)).is_empty());
}

#[test]
fn a_repeated_frame_is_sent_once_in_its_latest_update() {
    let updates = queue(&[(1, 10), (2, 11), (3, 11), (4, 12)]);
    assert_eq!(updates_to_send(&updates, None), vec![0, 2, 3]);
}

#[test]
fn an_update_older_than_a_later_frame_is_kept_only_when_its_frame_is_older() {
    let updates = queue(&[(1, 10), (2, 12), (3, 11)]);
    assert_eq!(updates_to_send(&updates, None), vec![0, 2]);
}

#[test]
fn an_acknowledged_update_stops_the_scan_back() {
    // Update 3 is after update 2 in the queue but older: the scan stops at it.
    let updates = queue(&[(5, 10), (3, 11), (6, 12)]);
    assert_eq!(updates_to_send(&updates, Some(4)), vec![2]);
}

#[test]
fn no_broadcast_when_the_game_does_not_run() {
    let mut system = GameUpdatesBroadcastingSystem::new();
    let mut last = 0u64;
    let mut updates = ServerWorldUpdates { updates: queue(&[(1, 10)]) };
    let res = system.run(false, 100, &mut last, &mut updates, &vec![None]);
    assert!(res.is_none());
    assert_eq!(last, 0);
    assert_eq!(updates.updates.len(), 1);
}

#[test]
fn no_broadcast_before_the_interval_is_over() {
    let mut system = GameUpdatesBroadcastingSystem::new();
    let mut last = 95u64;
    let mut updates = ServerWorldUpdates { updates: queue(&[(1, 10)]) };
    assert!(system.run(true, 100, &mut last, &mut updates, &vec![None]).is_none());
    assert_eq!(last, 95);
    assert_eq!(updates.updates.len(), 1);
}

#[test]
fn a_broadcast_takes_the_queue_and_serves_each_client() {
    let mut system = GameUpdatesBroadcastingSystem::new();
    let mut last = 94u64;
    let mut updates = ServerWorldUpdates {
        updates: queue(&[(7, 90), (8, 91), (9, 92)]),
    };
    let broadcast = system
        .run(true, 100, &mut last, &mut updates, &vec![None, Some(8), Some(9)])
        .unwrap();
    assert_eq!(last, 100);
    assert!(updates.updates.is_empty());
    assert_eq!(broadcast.id, 9);
    assert_eq!(broadcast.updates.len(), 3);
    assert_eq!(broadcast.recipients, vec![vec![0, 1, 2], vec![2], vec![]]);
    // Right after, the next broadcast is not due.
    let mut more = ServerWorldUpdates { updates: queue(&[(10, 100)]) };
    assert!(system.run(true, 100, &mut last, &mut more, &vec![None]).is_none());
}

#[test]
fn the_broadcast_interval_wraps_around() {
    let mut system = GameUpdatesBroadcastingSystem::new();
    let mut last = u64::MAX - 5;
    let mut updates = ServerWorldUpdates { updates: queue(&[(1, 3)]) };
    let broadcast = system.run(true, 3, &mut last, &mut updates, &vec![]).unwrap();
    assert_eq!(last, 3);
    assert!(broadcast.recipients.is_empty());
}
