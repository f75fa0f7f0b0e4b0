use tulpje::shards::{ConnectionStage, ShardTracker, StageChange};

fn ev(old: ConnectionStage, new: ConnectionStage, at: i64) -> StageChange {
    StageChange { old, new, at }
}

#[test]
fn first_connection_of_unseen_shard() {
    let mut t = ShardTracker::new();
    t.shard_stage_update(7, ev(ConnectionStage::Identifying, ConnectionStage::Connected, 100));
    assert_eq!(t.connected_shards(), 1);
    let s = t.shard(7).unwrap();
    assert_eq!(s.shard_id, 7);
    assert_eq!(s.stage, ConnectionStage::Connected);
    assert_eq!(s.restarts, 0);
    assert_eq!(s.ready_at, Some(100));
}

#[test]
fn disconnect_then_resume_counts_a_restart() {
    let mut t = ShardTracker::new();
    t.shard_stage_update(7, ev(ConnectionStage::Identifying, ConnectionStage::Connected, 100));
    t.shard_stage_update(7, ev(ConnectionStage::Connected, ConnectionStage::Disconnected, 200));
    assert_eq!(t.connected_shards(), 0);
    assert_eq!(t.shard(7).unwrap().ready_at, None);
    t.shard_stage_update(7, ev(ConnectionStage::Resuming, ConnectionStage::Connected, 300));
    assert_eq!(t.connected_shards(), 1);
    let s = t.shard(7).unwrap();
    assert_eq!(s.restarts, 1);
    assert_eq!(s.ready_at, Some(300));
}

#[test]
fn duplicate_connected_notification_changes_nothing() {
    let mut t = ShardTracker::new();
    t.shard_stage_update(7, ev(ConnectionStage::Identifying, ConnectionStage::Connected, 100));
    t.shard_stage_update(7, ev(ConnectionStage::Connected, ConnectionStage::Connected, 150));
    assert_eq!(t.connected_shards(), 1);
    assert_eq!(t.shard(7).unwrap().restarts, 0);
}

#[test]
fn missed_disconnect_is_not_counted_twice() {
    let mut t = ShardTracker::new();
    t.shard_stage_update(1, ev(ConnectionStage::Identifying, ConnectionStage::Connected, 1));
    t.shard_stage_update(1, ev(ConnectionStage::Resuming, ConnectionStage::Connected, 2));
    assert_eq!(t.connected_shards(), 1);
    assert_eq!(t.shard(1).unwrap().restarts, 1);
}

#[test]
fn other_stages_are_stored_verbatim() {
    let mut t = ShardTracker::new();
    t.shard_stage_update(2, ev(ConnectionStage::Disconnected, ConnectionStage::Handshake, 5));
    let s = t.shard(2).unwrap();
    assert_eq!(s.stage, ConnectionStage::Handshake);
    assert_eq!(s.ready_at, None);
    assert_eq!(t.connected_shards(), 0);
    assert!(t.shard(3).is_none());
}

#[test]
fn count_follows_sojourns_over_a_gap_free_run() {
    let mut t = ShardTracker::new();
    let run = [
        (ConnectionStage::Identifying, ConnectionStage::Connected),
        (ConnectionStage::Connected, ConnectionStage::Connected),
        (ConnectionStage::Connected, ConnectionStage::Disconnected),
        (ConnectionStage::Disconnected, ConnectionStage::Resuming),
        (ConnectionStage::Resuming, ConnectionStage::Connected),
        (ConnectionStage::Connected, ConnectionStage::Connected),
        (ConnectionStage::Connected, ConnectionStage::Connecting),
    ];
    let mut expected = Vec::new();
    for (i, (old, new)) in run.iter().enumerate() {
        t.shard_stage_update(4, ev(*old, *new, i as i64));
        expected.push(t.connected_shards());
    }
    assert_eq!(expected, vec![1, 1, 0, 0, 1, 1, 0]);
    assert_eq!(t.shard(4).unwrap().restarts, 1);
}

#[test]
fn two_shards_are_counted_apart() {
    let mut t = ShardTracker::new();
    t.shard_stage_update(0, ev(ConnectionStage::Identifying, ConnectionStage::Connected, 1));
    t.shard_stage_update(1, ev(ConnectionStage::Identifying, ConnectionStage::Connected, 2));
    assert_eq!(t.connected_shards(), 2);
    t.shard_stage_update(1, ev(ConnectionStage::Connected, ConnectionStage::Disconnected, 3));
    assert_eq!(t.connected_shards(), 1);
    assert_eq!(t.shard(0).unwrap().stage, ConnectionStage::Connected);
}
