use paddler::status_update::StatusUpdate;
use paddler::upstream_peer_pool::UpstreamPeerPool;
use paddler::errors::PoolError;

fn mock_status_update(name: &str, slots_idle: usize, slots_processing: usize) -> StatusUpdate {
    StatusUpdate {
        agent_name: Some(name.to_string()),
        error: None,
        external_llamacpp_addr: format!("{name}.example:8080"),
        slots_idle,
        slots_processing,
        is_authorized: Some(true),
        is_slots_endpoint_enabled: Some(true),
    }
}

fn peer_state(pool: &UpstreamPeerPool, agent_id: &str) -> (usize, usize, usize, u64) {
    let info = pool.info().expect("pool snapshot");
    let peer = info
        .agents
        .iter()
        .find(|p| p.agent_id == agent_id)
        .expect("peer present");
    (
        peer.slots_taken,
        peer.slots_idle,
        peer.slots_processing,
        peer.last_update,
    )
}

#[test]
fn test_race_condition_handling() {
    let mut pool = UpstreamPeerPool::new();

    pool.register_status_update("test1", mock_status_update("test1", 5, 0), 1000);

    let reservation = pool.reserve_slot(1000).expect("a usable peer");
    assert_eq!(reservation.agent_id, "test1");
    let last_update_at_selection_time = reservation.stamp;
    assert_eq!(last_update_at_selection_time, 1000);

    let (taken, idle, processing, _) = peer_state(&pool, "test1");
    assert_eq!(taken, 1);
    assert_eq!(idle, 5);
    assert_eq!(processing, 0);

    // A snapshot polled before the backend saw the reservation arrives.
    pool.register_status_update("test1", mock_status_update("test1", 0, 0), 2000);

    let (taken, idle, processing, _) = peer_state(&pool, "test1");
    assert_eq!(taken, 1);
    assert_eq!(idle, 0);
    assert_eq!(processing, 0);

    // The release is stamped older than the stored status: a no-op.
    pool.release_slot("test1", last_update_at_selection_time)
        .expect("stale release succeeds");

    let (taken, idle, processing, _) = peer_state(&pool, "test1");
    assert_eq!(taken, 1);
    assert_eq!(idle, 0);
    assert_eq!(processing, 0);
}

#[test]
fn test_use_best_peer() {
    let mut pool = UpstreamPeerPool::new();

    pool.register_status_update("test1", mock_status_update("test1", 5, 0), 10);
    pool.register_status_update("test2", mock_status_update("test2", 3, 0), 20);
    pool.register_status_update("test3", mock_status_update("test3", 0, 0), 30);

    let best_peer = pool.use_best_peer(30).expect("a usable peer");

    assert_eq!(best_peer.agent_id, "test1");
    assert_eq!(best_peer.slots_idle, 5);
}

#[test]
fn empty_pool_reserves_nothing_until_status_arrives() {
    let mut pool = UpstreamPeerPool::new();
    assert!(pool.reserve_slot(100).is_none());

    pool.register_status_update("a", mock_status_update("a", 1, 0), 200);

    let reservation = pool.reserve_slot(200).expect("slot after status");
    assert_eq!(reservation.agent_id, "a");
}

#[test]
fn selection_order_prefers_most_effective_free_slots() {
    let mut pool = UpstreamPeerPool::new();
    pool.register_status_update("a", mock_status_update("a", 5, 0), 10);
    pool.register_status_update("b", mock_status_update("b", 3, 0), 10);
    pool.register_status_update("c", mock_status_update("c", 0, 0), 10);

    let first = pool.reserve_slot(10).expect("first reservation");
    assert_eq!(first.agent_id, "a");

    // a still has 4 effective free slots, more than b's 3.
    let second = pool.reserve_slot(10).expect("second reservation");
    assert_eq!(second.agent_id, "a");
}

#[test]
fn quarantine_skips_peer_until_deadline() {
    let mut pool = UpstreamPeerPool::new();
    pool.register_status_update("a", mock_status_update("a", 5, 0), 1000);

    assert!(pool.quarantine_peer("a", 1000, 10_000));
    assert!(pool.reserve_slot(1000).is_none());
    assert!(pool.reserve_slot(10_999).is_none());

    let reservation = pool.reserve_slot(11_000).expect("quarantine over");
    assert_eq!(reservation.agent_id, "a");
}

#[test]
fn release_with_unknown_agent_fails() {
    let mut pool = UpstreamPeerPool::new();
    assert_eq!(
        pool.release_slot("ghost", 0),
        Err(PoolError::UnknownAgent)
    );
}

#[test]
fn release_without_reservation_underflows() {
    let mut pool = UpstreamPeerPool::new();
    pool.register_status_update("a", mock_status_update("a", 5, 0), 1000);
    assert_eq!(
        pool.release_slot("a", 1000),
        Err(PoolError::ReleaseUnderflow)
    );
}

#[test]
fn fresh_release_returns_the_slot() {
    let mut pool = UpstreamPeerPool::new();
    pool.register_status_update("a", mock_status_update("a", 2, 0), 1000);

    let reservation = pool.reserve_slot(1000).expect("reservation");
    assert_eq!(peer_state(&pool, "a").0, 1);

    pool.release_slot("a", reservation.stamp).expect("release");
    assert_eq!(peer_state(&pool, "a").0, 0);
}

#[test]
fn reservations_consumed_by_processing_growth() {
    let mut pool = UpstreamPeerPool::new();
    pool.register_status_update("a", mock_status_update("a", 4, 0), 1000);
    pool.reserve_slot(1000).expect("first");
    pool.reserve_slot(1000).expect("second");
    assert_eq!(peer_state(&pool, "a").0, 2);

    // The backend reports one request picked up: one reservation is consumed.
    pool.register_status_update("a", mock_status_update("a", 3, 1), 2000);
    assert_eq!(peer_state(&pool, "a").0, 1);
}

#[test]
fn unusable_peers_are_skipped() {
    let mut pool = UpstreamPeerPool::new();

    let mut errored = mock_status_update("err", 5, 0);
    errored.error = Some("backend unreachable".to_string());
    pool.register_status_update("err", errored, 10);

    let mut unauthorized = mock_status_update("unauth", 5, 0);
    unauthorized.is_authorized = Some(false);
    pool.register_status_update("unauth", unauthorized, 10);

    let mut no_endpoint = mock_status_update("noend", 5, 0);
    no_endpoint.is_slots_endpoint_enabled = Some(false);
    pool.register_status_update("noend", no_endpoint, 10);

    pool.register_status_update("ok", mock_status_update("ok", 1, 7), 10);

    let reservation = pool.reserve_slot(10).expect("only usable peer");
    assert_eq!(reservation.agent_id, "ok");
    assert!(pool.reserve_slot(10).is_none());
}

#[test]
fn remove_peer_drops_only_that_peer() {
    let mut pool = UpstreamPeerPool::new();
    pool.register_status_update("a", mock_status_update("a", 1, 0), 10);
    pool.register_status_update("b", mock_status_update("b", 1, 0), 20);

    assert!(pool.remove_peer("a"));
    assert!(!pool.remove_peer("a"));

    let info = pool.info().expect("snapshot");
    assert_eq!(info.agents.len(), 1);
    assert_eq!(info.agents[0].agent_id, "b");
}

#[test]
fn total_slots_sums_reported_counts() {
    let mut pool = UpstreamPeerPool::new();
    pool.register_status_update("a", mock_status_update("a", 5, 2), 10);
    pool.register_status_update("b", mock_status_update("b", 3, 4), 20);

    assert_eq!(pool.total_slots(), (8, 6));
}

#[test]
fn restore_integrity_keeps_all_peers() {
    let mut pool = UpstreamPeerPool::new();
    pool.register_status_update("a", mock_status_update("a", 1, 0), 10);
    pool.register_status_update("b", mock_status_update("b", 2, 0), 20);

    pool.restore_integrity(30);

    let info = pool.info().expect("snapshot");
    assert_eq!(info.agents.len(), 2);
    // The peer with more effective free slots sorts first.
    assert_eq!(info.agents[0].agent_id, "b");
}

#[test]
fn two_backends_three_requests() {
    let mut pool = UpstreamPeerPool::new();
    pool.register_status_update("a", mock_status_update("a", 1, 0), 10);
    pool.register_status_update("b", mock_status_update("b", 1, 0), 20);

    let first = pool.reserve_slot(20).expect("first request");
    let second = pool.reserve_slot(20).expect("second request");
    assert_ne!(first.agent_id, second.agent_id);

    // The third request finds no free slot and parks.
    assert!(pool.reserve_slot(20).is_none());

    // One of the two finishes; the parked request wakes and forwards.
    pool.release_slot(&first.agent_id, first.stamp).expect("release");
    let third = pool.reserve_slot(20).expect("woken request");
    assert_eq!(third.agent_id, first.agent_id);

    pool.release_slot(&second.agent_id, second.stamp).expect("release");
    pool.release_slot(&third.agent_id, third.stamp).expect("release");

    let info = pool.info().expect("snapshot");
    assert!(info.agents.iter().all(|p| p.slots_taken == 0));
}

#[test]
fn management_snapshot_renders_json() {
    let mut pool = UpstreamPeerPool::new();
    pool.register_status_update("a", mock_status_update("a", 2, 1), 1000);
    pool.quarantine_peer("a", 1000, 10_000);

    let info = pool.info().expect("snapshot");
    let body = paddler::management::render_pool_info(&info, 1000);
    let text = String::from_utf8(body).expect("utf-8 body");
    assert_eq!(
        text,
        "{\"agents\":[{\"agent_id\":\"a\",\"agent_name\":\"a\",\"error\":null,\
         \"external_llamacpp_addr\":\"a.example:8080\",\"is_authorized\":true,\
         \"is_slots_endpoint_enabled\":true,\"slots_idle\":2,\
         \"slots_processing\":1,\"slots_taken\":0,\"last_update\":1000,\
         \"quarantined_until\":11000,\"is_usable\":false}]}"
    );
}

#[test]
fn dropped_stream_quarantines_then_removes() {
    let mut pool = UpstreamPeerPool::new();
    pool.register_status_update("a", mock_status_update("a", 1, 0), 0);

    // The stream drops at 1 s: the connection's exit path quarantines.
    assert!(pool.quarantine_peer("a", 1000, 10_000));
    assert!(pool.reserve_slot(5000).is_none());

    // No reconnection: once the quarantine expires, the peer is removed.
    let parked = pool.info().expect("snapshot");
    let peer = parked.agents.iter().find(|p| p.agent_id == "a").expect("peer");
    assert!(!paddler::ingress::remove_due(peer, 10_999));
    assert!(paddler::ingress::remove_due(peer, 11_000));
    assert!(pool.remove_peer("a"));
    assert!(pool.info().expect("snapshot").agents.is_empty());
}

#[test]
fn reconnection_lifts_quarantine_and_keeps_the_peer() {
    let mut pool = UpstreamPeerPool::new();
    pool.register_status_update("a", mock_status_update("a", 1, 0), 0);
    assert!(pool.quarantine_peer("a", 1000, 10_000));

    // The agent reconnects and reports before the quarantine expires.
    pool.register_status_update("a", mock_status_update("a", 1, 0), 9000);

    let info = pool.info().expect("snapshot");
    let peer = info.agents.iter().find(|p| p.agent_id == "a").expect("peer");
    assert_eq!(peer.quarantined_until, None);
    assert!(!paddler::ingress::remove_due(peer, 20_000));
    assert!(pool.reserve_slot(9000).is_some());
}
