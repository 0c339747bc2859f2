use paddler::ingress::idle_expired;
use paddler::ingress::remove_due;
use paddler::router::AfterRelease;
use paddler::router::ProxyTask;
use paddler::router::RouterStep;
use paddler::router::UpstreamOutcome;
use paddler::router::path_allowed;
use paddler::upstream_peer::UpstreamPeer;
use paddler::upstream_peer_pool::SlotReservation;

#[test]
fn slots_path_needs_the_flag() {
    assert!(!path_allowed("/slots", false));
    assert!(path_allowed("/slots", true));
    assert!(path_allowed("/v1/completions", false));
    assert!(path_allowed("/", false));
}

#[test]
fn reserve_result_decides_forward_or_park() {
    let task = ProxyTask::new();
    let reservation = SlotReservation {
        agent_id: "a".to_string(),
        external_llamacpp_addr: "h:1".to_string(),
        stamp: 42,
    };
    match task.on_reserve(Some(reservation)) {
        RouterStep::Forward(res) => {
            assert_eq!(res.agent_id, "a");
            assert_eq!(res.stamp, 42);
        },
        RouterStep::Park => panic!("a reservation must forward"),
    }
    assert!(matches!(task.on_reserve(None), RouterStep::Park));
}

#[test]
fn reroute_budget_is_two() {
    let mut task = ProxyTask::new();
    assert!(matches!(
        task.on_outcome(UpstreamOutcome::FailedEarly),
        AfterRelease::QuarantineAndRetry
    ));
    assert!(matches!(
        task.on_outcome(UpstreamOutcome::FailedEarly),
        AfterRelease::QuarantineAndRetry
    ));
    assert!(matches!(
        task.on_outcome(UpstreamOutcome::FailedEarly),
        AfterRelease::QuarantineAndFail
    ));
}

#[test]
fn clean_outcomes_only_release() {
    let mut task = ProxyTask::new();
    assert!(matches!(
        task.on_outcome(UpstreamOutcome::Completed),
        AfterRelease::Done
    ));
    assert!(matches!(
        task.on_outcome(UpstreamOutcome::ClientGone),
        AfterRelease::Done
    ));
    assert_eq!(task.reroutes_used, 0);
}

#[test]
fn idle_deadline_is_three_intervals() {
    // last frame at 1000 ms, 10 s interval: dead at 31 000 ms
    assert!(!idle_expired(30_999, 1000, 10_000));
    assert!(idle_expired(31_000, 1000, 10_000));
}

#[test]
fn removal_follows_quarantine_expiry() {
    let mut peer = UpstreamPeer {
        agent_id: "a".to_string(),
        agent_name: None,
        error: None,
        external_llamacpp_addr: "h:1".to_string(),
        is_authorized: None,
        is_slots_endpoint_enabled: None,
        slots_idle: 0,
        slots_processing: 0,
        slots_taken: 0,
        last_update: 0,
        quarantined_until: None,
    };
    assert!(!remove_due(&peer, 1_000_000));
    peer.quarantined_until = Some(20_000);
    assert!(!remove_due(&peer, 19_999));
    assert!(remove_due(&peer, 20_000));
}
