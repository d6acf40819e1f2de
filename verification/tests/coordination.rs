use stegshare::election::{finish_client_request, handle_coordinator_notification, handle_envelope,
    handle_heartbeat, process_client_request, prune_dead_peers, Message, MessageType, ServerStats};

fn server(addr: &str, pr: u64) -> ServerStats {
    ServerStats::new(addr.to_string(), pr, Vec::new())
}

/// Election under failure: three servers with priorities 0.5, 0.8, 0.3 (in
/// fixed-point millionths); the strongest goes silent long enough to be
/// pruned, and the next strongest alone decides to coordinate.
#[test]
fn election_under_peer_failure() {
    let heartbeat_period_ms: u64 = 2000;
    let timeout_ms = heartbeat_period_ms * 3 / 2;

    let mut a = server("10.0.0.1:8085", 500_000);
    handle_heartbeat(&mut a, &"10.0.0.2:8085".to_string(), 800_000, 0);
    handle_heartbeat(&mut a, &"10.0.0.3:8085".to_string(), 300_000, 9_000);

    let mut c = server("10.0.0.3:8085", 300_000);
    handle_heartbeat(&mut c, &"10.0.0.1:8085".to_string(), 500_000, 9_000);
    handle_heartbeat(&mut c, &"10.0.0.2:8085".to_string(), 800_000, 0);

    // The strongest server was last heard at t=0; at t=10s it is dead.
    prune_dead_peers(&mut a, 10_000, timeout_ms);
    prune_dead_peers(&mut c, 10_000, timeout_ms);
    assert_eq!(a.peer_priorities.len(), 1);
    assert_eq!(c.peer_priorities.len(), 1);

    let rid = "req-42".to_string();
    assert!(process_client_request(&mut a, &rid));
    assert!(!process_client_request(&mut c, &rid));
}

#[test]
fn equal_priorities_break_ties_by_greater_address() {
    let mut low = server("10.0.0.1:8085", 500_000);
    handle_heartbeat(&mut low, &"10.0.0.2:8085".to_string(), 500_000, 0);
    let mut high = server("10.0.0.2:8085", 500_000);
    handle_heartbeat(&mut high, &"10.0.0.1:8085".to_string(), 500_000, 0);

    let rid = "req-tie".to_string();
    assert!(!process_client_request(&mut low, &rid));
    assert!(process_client_request(&mut high, &rid));
}

#[test]
fn all_peers_dead_makes_self_coordinator() {
    let mut alone = server("10.0.0.3:8085", 1);
    let rid = "req-alone".to_string();
    assert!(process_client_request(&mut alone, &rid));
}

#[test]
fn repeated_request_id_is_not_handled_twice() {
    let mut s = server("10.0.0.1:8085", 10);
    let rid = "req-7".to_string();
    assert!(process_client_request(&mut s, &rid));
    assert!(!process_client_request(&mut s, &rid));
}

/// Coordinator-notification idempotence: the second notification changes
/// nothing, and the request is suppressed locally either way.
#[test]
fn notification_is_idempotent() {
    let mut s = server("10.0.0.1:8085", 10);
    let rid = "req-9".to_string();
    handle_coordinator_notification(&mut s, &rid);
    assert_eq!(s.client_request_queue.len(), 1);
    handle_coordinator_notification(&mut s, &rid);
    assert_eq!(s.client_request_queue.len(), 1);
    assert_eq!(s.client_request_queue[0], "req-9");
    assert!(!process_client_request(&mut s, &rid));
}

#[test]
fn heartbeat_updates_priority_and_liveness() {
    let mut s = server("10.0.0.1:8085", 10);
    let peer = "10.0.0.2:8085".to_string();
    handle_heartbeat(&mut s, &peer, 7, 100);
    handle_heartbeat(&mut s, &peer, 9, 200);
    assert_eq!(s.peer_priorities.len(), 1);
    assert_eq!(s.peer_priorities[0].1, 9);
    assert_eq!(s.peer_alive[0].1, 200);
    // A heartbeat from the server's own address changes nothing.
    handle_heartbeat(&mut s, &"10.0.0.1:8085".to_string(), 1, 300);
    assert_eq!(s.peer_priorities.len(), 1);
}

#[test]
fn envelopes_route_by_message_type() {
    let mut s = server("10.0.0.1:8085", 10);
    let hb = Message {
        sender: "10.0.0.2:8085".to_string(),
        receiver: "10.0.0.1:8085".to_string(),
        msg_type: MessageType::Heartbeat(44),
        payload: None,
    };
    handle_envelope(&mut s, &hb, 5);
    assert_eq!(s.peer_priorities[0].1, 44);

    let note = Message {
        sender: "10.0.0.2:8085".to_string(),
        receiver: "10.0.0.1:8085".to_string(),
        msg_type: MessageType::CoordinatorNotification("req-1".to_string()),
        payload: None,
    };
    handle_envelope(&mut s, &note, 6);
    assert_eq!(s.client_request_queue.len(), 1);

    // The reserved message types are accepted and ignored.
    let reserved = Message {
        sender: "10.0.0.2:8085".to_string(),
        receiver: "10.0.0.1:8085".to_string(),
        msg_type: MessageType::ClientRequest("ping".to_string()),
        payload: None,
    };
    handle_envelope(&mut s, &reserved, 7);
    assert_eq!(s.client_request_queue.len(), 1);
    assert_eq!(s.peer_priorities.len(), 1);
}

/// A finished request leaves the in-flight set, so a retried request with
/// the same id is elected and handled afresh.
#[test]
fn finished_requests_leave_the_in_flight_set() {
    let mut s = server("10.0.0.1:8085", 10);
    let rid = "req-11".to_string();
    assert!(process_client_request(&mut s, &rid));
    assert!(!process_client_request(&mut s, &rid));
    finish_client_request(&mut s, &rid);
    assert_eq!(s.client_request_queue.len(), 0);
    assert!(process_client_request(&mut s, &rid));
}
