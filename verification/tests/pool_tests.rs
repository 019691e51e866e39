use uniform_pool::events::ConnEvent;
use uniform_pool::pool::Lazy;
use uniform_pool::report::{CloseOutcome, PollOutcome, SendOutcome, ShutdownReason};
use uniform_pool::snapshot::AddressSnapshot;
use uniform_pool::LazyUniform;

fn snap(addrs: &[u64]) -> AddressSnapshot {
    AddressSnapshot { addrs: addrs.to_vec() }
}

fn pool(limit: u32, timeout_ms: u64) -> Lazy<u64> {
    LazyUniform { conn_limit: limit, reconnect_timeout_ms: timeout_ms }.construct()
}

fn is_not_ready(r: &SendOutcome<u64>) -> bool {
    matches!(r, SendOutcome::NotReady(_))
}

#[test]
fn construct_computes_jitter_window() {
    let p = pool(2, 100);
    assert_eq!(p.reconnect_min_ms, 50);
    assert_eq!(p.reconnect_max_ms, 150);
    assert_eq!(p.conn_limit, 2);
    assert!(!p.closing);
}

#[test]
fn snapshot_compare_yields_disjoint_diffs() {
    let a = snap(&[1, 2]);
    let b = snap(&[2, 3]);
    let (retired, added) = a.compare(&b);
    assert_eq!(retired, vec![1]);
    assert_eq!(added, vec![3]);
    let (r2, a2) = a.compare(&a);
    assert!(r2.is_empty());
    assert!(a2.is_empty());
}

#[test]
fn blacklist_is_unique_per_address_and_refreshes() {
    let mut p = pool(2, 100);
    p.blist.blacklist(7, 100);
    p.blist.blacklist(7, 200);
    assert_eq!(p.blist.entries.len(), 1);
    assert_eq!(p.blist.entries[0].deadline_ms, 200);
    assert!(p.blist.is_failing(7));
    assert_eq!(p.blist.next_deadline(), Some(200));
    assert_eq!(p.blist.poll_expired(150), None);
    assert_eq!(p.blist.poll_expired(200), Some(7));
    assert!(!p.blist.is_failing(7));
}

#[test]
fn uniform_connections_per_host() {
    // Two hosts, limit two: four connect attempts spread 2 + 2, then the
    // plan is saturated.
    let mut p = pool(2, 100);
    p.deliver_address(snap(&[1, 2]));
    p.check_for_address_updates();
    let mut picks = Vec::new();
    loop {
        let mut done = true;
        // Drive the planner through offers; each NotReady starts one
        // connect attempt.
        let before = p.connections.slots.len();
        let r = p.start_send(0u64, 0);
        assert!(is_not_ready(&r));
        if p.connections.slots.len() > before {
            picks.push(p.connections.slots[before].addr);
            done = false;
        }
        if done {
            break;
        }
        if picks.len() > 8 {
            panic!("planner did not saturate");
        }
    }
    assert_eq!(picks.len(), 4);
    assert_eq!(picks.iter().filter(|a| **a == 1).count(), 2);
    assert_eq!(picks.iter().filter(|a| **a == 2).count(), 2);
    // Alternating hosts: no host gets its second connection before every
    // host has its first.
    assert_ne!(picks[0], picks[1]);
    assert_ne!(picks[2], picks[3]);
    assert_eq!(p.metrics.connection_attempt, 4);
}

#[test]
fn round_robin_dispatch_covers_every_connection() {
    // Scenario: snapshot {A, B}, connector always succeeds, offer four
    // items: two connections per host, and the first four dispatches
    // visit each connection exactly once.
    let mut p = pool(2, 100);
    p.deliver_address(snap(&[1, 2]));
    for _ in 0..4 {
        let r = p.start_send(0u64, 0);
        assert!(is_not_ready(&r));
    }
    assert_eq!(p.connections.slots.len(), 4);
    let addrs: Vec<u64> = p.connections.slots.iter().map(|s| s.addr).collect();
    assert_eq!(addrs.iter().filter(|a| **a == 1).count(), 2);
    assert_eq!(addrs.iter().filter(|a| **a == 2).count(), 2);
    for id in 0..4usize {
        p.deliver_event(ConnEvent::ConnectDone { id, success: true });
    }
    for item in 10..14 {
        let r = p.start_send(item as u64, 1);
        assert!(matches!(r, SendOutcome::Ready));
    }
    assert_eq!(p.metrics.connection, 4);
    assert_eq!(p.delivered.len(), 4);
    let conns: Vec<usize> = p.delivered.iter().map(|d| d.conn).collect();
    assert_eq!(conns, vec![0, 1, 2, 3]);
    assert_eq!(p.delivered[0].item, 10);
    assert_eq!(p.delivered[3].item, 13);
}

#[test]
fn failed_connects_blacklist_then_recover() {
    // Scenario: snapshot {A}, the connector fails three times and then
    // succeeds: three connection errors, three blacklist entries added
    // and removed, finally one connection.
    let mut p = pool(2, 100);
    p.deliver_address(snap(&[1]));
    let mut t: u64 = 0;
    for round in 0..3u64 {
        let r = p.start_send(0u64, t);
        assert!(is_not_ready(&r));
        let id = p.connections.slots.len() - 1;
        p.deliver_event(ConnEvent::ConnectDone { id, success: false });
        assert!(matches!(p.poll_complete(t), PollOutcome::NotReady));
        assert_eq!(p.metrics.connection_error, round + 1);
        assert_eq!(p.metrics.blacklist_add, round + 1);
        // The backoff deadline is jittered within [t + 50, t + 150).
        assert_eq!(p.blist.entries.len(), 1);
        let d = p.blist.entries[0].deadline_ms;
        assert!(d >= t + 50 && d < t + 150);
        assert!(p.blist.is_failing(1));
        // While suppressed, no new attempt starts.
        let before = p.connections.slots.len();
        let r = p.start_send(0u64, t);
        assert!(is_not_ready(&r));
        assert_eq!(p.connections.slots.len(), before);
        t += 150;
    }
    let r = p.start_send(0u64, t);
    assert!(is_not_ready(&r));
    assert_eq!(p.metrics.blacklist_remove, 3);
    assert_eq!(p.metrics.connection_attempt, 4);
    let id = p.connections.slots.len() - 1;
    p.deliver_event(ConnEvent::ConnectDone { id, success: true });
    let r = p.start_send(9u64, t);
    assert!(matches!(r, SendOutcome::Ready));
    assert_eq!(p.metrics.connection, 1);
}

#[test]
fn snapshot_swap_retires_old_hosts() {
    // Scenario: snapshot {A, B} swapped to {B, C} once the connections
    // stand: the A controllers are closed, no new A connects start,
    // two connections to C follow, and B is untouched.
    let mut p = pool(2, 100);
    p.deliver_address(snap(&[1, 2]));
    for _ in 0..4 {
        assert!(is_not_ready(&p.start_send(0u64, 0)));
    }
    for id in 0..4usize {
        p.deliver_event(ConnEvent::ConnectDone { id, success: true });
    }
    p.poll_complete(0);
    p.deliver_address(snap(&[2, 3]));
    p.check_for_address_updates();
    for id in 0..4usize {
        let s = &p.connections.slots[id];
        if s.addr == 1 {
            assert!(s.closed);
        } else {
            assert!(!s.closed);
        }
    }
    // The two B connections keep serving; to force new connects, mark
    // their sinks unwritable.
    p.deliver_event(ConnEvent::SinkUnready { id: 1 });
    p.deliver_event(ConnEvent::SinkUnready { id: 3 });
    assert!(is_not_ready(&p.start_send(0u64, 1)));
    assert!(is_not_ready(&p.start_send(0u64, 1)));
    assert_eq!(p.connections.slots.len(), 6);
    assert_eq!(p.connections.slots[4].addr, 3);
    assert_eq!(p.connections.slots[5].addr, 3);
    // No new connect went to the retired host.
    let a_conns = p.connections.slots.iter().filter(|s| s.addr == 1).count();
    assert_eq!(a_conns, 2);
    // The closed A connections drain cleanly.
    p.deliver_event(ConnEvent::SinkFlushed { id: 0 });
    p.deliver_event(ConnEvent::SinkFlushed { id: 2 });
    p.poll_complete(1);
    assert_eq!(p.metrics.disconnect, 2);
}

#[test]
fn pushback_starts_second_connection() {
    // Scenario: snapshot {A}, one live connection, limit two: the first
    // refusal from the only connection starts a second connect to A.
    let mut p = pool(2, 100);
    p.deliver_address(snap(&[1]));
    assert!(is_not_ready(&p.start_send(1u64, 0)));
    p.deliver_event(ConnEvent::ConnectDone { id: 0, success: true });
    assert!(matches!(p.start_send(1u64, 0), SendOutcome::Ready));
    p.deliver_event(ConnEvent::SinkUnready { id: 0 });
    let r = p.start_send(2u64, 0);
    assert!(is_not_ready(&r));
    assert_eq!(p.connections.slots.len(), 2);
    assert_eq!(p.connections.slots[1].addr, 1);
    assert_eq!(p.metrics.connection_attempt, 2);
    // The item was not lost: it came back with NotReady.
    match r {
        SendOutcome::NotReady(it) => assert_eq!(it, 2),
        _ => unreachable!(),
    }
    assert_eq!(p.delivered.len(), 1);
}

#[test]
fn address_stream_end_drains_gracefully() {
    // Scenario: the address stream ends while three connections stand:
    // shutdown is logged, every controller is closed, offers report
    // NotReady until the three drain, then Done.
    let mut p = pool(1, 100);
    p.deliver_address(snap(&[1, 2, 3]));
    for _ in 0..3 {
        assert!(is_not_ready(&p.start_send(0u64, 0)));
    }
    for id in 0..3usize {
        p.deliver_event(ConnEvent::ConnectDone { id, success: true });
    }
    p.poll_complete(0);
    p.end_address_stream();
    assert!(is_not_ready(&p.start_send(5u64, 1)));
    assert!(p.closing);
    assert!(matches!(
        p.errors.shutdown,
        Some(ShutdownReason::AddressStreamClosed)
    ));
    for s in p.connections.slots.iter() {
        assert!(s.closed);
    }
    assert!(is_not_ready(&p.start_send(5u64, 2)));
    p.deliver_event(ConnEvent::SinkFlushed { id: 0 });
    p.deliver_event(ConnEvent::SinkFlushed { id: 1 });
    assert!(is_not_ready(&p.start_send(5u64, 3)));
    p.deliver_event(ConnEvent::SinkFlushed { id: 2 });
    assert!(matches!(p.start_send(5u64, 4), SendOutcome::Done));
    assert!(matches!(p.poll_complete(5), PollOutcome::Done));
    assert_eq!(p.count_outstanding(), 0);
}

#[test]
fn sink_failure_releases_host_without_blacklist() {
    // Scenario: the connection to A fails after accepting ten items:
    // one disconnect, the host back in the plan, a new connect to A on
    // the next dispatch, and no blacklist entry.
    let mut p = pool(2, 100);
    p.deliver_address(snap(&[1]));
    assert!(is_not_ready(&p.start_send(0u64, 0)));
    p.deliver_event(ConnEvent::ConnectDone { id: 0, success: true });
    for item in 0..10 {
        assert!(matches!(p.start_send(item as u64, 0), SendOutcome::Ready));
    }
    assert_eq!(p.delivered.len(), 10);
    p.deliver_event(ConnEvent::SinkFailed { id: 0 });
    p.poll_complete(1);
    assert_eq!(p.metrics.disconnect, 1);
    assert_eq!(p.errors.sink_errors, vec![1]);
    assert!(!p.blist.is_failing(1));
    assert_eq!(p.metrics.blacklist_add, 0);
    assert!(is_not_ready(&p.start_send(11u64, 1)));
    assert_eq!(p.connections.slots.len(), 2);
    assert_eq!(p.connections.slots[1].addr, 1);
}

#[test]
fn close_is_terminal_and_live_count_never_grows() {
    let mut p = pool(1, 100);
    p.deliver_address(snap(&[1, 2]));
    assert!(is_not_ready(&p.start_send(0u64, 0)));
    assert!(is_not_ready(&p.start_send(0u64, 0)));
    p.deliver_event(ConnEvent::ConnectDone { id: 0, success: true });
    p.poll_complete(0);
    assert!(matches!(p.close(1), CloseOutcome::NotReady));
    assert!(p.closing);
    for s in p.connections.slots.iter() {
        assert!(s.closed);
    }
    // The still-pending connect resolves after close: it aborts instead
    // of going live.
    p.deliver_event(ConnEvent::ConnectDone { id: 1, success: true });
    assert!(is_not_ready(&p.start_send(0u64, 2)));
    assert_eq!(p.metrics.connection_abort, 1);
    p.deliver_event(ConnEvent::SinkFlushed { id: 0 });
    assert!(matches!(p.start_send(0u64, 3), SendOutcome::Done));
    assert!(matches!(p.close(4), CloseOutcome::Ready));
}

#[test]
fn stale_events_are_ignored() {
    let mut p = pool(2, 100);
    p.deliver_address(snap(&[1]));
    p.deliver_event(ConnEvent::SinkReady { id: 99 });
    p.deliver_event(ConnEvent::SinkFailed { id: 7 });
    p.deliver_event(ConnEvent::ConnectDone { id: 3, success: true });
    assert!(matches!(p.poll_complete(0), PollOutcome::NotReady));
    assert_eq!(p.connections.slots.len(), 0);
    assert_eq!(p.metrics.connection, 0);
    assert_eq!(p.metrics.disconnect, 0);
}

#[test]
fn empty_snapshot_gives_backpressure() {
    let mut p = pool(2, 100);
    let r = p.start_send(1u64, 0);
    match r {
        SendOutcome::NotReady(it) => assert_eq!(it, 1),
        _ => unreachable!(),
    }
    assert_eq!(p.connections.slots.len(), 0);
    assert_eq!(p.count_outstanding(), 0);
}

#[test]
fn aligner_prefers_least_loaded_host() {
    let mut p = pool(3, 100);
    p.deliver_address(snap(&[1, 2]));
    // First connect goes to host 1, the second must go to host 2.
    assert!(is_not_ready(&p.start_send(0u64, 0)));
    assert!(is_not_ready(&p.start_send(0u64, 0)));
    assert_eq!(p.connections.slots[0].addr, 1);
    assert_eq!(p.connections.slots[1].addr, 2);
}
