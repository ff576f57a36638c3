use turborepo_lib::daemon::{initial_state, step, FileHashes, ConnectAction, ConnectEvent, BACKOFF_STEP_MS, MAX_CONNECT_RETRIES};

#[test]
fn unreachable_daemon_spawns_then_goes_cold_after_two_failures() {
    let s0 = initial_state();
    let (s1, a1) = step(s0, ConnectEvent::Unreachable);
    assert_eq!(a1, ConnectAction::Spawn);
    let (s2, a2) = step(s1, ConnectEvent::SpawnFailed);
    assert_eq!(a2, ConnectAction::Spawn);
    let (_s3, a3) = step(s2, ConnectEvent::SpawnFailed);
    assert_eq!(a3, ConnectAction::RunCold);
}

#[test]
fn reachable_daemon_is_used() {
    let (_s, a) = step(initial_state(), ConnectEvent::Reached);
    assert_eq!(a, ConnectAction::UseDaemon);
}

#[test]
fn retries_back_off_then_give_up() {
    let (mut s, a) = step(initial_state(), ConnectEvent::Unreachable);
    assert_eq!(a, ConnectAction::Spawn);
    let (s1, a1) = step(s, ConnectEvent::SpawnSucceeded);
    assert_eq!(a1, ConnectAction::Connect { delay_ms: BACKOFF_STEP_MS });
    s = s1;
    for n in 1..=MAX_CONNECT_RETRIES {
        let (next, act) = step(s, ConnectEvent::Unreachable);
        assert_eq!(act, ConnectAction::Connect { delay_ms: BACKOFF_STEP_MS * n });
        s = next;
    }
    let (_s, last) = step(s, ConnectEvent::Unreachable);
    assert_eq!(last, ConnectAction::RunCold);
    let (_s, after) = step(s, ConnectEvent::Reached);
    assert_eq!(after, ConnectAction::UseDaemon);
}

#[test]
fn file_hashes_invalidate_only_changed_paths() {
    let mut h = FileHashes::new();
    assert_eq!(h.get(1), None);
    h.record(1, 100);
    h.record(2, 200);
    h.record(3, 300);
    h.record(2, 201);
    assert_eq!(h.get(2), Some(201));
    h.invalidate(&vec![2, 9]);
    assert_eq!(h.get(1), Some(100));
    assert_eq!(h.get(2), None);
    assert_eq!(h.get(3), Some(300));
    h.invalidate(&vec![]);
    assert_eq!(h.get(3), Some(300));
    h.invalidate(&vec![1, 3]);
    assert_eq!(h.get(1), None);
    assert_eq!(h.get(3), None);
}
