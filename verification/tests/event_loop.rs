use throttle::application_cfg::SemaphoreCfg;
use throttle::error::ThrottleError;
use throttle::event_loop::{Answer, EventLoop, Outcome, ServiceEvent};
use throttle::name_map::NameMap;

const ONE_SEC: u64 = 1_000_000_000;
const ONE_MS: u64 = 1_000_000;

fn event_loop(cfg: &[(&str, i64, i32)]) -> EventLoop {
    let mut semaphores = NameMap::new();
    for (name, max, level) in cfg {
        semaphores.insert(name.to_string(), SemaphoreCfg { max: *max, level: *level });
    }
    EventLoop::new(semaphores)
}

fn new_peer(l: &mut EventLoop, now: u64, expires_in: u64) -> u64 {
    match l.handle_event(now, ServiceEvent::NewPeer { expires_in }).answer {
        Answer::PeerId(id) => id,
        _ => panic!("new peer answers with its id"),
    }
}

fn request(l: &mut EventLoop, now: u64, peer_id: u64, semaphore: &str, amount: i64) -> Outcome {
    l.handle_event(
        now,
        ServiceEvent::AcquireLock {
            peer_id,
            semaphore: semaphore.to_string(),
            amount,
            wait_for: None,
            expires_in: None,
        },
    )
}

fn acquired(outcome: &Outcome) -> Result<bool, ThrottleError> {
    match &outcome.answer {
        Answer::Acquired(r) => *r,
        _ => panic!("acquire answers whether the lock is acquired"),
    }
}

fn is_acquired(l: &mut EventLoop, now: u64, peer_id: u64) -> Result<bool, ThrottleError> {
    match l.handle_event(now, ServiceEvent::IsAcquired { peer_id }).answer {
        Answer::IsAcquired(r) => r,
        _ => panic!("is_acquired answers whether all locks are acquired"),
    }
}

fn remainder(l: &mut EventLoop, now: u64, semaphore: &str) -> Result<i64, ThrottleError> {
    match l.handle_event(now, ServiceEvent::Remainder { semaphore: semaphore.to_string() }).answer {
        Answer::Remainder(r) => r,
        _ => panic!("remainder answers with the remainder"),
    }
}

fn release(l: &mut EventLoop, now: u64, peer_id: u64) -> Outcome {
    l.handle_event(now, ServiceEvent::ReleasePeer { peer_id })
}

fn remove_expired(l: &mut EventLoop, now: u64) -> Outcome {
    l.handle_event(now, ServiceEvent::RemoveExpired)
}

#[test]
fn non_blocking_acquire() {
    let mut l = event_loop(&[("A", 1, 0)]);
    let first = new_peer(&mut l, 0, ONE_SEC);
    let second = new_peer(&mut l, 0, ONE_SEC);

    assert_eq!(acquired(&request(&mut l, 0, first, "A", 1)), Ok(true));
    assert_eq!(is_acquired(&mut l, 0, first), Ok(true));

    // Second lease is pending, because we still hold first
    assert_eq!(acquired(&request(&mut l, 0, second, "A", 1)), Ok(false));
    assert_eq!(is_acquired(&mut l, 0, second), Ok(false));

    // Releasing the first peer frees its lock, the second is acquired without asking again.
    let outcome = release(&mut l, 0, first);
    assert!(matches!(outcome.answer, Answer::Removed(true)));
    assert_eq!(outcome.resolved, vec![second]);
    assert_eq!(is_acquired(&mut l, 0, second), Ok(true));
}

#[test]
fn locks_of_expired_peers_are_released() {
    let mut l = event_loop(&[("A", 1, 0)]);
    // Create a peer which expires immediately
    let peer = new_peer(&mut l, 0, 0);
    request(&mut l, 0, peer, "A", 1);
    let outcome = remove_expired(&mut l, 1);
    assert_eq!(outcome.expired, vec![peer]);
    // Semaphore should again be available
    assert_eq!(remainder(&mut l, 1, "A"), Ok(1));
}

#[test]
fn acquire_prolongs_lifetime_of_peer() {
    let mut l = event_loop(&[("A", 1, 0)]);
    let blocker = new_peer(&mut l, 0, 10 * ONE_SEC);
    request(&mut l, 0, blocker, "A", 1);
    let peer = new_peer(&mut l, 0, 100 * ONE_MS);
    let outcome = l.handle_event(
        0,
        ServiceEvent::AcquireLock {
            peer_id: peer,
            semaphore: "A".to_string(),
            amount: 1,
            wait_for: Some(100 * ONE_MS),
            expires_in: Some(10 * ONE_SEC),
        },
    );
    // The lock is pending, the requester is told to wait for it.
    assert_eq!(acquired(&outcome), Ok(false));
    assert_eq!(outcome.wait_for, Some(100 * ONE_MS));
    // The initial timeout of 100ms has passed, yet nothing is removed.
    assert!(remove_expired(&mut l, 200 * ONE_MS).expired.is_empty());
}

#[test]
fn restore_peer_with_unknown_semaphore() {
    let mut l = event_loop(&[]);
    let mut acquired = NameMap::new();
    acquired.insert(String::from("A"), 1);
    let outcome = l.handle_event(0, ServiceEvent::Restore { peer_id: 5, expires_in: ONE_SEC, acquired });
    match outcome.answer {
        Answer::Restored(Err(e)) => assert_eq!(e.message(), "Unknown semaphore"),
        _ => panic!("restoring a lock to an unknown semaphore must fail"),
    }
}

/// A large lock must not get starved by many smaller ones.
#[test]
fn do_not_starve_large_locks() {
    let mut l = event_loop(&[("A", 5, 0)]);
    let small = new_peer(&mut l, 0, ONE_SEC);
    let big = new_peer(&mut l, 0, ONE_SEC);
    let other_small = new_peer(&mut l, 0, ONE_SEC);
    // This lock is acquired immediatly decrementing the semaphore count to 4
    assert_eq!(acquired(&request(&mut l, 0, small, "A", 1)), Ok(true));
    // Now try a large one. Of course we can not acquire it yet
    assert_eq!(acquired(&request(&mut l, 1, big, "A", 5)), Ok(false));
    // This one could be acquired due to semaphore count, but won't, since the larger one is
    // still pending.
    assert_eq!(acquired(&request(&mut l, 2, other_small, "A", 1)), Ok(false));
    assert_eq!(remainder(&mut l, 2, "A"), Ok(4));
    // We free the first small lock, now the big one is acquired
    let outcome = release(&mut l, 3, small);
    assert_eq!(outcome.resolved, vec![big]);
    assert_eq!(remainder(&mut l, 3, "A"), Ok(0));
}

#[test]
fn client_acquire_three_leases() {
    let mut l = event_loop(&[("A", 3, 0)]);
    let p: Vec<u64> = (0..4).map(|_| new_peer(&mut l, 0, ONE_SEC)).collect();
    assert_eq!(acquired(&request(&mut l, 0, p[0], "A", 1)), Ok(true));
    assert_eq!(acquired(&request(&mut l, 0, p[1], "A", 1)), Ok(true));
    assert_eq!(acquired(&request(&mut l, 0, p[2], "A", 1)), Ok(true));
    assert_eq!(remainder(&mut l, 0, "A"), Ok(0));
    assert_eq!(acquired(&request(&mut l, 0, p[3], "A", 1)), Ok(false));
}

#[test]
fn unblock_immediatly_after_release() {
    let mut l = event_loop(&[("A", 1, 0)]);
    let one = new_peer(&mut l, 0, ONE_SEC);
    let two = new_peer(&mut l, 0, ONE_SEC);
    request(&mut l, 0, one, "A", 1);
    let outcome = l.handle_event(
        0,
        ServiceEvent::AcquireLock {
            peer_id: two,
            semaphore: "A".to_string(),
            amount: 1,
            wait_for: Some(15 * ONE_SEC),
            expires_in: None,
        },
    );
    assert_eq!(outcome.wait_for, Some(15 * ONE_SEC));
    // Releasing one wakes two right away.
    assert_eq!(release(&mut l, 1, one).resolved, vec![two]);
}

#[test]
fn acquire_locks_immediatly_after_expiration() {
    let mut l = event_loop(&[("A", 1, 0)]);
    let one = new_peer(&mut l, 0, ONE_SEC);
    let two = new_peer(&mut l, 0, ONE_SEC);
    request(&mut l, 0, one, "A", 1);
    assert_eq!(acquired(&request(&mut l, 0, two, "A", 1)), Ok(false));
    // A heartbeat with no time left marks `one` as expired right away.
    let heartbeat = l.handle_event(10, ServiceEvent::Heartbeat { peer_id: one, expires_in: 0 });
    assert!(matches!(heartbeat.answer, Answer::Heartbeat(Ok(()))));
    assert_eq!(l.min_valid_until(), Some(10));
    let outcome = remove_expired(&mut l, 11);
    assert_eq!(outcome.expired, vec![one]);
    assert_eq!(outcome.resolved, vec![two]);
}

#[test]
fn acquire() {
    let mut l = event_loop(&[("A", 1, 0)]);
    let one = new_peer(&mut l, 0, ONE_SEC);
    let two = new_peer(&mut l, 0, ONE_SEC);
    assert_eq!(acquired(&request(&mut l, 0, one, "A", 1)), Ok(true));
    assert_eq!(acquired(&request(&mut l, 0, two, "A", 1)), Ok(false));
    release(&mut l, 0, one);
    assert_eq!(acquired(&request(&mut l, 0, two, "A", 1)), Ok(true));
}

#[test]
fn acquire_two_locks_with_one_peer() {
    let mut l = event_loop(&[("A", 1, 1), ("B", 1, 0)]);
    let one = new_peer(&mut l, 0, ONE_SEC);
    let two = new_peer(&mut l, 0, 2 * ONE_SEC);
    assert_eq!(acquired(&request(&mut l, 0, one, "A", 1)), Ok(true));
    assert_eq!(acquired(&request(&mut l, 0, one, "B", 1)), Ok(true));
    assert_eq!(acquired(&request(&mut l, 0, two, "B", 1)), Ok(false));
    // Release one "B", so two is acquired
    let outcome = l.handle_event(0, ServiceEvent::ReleaseLock { peer_id: one, semaphore: "B".to_string() });
    assert!(matches!(outcome.answer, Answer::Released(Ok(()))));
    assert_eq!(outcome.resolved, vec![two]);
    assert_eq!(is_acquired(&mut l, 0, two), Ok(true));
    // First peer is still active and holds a lock
    assert_eq!(is_acquired(&mut l, 0, one), Ok(true));
}

#[test]
fn litter_collection() {
    let mut l = event_loop(&[("A", 1, 0)]);
    let peer = new_peer(&mut l, 0, ONE_SEC);
    let outcome = l.handle_event(
        0,
        ServiceEvent::AcquireLock {
            peer_id: peer,
            semaphore: "A".to_string(),
            amount: 1,
            wait_for: None,
            expires_in: Some(ONE_MS),
        },
    );
    assert_eq!(acquired(&outcome), Ok(true));
    assert_eq!(l.min_valid_until(), Some(ONE_MS));
    remove_expired(&mut l, 15 * ONE_MS);
    assert_eq!(remainder(&mut l, 15 * ONE_MS, "A"), Ok(1));
}

#[test]
fn metrics_count_acquired_and_pending() {
    let mut l = event_loop(&[("A", 2, 0), ("B", 1, 0)]);
    let one = new_peer(&mut l, 0, ONE_SEC);
    let two = new_peer(&mut l, 0, ONE_SEC);
    request(&mut l, 5, one, "A", 2);
    request(&mut l, 7, two, "A", 1);
    match l.handle_event(10, ServiceEvent::UpdateMetrics).answer {
        Answer::Metrics(counts) => {
            assert_eq!(counts.len(), 2);
            assert_eq!(counts.key(0), "A");
            let a = *counts.value(0);
            assert_eq!(a.acquired, 2);
            assert_eq!(a.pending, 1);
            assert_eq!(a.longest_pending_since, Some(7));
            assert_eq!(a.longest_pending(10), 3);
            let b = *counts.value(1);
            assert_eq!((b.acquired, b.pending, b.longest_pending_since), (0, 0, None));
        },
        _ => panic!("metrics answer with the counts"),
    }
}

#[test]
fn unknown_peer_and_semaphore() {
    let mut l = event_loop(&[("A", 1, 0)]);
    assert_eq!(acquired(&request(&mut l, 0, 42, "A", 1)), Err(ThrottleError::UnknownPeer));
    let peer = new_peer(&mut l, 0, ONE_SEC);
    assert_eq!(acquired(&request(&mut l, 0, peer, "B", 1)), Err(ThrottleError::UnknownSemaphore));
    assert_eq!(acquired(&request(&mut l, 0, peer, "A", 2)), Err(ThrottleError::Never { asked: 2, max: 1 }));
    assert_eq!(remainder(&mut l, 0, "B"), Err(ThrottleError::UnknownSemaphore));
    assert_eq!(is_acquired(&mut l, 0, 42), Err(ThrottleError::UnknownPeer));
    assert!(matches!(release(&mut l, 0, 42).answer, Answer::Removed(false)));
}
