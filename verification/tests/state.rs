use throttle::application_cfg::SemaphoreCfg;
use throttle::error::ThrottleError;
use throttle::name_map::NameMap;
use throttle::state::State;

/// One second in nanoseconds.
const ONE_SEC: u64 = 1_000_000_000;

fn semaphores(cfg: &[(&str, i64, i32)]) -> NameMap<SemaphoreCfg> {
    let mut semaphores = NameMap::new();
    for (name, max, level) in cfg {
        semaphores.insert(name.to_string(), SemaphoreCfg { max: *max, level: *level });
    }
    semaphores
}

fn locks(entries: &[(&str, i64)]) -> NameMap<i64> {
    let mut acquired = NameMap::new();
    for (name, count) in entries {
        acquired.insert(name.to_string(), *count);
    }
    acquired
}

#[test]
fn state_acquire_three_leases() {
    // Semaphore with count of 3
    let mut state = State::new(semaphores(&[("A", 3, 0)]));

    // First three locks can be acquired immediatly
    let one = state.new_peer(0, ONE_SEC);
    assert!(state.acquire(0, one, "A", 1, None).unwrap());
    let two = state.new_peer(0, ONE_SEC);
    assert!(state.acquire(0, two, "A", 1, None).unwrap());
    let three = state.new_peer(0, ONE_SEC);
    assert!(state.acquire(0, three, "A", 1, None).unwrap());
    // The fourth must wait
    let four = state.new_peer(0, ONE_SEC);
    assert!(!state.acquire(0, four, "A", 1, None).unwrap());
}

#[test]
fn state_resolve_pending() {
    // Semaphore with count of 3
    let mut state = State::new(semaphores(&[("A", 3, 0)]));

    // Create six peers
    let p: Vec<_> = (0..6).map(|_| state.new_peer(0, ONE_SEC)).collect();

    // First three locks can be acquired immediatly
    state.acquire(0, p[0], "A", 1, None).unwrap();
    state.acquire(0, p[1], "A", 1, None).unwrap();
    state.acquire(0, p[2], "A", 1, None).unwrap();
    // The four, five and six must wait
    state.acquire(1, p[3], "A", 1, None).unwrap();
    state.acquire(2, p[4], "A", 1, None).unwrap();
    state.acquire(3, p[5], "A", 1, None).unwrap();
    // Remainder is zero due to the three leases intially acquired
    assert_eq!(state.remainder("A").unwrap(), 0);
    let mut resolved = Vec::new();
    // Release one of the first three. Four should now be acquired.
    state.release(p[1], &mut resolved);
    assert_eq!(state.remainder("A").unwrap(), 0);

    // Release another one of the first three. Five should now be acquired.
    state.release(p[0], &mut resolved);
    assert_eq!(state.remainder("A").unwrap(), 0);

    // Release last one of the first three. six should now be acquired.
    state.release(p[2], &mut resolved);
    assert_eq!(state.remainder("A").unwrap(), 0);
}

/// Pending locks must be acquired in the same order the have been requested.
#[test]
fn state_fairness() {
    // Semaphore with count of 3
    let mut state = State::new(semaphores(&[("A", 3, 0)]));

    // Create six peers
    let p: Vec<_> = (0..6).map(|_| state.new_peer(0, ONE_SEC)).collect();

    // First three locks can be acquired immediatly
    state.acquire(0, p[0], "A", 1, None).unwrap();
    state.acquire(0, p[1], "A", 1, None).unwrap();
    state.acquire(0, p[2], "A", 1, None).unwrap();
    // The four, five and six must wait
    state.acquire(1, p[3], "A", 1, None).unwrap();
    state.acquire(2, p[4], "A", 1, None).unwrap();
    state.acquire(3, p[5], "A", 1, None).unwrap();
    // Remainder is zero due to the three leases intially acquired
    assert_eq!(state.remainder("A").unwrap(), 0);
    let mut resolved = Vec::new();
    // Release one of the first three. Four should now be acquired.
    state.release(p[1], &mut resolved);
    assert!(state.is_acquired(p[3]).unwrap());

    // Release another one of the first three. Five should now be acquired.
    state.release(p[0], &mut resolved);
    assert!(state.is_acquired(p[4]).unwrap());

    // Release last one of the first three. six should now be acquired.
    state.release(p[2], &mut resolved);
    assert!(state.is_acquired(p[5]).unwrap());
    assert_eq!(resolved, vec![p[3], p[4], p[5]]);
}

#[test]
fn state_idempotent_acquire() {
    let mut state = State::new(semaphores(&[("A", 1, 0)]));

    let first = state.new_peer(0, ONE_SEC);
    assert!(state.acquire(0, first, "A", 1, None).unwrap());
    assert!(state.acquire(0, first, "A", 1, None).unwrap());

    let second = state.new_peer(0, ONE_SEC);
    assert!(!state.acquire(0, second, "A", 1, None).unwrap());
    assert!(!state.acquire(0, second, "A", 1, None).unwrap());
}

#[test]
fn multiple_locks_per_peer() {
    let mut state = State::new(semaphores(&[("A", 2, 1), ("B", 1, 0)]));

    let first = state.new_peer(0, ONE_SEC);
    // Acquire one of 'A' and 'B' each.
    assert!(state.acquire(0, first, "A", 1, None).unwrap());
    assert!(state.acquire(0, first, "B", 1, None).unwrap());

    let second = state.new_peer(0, ONE_SEC);
    // Second can still acquire lock to 'A' since its full count is 2, but 'B' must pend.
    assert!(state.acquire(0, second, "A", 1, None).unwrap());
    assert!(!state.acquire(0, second, "B", 1, None).unwrap());

    let mut resolved = Vec::new();
    state.release(first, &mut resolved);
    assert!(state.is_acquired(second).unwrap());
}

/// Provoke two pending locks for the same peer.
#[test]
fn two_pending_locks() {
    let mut state = State::new(semaphores(&[("A", 1, 1), ("B", 1, 0)]));

    // Acquire both semaphores with blocker, so all other locks are going to be pending.
    let blocker = state.new_peer(0, ONE_SEC);
    state.acquire(0, blocker, "A", 1, None).unwrap();
    state.acquire(0, blocker, "B", 1, None).unwrap();

    let peer = state.new_peer(0, ONE_SEC);
    assert!(!state.acquire(0, peer, "A", 1, None).unwrap());
    assert!(matches!(
        state.acquire(0, peer, "B", 1, None),
        Err(ThrottleError::AlreadyPending)
    ));
}

#[test]
fn acquire_zero() {
    let mut state = State::new(semaphores(&[("A", 1, 0)]));

    let peer = state.new_peer(0, ONE_SEC);
    assert!(matches!(
        state.acquire(0, peer, "A", 0, None),
        Err(ThrottleError::InvalidLockCount { count: 0 })
    ));
}

#[test]
fn restore_with_lock_count_zero() {
    let mut state = State::new(semaphores(&[("A", 1, 0)]));

    let peer = 5;
    let acquired = locks(&[("A", 0)]);
    assert!(matches!(
        state.restore(0, peer, ONE_SEC, &acquired),
        Err(ThrottleError::InvalidLockCount { count: 0 })
    ));
}

#[test]
fn restore_with_unknown_semaphore() {
    let mut state = State::new(NameMap::new());

    let peer = 5;
    let acquired = locks(&[("A", 1)]);
    assert!(matches!(
        state.restore(0, peer, ONE_SEC, &acquired),
        Err(ThrottleError::UnknownSemaphore)
    ));
}

#[test]
fn restore_cant_change_existing_peers() {
    let mut state = State::new(semaphores(&[("A", 1, 0)]));

    let peer = state.new_peer(0, ONE_SEC);

    let acquired = locks(&[("A", 1)]);
    assert!(matches!(
        state.restore(0, peer, ONE_SEC, &acquired),
        Err(ThrottleError::ChangeThroughRestore)
    ));
}

#[test]
fn enforce_lock_hierachies() {
    let mut state = State::new(semaphores(&[("A", 1, 1), ("B", 1, 0)]));

    let first = state.new_peer(0, ONE_SEC);
    // Try acquiring in wrong order. First B then A.
    state.acquire(0, first, "B", 1, None).unwrap();
    // This should result in a lock hierachie violation
    assert!(matches!(
        state.acquire(0, first, "A", 1, None),
        Err(ThrottleError::Deadlock {
            current: 0,
            requested: 1
        })
    ));
}
