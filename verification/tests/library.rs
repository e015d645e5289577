use throttle::application_cfg::{ApplicationCfg, SemaphoreCfg};
use throttle::cli::Cli;
use throttle::error::ThrottleError;
use throttle::leases::{Counts, Leases};
use throttle::name_map::NameMap;
use throttle::protocol::{acquire_status, acquired_from_status, is_domain_error};
use throttle::state::State;
use throttle::text::{append_decimal, append_signed_decimal, str_eq, str_less};

const ONE_SEC: u64 = 1_000_000_000;

fn state(cfg: &[(&str, i64, i32)]) -> State {
    let mut semaphores = NameMap::new();
    for (name, max, level) in cfg {
        semaphores.insert(name.to_string(), SemaphoreCfg { max: *max, level: *level });
    }
    State::new(semaphores)
}

#[test]
fn error_messages() {
    assert_eq!(ThrottleError::UnknownSemaphore.message(), "Unknown semaphore");
    assert_eq!(ThrottleError::UnknownPeer.message(), "Unknown peer");
    assert_eq!(
        ThrottleError::Never { asked: 5, max: 3 }.message(),
        "Lock can never be acquired. Lock asks for count 5 yet full count is only 3."
    );
    assert_eq!(
        ThrottleError::Deadlock { current: 0, requested: 1 }.message(),
        "Lock hierachy violation. This may deadlock. The current lock level is 0 the\n        requested lock level was 1."
    );
    assert_eq!(
        ThrottleError::AlreadyPending.message(),
        "Already pending. Only one pendig lock per peer is allowed."
    );
    assert_eq!(
        ThrottleError::InvalidLockCount { count: -3 }.message(),
        "Lock count must be a positive number. Found: -3."
    );
    assert_eq!(
        ThrottleError::ChangeThroughRestore.message(),
        "Restore is not allowed to change existing peers."
    );
    assert_eq!(
        ThrottleError::ShrinkingLockCount.message(),
        "Shrinking the count of an existing lock is currently not implemented."
    );
}

#[test]
fn error_status_codes() {
    assert_eq!(ThrottleError::UnknownSemaphore.status_code(), 400);
    assert_eq!(ThrottleError::UnknownPeer.status_code(), 400);
    assert_eq!(ThrottleError::InvalidLockCount { count: 0 }.status_code(), 400);
    assert_eq!(ThrottleError::Never { asked: 2, max: 1 }.status_code(), 409);
    assert_eq!(ThrottleError::Deadlock { current: 0, requested: 0 }.status_code(), 409);
    assert_eq!(ThrottleError::AlreadyPending.status_code(), 409);
    assert_eq!(ThrottleError::ChangeThroughRestore.status_code(), 409);
    assert_eq!(ThrottleError::ShrinkingLockCount.status_code(), 501);
}

#[test]
fn acquire_status_round_trip() {
    assert_eq!(acquire_status(true), 200);
    assert_eq!(acquire_status(false), 202);
    assert_eq!(acquired_from_status(acquire_status(true)), Some(true));
    assert_eq!(acquired_from_status(acquire_status(false)), Some(false));
    assert_eq!(acquired_from_status(500), None);
    assert!(is_domain_error(400));
    assert!(is_domain_error(409));
    assert!(!is_domain_error(501));
}

#[test]
fn endpoint() {
    let cli = Cli { address: String::from("127.0.0.1"), port: 8000, configuration: String::from("throttle.toml") };
    assert_eq!(cli.endpoint(), "127.0.0.1:8000");
    let cli = Cli { address: String::from("0.0.0.0"), port: 0, configuration: String::new() };
    assert_eq!(cli.endpoint(), "0.0.0.0:0");
}

#[test]
fn default_configuration() {
    let cfg = ApplicationCfg::default();
    assert_eq!(cfg.semaphores.len(), 0);
    assert_eq!(cfg.logging.stderr.level, "WARN");
}

#[test]
fn decimal_rendering() {
    let mut s = String::from("x");
    append_decimal(&mut s, 0);
    append_decimal(&mut s, 1234567890);
    append_signed_decimal(&mut s, -42);
    append_signed_decimal(&mut s, i64::MIN);
    assert_eq!(s, "x01234567890-42-9223372036854775808");
}

#[test]
fn string_order() {
    assert!(str_eq("abc", "abc"));
    assert!(!str_eq("abc", "abd"));
    assert!(str_less("ab", "abc"));
    assert!(str_less("B", "a"));
    assert!(!str_less("b", "a"));
    assert!(!str_less("a", "a"));
}

#[test]
fn name_map_keeps_order() {
    let mut m = NameMap::new();
    assert_eq!(m.insert(String::from("b"), 2), None);
    assert_eq!(m.insert(String::from("a"), 1), None);
    assert_eq!(m.insert(String::from("b"), 3), Some(2));
    assert_eq!(m.len(), 2);
    assert_eq!(m.key(0), "b");
    assert_eq!(*m.value(0), 3);
    assert_eq!(m.get("a"), Some(&1));
    assert!(m.contains_key("a"));
    assert_eq!(m.remove("b"), Some(3));
    assert!(!m.contains_key("b"));
    assert_eq!(m.find("a"), Some(0));
}

#[test]
fn counts_longest_pending() {
    let c = Counts { acquired: 0, pending: 1, longest_pending_since: Some(10) };
    assert_eq!(c.longest_pending(15), 5);
    assert_eq!(c.longest_pending(5), 0);
    assert_eq!(Counts::default().longest_pending(7), 0);
}

#[test]
fn leases_bookkeeping() {
    let mut levels = NameMap::new();
    levels.insert(String::from("A"), SemaphoreCfg { max: 2, level: 0 });
    let mut leases = Leases::new();
    let one = leases.new_peer(100);
    let two = leases.new_peer(200);
    assert_ne!(one, two);
    assert_eq!(leases.acquire(0, one, "A", 2, 2, 0, &levels), Ok(true));
    assert_eq!(leases.acquire(1, two, "A", 1, 2, 0, &levels), Ok(false));
    assert_eq!(leases.count("A"), 2);
    assert_eq!(leases.has_pending(two), Ok(true));
    assert_eq!(leases.min_valid_until(), Some(100));
    let (expired, affected) = leases.remove_expired(150);
    assert_eq!(expired, vec![one]);
    assert_eq!(affected, vec![String::from("A")]);
    let mut resolved = Vec::new();
    leases.resolve_pending("A", 2, &mut resolved);
    assert_eq!(resolved, vec![two]);
    assert_eq!(leases.count("A"), 1);
    assert_eq!(leases.update_valid_until(one, 300), Err(ThrottleError::UnknownPeer));
    assert_eq!(leases.release_lock(two, "A"), Ok(false));
    assert_eq!(leases.count("A"), 0);
    assert_eq!(leases.remove_peer(two), Some(Vec::new()));
    assert_eq!(leases.remove_peer(two), None);
}

/// Restoring accepts revenants even beyond the full count, but stays idempotent and can not
/// change peers the service knows.
#[test]
fn restore_revenants() {
    let mut s = state(&[("A", 1, 0), ("B", 2, 0)]);
    let mut acquired = NameMap::new();
    acquired.insert(String::from("A"), 1);
    acquired.insert(String::from("B"), 2);
    assert_eq!(s.restore(0, 7, ONE_SEC, &acquired), Ok(()));
    assert_eq!(s.restore(0, 7, ONE_SEC, &acquired), Ok(()));
    let mut other = NameMap::new();
    other.insert(String::from("A"), 1);
    assert_eq!(s.restore(0, 7, ONE_SEC, &other), Err(ThrottleError::ChangeThroughRestore));
    let mut again = NameMap::new();
    again.insert(String::from("A"), 1);
    assert_eq!(s.restore(0, 8, ONE_SEC, &again), Ok(()));
    // Over the full count: the remainder is negative.
    assert!(s.totals_fit());
    assert_eq!(s.remainder("A"), Ok(-1));
}

/// Acquired counts stay within the full count through acquiring, releasing and expiring.
#[test]
fn stays_within_limits() {
    let mut s = state(&[("A", 3, 0)]);
    let mut resolved = Vec::new();
    let p: Vec<u64> = (0..5).map(|i| s.new_peer(0, (i + 1) * ONE_SEC)).collect();
    for (i, peer) in p.iter().enumerate() {
        let _ = s.acquire(i as u64, *peer, "A", 2, None);
        assert!(s.remainder("A").unwrap() >= 0);
    }
    assert_eq!(s.remainder("A"), Ok(1));
    s.release_lock(p[0], "A", &mut resolved).unwrap();
    assert_eq!(resolved, vec![p[1]]);
    assert!(s.remainder("A").unwrap() >= 0);
    let mut expired = s.remove_expired(2 * ONE_SEC + 1, &mut resolved);
    expired.sort();
    let mut expected = vec![p[0], p[1]];
    expected.sort();
    assert_eq!(expired, expected);
    assert_eq!(resolved, vec![p[1], p[2]]);
    assert_eq!(s.remainder("A"), Ok(1));
    assert_eq!(s.min_valid_until(), Some(3 * ONE_SEC));
}

#[test]
fn shrinking_and_growing_locks() {
    let mut s = state(&[("A", 3, 0)]);
    let peer = s.new_peer(0, ONE_SEC);
    assert_eq!(s.acquire(0, peer, "A", 2, None), Ok(true));
    assert_eq!(s.acquire(0, peer, "A", 1, None), Err(ThrottleError::ShrinkingLockCount));
    assert_eq!(s.acquire(0, peer, "A", 3, None), Err(ThrottleError::Deadlock { current: 0, requested: 0 }));
    assert_eq!(s.heartbeat(5, peer, ONE_SEC), Ok(()));
    assert_eq!(s.min_valid_until(), Some(5 + ONE_SEC));
    assert_eq!(s.heartbeat(5, 99, ONE_SEC), Err(ThrottleError::UnknownPeer));
}

/// A released peer is forgotten together with its locks, the others stay.
#[test]
fn release_forgets_peer() {
    let mut s = state(&[("A", 2, 0)]);
    let mut resolved = Vec::new();
    let one = s.new_peer(0, ONE_SEC);
    let two = s.new_peer(0, ONE_SEC);
    assert_eq!(s.acquire(0, one, "A", 2, None), Ok(true));
    assert_eq!(s.acquire(1, two, "A", 1, None), Ok(false));
    assert!(s.release(one, &mut resolved));
    assert_eq!(resolved, vec![two]);
    assert_eq!(s.is_acquired(one), Err(ThrottleError::UnknownPeer));
    assert_eq!(s.heartbeat(2, one, ONE_SEC), Err(ThrottleError::UnknownPeer));
    assert_eq!(s.is_acquired(two), Ok(true));
    assert!(!s.release(one, &mut resolved));
    assert_eq!(s.remainder("A"), Ok(1));
}

/// Litter collection is due at the earliest expiration: before it nothing expires.
#[test]
fn earliest_expiry() {
    let mut s = state(&[("A", 1, 0)]);
    let mut resolved = Vec::new();
    assert_eq!(s.min_valid_until(), None);
    let one = s.new_peer(0, 10);
    let _two = s.new_peer(0, 20);
    assert_eq!(s.min_valid_until(), Some(10));
    assert!(s.remove_expired(10, &mut resolved).is_empty());
    assert_eq!(s.remove_expired(11, &mut resolved), vec![one]);
    assert_eq!(s.min_valid_until(), Some(20));
}

#[test]
fn counts_per_semaphore() {
    let mut s = state(&[("A", 3, 0), ("B", 1, 0)]);
    let one = s.new_peer(0, ONE_SEC);
    let two = s.new_peer(0, ONE_SEC);
    s.acquire(4, one, "B", 1, None).unwrap();
    s.acquire(5, two, "B", 1, None).unwrap();
    assert!(s.totals_fit());
    let counts = s.counts();
    assert_eq!(counts.len(), 2);
    assert_eq!(
        *counts.value(0),
        Counts { acquired: 0, pending: 0, longest_pending_since: None }
    );
    assert_eq!(
        *counts.value(1),
        Counts { acquired: 1, pending: 1, longest_pending_since: Some(5) }
    );
    assert_eq!(s.semaphores().len(), 2);
}

/// Releasing one lock releases that lock only: a pending lock to another semaphore stays.
#[test]
fn release_lock_keeps_other_locks() {
    let mut levels = NameMap::new();
    levels.insert(String::from("A"), SemaphoreCfg { max: 1, level: 0 });
    levels.insert(String::from("B"), SemaphoreCfg { max: 1, level: 0 });
    let mut leases = Leases::new();
    let blocker = leases.new_peer(100);
    let peer = leases.new_peer(100);
    assert_eq!(leases.acquire(0, blocker, "A", 1, 1, 0, &levels), Ok(true));
    assert_eq!(leases.acquire(1, peer, "A", 1, 1, 0, &levels), Ok(false));
    // No lock to `B`: nothing is released, the pending lock to `A` stays.
    assert_eq!(leases.release_lock(peer, "B"), Ok(false));
    assert_eq!(leases.has_pending(peer), Ok(true));
    // The pending lock to `A` is released.
    assert_eq!(leases.release_lock(peer, "A"), Ok(true));
    assert_eq!(leases.has_pending(peer), Ok(false));

    let mut s = state(&[("A", 1, 0), ("B", 1, 0)]);
    let mut resolved = Vec::new();
    let holder = s.new_peer(0, ONE_SEC);
    let waiter = s.new_peer(0, ONE_SEC);
    assert_eq!(s.acquire(0, holder, "A", 1, None), Ok(true));
    assert_eq!(s.acquire(1, waiter, "A", 1, None), Ok(false));
    assert_eq!(s.release_lock(waiter, "B", &mut resolved), Ok(()));
    assert_eq!(s.is_acquired(waiter), Ok(false));
    let mut holders_resolved = Vec::new();
    s.release(holder, &mut holders_resolved);
    assert_eq!(holders_resolved, vec![waiter]);
}

/// A lock breaking the lock hierarchy is refused as a deadlock, even beyond the full count.
#[test]
fn hierarchy_checked_before_full_count() {
    let mut levels = NameMap::new();
    levels.insert(String::from("A"), SemaphoreCfg { max: 1, level: 0 });
    levels.insert(String::from("B"), SemaphoreCfg { max: 1, level: 1 });
    let mut leases = Leases::new();
    let peer = leases.new_peer(100);
    assert_eq!(leases.acquire(0, peer, "A", 1, 1, 0, &levels), Ok(true));
    assert_eq!(
        leases.acquire(0, peer, "B", 5, 1, 1, &levels),
        Err(ThrottleError::Deadlock { current: 0, requested: 1 })
    );
    // Repeating the granted request answers the same and takes nothing twice.
    assert_eq!(leases.acquire(0, peer, "A", 1, 1, 0, &levels), Ok(true));
    assert_eq!(leases.count("A"), 1);
}
