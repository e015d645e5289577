//! Decisions of the event loop which owns the state of the semaphore service. Each request reaches
//! the loop as an event; the loop changes the state and decides what to answer, whom to wake and
//! whether the requester has to wait. Receiving events, timers and waking are up to the caller.
use crate::application_cfg::SemaphoreCfg;
use crate::error::ThrottleError;
use crate::leases::{
    Counts, PeerId, PeerView, expired, released, resolve_steps, semaphores_of, total_acquired,
    earliest_expiry,
};
use crate::laws::{
    law_acquire_within_limits, law_heartbeat_within_limits, law_new_peer_within_limits,
    law_release_lock_within_limits, law_release_within_limits, law_remove_expired_within_limits,
    within_limits,
};
use crate::name_map::{NameMap, has_key};
use crate::state::{
    State, acquire_outcome, counts_of, max_of, prolonged, resolve_all, restore_answer,
    sorted_affected, totals_fit,
};
use vstd::prelude::*;

verus! {

/// A request to the semaphore service. Instants and durations are nanoseconds.
#[allow(inconsistent_fields)]
pub enum ServiceEvent {
    /// Create a new peer, with a given expiration time
    NewPeer { expires_in: u64 },
    /// Release Peer and all associated locks. `true` if peer did actually exist before the call.
    ReleasePeer { peer_id: PeerId },
    /// Acquire a lock, waiting for at most `wait_for` should it be pending.
    AcquireLock {
        peer_id: PeerId,
        semaphore: String,
        amount: i64,
        wait_for: Option<u64>,
        expires_in: Option<u64>,
    },
    /// Release the lock of a peer to a semaphore.
    ReleaseLock { peer_id: PeerId, semaphore: String },
    /// Whether all locks of the peer are acquired.
    IsAcquired { peer_id: PeerId },
    /// Prolong the life time of a peer.
    Heartbeat { peer_id: PeerId, expires_in: u64 },
    /// Full count minus acquired count of a semaphore.
    Remainder { semaphore: String },
    /// Restore a peer, which the service does not know (anymore), with its acquired locks.
    Restore { peer_id: PeerId, expires_in: u64, acquired: NameMap<i64> },
    /// Collect the accumulated counts of every semaphore.
    UpdateMetrics,
    /// Remove the peers which have expired.
    RemoveExpired,
}

/// The answer to an event.
pub enum Answer {
    PeerId(PeerId),
    Removed(bool),
    Acquired(Result<bool, ThrottleError>),
    Released(Result<(), ThrottleError>),
    IsAcquired(Result<bool, ThrottleError>),
    Heartbeat(Result<(), ThrottleError>),
    Remainder(Result<i64, ThrottleError>),
    Restored(Result<(), ThrottleError>),
    Metrics(NameMap<Counts>),
    Expired(Vec<PeerId>),
}

/// What the caller of the event loop has to do after an event has been handled.
pub struct Outcome {
    /// Answer to the requester.
    pub answer: Answer,
    /// Peers whose pending locks have been acquired: requests waiting for them are answered with
    /// success.
    pub resolved: Vec<PeerId>,
    /// Peers which have been removed due to expiration: requests waiting for them are answered
    /// with `UnknownPeer`.
    pub expired: Vec<PeerId>,
    /// Should the requested lock be pending, the time the requester wants to wait for it.
    pub wait_for: Option<u64>,
}

/// The event carries instants which fit the clock, and asks for sums only where they fit.
pub open spec fn event_admissible(
    cfg: Seq<(Seq<char>, SemaphoreCfg)>,
    m: Map<PeerId, PeerView>,
    now: u64,
    event: ServiceEvent,
) -> bool {
    match event {
        ServiceEvent::NewPeer { expires_in } => now + expires_in <= u64::MAX,
        ServiceEvent::AcquireLock { expires_in, .. } => expires_in matches Some(d) ==> now + d
            <= u64::MAX,
        ServiceEvent::Heartbeat { expires_in, .. } => now + expires_in <= u64::MAX,
        ServiceEvent::Restore { expires_in, acquired, .. } => now + expires_in <= u64::MAX
            && acquired.wf(),
        ServiceEvent::Remainder { .. } => totals_fit(cfg, m),
        ServiceEvent::UpdateMetrics => totals_fit(cfg, m),
        _ => true,
    }
}

/// Owns the state of the semaphore service and handles the events sent to it one after the other.
pub struct EventLoop {
    app_state: State,
}

impl EventLoop {
    /// The state of the service.
    pub closed spec fn app_state(&self) -> State {
        self.app_state
    }

    /// Configured semaphores.
    pub open spec fn config(&self) -> Seq<(Seq<char>, SemaphoreCfg)> {
        self.app_state().config()
    }

    /// The peers and their locks.
    pub open spec fn ledger(&self) -> Map<PeerId, PeerView> {
        self.app_state().ledger()
    }

    /// The state is well formed.
    pub open spec fn wf(&self) -> bool {
        self.app_state().wf()
    }

    /// Constructs the event loop with the configured semaphores and no peers.
    pub fn new(semaphores: NameMap<SemaphoreCfg>) -> (l: Self)
        requires
            semaphores.wf(),
        ensures
            l.wf(),
            l.config() == semaphores.entries(),
            l.ledger() == Map::<PeerId, PeerView>::empty(),
    {
        EventLoop { app_state: State::new(semaphores) }
    }

    /// The state of the service.
    pub fn state(&self) -> (s: &State)
        ensures
            *s == self.app_state(),
    {
        &self.app_state
    }

    /// Instant at which the next peer expires, and litter collection is due, if there are peers.
    pub fn min_valid_until(&self) -> (r: Option<u64>)
        ensures
            r == earliest_expiry(self.ledger()),
    {
        self.app_state.min_valid_until()
    }

    /// Handles one event at instant `now`.
    pub fn handle_event(&mut self, now: u64, event: ServiceEvent) -> (out: Outcome)
        requires
            old(self).wf(),
            event_admissible(old(self).config(), old(self).ledger(), now, event),
        ensures
            final(self).wf(),
            final(self).config() == old(self).config(),
            out.wait_for is Some ==> out.answer == Answer::Acquired(Ok(false)),
            // Only restoring revenant peers may take a semaphore beyond its full count.
            !(event is Restore) && within_limits(old(self).config(), old(self).ledger())
                ==> within_limits(final(self).config(), final(self).ledger()),
            event !is RemoveExpired ==> out.expired@ == Seq::<PeerId>::empty(),
            match event {
                ServiceEvent::NewPeer { expires_in } => {
                    &&& out.answer matches Answer::PeerId(id) && !old(self).ledger().contains_key(id)
                        && final(self).ledger() == old(self).ledger().insert(
                        id,
                        PeerView {
                            acquired: Seq::empty(),
                            pending: None,
                            valid_until: (now + expires_in) as u64,
                        },
                    )
                    &&& out.resolved@ == Seq::<PeerId>::empty()
                    &&& out.wait_for is None
                },
                ServiceEvent::ReleasePeer { peer_id } => {
                    let m = old(self).ledger();
                    let r = m.contains_key(peer_id);
                    let after = resolve_all(m.remove(peer_id), semaphores_of(m[peer_id]), old(self).config());
                    &&& out.answer == Answer::Removed(r)
                    &&& r ==> final(self).ledger() == after.0 && out.resolved@ == after.1
                    &&& !r ==> final(self).ledger() == m && out.resolved@ == Seq::<PeerId>::empty()
                    &&& out.wait_for is None
                },
                ServiceEvent::AcquireLock { peer_id, semaphore, amount, wait_for, expires_in } => {
                    let o = acquire_outcome(
                        old(self).config(),
                        old(self).ledger(),
                        now,
                        peer_id,
                        semaphore@,
                        amount,
                        expires_in,
                    );
                    &&& out.answer == Answer::Acquired(o.0)
                    &&& final(self).ledger() == o.1
                    &&& out.resolved@ == Seq::<PeerId>::empty()
                    &&& out.wait_for == (if o.0 == Ok::<bool, ThrottleError>(false) {
                        wait_for
                    } else {
                        None
                    })
                },
                ServiceEvent::ReleaseLock { peer_id, semaphore } => {
                    let cfg = old(self).config();
                    let m = old(self).ledger();
                    let r = if !has_key(cfg, semaphore@) {
                        Err(ThrottleError::UnknownSemaphore)
                    } else if !m.contains_key(peer_id) {
                        Err(ThrottleError::UnknownPeer)
                    } else {
                        Ok(())
                    };
                    let m1 = m.insert(peer_id, released(m[peer_id], semaphore@));
                    let steps = resolve_steps(
                        m1,
                        semaphore@,
                        max_of(cfg, semaphore@) - total_acquired(m1, semaphore@),
                    );
                    &&& out.answer == Answer::Released(r)
                    &&& r is Err ==> final(self).ledger() == m && out.resolved@ == Seq::<PeerId>::empty()
                    &&& r is Ok ==> final(self).ledger() == steps.0 && out.resolved@ == steps.1
                    &&& out.wait_for is None
                },
                ServiceEvent::IsAcquired { peer_id } => {
                    let m = old(self).ledger();
                    &&& out.answer == Answer::IsAcquired(
                        if m.contains_key(peer_id) {
                            Ok(m[peer_id].pending is None)
                        } else {
                            Err(ThrottleError::UnknownPeer)
                        },
                    )
                    &&& final(self).ledger() == m
                    &&& out.resolved@ == Seq::<PeerId>::empty()
                    &&& out.wait_for is None
                },
                ServiceEvent::Heartbeat { peer_id, expires_in } => {
                    let m = old(self).ledger();
                    &&& out.answer == Answer::Heartbeat(
                        if m.contains_key(peer_id) {
                            Ok(())
                        } else {
                            Err(ThrottleError::UnknownPeer)
                        },
                    )
                    &&& final(self).ledger() == (if m.contains_key(peer_id) {
                        m.insert(peer_id, prolonged(m[peer_id], (now + expires_in) as u64))
                    } else {
                        m
                    })
                    &&& out.resolved@ == Seq::<PeerId>::empty()
                    &&& out.wait_for is None
                },
                ServiceEvent::Remainder { semaphore } => {
                    let cfg = old(self).config();
                    let m = old(self).ledger();
                    &&& out.answer == Answer::Remainder(
                        if has_key(cfg, semaphore@) {
                            Ok((max_of(cfg, semaphore@) - total_acquired(m, semaphore@)) as i64)
                        } else {
                            Err(ThrottleError::UnknownSemaphore)
                        },
                    )
                    &&& final(self).ledger() == m
                    &&& out.resolved@ == Seq::<PeerId>::empty()
                    &&& out.wait_for is None
                },
                ServiceEvent::Restore { peer_id, expires_in, acquired } => {
                    let r = restore_answer(old(self).config(), old(self).ledger(), peer_id, acquired.entries());
                    let m = old(self).ledger();
                    &&& out.answer == Answer::Restored(r)
                    &&& final(self).ledger() == (if r is Ok && !m.contains_key(peer_id) {
                        m.insert(
                            peer_id,
                            PeerView {
                                acquired: acquired.entries(),
                                pending: None,
                                valid_until: (now + expires_in) as u64,
                            },
                        )
                    } else {
                        m
                    })
                    &&& out.resolved@ == Seq::<PeerId>::empty()
                    &&& out.wait_for is None
                },
                ServiceEvent::UpdateMetrics => {
                    let cfg = old(self).config();
                    let m = old(self).ledger();
                    &&& out.answer matches Answer::Metrics(c) && c.wf() && c.entries().len()
                        == cfg.len() && forall|i: int|
                        0 <= i < cfg.len() ==> #[trigger] c.entries()[i] == (
                            cfg[i].0,
                            counts_of(m, cfg[i].0),
                        )
                    &&& final(self).ledger() == m
                    &&& out.resolved@ == Seq::<PeerId>::empty()
                    &&& out.wait_for is None
                },
                ServiceEvent::RemoveExpired => {
                    let m = old(self).ledger();
                    let after = resolve_all(
                        m.remove_keys(expired(m, now)),
                        sorted_affected(m, now),
                        old(self).config(),
                    );
                    &&& out.answer matches Answer::Expired(e) && e@ == out.expired@
                    &&& out.expired@.no_duplicates()
                    &&& out.expired@.to_set() == expired(m, now)
                    &&& final(self).ledger() == after.0
                    &&& out.resolved@ == after.1
                    &&& out.wait_for is None
                },
            },
    {
        let mut resolved: Vec<PeerId> = Vec::new();
        let ghost cfg = self.config();
        let ghost m = self.ledger();
        match event {
            ServiceEvent::NewPeer { expires_in } => {
                let peer_id = self.app_state.new_peer(now, expires_in);
                proof {
                    if within_limits(cfg, m) {
                        law_new_peer_within_limits(cfg, m, peer_id, (now + expires_in) as u64);
                    }
                }
                Outcome { answer: Answer::PeerId(peer_id), resolved, expired: Vec::new(), wait_for: None }
            },
            ServiceEvent::ReleasePeer { peer_id } => {
                let removed = self.app_state.release(peer_id, &mut resolved);
                proof {
                    if within_limits(cfg, m) && removed {
                        law_release_within_limits(cfg, m, peer_id);
                    }
                }
                Outcome { answer: Answer::Removed(removed), resolved, expired: Vec::new(), wait_for: None }
            },
            ServiceEvent::AcquireLock { peer_id, semaphore, amount, wait_for, expires_in } => {
                let acquired = self.app_state.acquire(now, peer_id, semaphore.as_str(), amount, expires_in);
                proof {
                    if within_limits(cfg, m) {
                        law_acquire_within_limits(cfg, m, now, peer_id, semaphore@, amount, expires_in);
                    }
                }
                // We could not acquire the lock immediately. Is the requester going to wait for it?
                let wait = match acquired {
                    Ok(false) => wait_for,
                    _ => None,
                };
                Outcome { answer: Answer::Acquired(acquired), resolved, expired: Vec::new(), wait_for: wait }
            },
            ServiceEvent::ReleaseLock { peer_id, semaphore } => {
                let result = self.app_state.release_lock(peer_id, semaphore.as_str(), &mut resolved);
                proof {
                    if within_limits(cfg, m) && result is Ok {
                        law_release_lock_within_limits(cfg, m, peer_id, semaphore@);
                    }
                }
                Outcome { answer: Answer::Released(result), resolved, expired: Vec::new(), wait_for: None }
            },
            ServiceEvent::IsAcquired { peer_id } => {
                let result = self.app_state.is_acquired(peer_id);
                Outcome { answer: Answer::IsAcquired(result), resolved, expired: Vec::new(), wait_for: None }
            },
            ServiceEvent::Heartbeat { peer_id, expires_in } => {
                let result = self.app_state.heartbeat(now, peer_id, expires_in);
                proof {
                    if within_limits(cfg, m) && result is Ok {
                        law_heartbeat_within_limits(cfg, m, peer_id, (now + expires_in) as u64);
                    }
                }
                Outcome { answer: Answer::Heartbeat(result), resolved, expired: Vec::new(), wait_for: None }
            },
            ServiceEvent::Remainder { semaphore } => {
                proof {
                    self.app_state.lemma_fit_remainder(semaphore@);
                }
                let result = self.app_state.remainder(semaphore.as_str());
                Outcome { answer: Answer::Remainder(result), resolved, expired: Vec::new(), wait_for: None }
            },
            ServiceEvent::Restore { peer_id, expires_in, acquired } => {
                let result = self.app_state.restore(now, peer_id, expires_in, &acquired);
                Outcome { answer: Answer::Restored(result), resolved, expired: Vec::new(), wait_for: None }
            },
            ServiceEvent::UpdateMetrics => {
                let counts = self.app_state.counts();
                Outcome { answer: Answer::Metrics(counts), resolved, expired: Vec::new(), wait_for: None }
            },
            ServiceEvent::RemoveExpired => {
                let expired_peers = self.app_state.remove_expired(now, &mut resolved);
                proof {
                    if within_limits(cfg, m) {
                        law_remove_expired_within_limits(cfg, m, now);
                    }
                }
                let answer = Answer::Expired(expired_peers.clone());
                Outcome { answer, resolved, expired: expired_peers, wait_for: None }
            },
        }
    }
}

} // verus!
