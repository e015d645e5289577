//! Properties the semaphore service keeps from one request to the next: the full count of a
//! semaphore is never exceeded (restoring revenant peers being the one exception), pending locks
//! are granted in the order they were requested, large locks are not starved, acquiring is
//! idempotent and lock hierarchies are enforced.
use crate::application_cfg::SemaphoreCfg;
use crate::error::ThrottleError;
use crate::leases::{
    PeerId, PeerView, acquire_result, acquired_count, acquired_in, demand, demand_in,
    earliest_expiry, expired, is_next, ledger_wf, lemma_ledger_wf_insert, lemma_peer_counts,
    lemma_waiting_after_promotion, next_waiting, peer_wf, pending_count, pending_since, precedes,
    promoted, released, resolve_steps, semaphores_of, total_acquired, total_demand, valid_until_of,
    waiting, with_new_lock,
};
use crate::name_map::{has_key, lookup, lemma_lookup, lemma_lookup_absent, lemma_lookup_push, lemma_lookup_remove};
use crate::state::{
    acquire_outcome, lemma_resolve_all_keeps, lemma_resolve_steps_keeps, max_of, peer_configured,
    prolonged, resolve_all, restore_answer, sorted_affected, state_wf,
};
use crate::tally::{
    lemma_least_bounds, lemma_tally_congruent, lemma_tally_insert, lemma_tally_le, lemma_tally_subset,
    lemma_tally_update,
};
use vstd::prelude::*;

verus! {

/// No configured semaphore has locks acquired beyond its full count.
pub open spec fn within_limits(cfg: Seq<(Seq<char>, SemaphoreCfg)>, m: Map<PeerId, PeerView>) -> bool {
    forall|s: Seq<char>| has_key(cfg, s) ==> #[trigger] total_acquired(m, s) <= max_of(cfg, s)
}

/// Promoting the pending lock of a peer adds its count to the acquired ones.
proof fn lemma_promoted(p: PeerView, x: Seq<char>)
    requires
        peer_wf(p),
        p.pending is Some,
    ensures
        peer_wf(promoted(p)),
        acquired_count(promoted(p), x) == acquired_count(p, x) + pending_count(p, x),
        promoted(p).valid_until == p.valid_until,
{
    let l = p.pending->0;
    lemma_lookup_push(p.acquired, l.semaphore, l.count);
    lemma_lookup_absent(p.acquired, l.semaphore);
    let e = promoted(p).acquired;
    assert forall|i: int| 0 <= i < e.len() implies #[trigger] e[i].1 >= 1 by {
        if i < p.acquired.len() {
            assert(e[i] == p.acquired[i]);
        }
    }
}

/// Releasing a lock leaves a well formed peer with no larger acquired counts.
proof fn lemma_released(p: PeerView, s: Seq<char>, x: Seq<char>)
    requires
        peer_wf(p),
    ensures
        peer_wf(released(p, s)),
        acquired_count(released(p, s), x) <= acquired_count(p, x),
{
    lemma_peer_counts(p, x);
    if has_key(p.acquired, s) {
        lemma_lookup_remove(p.acquired, s, x);
        let q = released(p, s);
        let e = q.acquired;
        assert forall|i: int| 0 <= i < e.len() implies #[trigger] e[i].1 >= 1 by {
            let j = choose|j: int| 0 <= j < p.acquired.len() && p.acquired[j] == #[trigger] e[i];
        }
        match p.pending {
            Some(l) => {
                lemma_lookup_remove(p.acquired, s, l.semaphore);
                lemma_lookup(p.acquired, l.semaphore);
                lemma_lookup(e, l.semaphore);
            },
            None => {},
        }
    }
}

/// Resolving pending locks of `s` with a remainder that does not reach beyond the full count keeps
/// every semaphore within its limits.
proof fn lemma_resolve_steps_within(
    cfg: Seq<(Seq<char>, SemaphoreCfg)>,
    m: Map<PeerId, PeerView>,
    s: Seq<char>,
    r: int,
)
    requires
        ledger_wf(m),
        m.dom().finite(),
        within_limits(cfg, m),
        total_acquired(m, s) + r <= max_of(cfg, s),
    ensures
        within_limits(cfg, resolve_steps(m, s, r).0),
    decreases waiting(m, s).len(),
{
    match next_waiting(m, s) {
        Some(id) => {
            let p = m[id];
            let rest = r - p.pending->0.count;
            if rest >= 0 {
                lemma_waiting_after_promotion(m, s, id);
                assert(is_next(m, s, id));
                let m1 = m.insert(id, promoted(p));
                assert forall|x: Seq<char>| #[trigger] total_acquired(m1, x) == total_acquired(m, x) + pending_count(p, x) by {
                    lemma_promoted(p, x);
                    lemma_tally_update(m, acquired_in(x), id, promoted(p));
                }
                assert(pending_count(p, s) == p.pending->0.count);
                assert forall|x: Seq<char>| has_key(cfg, x) implies #[trigger] total_acquired(m1, x) <= max_of(cfg, x) by {
                    assert(total_acquired(m1, x) == total_acquired(m, x) + pending_count(p, x));
                    assert(total_acquired(m, x) <= max_of(cfg, x));
                }
                lemma_promoted(p, s);
                lemma_ledger_wf_insert(m, id, promoted(p));
                lemma_resolve_steps_within(cfg, m1, s, rest);
            }
        },
        None => {},
    }
}

/// Resolving the pending locks of several semaphores, each up to its full count, keeps every
/// semaphore within its limits.
proof fn lemma_resolve_all_within(
    cfg: Seq<(Seq<char>, SemaphoreCfg)>,
    m: Map<PeerId, PeerView>,
    sems: Seq<Seq<char>>,
)
    requires
        state_wf(cfg, m),
        within_limits(cfg, m),
    ensures
        within_limits(cfg, resolve_all(m, sems, cfg).0),
    decreases sems.len(),
{
    if sems.len() > 0 {
        let s = sems[0];
        let r = max_of(cfg, s) - total_acquired(m, s);
        lemma_resolve_steps_within(cfg, m, s, r);
        lemma_resolve_steps_keeps(m, s, r, cfg);
        lemma_resolve_all_within(cfg, resolve_steps(m, s, r).0, sems.drop_first());
    }
}

/// A well formed peer has no more acquired than demanded of a semaphore.
proof fn lemma_acquired_le_demand(p: PeerView, s: Seq<char>)
    requires
        peer_wf(p),
    ensures
        acquired_count(p, s) <= demand(p, s),
{
    lemma_peer_counts(p, s);
    match p.pending {
        Some(l) => {
            if l.semaphore == s {
                lemma_lookup_absent(p.acquired, s);
            }
        },
        None => {},
    }
}

/// Moving the expiration of a peer changes no count.
proof fn lemma_prolonged_totals(m: Map<PeerId, PeerView>, id: PeerId, t: u64, x: Seq<char>)
    requires
        m.dom().finite(),
        m.contains_key(id),
    ensures
        total_acquired(m.insert(id, prolonged(m[id], t)), x) == total_acquired(m, x),
        total_demand(m.insert(id, prolonged(m[id], t)), x) == total_demand(m, x),
{
    lemma_tally_update(m, acquired_in(x), id, prolonged(m[id], t));
    lemma_tally_update(m, demand_in(x), id, prolonged(m[id], t));
}

/// Creating a peer keeps every semaphore within its limits.
pub proof fn law_new_peer_within_limits(
    cfg: Seq<(Seq<char>, SemaphoreCfg)>,
    m: Map<PeerId, PeerView>,
    id: PeerId,
    valid_until: u64,
)
    requires
        state_wf(cfg, m),
        within_limits(cfg, m),
        !m.contains_key(id),
    ensures
        within_limits(
            cfg,
            m.insert(id, PeerView { acquired: Seq::empty(), pending: None, valid_until }),
        ),
{
    let p = PeerView { acquired: Seq::empty(), pending: None, valid_until };
    let m1 = m.insert(id, p);
    assert forall|x: Seq<char>| has_key(cfg, x) implies #[trigger] total_acquired(m1, x) <= max_of(cfg, x) by {
        assert(m1.dom() =~= m.dom().insert(id));
        lemma_tally_insert(m.dom(), m1, acquired_in(x), id);
        lemma_tally_congruent(m.dom(), m, acquired_in(x), m1, acquired_in(x));
        assert(acquired_count(p, x) == 0);
        assert(total_acquired(m, x) <= max_of(cfg, x));
    }
}

/// Prolonging the life time of a peer keeps every semaphore within its limits.
pub proof fn law_heartbeat_within_limits(
    cfg: Seq<(Seq<char>, SemaphoreCfg)>,
    m: Map<PeerId, PeerView>,
    id: PeerId,
    valid_until: u64,
)
    requires
        state_wf(cfg, m),
        within_limits(cfg, m),
        m.contains_key(id),
    ensures
        within_limits(cfg, m.insert(id, prolonged(m[id], valid_until))),
{
    assert forall|x: Seq<char>| has_key(cfg, x) implies #[trigger] total_acquired(m.insert(id, prolonged(m[id], valid_until)), x) <= max_of(cfg, x) by {
        lemma_prolonged_totals(m, id, valid_until, x);
        assert(total_acquired(m, x) <= max_of(cfg, x));
    }
}

/// Acquiring a lock keeps every semaphore within its limits: a new lock is only granted while
/// it fits.
pub proof fn law_acquire_within_limits(
    cfg: Seq<(Seq<char>, SemaphoreCfg)>,
    m: Map<PeerId, PeerView>,
    now: u64,
    id: PeerId,
    s: Seq<char>,
    amount: i64,
    expires_in: Option<u64>,
)
    requires
        state_wf(cfg, m),
        within_limits(cfg, m),
    ensures
        within_limits(cfg, acquire_outcome(cfg, m, now, id, s, amount, expires_in).1),
{
    if has_key(cfg, s) && max_of(cfg, s) >= amount && !(expires_in is Some && !m.contains_key(id)) {
        let m1 = match expires_in {
            Some(d) => m.insert(id, prolonged(m[id], (now + d) as u64)),
            None => m,
        };
        assert(ledger_wf(m1) && m1.dom().finite() && within_limits(cfg, m1)
            && forall|x: Seq<char>| #[trigger] total_demand(m1, x) == total_demand(m, x)) by {
            match expires_in {
                Some(d) => {
                    let t = (now + d) as u64;
                    assert(m1.dom() =~= m.dom());
                    lemma_ledger_wf_insert(m, id, prolonged(m[id], t));
                    assert forall|x: Seq<char>| has_key(cfg, x) implies #[trigger] total_acquired(m1, x) <= max_of(cfg, x) by {
                        lemma_prolonged_totals(m, id, t, x);
                        assert(total_acquired(m, x) <= max_of(cfg, x));
                    }
                    assert forall|x: Seq<char>| #[trigger] total_demand(m1, x) == total_demand(m, x) by {
                        lemma_prolonged_totals(m, id, t, x);
                    }
                },
                None => {},
            }
        }
        let r = acquire_result(m1, id, s, amount, max_of(cfg, s), crate::leases::level_of(cfg, s), cfg);
        if r is Ok && demand(m1[id], s) == 0 {
            let p = m1[id];
            let q = with_new_lock(p, s, amount, r->Ok_0, now);
            let m2 = m1.insert(id, q);
            lemma_peer_counts(p, s);
            lemma_lookup(p.acquired, s);
            assert forall|x: Seq<char>| has_key(cfg, x) implies #[trigger] total_acquired(m2, x) <= max_of(cfg, x) by {
                lemma_tally_update(m1, acquired_in(x), id, q);
                assert(total_acquired(m1, x) <= max_of(cfg, x));
                if r->Ok_0 {
                    lemma_lookup_push(p.acquired, s, amount);
                    if x == s {
                        assert forall|j: PeerId| m1.dom().contains(j) implies acquired_in(s)(m1[j]) <= demand_in(s)(m1[j]) by {
                            lemma_acquired_le_demand(m1[j], s);
                        }
                        lemma_tally_le(m1.dom(), m1, acquired_in(s), m1, demand_in(s));
                        assert(total_demand(m1, s) + amount <= max_of(cfg, s));
                    }
                }
            }
        }
    }
}

/// A ledger with fewer peers stays well formed.
proof fn lemma_fewer_peers_wf(cfg: Seq<(Seq<char>, SemaphoreCfg)>, m: Map<PeerId, PeerView>, ids: Set<PeerId>)
    requires
        state_wf(cfg, m),
    ensures
        state_wf(cfg, m.remove_keys(ids)),
{
    let m1 = m.remove_keys(ids);
    assert(m1.dom().subset_of(m.dom()));
    vstd::set_lib::lemma_set_subset_finite(m.dom(), m1.dom());
    assert forall|i: PeerId| m1.contains_key(i) implies peer_wf(#[trigger] m1[i]) by {
        assert(m.contains_key(i));
    }
    assert forall|i: PeerId| m1.contains_key(i) implies peer_configured(#[trigger] m1[i], cfg) by {
        assert(m.contains_key(i));
    }
}

/// A ledger with fewer peers stays within the limits, and well formed.
proof fn lemma_fewer_peers(cfg: Seq<(Seq<char>, SemaphoreCfg)>, m: Map<PeerId, PeerView>, ids: Set<PeerId>)
    requires
        state_wf(cfg, m),
        within_limits(cfg, m),
    ensures
        state_wf(cfg, m.remove_keys(ids)),
        within_limits(cfg, m.remove_keys(ids)),
{
    let m1 = m.remove_keys(ids);
    lemma_fewer_peers_wf(cfg, m, ids);
    assert forall|x: Seq<char>| has_key(cfg, x) implies #[trigger] total_acquired(m1, x) <= max_of(cfg, x) by {
        lemma_tally_congruent(m1.dom(), m1, acquired_in(x), m, acquired_in(x));
        assert forall|j: PeerId| m.dom().contains(j) implies 0 <= #[trigger] acquired_in(x)(m[j]) by {
            lemma_peer_counts(m[j], x);
        }
        lemma_tally_subset(m1.dom(), m.dom(), m, acquired_in(x));
        assert(total_acquired(m, x) <= max_of(cfg, x));
    }
}

/// Releasing a peer, with all its locks, keeps every semaphore within its limits.
pub proof fn law_release_within_limits(cfg: Seq<(Seq<char>, SemaphoreCfg)>, m: Map<PeerId, PeerView>, id: PeerId)
    requires
        state_wf(cfg, m),
        within_limits(cfg, m),
        m.contains_key(id),
    ensures
        within_limits(cfg, resolve_all(m.remove(id), semaphores_of(m[id]), cfg).0),
{
    lemma_fewer_peers(cfg, m, set![id]);
    assert(m.remove_keys(set![id]) =~= m.remove(id));
    lemma_resolve_all_within(cfg, m.remove(id), semaphores_of(m[id]));
}

/// Releasing one lock of a peer keeps every semaphore within its limits.
pub proof fn law_release_lock_within_limits(
    cfg: Seq<(Seq<char>, SemaphoreCfg)>,
    m: Map<PeerId, PeerView>,
    id: PeerId,
    s: Seq<char>,
)
    requires
        state_wf(cfg, m),
        within_limits(cfg, m),
        m.contains_key(id),
    ensures
        ({
            let m1 = m.insert(id, released(m[id], s));
            within_limits(cfg, resolve_steps(m1, s, max_of(cfg, s) - total_acquired(m1, s)).0)
        }),
{
    let p = m[id];
    let m1 = m.insert(id, released(p, s));
    lemma_released(p, s, s);
    lemma_ledger_wf_insert(m, id, released(p, s));
    assert(m1.dom() =~= m.dom());
    assert forall|x: Seq<char>| has_key(cfg, x) implies #[trigger] total_acquired(m1, x) <= max_of(cfg, x) by {
        lemma_released(p, s, x);
        lemma_tally_update(m, acquired_in(x), id, released(p, s));
        assert(total_acquired(m, x) <= max_of(cfg, x));
    }
    lemma_resolve_steps_within(cfg, m1, s, max_of(cfg, s) - total_acquired(m1, s));
}

/// Removing the expired peers, and granting the locks this frees, keeps every semaphore within
/// its limits.
pub proof fn law_remove_expired_within_limits(cfg: Seq<(Seq<char>, SemaphoreCfg)>, m: Map<PeerId, PeerView>, now: u64)
    requires
        state_wf(cfg, m),
        within_limits(cfg, m),
    ensures
        within_limits(
            cfg,
            resolve_all(m.remove_keys(expired(m, now)), sorted_affected(m, now), cfg).0,
        ),
{
    lemma_fewer_peers(cfg, m, expired(m, now));
    lemma_resolve_all_within(cfg, m.remove_keys(expired(m, now)), sorted_affected(m, now));
}

/// Pending locks are granted in the order they were requested. Resolving the pending locks of a
/// semaphore grants locks only to peers waiting for it, the longest waiting first, and every peer
/// whose lock is granted has waited at least as long as every peer still waiting afterwards: no
/// smaller lock overtakes a larger one that waits longer, so large locks are not starved.
pub proof fn law_fair_resolution(m: Map<PeerId, PeerView>, s: Seq<char>, r: int)
    requires
        m.dom().finite(),
    ensures
        ({
            let (m2, ids) = resolve_steps(m, s, r);
            &&& forall|i: int| 0 <= i < ids.len() ==> waiting(m, s).contains(#[trigger] ids[i])
            &&& forall|i: int, j: int| 0 <= i < j < ids.len() ==> precedes(m, s, #[trigger] ids[i], #[trigger] ids[j])
            &&& forall|b: PeerId| #[trigger] waiting(m2, s).contains(b) ==> waiting(m, s).contains(b)
                && pending_since(m2[b], s) == pending_since(m[b], s)
            &&& forall|i: int, b: PeerId| 0 <= i < ids.len() && #[trigger] waiting(m2, s).contains(b)
                ==> precedes(m, s, #[trigger] ids[i], b)
        }),
    decreases waiting(m, s).len(),
{
    match next_waiting(m, s) {
        Some(id) => {
            let rest = r - m[id].pending->0.count;
            if rest >= 0 {
                lemma_waiting_after_promotion(m, s, id);
                assert(is_next(m, s, id));
                let m1 = m.insert(id, promoted(m[id]));
                law_fair_resolution(m1, s, rest);
                let (m2, rec) = resolve_steps(m1, s, rest);
                let ids = seq![id] + rec;
                assert(resolve_steps(m, s, r) == (m2, ids));
                assert forall|i: int| 0 <= i < ids.len() implies waiting(m, s).contains(#[trigger] ids[i]) by {
                    if i > 0 {
                        assert(ids[i] == rec[i - 1]);
                        assert(waiting(m1, s).contains(rec[i - 1]));
                    }
                }
                assert forall|i: int, j: int| 0 <= i < j < ids.len() implies precedes(m, s, #[trigger] ids[i], #[trigger] ids[j]) by {
                    assert(ids[j] == rec[j - 1]);
                    assert(waiting(m1, s).contains(rec[j - 1]));
                    if i == 0 {
                        assert(waiting(m, s).contains(ids[j]));
                    } else {
                        assert(ids[i] == rec[i - 1]);
                        assert(waiting(m1, s).contains(rec[i - 1]));
                        assert(precedes(m1, s, rec[i - 1], rec[j - 1]));
                    }
                }
                assert forall|b: PeerId| #[trigger] waiting(m2, s).contains(b) implies waiting(m, s).contains(b)
                    && pending_since(m2[b], s) == pending_since(m[b], s) by {
                    assert(waiting(m1, s).contains(b));
                }
                assert forall|i: int, b: PeerId| 0 <= i < ids.len() && #[trigger] waiting(m2, s).contains(b)
                    implies precedes(m, s, #[trigger] ids[i], b) by {
                    assert(waiting(m1, s).contains(b));
                    if i > 0 {
                        assert(ids[i] == rec[i - 1]);
                        assert(waiting(m1, s).contains(rec[i - 1]));
                        assert(precedes(m1, s, rec[i - 1], b));
                    }
                }
            }
        },
        None => {},
    }
}

/// A new lock is granted right away only if it fits besides all locks acquired and all locks
/// pending: a lock with a large count is not starved by a stream of small ones.
pub proof fn law_new_lock_needs_room(
    cfg: Seq<(Seq<char>, SemaphoreCfg)>,
    m: Map<PeerId, PeerView>,
    now: u64,
    id: PeerId,
    s: Seq<char>,
    amount: i64,
    expires_in: Option<u64>,
)
    requires
        state_wf(cfg, m),
        m.contains_key(id),
        demand(m[id], s) == 0,
        acquire_outcome(cfg, m, now, id, s, amount, expires_in).0 == Ok::<bool, ThrottleError>(true),
    ensures
        total_demand(m, s) + amount <= max_of(cfg, s),
{
    match expires_in {
        Some(d) => {
            lemma_prolonged_totals(m, id, (now + d) as u64, s);
        },
        None => {},
    }
}

/// Repeating a request for a lock which has been answered changes nothing and gives the same
/// answer: acquiring is idempotent.
pub proof fn law_acquire_idempotent(
    cfg: Seq<(Seq<char>, SemaphoreCfg)>,
    m: Map<PeerId, PeerView>,
    now: u64,
    id: PeerId,
    s: Seq<char>,
    amount: i64,
    expires_in: Option<u64>,
    later: u64,
)
    requires
        state_wf(cfg, m),
        acquire_outcome(cfg, m, now, id, s, amount, expires_in).0 is Ok,
    ensures
        ({
            let first = acquire_outcome(cfg, m, now, id, s, amount, expires_in);
            acquire_outcome(cfg, first.1, later, id, s, amount, None) == first
        }),
{
    let m1 = match expires_in {
        Some(d) => m.insert(id, prolonged(m[id], (now + d) as u64)),
        None => m,
    };
    let p = m1[id];
    assert(peer_wf(p)) by {
        assert(peer_wf(m[id]));
    }
    let r = acquire_result(m1, id, s, amount, max_of(cfg, s), crate::leases::level_of(cfg, s), cfg);
    if demand(p, s) == 0 {
        let q = with_new_lock(p, s, amount, r->Ok_0, now);
        lemma_peer_counts(p, s);
        lemma_lookup(p.acquired, s);
        lemma_lookup_push(p.acquired, s, amount);
        assert(demand(q, s) == amount);
    }
}

/// The lowest lock level among the locks a peer holds is not above the level of any of them.
proof fn lemma_peer_level(acquired: Seq<(Seq<char>, i64)>, cfg: Seq<(Seq<char>, SemaphoreCfg)>, t: Seq<char>)
    requires
        has_key(acquired, t),
    ensures
        crate::leases::peer_level(acquired, cfg) matches Some(c) && c <= crate::leases::level_of(cfg, t),
    decreases acquired.len(),
{
    let i = choose|i: int| 0 <= i < acquired.len() && #[trigger] acquired[i].0 == t;
    if i < acquired.len() - 1 {
        let rest = acquired.drop_last();
        assert(rest[i].0 == t);
        lemma_peer_level(rest, cfg, t);
    }
}

/// Lock hierarchies are enforced: a peer holding a lock at some level is refused a new lock at
/// that level or above, as it might deadlock.
pub proof fn law_lock_hierarchy(
    cfg: Seq<(Seq<char>, SemaphoreCfg)>,
    m: Map<PeerId, PeerView>,
    now: u64,
    id: PeerId,
    s: Seq<char>,
    amount: i64,
    expires_in: Option<u64>,
    t: Seq<char>,
)
    requires
        state_wf(cfg, m),
        m.contains_key(id),
        has_key(cfg, s),
        1 <= amount <= max_of(cfg, s),
        demand(m[id], s) == 0,
        has_key(m[id].acquired, t),
        crate::leases::level_of(cfg, t) <= crate::leases::level_of(cfg, s),
    ensures
        acquire_outcome(cfg, m, now, id, s, amount, expires_in) matches (Err(ThrottleError::Deadlock { current, requested }), m2)
            && current <= requested && requested == crate::leases::level_of(cfg, s)
            && m2 == (match expires_in {
                Some(d) => m.insert(id, prolonged(m[id], (now + d) as u64)),
                None => m,
            }),
{
    lemma_peer_level(m[id].acquired, cfg, t);
}

/// Releasing a peer removes it together with all its locks; every other peer stays.
pub proof fn law_release_forgets_peer(cfg: Seq<(Seq<char>, SemaphoreCfg)>, m: Map<PeerId, PeerView>, id: PeerId)
    requires
        state_wf(cfg, m),
        m.contains_key(id),
    ensures
        resolve_all(m.remove(id), semaphores_of(m[id]), cfg).0.dom() == m.dom().remove(id),
{
    lemma_fewer_peers_wf(cfg, m, set![id]);
    assert(m.remove_keys(set![id]) =~= m.remove(id));
    lemma_resolve_all_keeps(m.remove(id), semaphores_of(m[id]), cfg);
}

/// Resolving pending locks keeps the instants until which the peers are valid.
proof fn lemma_resolve_steps_valid_until(m: Map<PeerId, PeerView>, s: Seq<char>, r: int)
    requires
        m.dom().finite(),
    ensures
        forall|id: PeerId| #[trigger] resolve_steps(m, s, r).0.contains_key(id) ==> m.contains_key(id)
            && resolve_steps(m, s, r).0[id].valid_until == m[id].valid_until,
    decreases waiting(m, s).len(),
{
    match next_waiting(m, s) {
        Some(id) => {
            let rest = r - m[id].pending->0.count;
            if rest >= 0 {
                lemma_waiting_after_promotion(m, s, id);
                assert(is_next(m, s, id));
                lemma_resolve_steps_valid_until(m.insert(id, promoted(m[id])), s, rest);
            }
        },
        None => {},
    }
}

proof fn lemma_resolve_all_valid_until(
    m: Map<PeerId, PeerView>,
    sems: Seq<Seq<char>>,
    cfg: Seq<(Seq<char>, SemaphoreCfg)>,
)
    requires
        m.dom().finite(),
    ensures
        forall|id: PeerId| #[trigger] resolve_all(m, sems, cfg).0.contains_key(id) ==> m.contains_key(id)
            && resolve_all(m, sems, cfg).0[id].valid_until == m[id].valid_until,
    decreases sems.len(),
{
    if sems.len() > 0 {
        let s = sems[0];
        let r = max_of(cfg, s) - total_acquired(m, s);
        lemma_resolve_steps_valid_until(m, s, r);
        let m1 = resolve_steps(m, s, r).0;
        assert(m1.dom().subset_of(m.dom()));
        vstd::set_lib::lemma_set_subset_finite(m.dom(), m1.dom());
        lemma_resolve_all_valid_until(m1, sems.drop_first(), cfg);
    }
}

/// Litter collection at `now` keeps exactly the peers still valid at `now`.
pub proof fn law_remove_expired_keeps_valid(cfg: Seq<(Seq<char>, SemaphoreCfg)>, m: Map<PeerId, PeerView>, now: u64)
    requires
        state_wf(cfg, m),
    ensures
        ({
            let m2 = resolve_all(m.remove_keys(expired(m, now)), sorted_affected(m, now), cfg).0;
            &&& forall|id: PeerId| #[trigger] m2.contains_key(id) <==> m.contains_key(id) && m[id].valid_until >= now
            &&& forall|id: PeerId| #[trigger] m2.contains_key(id) ==> m2[id].valid_until >= now
        }),
{
    let m1 = m.remove_keys(expired(m, now));
    lemma_fewer_peers_wf(cfg, m, expired(m, now));
    lemma_resolve_all_keeps(m1, sorted_affected(m, now), cfg);
    lemma_resolve_all_valid_until(m1, sorted_affected(m, now), cfg);
}

/// Restoring can not change a peer the service knows: it is only accepted for a known peer which
/// waits for no lock and holds, under every name, exactly the restored count.
pub proof fn law_restore_known_peer(
    cfg: Seq<(Seq<char>, SemaphoreCfg)>,
    m: Map<PeerId, PeerView>,
    id: PeerId,
    e: Seq<(Seq<char>, i64)>,
)
    requires
        m.contains_key(id),
        restore_answer(cfg, m, id, e) is Ok,
    ensures
        m[id].pending is None,
        forall|k: Seq<char>| #[trigger] lookup(m[id].acquired, k) == lookup(e, k),
{
}

/// Restoring a known peer with different counts, or while it waits for a lock, is refused as a
/// change; with the locks it holds, valid and configured, it is accepted.
pub proof fn law_restore_known_peer_answer(
    cfg: Seq<(Seq<char>, SemaphoreCfg)>,
    m: Map<PeerId, PeerView>,
    id: PeerId,
    e: Seq<(Seq<char>, i64)>,
)
    requires
        m.contains_key(id),
        forall|i: int| 0 <= i < e.len() ==> has_key(cfg, #[trigger] e[i].0),
        forall|i: int| 0 <= i < e.len() ==> #[trigger] e[i].1 >= 1,
    ensures
        (m[id].pending is None && forall|k: Seq<char>| #[trigger] lookup(m[id].acquired, k) == lookup(e, k))
            ==> restore_answer(cfg, m, id, e) == Ok::<(), ThrottleError>(()),
        (m[id].pending is Some || exists|k: Seq<char>| #[trigger] lookup(m[id].acquired, k) != lookup(e, k))
            ==> restore_answer(cfg, m, id, e) == Err::<(), ThrottleError>(ThrottleError::ChangeThroughRestore),
{
    lemma_first_invalid_none_of(e);
    if crate::state::unconfigured(e, cfg) {
        let i = choose|i: int| 0 <= i < e.len() && !has_key(cfg, #[trigger] e[i].0);
        assert(has_key(cfg, e[i].0));
    }
}

/// Without a count that is not positive there is no first one.
proof fn lemma_first_invalid_none_of(e: Seq<(Seq<char>, i64)>)
    requires
        forall|i: int| 0 <= i < e.len() ==> #[trigger] e[i].1 >= 1,
    ensures
        crate::leases::first_invalid(e) is None,
    decreases e.len(),
{
    if e.len() > 0 {
        let t = e.drop_first();
        assert forall|i: int| 0 <= i < t.len() implies #[trigger] t[i].1 >= 1 by {
            assert(t[i] == e[i + 1]);
        }
        lemma_first_invalid_none_of(t);
        assert(e[0].1 >= 1);
    }
}

/// Restoring is idempotent: restoring a peer once more with the same locks is accepted.
pub proof fn law_restore_idempotent(
    cfg: Seq<(Seq<char>, SemaphoreCfg)>,
    m: Map<PeerId, PeerView>,
    id: PeerId,
    e: Seq<(Seq<char>, i64)>,
    valid_until: u64,
)
    requires
        restore_answer(cfg, m, id, e) is Ok,
    ensures
        ({
            let m2 = if !m.contains_key(id) {
                m.insert(id, PeerView { acquired: e, pending: None, valid_until })
            } else {
                m
            };
            restore_answer(cfg, m2, id, e) is Ok
        }),
{
}

/// Litter collection is due at the earliest expiration: until then no peer has expired, right
/// after it some has. There is no earliest expiration only without peers.
pub proof fn law_earliest_expiry(m: Map<PeerId, PeerView>, now: u64)
    requires
        m.dom().finite(),
    ensures
        earliest_expiry(m) is None <==> m.dom().len() == 0,
        (earliest_expiry(m) matches Some(t) && now <= t) ==> expired(m, now).len() == 0,
        (earliest_expiry(m) matches Some(t) && now > t) ==> expired(m, now).len() > 0,
{
    lemma_least_bounds(m.dom(), m, valid_until_of());
    assert(expired(m, now).subset_of(m.dom()));
    vstd::set_lib::lemma_set_subset_finite(m.dom(), expired(m, now));
    match earliest_expiry(m) {
        Some(t) => {
            if now <= t {
                assert(expired(m, now) =~= Set::<PeerId>::empty()) by {
                    assert forall|id: PeerId| !expired(m, now).contains(id) by {
                        if m.dom().contains(id) {
                            assert(t <= valid_until_of()(m[id])->0);
                        }
                    }
                }
            } else {
                let w = choose|id: u64| m.dom().contains(id) && valid_until_of()(m[id]) == Some(t);
                assert(expired(m, now).contains(w));
            }
        },
        None => {},
    }
}

/// Resolution grants pending locks as long as they fit: afterwards the lock waiting the longest,
/// if any, does not fit into what is left of the remainder. With the remainder being the full
/// count minus the acquired count, no lock keeps waiting that could be acquired in its turn.
pub proof fn law_resolution_maximal(m: Map<PeerId, PeerView>, s: Seq<char>, r: int)
    requires
        ledger_wf(m),
        m.dom().finite(),
    ensures
        ({
            let m2 = resolve_steps(m, s, r).0;
            next_waiting(m2, s) matches Some(b) ==> total_acquired(m2, s) + m2[b].pending->0.count
                > total_acquired(m, s) + r
        }),
    decreases waiting(m, s).len(),
{
    match next_waiting(m, s) {
        Some(id) => {
            let p = m[id];
            let rest = r - p.pending->0.count;
            if rest >= 0 {
                lemma_waiting_after_promotion(m, s, id);
                assert(is_next(m, s, id));
                let m1 = m.insert(id, promoted(p));
                lemma_promoted(p, s);
                lemma_tally_update(m, acquired_in(s), id, promoted(p));
                assert(pending_count(p, s) == p.pending->0.count);
                lemma_ledger_wf_insert(m, id, promoted(p));
                law_resolution_maximal(m1, s, rest);
            } else {
                assert(is_next(m, s, id));
            }
        },
        None => {},
    }
}

/// Sum of the counts of the locks to `s` which the peers `ids` wait for in `m`.
pub open spec fn pending_total(m: Map<PeerId, PeerView>, s: Seq<char>, ids: Seq<PeerId>) -> int
    decreases ids.len(),
{
    if ids.len() == 0 {
        0
    } else {
        pending_count(m[ids[0]], s) + pending_total(m, s, ids.drop_first())
    }
}

/// The sum only depends on the peers listed.
proof fn lemma_pending_total_congruent(
    m1: Map<PeerId, PeerView>,
    m2: Map<PeerId, PeerView>,
    s: Seq<char>,
    ids: Seq<PeerId>,
)
    requires
        forall|i: int| 0 <= i < ids.len() ==> m1[#[trigger] ids[i]] == m2[ids[i]],
    ensures
        pending_total(m1, s, ids) == pending_total(m2, s, ids),
    decreases ids.len(),
{
    if ids.len() > 0 {
        let t = ids.drop_first();
        assert forall|i: int| 0 <= i < t.len() implies m1[#[trigger] t[i]] == m2[t[i]] by {
            assert(t[i] == ids[i + 1]);
        }
        assert(m1[ids[0]] == m2[ids[0]]);
        lemma_pending_total_congruent(m1, m2, s, t);
    }
}

/// Resolving the pending locks of `s` acquires exactly the counts of the locks it grants, which
/// together stay within the remainder; the counts of other semaphores do not change.
pub proof fn law_resolve_counts(m: Map<PeerId, PeerView>, s: Seq<char>, r: int)
    requires
        ledger_wf(m),
        m.dom().finite(),
    ensures
        ({
            let (m2, ids) = resolve_steps(m, s, r);
            &&& total_acquired(m2, s) == total_acquired(m, s) + pending_total(m, s, ids)
            &&& ids.len() > 0 ==> pending_total(m, s, ids) <= r
            &&& forall|x: Seq<char>| x != s ==> #[trigger] total_acquired(m2, x) == total_acquired(m, x)
        }),
    decreases waiting(m, s).len(),
{
    match next_waiting(m, s) {
        Some(id) => {
            let p = m[id];
            let c = p.pending->0.count;
            let rest = r - c;
            if rest >= 0 {
                lemma_waiting_after_promotion(m, s, id);
                assert(is_next(m, s, id));
                let m1 = m.insert(id, promoted(p));
                assert(pending_count(p, s) == c);
                assert forall|x: Seq<char>| #[trigger] total_acquired(m1, x) == total_acquired(m, x) + pending_count(p, x) by {
                    lemma_promoted(p, x);
                    lemma_tally_update(m, acquired_in(x), id, promoted(p));
                }
                lemma_promoted(p, s);
                lemma_ledger_wf_insert(m, id, promoted(p));
                law_resolve_counts(m1, s, rest);
                law_fair_resolution(m1, s, rest);
                let (m2, rec) = resolve_steps(m1, s, rest);
                let ids = seq![id] + rec;
                assert(resolve_steps(m, s, r) == (m2, ids));
                assert forall|i: int| 0 <= i < rec.len() implies m1[#[trigger] rec[i]] == m[rec[i]] by {
                    assert(waiting(m1, s).contains(rec[i]));
                }
                lemma_pending_total_congruent(m1, m, s, rec);
                assert(ids[0] == id);
                assert(ids.drop_first() =~= rec);
                assert forall|x: Seq<char>| x != s implies #[trigger] total_acquired(m2, x) == total_acquired(m, x) by {
                    assert(total_acquired(m1, x) == total_acquired(m, x) + pending_count(p, x));
                }
            }
        },
        None => {},
    }
}

/// Resolving the pending locks of a semaphore up to its full count never takes it beyond its full
/// count.
pub proof fn law_resolve_within_full_count(m: Map<PeerId, PeerView>, s: Seq<char>, max: int)
    requires
        ledger_wf(m),
        m.dom().finite(),
        total_acquired(m, s) <= max,
    ensures
        total_acquired(resolve_steps(m, s, max - total_acquired(m, s)).0, s) <= max,
{
    law_resolve_counts(m, s, max - total_acquired(m, s));
}

/// Repeating a request for the lock a peer already asks for, with the same count, answers
/// whether all locks of the peer are acquired; since the peer's demand is not zero, acquiring
/// leaves the ledger as it is and takes nothing from the semaphore twice.
pub proof fn law_repeated_request(
    m: Map<PeerId, PeerView>,
    id: PeerId,
    s: Seq<char>,
    amount: i64,
    max: i64,
    level: i32,
    cfg: Seq<(Seq<char>, SemaphoreCfg)>,
)
    requires
        m.contains_key(id),
        amount >= 1,
        demand(m[id], s) == amount,
    ensures
        acquire_result(m, id, s, amount, max, level, cfg) == Ok::<bool, ThrottleError>(m[id].pending is None),
        demand(m[id], s) != 0,
{
}

/// Releasing a peer's lock to `s` releases that lock only: every lock to another semaphore, acquired
/// or pending, stays, and a peer without a lock to `s` stays as it is.
pub proof fn law_release_lock_keeps_others(p: PeerView, s: Seq<char>, x: Seq<char>)
    requires
        peer_wf(p),
    ensures
        x != s ==> acquired_count(released(p, s), x) == acquired_count(p, x),
        x != s ==> (crate::leases::pending_on(released(p, s), x) <==> crate::leases::pending_on(p, x)),
        acquired_count(released(p, s), s) == 0,
        !crate::leases::pending_on(released(p, s), s),
        !has_key(p.acquired, s) && !crate::leases::pending_on(p, s) ==> released(p, s) == p,
        released(p, s).valid_until == p.valid_until,
{
    lemma_lookup(p.acquired, s);
    if has_key(p.acquired, s) {
        lemma_lookup_remove(p.acquired, s, x);
        lemma_lookup_remove(p.acquired, s, s);
    } else {
        lemma_lookup_absent(p.acquired, s);
    }
}

/// A peer all of whose locks are at levels above `level` has a current level above it, if any.
proof fn lemma_peer_level_above(acquired: Seq<(Seq<char>, i64)>, cfg: Seq<(Seq<char>, SemaphoreCfg)>, level: i32)
    requires
        forall|i: int| 0 <= i < acquired.len() ==> crate::leases::level_of(cfg, #[trigger] acquired[i].0) > level,
    ensures
        !(crate::leases::peer_level(acquired, cfg) matches Some(c) && c <= level),
    decreases acquired.len(),
{
    if acquired.len() > 0 {
        let rest = acquired.drop_last();
        assert forall|i: int| 0 <= i < rest.len() implies crate::leases::level_of(cfg, #[trigger] rest[i].0) > level by {
            assert(rest[i] == acquired[i]);
        }
        lemma_peer_level_above(rest, cfg, level);
        assert(crate::leases::level_of(cfg, acquired[acquired.len() - 1].0) > level);
    }
}

/// Lock hierarchies only refuse locks at or above the current level: a peer all of whose acquired
/// locks are at levels strictly above the requested semaphore's level, and which waits for no
/// lock, gets its new lock granted if it fits besides all locks acquired and pending, and pending
/// otherwise.
pub proof fn law_acquire_below_current_level(
    m: Map<PeerId, PeerView>,
    id: PeerId,
    s: Seq<char>,
    amount: i64,
    max: i64,
    level: i32,
    cfg: Seq<(Seq<char>, SemaphoreCfg)>,
)
    requires
        m.contains_key(id),
        amount >= 1,
        demand(m[id], s) == 0,
        m[id].pending is None,
        forall|i: int| 0 <= i < m[id].acquired.len()
            ==> crate::leases::level_of(cfg, #[trigger] m[id].acquired[i].0) > level,
    ensures
        acquire_result(m, id, s, amount, max, level, cfg) == Ok::<bool, ThrottleError>(total_demand(m, s) + amount <= max),
{
    lemma_peer_level_above(m[id].acquired, cfg, level);
}

/// A peer waits for at most one lock: a request for a new lock by a peer which already waits for
/// one, and which keeps to the lock hierarchy, is refused with `AlreadyPending`, whether it would
/// fit or not.
pub proof fn law_one_pending_lock(
    m: Map<PeerId, PeerView>,
    id: PeerId,
    s: Seq<char>,
    amount: i64,
    max: i64,
    level: i32,
    cfg: Seq<(Seq<char>, SemaphoreCfg)>,
)
    requires
        m.contains_key(id),
        amount >= 1,
        demand(m[id], s) == 0,
        m[id].pending is Some,
        forall|i: int| 0 <= i < m[id].acquired.len()
            ==> crate::leases::level_of(cfg, #[trigger] m[id].acquired[i].0) > level,
    ensures
        acquire_result(m, id, s, amount, max, level, cfg) == Err::<bool, ThrottleError>(ThrottleError::AlreadyPending),
{
    lemma_peer_level_above(m[id].acquired, cfg, level);
}

/// Every granted or pending answer to a request for a lock is backed by the ledger: afterwards
/// the peer's lock to the semaphore has the requested count, and the answer tells whether the
/// peer holds all its locks (waits for none).
pub proof fn law_answer_backed_by_ledger(
    m: Map<PeerId, PeerView>,
    id: PeerId,
    s: Seq<char>,
    amount: i64,
    max: i64,
    level: i32,
    cfg: Seq<(Seq<char>, SemaphoreCfg)>,
    now: u64,
)
    requires
        ledger_wf(m),
        acquire_result(m, id, s, amount, max, level, cfg) is Ok,
    ensures
        ({
            let r = acquire_result(m, id, s, amount, max, level, cfg);
            let after = if demand(m[id], s) == 0 {
                with_new_lock(m[id], s, amount, r->Ok_0, now)
            } else {
                m[id]
            };
            &&& m.contains_key(id)
            &&& demand(after, s) == amount
            &&& r == Ok::<bool, ThrottleError>(after.pending is None)
        }),
{
    let p = m[id];
    assert(peer_wf(p));
    lemma_peer_counts(p, s);
    lemma_lookup(p.acquired, s);
    if demand(p, s) == 0 {
        lemma_lookup_push(p.acquired, s, amount);
    }
}

/// After resolution no pending lock to `s` could be granted in its turn: the lock waiting the
/// longest, if any, does not fit into the full count besides the acquired locks.
pub open spec fn saturated(cfg: Seq<(Seq<char>, SemaphoreCfg)>, m: Map<PeerId, PeerView>, s: Seq<char>) -> bool {
    forall|b: PeerId| #[trigger] is_next(m, s, b) ==> m[b].pending->0.count > max_of(cfg, s) - total_acquired(m, s)
}

/// `m2` agrees with `m` on everything that concerns the semaphore `x`.
spec fn same_for(m: Map<PeerId, PeerView>, m2: Map<PeerId, PeerView>, x: Seq<char>) -> bool {
    &&& m2.dom() == m.dom()
    &&& forall|b: PeerId| m.contains_key(b) ==> pending_since(#[trigger] m2[b], x) == pending_since(m[b], x)
    &&& forall|b: PeerId| m.contains_key(b) && pending_since(m[b], x) is Some ==> #[trigger] m2[b] == m[b]
    &&& total_acquired(m2, x) == total_acquired(m, x)
}

/// At most one peer waits the longest.
proof fn lemma_is_next_unique(m: Map<PeerId, PeerView>, s: Seq<char>, a: PeerId, b: PeerId)
    requires
        is_next(m, s, a),
        is_next(m, s, b),
    ensures
        a == b,
{
    assert(precedes(m, s, a, b));
    assert(precedes(m, s, b, a));
}

/// Agreeing on a semaphore, two ledgers have the same peer waiting the longest for it.
proof fn lemma_same_for_is_next(m: Map<PeerId, PeerView>, m2: Map<PeerId, PeerView>, x: Seq<char>, b: PeerId)
    requires
        same_for(m, m2, x),
    ensures
        is_next(m2, x, b) <==> is_next(m, x, b),
        is_next(m2, x, b) ==> m2[b] == m[b],
{
    assert(waiting(m2, x) =~= waiting(m, x)) by {
        assert forall|id: PeerId| waiting(m2, x).contains(id) <==> waiting(m, x).contains(id) by {
            if m.contains_key(id) {
                assert(pending_since(m2[id], x) == pending_since(m[id], x));
            }
        }
    }
    if m.contains_key(b) {
        assert forall|j: PeerId| waiting(m, x).contains(j) implies (precedes(m2, x, b, j) <==> precedes(m, x, b, j)) by {
            assert(pending_since(m2[j], x) == pending_since(m[j], x));
            assert(pending_since(m2[b], x) == pending_since(m[b], x));
        }
    }
    if is_next(m, x, b) {
        assert(waiting(m, x).contains(b));
        assert(pending_since(m2[b], x) == pending_since(m[b], x));
    }
    if is_next(m2, x, b) {
        assert(waiting(m, x).contains(b));
        assert(m2[b] == m[b]);
    }
}

/// Resolving the pending locks of `s` leaves everything concerning another semaphore as it is.
proof fn lemma_resolve_steps_same_for(m: Map<PeerId, PeerView>, s: Seq<char>, r: int, x: Seq<char>)
    requires
        ledger_wf(m),
        m.dom().finite(),
        x != s,
    ensures
        same_for(m, resolve_steps(m, s, r).0, x),
    decreases waiting(m, s).len(),
{
    law_resolve_counts(m, s, r);
    match next_waiting(m, s) {
        Some(id) => {
            let p = m[id];
            let rest = r - p.pending->0.count;
            if rest >= 0 {
                lemma_waiting_after_promotion(m, s, id);
                assert(is_next(m, s, id));
                let m1 = m.insert(id, promoted(p));
                lemma_promoted(p, s);
                lemma_ledger_wf_insert(m, id, promoted(p));
                lemma_resolve_steps_same_for(m1, s, rest, x);
                let m2 = resolve_steps(m1, s, rest).0;
                assert(m1.dom() =~= m.dom());
                assert(pending_since(p, x) is None);
                assert(pending_since(promoted(p), x) is None);
                assert forall|b: PeerId| m.contains_key(b) implies pending_since(#[trigger] m2[b], x) == pending_since(m[b], x) by {
                    assert(pending_since(m2[b], x) == pending_since(m1[b], x));
                }
                assert forall|b: PeerId| m.contains_key(b) && pending_since(m[b], x) is Some implies #[trigger] m2[b] == m[b] by {
                    assert(b != id);
                    assert(m1[b] == m[b]);
                }
            } else {
                assert(resolve_steps(m, s, r).0 =~= m);
            }
        },
        None => {
            assert(resolve_steps(m, s, r).0 =~= m);
        },
    }
}

/// Resolving the pending locks of semaphores other than `x` leaves everything concerning `x` as
/// it is.
proof fn lemma_resolve_all_same_for(
    m: Map<PeerId, PeerView>,
    sems: Seq<Seq<char>>,
    cfg: Seq<(Seq<char>, SemaphoreCfg)>,
    x: Seq<char>,
)
    requires
        state_wf(cfg, m),
        !sems.contains(x),
    ensures
        same_for(m, resolve_all(m, sems, cfg).0, x),
    decreases sems.len(),
{
    if sems.len() == 0 {
        assert(resolve_all(m, sems, cfg).0 =~= m);
    } else {
        let s = sems[0];
        let r = max_of(cfg, s) - total_acquired(m, s);
        assert(s != x);
        lemma_resolve_steps_same_for(m, s, r, x);
        lemma_resolve_steps_keeps(m, s, r, cfg);
        let m1 = resolve_steps(m, s, r).0;
        let tail = sems.drop_first();
        assert(!tail.contains(x)) by {
            if tail.contains(x) {
                let j = choose|j: int| 0 <= j < tail.len() && tail[j] == x;
                assert(sems[j + 1] == x);
            }
        }
        lemma_resolve_all_same_for(m1, tail, cfg, x);
        let m2 = resolve_all(m1, tail, cfg).0;
        assert forall|b: PeerId| m.contains_key(b) implies pending_since(#[trigger] m2[b], x) == pending_since(m[b], x) by {
            assert(pending_since(m1[b], x) == pending_since(m[b], x));
            assert(pending_since(m2[b], x) == pending_since(m1[b], x));
        }
        assert forall|b: PeerId| m.contains_key(b) && pending_since(m[b], x) is Some implies #[trigger] m2[b] == m[b] by {
            assert(m1[b] == m[b]);
            assert(pending_since(m1[b], x) is Some);
            assert(m2[b] == m1[b]);
        }
    }
}

/// Resolving the pending locks of `s` up to its full count leaves no lock to `s` that could be
/// granted in its turn.
pub proof fn law_resolve_steps_saturates(cfg: Seq<(Seq<char>, SemaphoreCfg)>, m: Map<PeerId, PeerView>, s: Seq<char>)
    requires
        ledger_wf(m),
        m.dom().finite(),
    ensures
        saturated(cfg, resolve_steps(m, s, max_of(cfg, s) - total_acquired(m, s)).0, s),
{
    let r = max_of(cfg, s) - total_acquired(m, s);
    let m2 = resolve_steps(m, s, r).0;
    law_resolution_maximal(m, s, r);
    assert forall|b: PeerId| #[trigger] is_next(m2, s, b) implies m2[b].pending->0.count > max_of(cfg, s) - total_acquired(m2, s) by {
        let c = choose|id: PeerId| is_next(m2, s, id);
        lemma_is_next_unique(m2, s, b, c);
    }
}

/// Releasing locks and then resolving the pending locks of every semaphore they were held to
/// leaves, for each of these semaphores, no pending lock that could be granted in its turn.
pub proof fn law_resolve_all_saturates(
    m: Map<PeerId, PeerView>,
    sems: Seq<Seq<char>>,
    cfg: Seq<(Seq<char>, SemaphoreCfg)>,
)
    requires
        state_wf(cfg, m),
    ensures
        forall|j: int| 0 <= j < sems.len() ==> saturated(cfg, resolve_all(m, sems, cfg).0, #[trigger] sems[j]),
    decreases sems.len(),
{
    if sems.len() > 0 {
        let s = sems[0];
        let r = max_of(cfg, s) - total_acquired(m, s);
        lemma_resolve_steps_keeps(m, s, r, cfg);
        law_resolve_steps_saturates(cfg, m, s);
        let m1 = resolve_steps(m, s, r).0;
        let tail = sems.drop_first();
        law_resolve_all_saturates(m1, tail, cfg);
        let m2 = resolve_all(m1, tail, cfg).0;
        assert(resolve_all(m, sems, cfg).0 == m2);
        assert forall|j: int| 0 <= j < sems.len() implies saturated(cfg, m2, #[trigger] sems[j]) by {
            if j > 0 {
                assert(sems[j] == tail[j - 1]);
            } else if tail.contains(s) {
                let q = choose|q: int| 0 <= q < tail.len() && tail[q] == s;
                assert(saturated(cfg, m2, tail[q]));
            } else {
                lemma_resolve_all_same_for(m1, tail, cfg, s);
                assert forall|b: PeerId| #[trigger] is_next(m2, s, b) implies m2[b].pending->0.count > max_of(cfg, s) - total_acquired(m2, s) by {
                    lemma_same_for_is_next(m1, m2, s, b);
                    assert(is_next(m1, s, b));
                }
            }
        }
    }
}

/// Fairness in terms of the instants of the requests: every lock granted by a resolution was
/// requested no later than every lock to the same semaphore still waiting afterwards, and the
/// granted ones in the order they were requested.
pub proof fn law_granted_in_request_order(m: Map<PeerId, PeerView>, s: Seq<char>, r: int)
    requires
        m.dom().finite(),
    ensures
        ({
            let (m2, ids) = resolve_steps(m, s, r);
            &&& forall|i: int| 0 <= i < ids.len() ==> m.contains_key(#[trigger] ids[i])
                && pending_since(m[ids[i]], s) is Some
            &&& forall|i: int, j: int| 0 <= i < j < ids.len()
                ==> pending_since(m[#[trigger] ids[i]], s)->0 <= pending_since(m[#[trigger] ids[j]], s)->0
            &&& forall|i: int, b: PeerId| 0 <= i < ids.len() && m2.contains_key(b)
                && #[trigger] pending_since(m2[b], s) is Some
                ==> pending_since(m[#[trigger] ids[i]], s)->0 <= pending_since(m2[b], s)->0
        }),
{
    law_fair_resolution(m, s, r);
    let (m2, ids) = resolve_steps(m, s, r);
    assert forall|i: int| 0 <= i < ids.len() implies m.contains_key(#[trigger] ids[i])
        && pending_since(m[ids[i]], s) is Some by {
        assert(waiting(m, s).contains(ids[i]));
    }
    assert forall|i: int, j: int| 0 <= i < j < ids.len()
        implies pending_since(m[#[trigger] ids[i]], s)->0 <= pending_since(m[#[trigger] ids[j]], s)->0 by {
        assert(precedes(m, s, ids[i], ids[j]));
    }
    assert forall|i: int, b: PeerId| 0 <= i < ids.len() && m2.contains_key(b)
        && #[trigger] pending_since(m2[b], s) is Some
        implies pending_since(m[#[trigger] ids[i]], s)->0 <= pending_since(m2[b], s)->0 by {
        assert(waiting(m2, s).contains(b));
        assert(precedes(m, s, ids[i], b));
    }
}

/// A restore is only accepted with positive counts to configured semaphores.
pub proof fn law_restore_accepts_valid_locks_only(
    cfg: Seq<(Seq<char>, SemaphoreCfg)>,
    m: Map<PeerId, PeerView>,
    id: PeerId,
    e: Seq<(Seq<char>, i64)>,
)
    requires
        restore_answer(cfg, m, id, e) is Ok,
    ensures
        forall|i: int| 0 <= i < e.len() ==> #[trigger] e[i].1 >= 1,
        forall|i: int| 0 <= i < e.len() ==> has_key(cfg, #[trigger] e[i].0),
{
    crate::leases::lemma_first_invalid_none(e);
}

/// A peer holding a lock at a level not above the requested semaphore's level is refused a new
/// lock as a possible deadlock, whether it fits or not; the answer names the peer's current level
/// (its lowest) and the requested one.
pub proof fn law_hierarchy_refuses(
    m: Map<PeerId, PeerView>,
    id: PeerId,
    s: Seq<char>,
    amount: i64,
    max: i64,
    level: i32,
    cfg: Seq<(Seq<char>, SemaphoreCfg)>,
    i: int,
)
    requires
        m.contains_key(id),
        amount >= 1,
        demand(m[id], s) == 0,
        0 <= i < m[id].acquired.len(),
        crate::leases::level_of(cfg, m[id].acquired[i].0) <= level,
    ensures
        acquire_result(m, id, s, amount, max, level, cfg) matches Err(ThrottleError::Deadlock { current, requested })
            && current <= crate::leases::level_of(cfg, m[id].acquired[i].0) && requested == level,
{
    assert(has_key(m[id].acquired, m[id].acquired[i].0));
    lemma_peer_level(m[id].acquired, cfg, m[id].acquired[i].0);
}

} // verus!
