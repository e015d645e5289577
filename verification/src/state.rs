//! State of the semaphore service: the configured semaphores together with the bookkeeping of the
//! peers and their locks.
use crate::application_cfg::SemaphoreCfg;
use crate::error::ThrottleError;
use crate::leases::{
    Counts, Leases, PeerId, PeerView, acquire_result, demand, earliest_pending, expired,
    affected, ledger_wf, names, next_waiting, peer_wf, promoted, released, resolve_steps,
    restore_result, semaphores_of, strictly_sorted, total_acquired, total_pending, with_new_lock,
    lemma_waiting_after_promotion, configured,
};
use crate::name_map::{NameMap, distinct_keys, has_key, lemma_lookup, lookup};
use crate::text::{lemma_lex_irreflexive, lemma_lex_transitive, lex_less};
use crate::laws::{law_resolve_all_saturates, law_resolve_steps_saturates, saturated};
use vstd::prelude::*;

verus! {

/// Full count of a configured semaphore.
pub open spec fn max_of(cfg: Seq<(Seq<char>, SemaphoreCfg)>, s: Seq<char>) -> i64 {
    match lookup(cfg, s) {
        Some(c) => c.max,
        None => 0,
    }
}

/// Every semaphore of the peer's locks is configured.
pub open spec fn peer_configured(p: PeerView, cfg: Seq<(Seq<char>, SemaphoreCfg)>) -> bool {
    forall|x: Seq<char>| #[trigger] semaphores_of(p).contains(x) ==> has_key(cfg, x)
}

/// The configuration names every semaphore at most once, the ledger is well formed and holds locks
/// to configured semaphores only.
pub open spec fn state_wf(cfg: Seq<(Seq<char>, SemaphoreCfg)>, m: Map<PeerId, PeerView>) -> bool {
    &&& distinct_keys(cfg)
    &&& ledger_wf(m)
    &&& m.dom().finite()
    &&& forall|id: PeerId| m.contains_key(id) ==> peer_configured(#[trigger] m[id], cfg)
}

/// The peer with its expiration moved to `valid_until`.
pub open spec fn prolonged(p: PeerView, valid_until: u64) -> PeerView {
    PeerView { valid_until, ..p }
}

/// Answer and new ledger of a request of peer `id` for a lock with count `amount` to semaphore
/// `s` at instant `now`, which prolongs the peer's lifetime to `expires_in` after `now` if given.
pub open spec fn acquire_outcome(
    cfg: Seq<(Seq<char>, SemaphoreCfg)>,
    m: Map<PeerId, PeerView>,
    now: u64,
    id: PeerId,
    s: Seq<char>,
    amount: i64,
    expires_in: Option<u64>,
) -> (Result<bool, ThrottleError>, Map<PeerId, PeerView>) {
    if !has_key(cfg, s) {
        (Err(ThrottleError::UnknownSemaphore), m)
    } else if max_of(cfg, s) < amount {
        (Err(ThrottleError::Never { asked: amount, max: max_of(cfg, s) }), m)
    } else if expires_in is Some && !m.contains_key(id) {
        (Err(ThrottleError::UnknownPeer), m)
    } else {
        let m1 = match expires_in {
            Some(d) => m.insert(id, prolonged(m[id], (now + d) as u64)),
            None => m,
        };
        let r = acquire_result(m1, id, s, amount, max_of(cfg, s), crate::leases::level_of(cfg, s), cfg);
        let m2 = if r is Ok && demand(m1[id], s) == 0 {
            m1.insert(id, with_new_lock(m1[id], s, amount, r->Ok_0, now))
        } else {
            m1
        };
        (r, m2)
    }
}

/// A semaphore of the locks of a peer which is not configured, if any.
pub open spec fn unconfigured(e: Seq<(Seq<char>, i64)>, cfg: Seq<(Seq<char>, SemaphoreCfg)>) -> bool {
    exists|i: int| 0 <= i < e.len() && !has_key(cfg, #[trigger] e[i].0)
}

/// Answer to restoring peer `id` with the acquired locks `e`: locks to semaphores which are not
/// configured are refused first.
pub open spec fn restore_answer(
    cfg: Seq<(Seq<char>, SemaphoreCfg)>,
    m: Map<PeerId, PeerView>,
    id: PeerId,
    e: Seq<(Seq<char>, i64)>,
) -> Result<(), ThrottleError> {
    if unconfigured(e, cfg) {
        Err(ThrottleError::UnknownSemaphore)
    } else {
        restore_result(m, id, e)
    }
}

/// Releasing a lock keeps only semaphores the peer held locks to before.
proof fn lemma_released_semaphores(p: PeerView, s: Seq<char>, x: Seq<char>)
    requires
        peer_wf(p),
        semaphores_of(released(p, s)).contains(x),
    ensures
        semaphores_of(p).contains(x),
{
    let q = released(p, s);
    let b = semaphores_of(q);
    let k = choose|k: int| 0 <= k < b.len() && b[k] == x;
    let off: int = if p.pending is Some { 1 } else { 0 };
    if crate::name_map::has_key(p.acquired, s) {
        let i = choose|i: int| 0 <= i < p.acquired.len() && #[trigger] p.acquired[i].0 == s;
        crate::name_map::lemma_remove_key(p.acquired, s, i);
        let e = q.acquired;
        if p.pending is Some && k == 0 {
            assert(semaphores_of(p)[0] == x);
        } else {
            let j = k - off;
            if j < i {
                assert(e[j] == p.acquired[j]);
                assert(semaphores_of(p)[j + off] == x);
            } else {
                assert(e[j] == p.acquired[j + 1]);
                assert(semaphores_of(p)[j + 1 + off] == x);
            }
        }
    } else if crate::leases::pending_on(p, s) {
        assert(semaphores_of(p)[k + off] == x);
    } else {
        assert(q == p);
    }
}

/// Resolving the pending locks of the semaphores `sems` one semaphore after the other, each up to
/// its full count. Gives the new ledger and the peers whose locks have been acquired, in order.
pub open spec fn resolve_all(m: Map<PeerId, PeerView>, sems: Seq<Seq<char>>, cfg: Seq<(Seq<char>, SemaphoreCfg)>) -> (Map<PeerId, PeerView>, Seq<PeerId>)
    decreases sems.len(),
{
    if sems.len() == 0 {
        (m, Seq::empty())
    } else {
        let s = sems[0];
        let first = resolve_steps(m, s, max_of(cfg, s) - total_acquired(m, s));
        let rest = resolve_all(first.0, sems.drop_first(), cfg);
        (rest.0, first.1 + rest.1)
    }
}

/// Promoting a pending lock keeps the semaphores of a peer.
proof fn lemma_promoted_semaphores(p: PeerView, x: Seq<char>)
    requires
        p.pending is Some,
    ensures
        semaphores_of(promoted(p)).contains(x) <==> semaphores_of(p).contains(x),
{
    let l = p.pending->0;
    let a = semaphores_of(p);
    let b = semaphores_of(promoted(p));
    assert(b =~= crate::name_map::entry_keys(p.acquired).push(l.semaphore));
    if a.contains(x) {
        let i = choose|i: int| 0 <= i < a.len() && a[i] == x;
        if i == 0 {
            assert(b[b.len() - 1] == x);
        } else {
            assert(b[i - 1] == x);
        }
    }
    if b.contains(x) {
        let i = choose|i: int| 0 <= i < b.len() && b[i] == x;
        if i == b.len() - 1 {
            assert(a[0] == x);
        } else {
            assert(a[i + 1] == x);
        }
    }
}

/// Resolving pending locks keeps the peers, and the semaphores each of them holds locks to.
pub proof fn lemma_resolve_steps_keeps(m: Map<PeerId, PeerView>, s: Seq<char>, remainder: int, cfg: Seq<(Seq<char>, SemaphoreCfg)>)
    requires
        state_wf(cfg, m),
    ensures
        state_wf(cfg, resolve_steps(m, s, remainder).0),
        resolve_steps(m, s, remainder).0.dom() == m.dom(),
    decreases crate::leases::waiting(m, s).len(),
{
    match next_waiting(m, s) {
        Some(id) => {
            let rest = remainder - m[id].pending->0.count;
            if rest >= 0 {
                lemma_waiting_after_promotion(m, s, id);
                let m1 = m.insert(id, promoted(m[id]));
                assert(m1.dom() =~= m.dom());
                assert(crate::leases::is_next(m, s, id));
                assert(m[id].pending is Some);
                let p = m[id];
                let l = p.pending->0;
                assert(peer_wf(promoted(p))) by {
                    assert(peer_wf(p));
                    crate::name_map::lemma_lookup_push(p.acquired, l.semaphore, l.count);
                    let e = promoted(p).acquired;
                    assert forall|i: int| 0 <= i < e.len() implies #[trigger] e[i].1 >= 1 by {
                        if i < p.acquired.len() {
                            assert(e[i] == p.acquired[i]);
                        }
                    }
                }
                assert forall|x: Seq<char>| #[trigger] semaphores_of(promoted(p)).contains(x) implies has_key(cfg, x) by {
                    lemma_promoted_semaphores(p, x);
                    assert(peer_configured(p, cfg));
                }
                assert forall|i: PeerId| m1.contains_key(i) implies peer_configured(#[trigger] m1[i], cfg) by {
                    if i != id {
                        assert(peer_configured(m[i], cfg));
                    }
                }
                crate::leases::lemma_ledger_wf_insert(m, id, promoted(p));
                lemma_resolve_steps_keeps(m1, s, rest, cfg);
            }
        },
        None => {},
    }
}

/// Resolving the pending locks of several semaphores keeps the peers and the well formedness.
pub proof fn lemma_resolve_all_keeps(m: Map<PeerId, PeerView>, sems: Seq<Seq<char>>, cfg: Seq<(Seq<char>, SemaphoreCfg)>)
    requires
        state_wf(cfg, m),
    ensures
        state_wf(cfg, resolve_all(m, sems, cfg).0),
        resolve_all(m, sems, cfg).0.dom() == m.dom(),
    decreases sems.len(),
{
    if sems.len() > 0 {
        let s = sems[0];
        lemma_resolve_steps_keeps(m, s, max_of(cfg, s) - total_acquired(m, s), cfg);
        lemma_resolve_all_keeps(resolve_steps(m, s, max_of(cfg, s) - total_acquired(m, s)).0, sems.drop_first(), cfg);
    }
}

/// The semaphores to which the peers expired at `now` hold locks, in ascending lexicographic order.
pub open spec fn sorted_affected(m: Map<PeerId, PeerView>, now: u64) -> Seq<Seq<char>> {
    choose|v: Seq<Seq<char>>| strictly_sorted(v) && v.to_set() == affected(m, expired(m, now))
}

/// A set of names has only one strictly ascending arrangement.
pub proof fn lemma_sorted_unique(a: Seq<Seq<char>>, b: Seq<Seq<char>>)
    requires
        strictly_sorted(a),
        strictly_sorted(b),
        a.to_set() == b.to_set(),
    ensures
        a == b,
    decreases a.len(),
{
    if a.len() == 0 {
        if b.len() > 0 {
            assert(b.to_set().contains(b[0]));
        }
        assert(a =~= b);
    } else {
        assert(a.to_set().contains(a[0]));
        assert(b.len() > 0);
        assert(b.to_set().contains(b[0]));
        let k = choose|k: int| 0 <= k < b.len() && b[k] == a[0];
        let j = choose|j: int| 0 <= j < a.len() && a[j] == b[0];
        if a[0] != b[0] {
            assert(k > 0 && j > 0);
            assert(lex_less(b[0], b[k]));
            assert(lex_less(a[0], a[j]));
            lemma_lex_transitive(a[0], b[0], a[0]);
            lemma_lex_irreflexive(a[0]);
        }
        let ta = a.drop_first();
        let tb = b.drop_first();
        assert forall|x: Seq<char>| ta.to_set().contains(x) <==> tb.to_set().contains(x) by {
            if ta.to_set().contains(x) {
                let q = choose|q: int| 0 <= q < ta.len() && ta[q] == x;
                assert(a[q + 1] == x);
                assert(lex_less(a[0], a[q + 1]));
                lemma_lex_irreflexive(x);
                assert(b.to_set().contains(x));
                let r = choose|r: int| 0 <= r < b.len() && b[r] == x;
                assert(r != 0);
                assert(tb[r - 1] == x);
            }
            if tb.to_set().contains(x) {
                let q = choose|q: int| 0 <= q < tb.len() && tb[q] == x;
                assert(b[q + 1] == x);
                assert(lex_less(b[0], b[q + 1]));
                lemma_lex_irreflexive(x);
                assert(a.to_set().contains(x));
                let r = choose|r: int| 0 <= r < a.len() && a[r] == x;
                assert(r != 0);
                assert(ta[r - 1] == x);
            }
        }
        assert(ta.to_set() =~= tb.to_set());
        lemma_sorted_unique(ta, tb);
        assert(a =~= seq![a[0]] + ta);
        assert(b =~= seq![b[0]] + tb);
    }
}

/// The sums of the acquired and of the pending counts of every configured semaphore, and its
/// remainder, fit into `i64`.
pub open spec fn totals_fit(cfg: Seq<(Seq<char>, SemaphoreCfg)>, m: Map<PeerId, PeerView>) -> bool {
    forall|i: int| 0 <= i < cfg.len() ==> {
        let k = #[trigger] cfg[i].0;
        &&& total_acquired(m, k) <= i64::MAX
        &&& total_pending(m, k) <= i64::MAX
        &&& cfg[i].1.max - total_acquired(m, k) >= i64::MIN
    }
}

/// Accumulated counts of the locks to `s` in the ledger.
pub open spec fn counts_of(m: Map<PeerId, PeerView>, s: Seq<char>) -> Counts {
    Counts {
        acquired: total_acquired(m, s) as i64,
        pending: total_pending(m, s) as i64,
        longest_pending_since: earliest_pending(m, s),
    }
}

/// State of the Semaphore service.
///
/// This combines the configuration of the `semaphores`, with the state of the peers in `leases`.
/// Instants are nanoseconds on a monotonic clock of the caller, durations are nanoseconds.
pub struct State {
    /// All known semaphores and their full count
    semaphores: NameMap<SemaphoreCfg>,
    /// Bookeeping for leases. Must not contain any leases not configured in semaphores.
    leases: Leases,
}

impl State {
    /// Configured semaphores in the order of the configuration.
    pub closed spec fn config(&self) -> Seq<(Seq<char>, SemaphoreCfg)> {
        self.semaphores.entries()
    }

    /// The peers and their locks.
    pub closed spec fn ledger(&self) -> Map<PeerId, PeerView> {
        self.leases@
    }

    /// The configuration is consistent and the ledger only holds configured semaphores.
    pub open spec fn wf(&self) -> bool {
        state_wf(self.config(), self.ledger())
    }

    /// Creates the state required for the semaphore service
    pub fn new(semaphores: NameMap<SemaphoreCfg>) -> (st: State)
        requires
            semaphores.wf(),
        ensures
            st.wf(),
            st.config() == semaphores.entries(),
            st.ledger() == Map::<PeerId, PeerView>::empty(),
    {
        let st = State { leases: Leases::new(), semaphores };
        assert(st.ledger().dom() =~= Set::<PeerId>::empty());
        st
    }

    proof fn lemma_configured(&self, id: PeerId)
        requires
            self.wf(),
            self.ledger().contains_key(id),
        ensures
            configured(self.ledger()[id], self.config()),
    {
        let p = self.ledger()[id];
        assert(peer_configured(p, self.config()));
        assert forall|i: int| 0 <= i < p.acquired.len() implies has_key(self.config(), #[trigger] p.acquired[i].0) by {
            let off: int = if p.pending is Some { 1 } else { 0 };
            assert(semaphores_of(p)[i + off] == p.acquired[i].0);
            assert(semaphores_of(p).contains(p.acquired[i].0));
        }
    }

    /// Creates a new peer, which expires `expires_in` after `now`.
    pub fn new_peer(&mut self, now: u64, expires_in: u64) -> (id: PeerId)
        requires
            old(self).wf(),
            now + expires_in <= u64::MAX,
        ensures
            final(self).wf(),
            final(self).config() == old(self).config(),
            !old(self).ledger().contains_key(id),
            final(self).ledger() == old(self).ledger().insert(
                id,
                PeerView { acquired: Seq::empty(), pending: None, valid_until: (now + expires_in) as u64 },
            ),
    {
        let valid_until = now + expires_in;
        let id = self.leases.new_peer(valid_until);
        proof {
            let p = PeerView { acquired: Seq::<(Seq<char>, i64)>::empty(), pending: None, valid_until };
            assert(semaphores_of(p) =~= Seq::<Seq<char>>::empty());
            let m = self.ledger();
            assert forall|i: PeerId| m.contains_key(i) implies peer_configured(#[trigger] m[i], self.config()) by {
                if i != id {
                    assert(peer_configured(old(self).ledger()[i], self.config()));
                }
            }
        }
        id
    }
}

impl State {
    /// Resolves the pending locks of each of the semaphores, one after the other, up to their full
    /// counts. Peers whose locks get acquired are appended to `resolved_peers`.
    fn resolve_each(&mut self, semaphores: &Vec<String>, resolved_peers: &mut Vec<PeerId>)
        requires
            old(self).wf(),
            forall|i: int| 0 <= i < semaphores@.len() ==> has_key(old(self).config(), #[trigger] semaphores@[i]@),
        ensures
            final(self).wf(),
            final(self).config() == old(self).config(),
            final(self).ledger() == resolve_all(old(self).ledger(), names(semaphores@), old(self).config()).0,
            final(resolved_peers)@ == old(resolved_peers)@ + resolve_all(
                old(self).ledger(),
                names(semaphores@),
                old(self).config(),
            ).1,
    {
        let ghost cfg = self.config();
        let ghost sems = names(semaphores@);
        let ghost target = resolve_all(self.ledger(), sems, cfg);
        let ghost start = resolved_peers@;
        let n = semaphores.len();
        proof {
            assert(sems.skip(0) =~= sems);
            assert(resolved_peers@ + target.1 =~= start + target.1);
        }
        for i in 0..n
            invariant
                n == semaphores@.len(),
                sems == names(semaphores@),
                cfg == self.config(),
                self.wf(),
                forall|j: int| 0 <= j < semaphores@.len() ==> has_key(cfg, #[trigger] semaphores@[j]@),
                resolve_all(self.ledger(), sems.skip(i as int), cfg).0 == target.0,
                resolved_peers@ + resolve_all(self.ledger(), sems.skip(i as int), cfg).1 == start + target.1,
        {
            let name = &semaphores[i];
            proof {
                lemma_lookup(cfg, name@);
                assert(has_key(cfg, semaphores@[i as int]@));
            }
            let max = match self.semaphores.get(name.as_str()) {
                Some(sem) => sem.max,
                None => 0,
            };
            let ghost m = self.ledger();
            let ghost before = resolved_peers@;
            assert(max == max_of(cfg, name@));
            self.leases.resolve_pending(name.as_str(), max, resolved_peers);
            proof {
                let rest = sems.skip(i as int);
                assert(rest[0] == name@);
                assert(rest.drop_first() =~= sems.skip(i + 1));
                lemma_resolve_steps_keeps(m, name@, max - total_acquired(m, name@), cfg);
                let first = resolve_steps(m, name@, max - total_acquired(m, name@));
                let later = resolve_all(first.0, sems.skip(i + 1), cfg);
                assert(resolve_all(m, rest, cfg) == (later.0, first.1 + later.1));
                assert(resolved_peers@ + later.1 =~= before + (first.1 + later.1));
            }
        }
        proof {
            assert(sems.skip(n as int) =~= Seq::<Seq<char>>::empty());
            assert(resolved_peers@ =~= resolved_peers@ + Seq::<PeerId>::empty());
        }
    }

    /// Removes a peer from bookeeping and releases all its locks. Pending locks which can now be
    /// acquired are acquired; their peers are appended to `resolved_peers`.
    ///
    /// Returns `false` should the peer not be found and `true` otherwise. `false` could occur due
    /// to e.g. the peer already being removed by litter collection.
    pub fn release(&mut self, peer_id: PeerId, resolved_peers: &mut Vec<PeerId>) -> (r: bool)
        requires
            old(self).wf(),
        ensures
            final(self).wf(),
            final(self).config() == old(self).config(),
            r == old(self).ledger().contains_key(peer_id),
            r ==> final(self).ledger() == resolve_all(
                old(self).ledger().remove(peer_id),
                semaphores_of(old(self).ledger()[peer_id]),
                old(self).config(),
            ).0,
            r ==> final(resolved_peers)@ == old(resolved_peers)@ + resolve_all(
                old(self).ledger().remove(peer_id),
                semaphores_of(old(self).ledger()[peer_id]),
                old(self).config(),
            ).1,
            !r ==> final(self).ledger() == old(self).ledger() && final(resolved_peers)@ == old(resolved_peers)@,
            // Every lock to a semaphore the peer held which can be granted in its turn is granted.
            r ==> forall|s: Seq<char>| semaphores_of(old(self).ledger()[peer_id]).contains(s)
                ==> #[trigger] saturated(old(self).config(), final(self).ledger(), s),
    {
        let ghost m = self.ledger();
        let ghost cfg = self.config();
        match self.leases.remove_peer(peer_id) {
            Some(semaphores) => {
                proof {
                    let m1 = self.ledger();
                    assert forall|i: PeerId| m1.contains_key(i) implies peer_configured(#[trigger] m1[i], cfg) by {
                        assert(peer_configured(m[i], cfg));
                    }
                    assert(peer_configured(m[peer_id], cfg));
                    assert forall|i: int| 0 <= i < semaphores@.len() implies has_key(cfg, #[trigger] semaphores@[i]@) by {
                        assert(names(semaphores@)[i] == semaphores@[i]@);
                        assert(semaphores_of(m[peer_id]).contains(semaphores@[i]@));
                    }
                    assert(self.wf());
                    let sems = semaphores_of(m[peer_id]);
                    law_resolve_all_saturates(m1, sems, cfg);
                    assert forall|s: Seq<char>| sems.contains(s) implies #[trigger] saturated(cfg, resolve_all(m1, sems, cfg).0, s) by {
                        let j = choose|j: int| 0 <= j < sems.len() && sems[j] == s;
                        assert(saturated(cfg, resolve_all(m1, sems, cfg).0, sems[j]));
                    }
                }
                // Keep book about all peers, those locks have been acquired, so we can notify their
                // pending requests.
                self.resolve_each(&semaphores, resolved_peers);
                true
            },
            None => {
                false
            },
        }
    }

    /// Removes the peers which are no longer valid at `now`, together with their locks. Pending
    /// locks of the semaphores the expired peers held locks to are then resolved, the semaphores
    /// taken in lexicographic order; peers whose locks get acquired are appended to
    /// `resolved_peers`.
    ///
    /// Returns the expired (now removed) peers.
    pub fn remove_expired(&mut self, now: u64, resolved_peers: &mut Vec<PeerId>) -> (expired_peers: Vec<PeerId>)
        requires
            old(self).wf(),
        ensures
            final(self).wf(),
            final(self).config() == old(self).config(),
            expired_peers@.no_duplicates(),
            expired_peers@.to_set() == expired(old(self).ledger(), now),
            final(self).ledger() == resolve_all(
                old(self).ledger().remove_keys(expired(old(self).ledger(), now)),
                sorted_affected(old(self).ledger(), now),
                old(self).config(),
            ).0,
            final(resolved_peers)@ == old(resolved_peers)@ + resolve_all(
                old(self).ledger().remove_keys(expired(old(self).ledger(), now)),
                sorted_affected(old(self).ledger(), now),
                old(self).config(),
            ).1,
            // Every lock to a semaphore the expired peers held which can be granted in its turn
            // is granted.
            forall|s: Seq<char>| affected(old(self).ledger(), expired(old(self).ledger(), now)).contains(s)
                ==> #[trigger] saturated(old(self).config(), final(self).ledger(), s),
    {
        let ghost m = self.ledger();
        let ghost cfg = self.config();
        let (expired_peers, affected_semaphores) = self.leases.remove_expired(now);
        proof {
            let m1 = self.ledger();
            assert forall|i: PeerId| m1.contains_key(i) implies peer_configured(#[trigger] m1[i], cfg) by {
                assert(peer_configured(m[i], cfg));
            }
            assert(m1.dom().subset_of(m.dom()));
            vstd::set_lib::lemma_set_subset_finite(m.dom(), m1.dom());
            let v = names(affected_semaphores@);
            assert(strictly_sorted(v) && v.to_set() == affected(m, expired(m, now)));
            lemma_sorted_unique(v, sorted_affected(m, now));
            assert(self.wf());
            law_resolve_all_saturates(m1, v, cfg);
            assert forall|s: Seq<char>| affected(m, expired(m, now)).contains(s) implies #[trigger] saturated(cfg, resolve_all(m1, v, cfg).0, s) by {
                assert(v.to_set().contains(s));
                let j = choose|j: int| 0 <= j < v.len() && v[j] == s;
                assert(saturated(cfg, resolve_all(m1, v, cfg).0, v[j]));
            }
            assert forall|i: int| 0 <= i < affected_semaphores@.len() implies has_key(cfg, #[trigger] affected_semaphores@[i]@) by {
                assert(v[i] == affected_semaphores@[i]@);
                assert(v.to_set().contains(v[i]));
                let w = choose|w: PeerId| expired(m, now).contains(w) && #[trigger] semaphores_of(m[w]).contains(v[i]);
                assert(peer_configured(m[w], cfg));
            }
        }
        // It is not enough to notify only the requests for the removed peers, as other peers might
        // be able to acquire their locks due to the removal of these.
        self.resolve_each(&affected_semaphores, resolved_peers);
        expired_peers
    }

    /// Releases the lock of the peer to `semaphore`, acquired or pending; a peer without a lock to
    /// it keeps all its locks. Due to the relased lock, other locks may be
    /// acquired; their peers are appended to `resolved_peers`.
    pub fn release_lock(&mut self, peer_id: PeerId, semaphore: &str, resolved_peers: &mut Vec<PeerId>) -> (r: Result<(), ThrottleError>)
        requires
            old(self).wf(),
        ensures
            final(self).wf(),
            final(self).config() == old(self).config(),
            r == (if !has_key(old(self).config(), semaphore@) {
                Err(ThrottleError::UnknownSemaphore)
            } else if !old(self).ledger().contains_key(peer_id) {
                Err(ThrottleError::UnknownPeer)
            } else {
                Ok(())
            }),
            r is Err ==> final(self).ledger() == old(self).ledger() && final(resolved_peers)@ == old(resolved_peers)@,
            r is Ok ==> {
                let m1 = old(self).ledger().insert(peer_id, released(old(self).ledger()[peer_id], semaphore@));
                let steps = resolve_steps(m1, semaphore@, max_of(old(self).config(), semaphore@) - total_acquired(m1, semaphore@));
                &&& final(self).ledger() == steps.0
                &&& final(resolved_peers)@ == old(resolved_peers)@ + steps.1
            },
            // Every lock to the semaphore which can be granted in its turn is granted.
            r is Ok ==> saturated(old(self).config(), final(self).ledger(), semaphore@),
    {
        let ghost m = self.ledger();
        let ghost cfg = self.config();
        proof {
            lemma_lookup(cfg, semaphore@);
        }
        let max = match self.semaphores.get(semaphore) {
            Some(sem) => sem.max,
            None => return Err(ThrottleError::UnknownSemaphore),
        };
        match self.leases.release_lock(peer_id, semaphore) {
            Ok(_) => {},
            Err(e) => return Err(e),
        }
        proof {
            let m1 = self.ledger();
            assert forall|i: PeerId| m1.contains_key(i) implies peer_configured(#[trigger] m1[i], cfg) by {
                assert(peer_configured(m[i], cfg));
                if i == peer_id {
                    let p = m[i];
                    let q = m1[i];
                    assert forall|x: Seq<char>| #[trigger] semaphores_of(q).contains(x) implies has_key(cfg, x) by {
                        lemma_released_semaphores(p, semaphore@, x);
                    }
                }
            }
            lemma_resolve_steps_keeps(m1, semaphore@, max - total_acquired(m1, semaphore@), cfg);
            law_resolve_steps_saturates(cfg, m1, semaphore@);
        }
        self.leases.resolve_pending(semaphore, max, resolved_peers);
        Ok(())
    }

    /// Sets the lock count for this peer and semaphore to `amount`. Should the remainder of the
    /// semaphore allow it.
    ///
    /// * `now`: Instant of the request.
    /// * `peer_id`: Identifies the peer for which we are setting the lock count
    /// * `semaphore`: Name of the semaphore to which we want to acquire the lock count.
    /// * `amount`: The count of the lock. Outside of revenants (i.e. expired peers, which do
    /// return). Throttle is going to see to it that the combined lock count is not going beyond
    /// the configured max count.
    /// * `expires_in`: Used to prolong the expiration timestamp of the affected peer. This saves us
    /// an extra heartbeat request.
    ///
    /// Returns whether all locks of the peer are acquired. Waiting for a lock which is pending is up
    /// to the caller.
    pub fn acquire(
        &mut self,
        now: u64,
        peer_id: PeerId,
        semaphore: &str,
        amount: i64,
        expires_in: Option<u64>,
    ) -> (r: Result<bool, ThrottleError>)
        requires
            old(self).wf(),
            expires_in matches Some(d) ==> now + d <= u64::MAX,
        ensures
            final(self).wf(),
            final(self).config() == old(self).config(),
            (r, final(self).ledger()) == acquire_outcome(
                old(self).config(),
                old(self).ledger(),
                now,
                peer_id,
                semaphore@,
                amount,
                expires_in,
            ),
            !has_key(old(self).config(), semaphore@) ==> r == Err::<bool, ThrottleError>(ThrottleError::UnknownSemaphore),
            has_key(old(self).config(), semaphore@) && amount > max_of(old(self).config(), semaphore@) ==> r
                == Err::<bool, ThrottleError>(ThrottleError::Never { asked: amount, max: max_of(old(self).config(), semaphore@) }),
            !old(self).ledger().contains_key(peer_id) ==> r is Err,
            r is Err && (expires_in is None || !old(self).ledger().contains_key(peer_id)
                || !has_key(old(self).config(), semaphore@) || amount > max_of(old(self).config(), semaphore@))
                ==> final(self).ledger() == old(self).ledger(),
            // A granted or pending answer is backed by the ledger.
            r is Ok ==> final(self).ledger().contains_key(peer_id)
                && demand(final(self).ledger()[peer_id], semaphore@) == amount
                && r == Ok::<bool, ThrottleError>(final(self).ledger()[peer_id].pending is None),
            // Other peers stay; the requesting one lives until `now + expires_in`, if given.
            final(self).ledger().dom() == old(self).ledger().dom(),
            forall|b: PeerId| b != peer_id && #[trigger] old(self).ledger().contains_key(b)
                ==> final(self).ledger()[b] == old(self).ledger()[b],
            old(self).ledger().contains_key(peer_id) ==> final(self).ledger()[peer_id].valid_until == (match expires_in {
                Some(d) => if has_key(old(self).config(), semaphore@) && amount <= max_of(old(self).config(), semaphore@) {
                    (now + d) as u64
                } else {
                    old(self).ledger()[peer_id].valid_until
                },
                None => old(self).ledger()[peer_id].valid_until,
            }),
    {
        proof {
            lemma_lookup(self.config(), semaphore@);
        }
        let sem = match self.semaphores.get(semaphore) {
            Some(sem) => *sem,
            None => return Err(ThrottleError::UnknownSemaphore),
        };
        let max = sem.max;
        let level = sem.level;
        // Return early if lease can never be acquired
        if max < amount {
            return Err(ThrottleError::Never { asked: amount, max });
        }
        let ghost m = self.ledger();
        let ghost cfg = self.config();
        match expires_in {
            Some(expires_in) => {
                let valid_until = now + expires_in;
                match self.leases.update_valid_until(peer_id, valid_until) {
                    Ok(()) => {},
                    Err(e) => return Err(e),
                }
                proof {
                    let m1 = self.ledger();
                    assert forall|i: PeerId| m1.contains_key(i) implies peer_configured(#[trigger] m1[i], cfg) by {
                        assert(peer_configured(m[i], cfg));
                        assert(semaphores_of(m1[i]) == semaphores_of(m[i]));
                    }
                }
            },
            None => {},
        }
        let ghost m1 = self.ledger();
        proof {
            if m1.contains_key(peer_id) {
                self.lemma_configured(peer_id);
            }
        }
        let r = self.leases.acquire(now, peer_id, semaphore, amount, max, level, &self.semaphores);
        proof {
            let m2 = self.ledger();
            assert forall|i: PeerId| m2.contains_key(i) implies peer_configured(#[trigger] m2[i], cfg) by {
                assert(peer_configured(m1[i], cfg));
                if i == peer_id && r is Ok && demand(m1[peer_id], semaphore@) == 0 {
                    let p = m1[peer_id];
                    let q = m2[i];
                    assert forall|x: Seq<char>| #[trigger] semaphores_of(q).contains(x) implies has_key(cfg, x) by {
                        let a = semaphores_of(q);
                        let k = choose|k: int| 0 <= k < a.len() && a[k] == x;
                        if x != semaphore@ {
                            if r->Ok_0 {
                                match p.pending {
                                    Some(l) => {
                                        assert(a =~= semaphores_of(p).push(semaphore@));
                                    },
                                    None => {
                                        assert(a =~= semaphores_of(p).push(semaphore@));
                                    },
                                }
                                assert(semaphores_of(p)[k] == x);
                            } else {
                                assert(a =~= seq![semaphore@] + crate::name_map::entry_keys(p.acquired));
                                assert(p.pending is None);
                                assert(semaphores_of(p)[k - 1] == x);
                            }
                        }
                    }
                }
            }
        }
        r
    }

    /// Prolongs the life time of the peer to `expires_in` after `now`.
    pub fn heartbeat(&mut self, now: u64, peer_id: PeerId, expires_in: u64) -> (r: Result<(), ThrottleError>)
        requires
            old(self).wf(),
            now + expires_in <= u64::MAX,
        ensures
            final(self).wf(),
            final(self).config() == old(self).config(),
            r == (if old(self).ledger().contains_key(peer_id) {
                Ok(())
            } else {
                Err(ThrottleError::UnknownPeer)
            }),
            final(self).ledger() == (if old(self).ledger().contains_key(peer_id) {
                old(self).ledger().insert(
                    peer_id,
                    prolonged(old(self).ledger()[peer_id], (now + expires_in) as u64),
                )
            } else {
                old(self).ledger()
            }),
            // The peer lives until `now + expires_in`, keeping its locks; other peers stay.
            final(self).ledger().dom() == old(self).ledger().dom(),
            old(self).ledger().contains_key(peer_id) ==> {
                let (p, q) = (old(self).ledger()[peer_id], final(self).ledger()[peer_id]);
                &&& q.valid_until == now + expires_in
                &&& q.acquired == p.acquired
                &&& q.pending == p.pending
            },
            forall|b: PeerId| b != peer_id && #[trigger] old(self).ledger().contains_key(b)
                ==> final(self).ledger()[b] == old(self).ledger()[b],
    {
        let ghost m = self.ledger();
        let ghost cfg = self.config();
        // Determine valid_until after acquiring lock, in case we block for a long time.
        let valid_until = now + expires_in;
        let r = self.leases.update_valid_until(peer_id, valid_until);
        proof {
            let m1 = self.ledger();
            assert forall|i: PeerId| m1.contains_key(i) implies peer_configured(#[trigger] m1[i], cfg) by {
                assert(peer_configured(m[i], cfg));
                assert(semaphores_of(m1[i]) == semaphores_of(m[i]));
            }
        }
        r
    }

    /// The full count of the semaphore minus the count of the acquired locks.
    pub fn remainder(&self, semaphore: &str) -> (r: Result<i64, ThrottleError>)
        requires
            self.wf(),
            has_key(self.config(), semaphore@) ==> total_acquired(self.ledger(), semaphore@) <= i64::MAX
                && max_of(self.config(), semaphore@) - total_acquired(self.ledger(), semaphore@) >= i64::MIN,
        ensures
            r == (if has_key(self.config(), semaphore@) {
                Ok((max_of(self.config(), semaphore@) - total_acquired(self.ledger(), semaphore@)) as i64)
            } else {
                Err(ThrottleError::UnknownSemaphore)
            }),
    {
        proof {
            lemma_lookup(self.config(), semaphore@);
        }
        match self.semaphores.get(semaphore) {
            Some(sem) => {
                assert(sem.max == max_of(self.config(), semaphore@));
                assert(has_key(self.config(), semaphore@));
                let count = self.leases.count(semaphore);
                assert(count == total_acquired(self.ledger(), semaphore@));
                Ok(sem.max - count)
            },
            None => Err(ThrottleError::UnknownSemaphore),
        }
    }

    /// The configured semaphores.
    pub fn semaphores(&self) -> (r: &NameMap<SemaphoreCfg>)
        ensures
            r.entries() == self.config(),
    {
        &self.semaphores
    }

    /// Whether the sums of the counts of every configured semaphore, and its remainder, fit into
    /// `i64`. Overcommitting through restored peers may break this.
    pub fn totals_fit(&self) -> (r: bool)
        requires
            self.wf(),
        ensures
            r == totals_fit(self.config(), self.ledger()),
    {
        let ghost cfg = self.config();
        let ghost m = self.ledger();
        let n = self.semaphores.len();
        for i in 0..n
            invariant
                n == cfg.len(),
                cfg == self.config(),
                m == self.ledger(),
                self.wf(),
                forall|j: int| 0 <= j < i ==> {
                    let k = #[trigger] cfg[j].0;
                    &&& total_acquired(m, k) <= i64::MAX
                    &&& total_pending(m, k) <= i64::MAX
                    &&& cfg[j].1.max - total_acquired(m, k) >= i64::MIN
                },
        {
            let name = self.semaphores.key(i);
            let max = self.semaphores.value(i).max;
            let acquired = self.leases.count_wide(name.as_str());
            let pending = self.leases.pending_wide(name.as_str());
            if acquired > i64::MAX as i128 || pending > i64::MAX as i128 || (max as i128) - acquired < i64::MIN as i128 {
                return false;
            }
        }
        true
    }

    /// Where all sums fit, the remainder of every configured semaphore can be computed.
    pub proof fn lemma_fit_remainder(&self, s: Seq<char>)
        requires
            self.wf(),
            totals_fit(self.config(), self.ledger()),
        ensures
            has_key(self.config(), s) ==> total_acquired(self.ledger(), s) <= i64::MAX
                && max_of(self.config(), s) - total_acquired(self.ledger(), s) >= i64::MIN,
    {
        let cfg = self.config();
        lemma_lookup(cfg, s);
        if has_key(cfg, s) {
            let i = choose|i: int| 0 <= i < cfg.len() && #[trigger] cfg[i].0 == s;
            assert(lookup(cfg, s) == Some(cfg[i].1));
        }
    }

    /// Accumulated counts for each configured semaphore, in the order of the configuration.
    pub fn counts(&self) -> (counts: NameMap<Counts>)
        requires
            self.wf(),
            totals_fit(self.config(), self.ledger()),
        ensures
            counts.wf(),
            counts.entries().len() == self.config().len(),
            forall|i: int| 0 <= i < self.config().len() ==> #[trigger] counts.entries()[i] == (
                self.config()[i].0,
                counts_of(self.ledger(), self.config()[i].0),
            ),
    {
        let ghost cfg = self.config();
        let ghost m = self.ledger();
        let mut counts: NameMap<Counts> = NameMap::new();
        let n = self.semaphores.len();
        for i in 0..n
            invariant
                n == cfg.len(),
                cfg == self.config(),
                distinct_keys(cfg),
                counts.wf(),
                counts.entries().len() == i,
                forall|j: int| 0 <= j < i ==> #[trigger] counts.entries()[j] == (cfg[j].0, Counts { acquired: 0, pending: 0, longest_pending_since: None }),
        {
            let name = self.semaphores.key(i).clone();
            proof {
                assert(!has_key(counts.entries(), name@)) by {
                    if has_key(counts.entries(), name@) {
                        let j = choose|j: int| 0 <= j < counts.entries().len() && #[trigger] counts.entries()[j].0 == name@;
                        assert(cfg[j].0 == cfg[i as int].0);
                    }
                }
            }
            counts.insert(name, Counts::default());
        }
        proof {
            assert forall|id: PeerId, j: int| m.contains_key(id) && 0 <= j < semaphores_of(m[id]).len()
                implies has_key(counts.entries(), #[trigger] semaphores_of(m[id])[j]) by {
                let x = semaphores_of(m[id])[j];
                assert(peer_configured(m[id], cfg));
                assert(semaphores_of(m[id]).contains(x));
                let q = choose|q: int| 0 <= q < cfg.len() && #[trigger] cfg[q].0 == x;
                assert(counts.entries()[q].0 == x);
            }
        }
        let ghost pre = counts.entries();
        self.leases.fill_counts(&mut counts);
        proof {
            assert forall|i: int| 0 <= i < cfg.len() implies #[trigger] counts.entries()[i] == (cfg[i].0, counts_of(m, cfg[i].0)) by {
                let k = pre[i].0;
                assert(k == cfg[i].0);
                let d = counts.entries()[i].1;
                assert(d.acquired == total_acquired(m, k));
                assert(d.pending == total_pending(m, k));
            }
        }
        counts
    }

    /// Instant at which the next peer expires, if there are any peers.
    pub fn min_valid_until(&self) -> (r: Option<u64>)
        ensures
            r == crate::leases::earliest_expiry(self.ledger()),
    {
        self.leases.min_valid_until()
    }

    /// Returns true if all the locks of the peer are acquired
    pub fn is_acquired(&self, peer_id: PeerId) -> (r: Result<bool, ThrottleError>)
        requires
            self.wf(),
        ensures
            r == (if self.ledger().contains_key(peer_id) {
                Ok(self.ledger()[peer_id].pending is None)
            } else {
                Err(ThrottleError::UnknownPeer)
            }),
    {
        match self.leases.has_pending(peer_id) {
            Ok(pending) => Ok(!pending),
            Err(e) => Err(e),
        }
    }

    /// Restores a peer, which expires `expires_in` after `now`, with the given acquired locks.
    pub fn restore(&mut self, now: u64, peer_id: PeerId, expires_in: u64, acquired: &NameMap<i64>) -> (r: Result<(), ThrottleError>)
        requires
            old(self).wf(),
            acquired.wf(),
            now + expires_in <= u64::MAX,
        ensures
            final(self).wf(),
            final(self).config() == old(self).config(),
            r == restore_answer(old(self).config(), old(self).ledger(), peer_id, acquired.entries()),
            final(self).ledger() == (if r is Ok && !old(self).ledger().contains_key(peer_id) {
                old(self).ledger().insert(
                    peer_id,
                    PeerView { acquired: acquired.entries(), pending: None, valid_until: (now + expires_in) as u64 },
                )
            } else {
                old(self).ledger()
            }),
    {
        let ghost e = acquired.entries();
        let ghost cfg = self.config();
        let ghost m = self.ledger();
        let n = acquired.len();
        for i in 0..n
            invariant
                n == e.len(),
                e == acquired.entries(),
                cfg == self.config(),
                self.wf(),
                m == self.ledger(),
                forall|j: int| 0 <= j < i ==> has_key(cfg, #[trigger] e[j].0),
        {
            // Assert semaphore exists. We want to give the client an error and also do not want to
            // allow any Unknown Semaphore into `leases`.
            proof {
                lemma_lookup(cfg, e[i as int].0);
            }
            if !self.semaphores.contains_key(acquired.key(i).as_str()) {
                return Err(ThrottleError::UnknownSemaphore);
            }
        }
        let valid_until = now + expires_in;
        // Acquired all locks for the peer
        let r = self.leases.restore(peer_id, acquired, valid_until);
        proof {
            let m1 = self.ledger();
            assert forall|i: PeerId| m1.contains_key(i) implies peer_configured(#[trigger] m1[i], cfg) by {
                if i == peer_id && !m.contains_key(peer_id) {
                    let p = m1[i];
                    assert(semaphores_of(p) == crate::name_map::entry_keys(e));
                    assert forall|x: Seq<char>| #[trigger] semaphores_of(p).contains(x) implies has_key(cfg, x) by {
                        let k = choose|k: int| 0 <= k < semaphores_of(p).len() && semaphores_of(p)[k] == x;
                        assert(e[k].0 == x);
                    }
                } else {
                    assert(peer_configured(m[i], cfg));
                }
            }
        }
        r
    }
}

} // verus!
