//! Bookkeeping of the peers, which lease semaphores by acquiring locks to them.
use crate::application_cfg::SemaphoreCfg;
use crate::error::ThrottleError;
use crate::name_map::{
    NameMap, distinct_keys, entry_keys, has_key, lemma_lookup, lemma_lookup_absent,
    lemma_lookup_push, lemma_lookup_take, lemma_remove_absent_key, lemma_remove_key, lookup,
    remove_key,
};
use crate::text::{lemma_lex_total, lemma_lex_transitive, lex_less, str_less};
use crate::tally::{
    least, lemma_least_seq, lemma_seq_tally_bounds, lemma_seq_tally_prefix, lemma_tally_seq, min_opt,
    seq_least, seq_tally, tally,
};
use std::collections::HashMap;
use vstd::prelude::*;

verus! {

broadcast use vstd::std_specs::hash::group_hash_axioms;

/// Every peer has a unique PeerId associated with it for bookkeeping.
pub type PeerId = u64;

/// Abstract state of a lock: the semaphore it is for, its count and the instant (in nanoseconds on
/// the caller's monotonic clock) at which it was requested.
pub struct LockView {
    pub semaphore: Seq<char>,
    pub count: i64,
    pub since: u64,
}

/// Abstract state of a peer: its acquired locks by semaphore in the order they were acquired, its
/// pending lock, and the instant until which it is valid.
pub struct PeerView {
    pub acquired: Seq<(Seq<char>, i64)>,
    pub pending: Option<LockView>,
    pub valid_until: u64,
}

/// Count of the lock the peer has acquired to `s`, `0` if it has none.
pub open spec fn acquired_count(p: PeerView, s: Seq<char>) -> int {
    match lookup(p.acquired, s) {
        Some(c) => c as int,
        None => 0,
    }
}

/// Count of the pending lock of the peer, if it is for `s`, `0` otherwise.
pub open spec fn pending_count(p: PeerView, s: Seq<char>) -> int {
    match p.pending {
        Some(l) => if l.semaphore == s { l.count as int } else { 0 },
        None => 0,
    }
}

/// Count of the lock of the peer to `s`, regardless of wether it is acquired or pending.
pub open spec fn demand(p: PeerView, s: Seq<char>) -> int {
    if pending_count(p, s) != 0 {
        pending_count(p, s)
    } else {
        acquired_count(p, s)
    }
}

/// Instant since when the peer waits for a lock to `s`, if it does.
pub open spec fn pending_since(p: PeerView, s: Seq<char>) -> Option<u64> {
    match p.pending {
        Some(l) => if l.semaphore == s { Some(l.since) } else { None },
        None => None,
    }
}

/// Semaphores of all locks of the peer: the pending one first, then the acquired ones.
pub open spec fn semaphores_of(p: PeerView) -> Seq<Seq<char>> {
    match p.pending {
        Some(l) => seq![l.semaphore] + entry_keys(p.acquired),
        None => entry_keys(p.acquired),
    }
}

/// A peer holds at most one lock per semaphore and every lock has a positive count.
pub open spec fn peer_wf(p: PeerView) -> bool {
    &&& distinct_keys(p.acquired)
    &&& forall|i: int| 0 <= i < p.acquired.len() ==> #[trigger] p.acquired[i].1 >= 1
    &&& p.pending matches Some(l) ==> l.count >= 1 && !has_key(p.acquired, l.semaphore)
}

/// The peer after its pending lock has been promoted to acquired.
pub open spec fn promoted(p: PeerView) -> PeerView {
    match p.pending {
        Some(l) => PeerView {
            acquired: p.acquired.push((l.semaphore, l.count)),
            pending: None,
            valid_until: p.valid_until,
        },
        None => p,
    }
}

pub open spec fn acquired_in(s: Seq<char>) -> spec_fn(PeerView) -> int {
    |p: PeerView| acquired_count(p, s)
}

pub open spec fn pending_in(s: Seq<char>) -> spec_fn(PeerView) -> int {
    |p: PeerView| pending_count(p, s)
}

pub open spec fn demand_in(s: Seq<char>) -> spec_fn(PeerView) -> int {
    |p: PeerView| demand(p, s)
}

/// Sum over all peers of the counts of the acquired locks to `s`.
pub open spec fn total_acquired(m: Map<PeerId, PeerView>, s: Seq<char>) -> int {
    tally(m.dom(), m, acquired_in(s))
}

/// Sum over all peers of the counts of the pending locks to `s`.
pub open spec fn total_pending(m: Map<PeerId, PeerView>, s: Seq<char>) -> int {
    tally(m.dom(), m, pending_in(s))
}

/// Sum over all peers of the counts of locks to `s`, acquired or pending.
pub open spec fn total_demand(m: Map<PeerId, PeerView>, s: Seq<char>) -> int {
    tally(m.dom(), m, demand_in(s))
}

/// The peer with a new lock to `s`, acquired or pending since `since`.
pub open spec fn with_new_lock(p: PeerView, s: Seq<char>, count: i64, acquired: bool, since: u64) -> PeerView {
    if acquired {
        PeerView { acquired: p.acquired.push((s, count)), pending: p.pending, valid_until: p.valid_until }
    } else {
        PeerView {
            acquired: p.acquired,
            pending: Some(LockView { semaphore: s, count, since }),
            valid_until: p.valid_until,
        }
    }
}

/// Answer to a request of peer `id` for a lock with count `amount` to semaphore `s` of full count
/// `max` and lock level `level`.
pub open spec fn acquire_result(
    m: Map<PeerId, PeerView>,
    id: PeerId,
    s: Seq<char>,
    amount: i64,
    max: i64,
    level: i32,
    cfg: Seq<(Seq<char>, SemaphoreCfg)>,
) -> Result<bool, ThrottleError> {
    if amount < 1 {
        Err(ThrottleError::InvalidLockCount { count: amount })
    } else if !m.contains_key(id) {
        Err(ThrottleError::UnknownPeer)
    } else if demand(m[id], s) != 0 {
        if amount < demand(m[id], s) {
            Err(ThrottleError::ShrinkingLockCount)
        } else if amount == demand(m[id], s) {
            Ok(m[id].pending is None)
        } else {
            Err(ThrottleError::Deadlock { current: level, requested: level })
        }
    } else {
        match peer_level(m[id].acquired, cfg) {
            Some(current) if current <= level => Err(
                ThrottleError::Deadlock { current, requested: level },
            ),
            _ => if m[id].pending is Some {
                Err(ThrottleError::AlreadyPending)
            } else {
                Ok(total_demand(m, s) + amount <= max)
            },
        }
    }
}

/// The first count of the entries which is not positive, if any.
pub open spec fn first_invalid(e: Seq<(Seq<char>, i64)>) -> Option<i64>
    decreases e.len(),
{
    if e.len() == 0 {
        None
    } else if e[0].1 < 1 {
        Some(e[0].1)
    } else {
        first_invalid(e.drop_first())
    }
}

/// Both entry lists store the same counts under the same names.
pub open spec fn same_locks(a: Seq<(Seq<char>, i64)>, b: Seq<(Seq<char>, i64)>) -> bool {
    forall|k: Seq<char>| #[trigger] lookup(a, k) == lookup(b, k)
}

/// Answer to restoring peer `id` with the acquired locks `e`.
pub open spec fn restore_result(m: Map<PeerId, PeerView>, id: PeerId, e: Seq<(Seq<char>, i64)>) -> Result<(), ThrottleError> {
    match first_invalid(e) {
        Some(count) => Err(ThrottleError::InvalidLockCount { count }),
        None => if m.contains_key(id) {
            if m[id].pending is None && same_locks(m[id].acquired, e) {
                Ok(())
            } else {
                Err(ThrottleError::ChangeThroughRestore)
            }
        } else {
            Ok(())
        },
    }
}

/// The peer waits for a lock to `s`.
pub open spec fn pending_on(p: PeerView, s: Seq<char>) -> bool {
    p.pending matches Some(l) && l.semaphore == s
}

/// The peer after releasing its lock to `s`: its acquired lock to `s` if it holds one, otherwise
/// its pending lock to `s` if it waits for one. All other locks stay.
pub open spec fn released(p: PeerView, s: Seq<char>) -> PeerView {
    if has_key(p.acquired, s) {
        PeerView { acquired: remove_key(p.acquired, s), pending: p.pending, valid_until: p.valid_until }
    } else if pending_on(p, s) {
        PeerView { acquired: p.acquired, pending: None, valid_until: p.valid_until }
    } else {
        p
    }
}

/// Lock level of a semaphore in the configuration.
pub open spec fn level_of(cfg: Seq<(Seq<char>, SemaphoreCfg)>, s: Seq<char>) -> i32 {
    match lookup(cfg, s) {
        Some(c) => c.level,
        None => 0,
    }
}

/// The smaller of two optional values, `None` counting as no value.
pub open spec fn min_level(a: Option<i32>, b: i32) -> Option<i32> {
    match a {
        Some(x) => if x <= b { Some(x) } else { Some(b) },
        None => Some(b),
    }
}

/// Current lock level of a peer: the minimum lock level of all its acquired locks.
pub open spec fn peer_level(acquired: Seq<(Seq<char>, i64)>, cfg: Seq<(Seq<char>, SemaphoreCfg)>) -> Option<i32>
    decreases acquired.len(),
{
    if acquired.len() == 0 {
        None
    } else {
        min_level(peer_level(acquired.drop_last(), cfg), level_of(cfg, acquired.last().0))
    }
}

/// Peers known to the ledger hold only semaphores present in the configuration.
pub open spec fn configured(p: PeerView, cfg: Seq<(Seq<char>, SemaphoreCfg)>) -> bool {
    forall|i: int| 0 <= i < p.acquired.len() ==> has_key(cfg, #[trigger] p.acquired[i].0)
}

/// Peers holds locks to semaphores, while holding this locks they have access to the semaphore.
struct Lock {
    /// Name of the resource the semaphore protects
    semaphore: String,
    /// The semaphore count is decreased by `count` if the lease is active.
    count: i64,
    /// Instant of lock creation. Used to implement fairness of semaphores.
    since: u64,
}

impl View for Lock {
    type V = LockView;

    closed spec fn view(&self) -> LockView {
        LockView { semaphore: self.semaphore@, count: self.count, since: self.since }
    }
}

impl Lock {
    /// Semaphore count of this lock, if it is for `semaphore`.
    fn count(&self, semaphore: &str) -> (r: i64)
        ensures
            r == (if self@.semaphore == semaphore@ { self.count } else { 0 }),
    {
        if crate::text::str_eq(self.semaphore.as_str(), semaphore) {
            self.count
        } else {
            0
        }
    }

    /// Increments the suitable entries in `counts`.
    fn update_counts_pending(&self, counts: &mut NameMap<Counts>)
        requires
            old(counts).wf(),
            has_key(old(counts).entries(), self@.semaphore),
            forall|i: int| 0 <= i < old(counts).entries().len() && #[trigger] old(counts).entries()[i].0 == self@.semaphore
                ==> old(counts).entries()[i].1.pending + self.count <= i64::MAX,
            self.count >= 0,
        ensures
            final(counts).wf(),
            final(counts).entries().len() == old(counts).entries().len(),
            forall|i: int| 0 <= i < old(counts).entries().len() ==> {
                let k = #[trigger] old(counts).entries()[i].0;
                let c = old(counts).entries()[i].1;
                let d = final(counts).entries()[i].1;
                &&& final(counts).entries()[i].0 == k
                &&& d.acquired == c.acquired
                &&& d.pending == c.pending + (if k == self@.semaphore { self.count as int } else { 0 })
                &&& d.longest_pending_since == (if k == self@.semaphore { min_opt(c.longest_pending_since, Some(self.since)) } else { c.longest_pending_since })
            },
    {
        let ghost pre = counts.entries();
        match counts.find(self.semaphore.as_str()) {
            Some(i) => {
                let c = *counts.value(i);
                // If there already has been a minimum, compare. Otherwise just use `self.since`.
                let longest_pending_since = match c.longest_pending_since {
                    Some(min_so_far) => if min_so_far <= self.since { Some(min_so_far) } else { Some(self.since) },
                    None => Some(self.since),
                };
                counts.set_value(i, Counts { acquired: c.acquired, pending: c.pending + self.count, longest_pending_since });
                proof {
                    assert forall|j: int| 0 <= j < pre.len() && j != i implies #[trigger] pre[j].0 != self@.semaphore by {
                        if j < i {
                            assert(pre[j].0 != pre[i as int].0);
                        } else {
                            assert(pre[i as int].0 != pre[j].0);
                        }
                    }
                }
            },
            None => {},
        }
    }

    /// Creation timestamp of the lock, if it is for `semaphore`.
    fn since(&self, semaphore: &str) -> (r: Option<u64>)
        ensures
            r == (if self@.semaphore == semaphore@ { Some(self.since) } else { None::<u64> }),
    {
        if crate::text::str_eq(self.semaphore.as_str(), semaphore) {
            Some(self.since)
        } else {
            None
        }
    }
}

/// A peer holds leases to semaphores, which may either be active or pending and share a common
/// expiration time.
struct Peer {
    /// A peer may acquire locks to multiple semaphores.
    acquired: NameMap<i64>,
    /// Only one lock can be pending for any given peer.
    pending: Option<Lock>,
    /// Instant upon which the lease may be removed by litter collection.
    valid_until: u64,
}

impl View for Peer {
    type V = PeerView;

    closed spec fn view(&self) -> PeerView {
        PeerView {
            acquired: self.acquired.entries(),
            pending: match self.pending {
                Some(l) => Some(l@),
                None => None,
            },
            valid_until: self.valid_until,
        }
    }
}

impl Peer {
    /// Creates a new Peer instance with the given acquired locks and no pending one.
    fn new(valid_until: u64, acquired: NameMap<i64>) -> (p: Peer)
        ensures
            p@ == (PeerView { acquired: acquired.entries(), pending: None, valid_until }),
    {
        Peer { acquired, pending: None, valid_until }
    }

    /// Count of the acquired lock to `semaphore`, `0` if there is none.
    fn count_acquired(&self, semaphore: &str) -> (r: i64)
        requires
            peer_wf(self@),
        ensures
            r == acquired_count(self@, semaphore@),
    {
        match self.acquired.get(semaphore) {
            Some(c) => *c,
            None => 0,
        }
    }

    /// Count of the pending lock, if it is for `semaphore`, `0` otherwise.
    fn count_pending(&self, semaphore: &str) -> (r: i64)
        requires
            peer_wf(self@),
        ensures
            r == pending_count(self@, semaphore@),
            r >= 0,
    {
        match &self.pending {
            Some(l) => l.count(semaphore),
            None => 0,
        }
    }

    /// Semaphore count of this peer regardless of wether the lock is acquired or pending.
    fn count_demand(&self, semaphore: &str) -> (r: i64)
        requires
            peer_wf(self@),
        ensures
            r == demand(self@, semaphore@),
            r >= 0,
    {
        let pending = match &self.pending {
            Some(l) => l.count(semaphore),
            None => 0,
        };
        if pending != 0 {
            pending
        } else {
            proof {
                lemma_lookup(self@.acquired, semaphore@);
                if has_key(self@.acquired, semaphore@) {
                    let i = choose|i: int| 0 <= i < self@.acquired.len() && #[trigger] self@.acquired[i].0 == semaphore@;
                    assert(self@.acquired[i].1 >= 1);
                }
            }
            self.count_acquired(semaphore)
        }
    }

    /// True if the locks associated with this peer are acquired
    fn all_acquired(&self) -> (r: bool)
        ensures
            r == (self@.pending is None),
    {
        self.pending.is_none()
    }

    /// Instant since when the peer is waiting for the semaphore.
    fn pending_since(&self, semaphore: &str) -> (r: Option<u64>)
        ensures
            r == pending_since(self@, semaphore@),
    {
        match &self.pending {
            Some(lock) => lock.since(semaphore),
            None => None,
        }
    }

    /// Increments the suitable entries in `counts`.
    fn update_counts(&self, counts: &mut NameMap<Counts>)
        requires
            peer_wf(self@),
            old(counts).wf(),
            forall|j: int| 0 <= j < semaphores_of(self@).len() ==> has_key(old(counts).entries(), #[trigger] semaphores_of(self@)[j]),
            forall|i: int| 0 <= i < old(counts).entries().len() ==> {
                let k = #[trigger] old(counts).entries()[i].0;
                &&& old(counts).entries()[i].1.acquired + acquired_count(self@, k) <= i64::MAX
                &&& old(counts).entries()[i].1.pending + pending_count(self@, k) <= i64::MAX
            },
        ensures
            final(counts).wf(),
            final(counts).entries().len() == old(counts).entries().len(),
            forall|i: int| 0 <= i < old(counts).entries().len() ==> {
                let k = #[trigger] old(counts).entries()[i].0;
                let c = old(counts).entries()[i].1;
                let d = final(counts).entries()[i].1;
                &&& final(counts).entries()[i].0 == k
                &&& d.acquired == c.acquired + acquired_count(self@, k)
                &&& d.pending == c.pending + pending_count(self@, k)
                &&& d.longest_pending_since == min_opt(c.longest_pending_since, pending_since(self@, k))
            },
    {
        let ghost pre = counts.entries();
        let ghost e = self@.acquired;
        let n = self.acquired.len();
        assert(e.take(0) =~= Seq::<(Seq<char>, i64)>::empty());
        assert forall|x: int| 0 <= x < e.len() implies has_key(pre, #[trigger] e[x].0) by {
            let off: int = if self@.pending is Some { 1 } else { 0 };
            assert(semaphores_of(self@)[x + off] == e[x].0);
        }
        for j in 0..n
            invariant
                n == e.len(),
                e == self@.acquired,
                peer_wf(self@),
                counts.wf(),
                counts.entries().len() == pre.len(),
                forall|x: int| 0 <= x < e.len() ==> has_key(pre, #[trigger] e[x].0),
                forall|i: int| 0 <= i < pre.len() ==> {
                    let k = #[trigger] pre[i].0;
                    &&& pre[i].1.acquired + acquired_count(self@, k) <= i64::MAX
                },
                forall|i: int| 0 <= i < pre.len() ==> {
                    let k = #[trigger] pre[i].0;
                    let c = pre[i].1;
                    let d = counts.entries()[i].1;
                    &&& counts.entries()[i].0 == k
                    &&& d.acquired == c.acquired + (match lookup(e.take(j as int), k) { Some(v) => v as int, None => 0 })
                    &&& d.pending == c.pending
                    &&& d.longest_pending_since == c.longest_pending_since
                },
        {
            let name = self.acquired.key(j);
            let count = *self.acquired.value(j);
            proof {
                lemma_lookup_take(e, e[j as int].0, j as int);
                assert forall|i: int| 0 <= i < pre.len() implies #[trigger] lookup(e.take(j + 1), pre[i].0) == (if e[j as int].0 == pre[i].0 {
                    Some(e[j as int].1)
                } else {
                    lookup(e.take(j as int), pre[i].0)
                }) by {
                    lemma_lookup_take(e, pre[i].0, j as int);
                }
                // the name of entry j is not among the names before it
                let t = e.take(j as int);
                assert(!has_key(t, e[j as int].0)) by {
                    if has_key(t, e[j as int].0) {
                        let q = choose|q: int| 0 <= q < t.len() && #[trigger] t[q].0 == e[j as int].0;
                        assert(e[q].0 == e[j as int].0);
                    }
                }
                lemma_lookup_absent(t, e[j as int].0);
                assert(has_key(pre, e[j as int].0));
            }
            match counts.find(name.as_str()) {
                Some(i) => {
                    let c = *counts.value(i);
                    proof {
                        lemma_lookup(e, e[j as int].0);
                        assert(acquired_count(self@, e[j as int].0) == count);
                        assert(counts.entries()[i as int].0 == pre[i as int].0);
                    }
                    let ghost before = counts.entries();
                    counts.set_value(i, Counts { acquired: c.acquired + count, pending: c.pending, longest_pending_since: c.longest_pending_since });
                    proof {
                        assert forall|x: int| 0 <= x < pre.len() && x != i implies #[trigger] pre[x].0 != e[j as int].0 by {
                            if x < i {
                                assert(before[x].0 != before[i as int].0);
                            } else {
                                assert(before[i as int].0 != before[x].0);
                            }
                        }
                    }
                },
                None => {
                    proof {
                        let q = choose|q: int| 0 <= q < pre.len() && #[trigger] pre[q].0 == e[j as int].0;
                        assert(counts.entries()[q].0 == e[j as int].0);
                    }
                },
            }
        }
        proof {
            assert(e.take(n as int) =~= e);
        }
        match &self.pending {
            Some(lock) => {
                proof {
                    assert(semaphores_of(self@)[0] == lock@.semaphore);
                    assert forall|i: int| 0 <= i < counts.entries().len() && #[trigger] counts.entries()[i].0 == lock@.semaphore
                        implies counts.entries()[i].1.pending + lock.count <= i64::MAX by {
                        assert(pre[i].0 == lock@.semaphore);
                    }
                    let q = choose|q: int| 0 <= q < pre.len() && #[trigger] pre[q].0 == lock@.semaphore;
                    assert(counts.entries()[q].0 == lock@.semaphore);
                }
                lock.update_counts_pending(counts);
            },
            None => {},
        }
        proof {
            assert forall|i: int| 0 <= i < pre.len() implies #[trigger] pre[i].1.acquired + acquired_count(self@, pre[i].0) == counts.entries()[i].1.acquired by {
            }
        }
    }

    /// Empties the peer. Returns name of associated semaphores, the pending one first.
    fn clear(&mut self) -> (r: Vec<String>)
        ensures
            names(r@) == semaphores_of(old(self)@),
            final(self)@ == (PeerView { acquired: Seq::empty(), pending: None, valid_until: old(self)@.valid_until }),
    {
        let ghost keys = entry_keys(self@.acquired);
        let mut semaphores: Vec<String> = Vec::new();
        match self.pending.take() {
            Some(lock) => {
                semaphores.push(lock.semaphore);
            },
            None => {},
        }
        let ghost first = names(semaphores@);
        assert(first + keys.take(0) =~= first);
        let n = self.acquired.len();
        for i in 0..n
            invariant
                n == self@.acquired.len(),
                keys == entry_keys(self@.acquired),
                names(semaphores@) == first + keys.take(i as int),
        {
            let name = self.acquired.key(i).clone();
            let ghost before = semaphores@;
            semaphores.push(name);
            proof {
                assert(names(semaphores@) =~= names(before).push(name@));
                assert(keys.take(i + 1) =~= keys.take(i as int).push(keys[i as int]));
            }
        }
        proof {
            assert(keys.take(n as int) =~= keys);
            match old(self)@.pending {
                Some(l) => {
                    assert(first =~= seq![l.semaphore]);
                },
                None => {
                    assert(first =~= Seq::<Seq<char>>::empty());
                    assert(Seq::<Seq<char>>::empty() + keys =~= keys);
                },
            }
        }
        self.acquired = NameMap::new();
        assert(self@.acquired =~= Seq::<(Seq<char>, i64)>::empty());
        semaphores
    }

    /// Check wether the peer is expired. If so its locks are released.
    ///
    /// # Return
    ///
    /// `None` if the peer is still valid. Otherwise the names of the semaphores of its locks.
    fn remove_expired(&mut self, now: u64) -> (r: Option<Vec<String>>)
        ensures
            r is Some <==> old(self)@.valid_until < now,
            r matches Some(v) ==> names(v@) == semaphores_of(old(self)@),
    {
        if self.valid_until < now {
            Some(self.clear())
        } else {
            None
        }
    }

    /// Adds a lock for the semaphore to the peer, acquired or pending since `since`.
    fn add_lock(&mut self, semaphore: String, count: i64, acquired: bool, since: u64) -> (r: Result<(), ThrottleError>)
        requires
            peer_wf(old(self)@),
            old(self).acquired.wf(),
            count >= 1,
            !has_key(old(self)@.acquired, semaphore@),
        ensures
            peer_wf(final(self)@),
            r == (if old(self)@.pending is Some {
                Err(ThrottleError::AlreadyPending)
            } else {
                Ok(())
            }),
            final(self)@ == (if old(self)@.pending is Some {
                old(self)@
            } else {
                with_new_lock(old(self)@, semaphore@, count, acquired, since)
            }),
    {
        if self.pending.is_some() {
            return Err(ThrottleError::AlreadyPending);
        }
        let ghost pre = self@;
        if acquired {
            let ghost name = semaphore@;
            let _prev = self.acquired.insert(semaphore, count);
            proof {
                lemma_lookup_push(pre.acquired, name, count);
                let e = self@.acquired;
                assert forall|i: int| 0 <= i < e.len() implies #[trigger] e[i].1 >= 1 by {
                    if i < pre.acquired.len() {
                        assert(e[i] == pre.acquired[i]);
                    }
                }
            }
        } else {
            self.pending = Some(Lock { semaphore, count, since });
        }
        Ok(())
    }

    /// If the count of remainder is sufficient the pending lock is going to be promoted to
    /// acquired. The remainder is decremented independent of wether the lease could be acquired or
    /// not.
    ///
    /// # Return
    ///
    /// `true` if the lock has been acquired.
    fn try_resolve(&mut self, remainder: &mut i128) -> (r: bool)
        requires
            peer_wf(old(self)@),
            old(self).acquired.wf(),
            old(self)@.pending is Some,
            *old(remainder) >= i128::MIN + i64::MAX,
        ensures
            peer_wf(final(self)@),
            final(self).acquired.wf(),
            *final(remainder) == *old(remainder) - old(self)@.pending->0.count,
            r == (*final(remainder) >= 0),
            final(self)@ == (if r { promoted(old(self)@) } else { old(self)@ }),
    {
        let count = match &self.pending {
            Some(lock) => lock.count,
            None => 0,
        };
        *remainder = *remainder - count as i128;
        if *remainder >= 0 {
            let ghost pre = self@;
            match self.pending.take() {
                Some(lock) => {
                    let ghost name = lock.semaphore@;
                    let _prev = self.acquired.insert(lock.semaphore, lock.count);
                    proof {
                        lemma_lookup_push(pre.acquired, name, count);
                        let e = self@.acquired;
                        assert forall|i: int| 0 <= i < e.len() implies #[trigger] e[i].1 >= 1 by {
                            if i < pre.acquired.len() {
                                assert(e[i] == pre.acquired[i]);
                            }
                        }
                    }
                },
                None => {},
            }
            true
        } else {
            false
        }
    }

    /// Release a pending or acquired lock, to a semaphore.
    ///
    /// # Return
    ///
    /// `true` if a pending lock has been released.
    fn release_lock(&mut self, semaphore: &str) -> (r: bool)
        requires
            peer_wf(old(self)@),
            old(self).acquired.wf(),
        ensures
            peer_wf(final(self)@),
            final(self).acquired.wf(),
            r == (!has_key(old(self)@.acquired, semaphore@) && pending_on(old(self)@, semaphore@)),
            final(self)@ == released(old(self)@, semaphore@),
    {
        let ghost pre = self@;
        proof {
            lemma_lookup(pre.acquired, semaphore@);
        }
        let prev = self.acquired.remove(semaphore);
        if prev.is_none() {
            proof {
                lemma_remove_absent_key(pre.acquired, semaphore@);
            }
            let on_semaphore = match &self.pending {
                Some(lock) => crate::text::str_eq(lock.semaphore.as_str(), semaphore),
                None => false,
            };
            if on_semaphore {
                self.pending = None;
            }
            on_semaphore
        } else {
            proof {
                let i = choose|i: int| 0 <= i < pre.acquired.len() && #[trigger] pre.acquired[i].0 == semaphore@;
                lemma_remove_key(pre.acquired, semaphore@, i);
                let e = self@.acquired;
                assert forall|j: int| 0 <= j < e.len() implies #[trigger] e[j].1 >= 1 by {
                    if j < i {
                        assert(e[j] == pre.acquired[j]);
                    } else {
                        assert(e[j] == pre.acquired[j + 1]);
                    }
                }
                if let Some(l) = pre.pending {
                    if has_key(e, l.semaphore) {
                        let j = choose|j: int| 0 <= j < e.len() && #[trigger] e[j].0 == l.semaphore;
                        if j < i {
                            assert(e[j] == pre.acquired[j]);
                        } else {
                            assert(e[j] == pre.acquired[j + 1]);
                        }
                    }
                }
            }
            false
        }
    }

    /// Assert that restoring this peer to the specfied locks is vaild. I.e the peer must not have a
    /// pending lock and have the same locks acquired. So apart from the timestamp nothing changes.
    fn assert_restore_valid(&self, acquired: &NameMap<i64>) -> (r: Result<(), ThrottleError>)
        requires
            self.acquired.wf(),
            acquired.wf(),
        ensures
            r == (if self@.pending is None && same_locks(self@.acquired, acquired.entries()) {
                Ok(())
            } else {
                Err(ThrottleError::ChangeThroughRestore)
            }),
            // Accepted exactly for a peer waiting for no lock which holds, under every name, the
            // restored count.
            r is Ok <==> self@.pending is None
                && forall|k: Seq<char>| #[trigger] lookup(self@.acquired, k) == lookup(acquired.entries(), k),
    {
        if self.pending.is_none() && acquired.same_entries(&self.acquired) {
            assert forall|k: Seq<char>| #[trigger] lookup(self@.acquired, k) == lookup(acquired.entries(), k) by {
                assert(acquired.get_spec(k) == self.acquired.get_spec(k));
            }
            Ok(())
        } else {
            proof {
                if self.pending.is_none() && same_locks(self@.acquired, acquired.entries()) {
                    assert forall|k: Seq<char>| #[trigger] acquired.get_spec(k) == self.acquired.get_spec(k) by {
                        assert(lookup(self@.acquired, k) == lookup(acquired.entries(), k));
                    }
                }
            }
            Err(ThrottleError::ChangeThroughRestore)
        }
    }

    /// Current lock level of the peer. Which is the minimum lock level of all acquired locks.
    fn level(&self, lock_levels: &NameMap<SemaphoreCfg>) -> (r: Option<i32>)
        requires
            lock_levels.wf(),
            configured(self@, lock_levels.entries()),
        ensures
            r == peer_level(self@.acquired, lock_levels.entries()),
    {
        let ghost e = self@.acquired;
        let ghost cfg = lock_levels.entries();
        let n = self.acquired.len();
        let mut current: Option<i32> = None;
        assert(e.take(0) =~= Seq::<(Seq<char>, i64)>::empty());
        for i in 0..n
            invariant
                n == e.len(),
                e == self@.acquired,
                cfg == lock_levels.entries(),
                lock_levels.wf(),
                configured(self@, cfg),
                current == peer_level(e.take(i as int), cfg),
        {
            proof {
                lemma_lookup(cfg, e[i as int].0);
                assert(has_key(cfg, e[i as int].0));
            }
            let level = match lock_levels.get(self.acquired.key(i).as_str()) {
                Some(cfg_entry) => cfg_entry.level,
                None => 0,
            };
            current = match current {
                Some(x) => if x <= level { Some(x) } else { Some(level) },
                None => Some(level),
            };
            proof {
                assert(e.take(i + 1).drop_last() =~= e.take(i as int));
            }
        }
        assert(e.take(n as int) =~= e);
        current
    }
}

/// Does the bookeeping for all the peers, which 'lease' Semaphores by acquiring locks to them. This
/// is a purely a bookeeping struct and does not provide any synchronization mechanisms. Rather they
/// are build arount this type.
pub struct Leases {
    //  Peers holding pending or acquired leases to the semaphores
    ledger: HashMap<PeerId, Peer>,
}

impl View for Leases {
    type V = Map<PeerId, PeerView>;

    closed spec fn view(&self) -> Map<PeerId, PeerView> {
        self.ledger@.map_values(|p: Peer| p@)
    }
}

/// Draws a random peer id.
///
/// Calls `rand::random::<u64>()`, which draws from the thread local generator of `rand`. Nothing is
/// promised of the result.
#[verifier::external_body]
fn random_peer_id() -> u64 {
    rand::random::<u64>()
}

/// The set of the numbers below `k` has `k` elements.
proof fn lemma_numbers_below(k: u64)
    ensures
        Set::new(|x: u64| x < k).finite(),
        Set::new(|x: u64| x < k).len() == k,
    decreases k,
{
    if k == 0 {
        assert(Set::new(|x: u64| x < k) =~= Set::<u64>::empty());
    } else {
        lemma_numbers_below((k - 1) as u64);
        assert(Set::new(|x: u64| x < k) =~= Set::new(|x: u64| x < (k - 1) as u64).insert((k - 1) as u64));
    }
}

pub open spec fn since_in(s: Seq<char>) -> spec_fn(PeerView) -> Option<u64> {
    |p: PeerView| pending_since(p, s)
}

/// Earliest instant since which any peer waits for a lock to `s`, if any does.
pub open spec fn earliest_pending(m: Map<PeerId, PeerView>, s: Seq<char>) -> Option<u64> {
    least(m.dom(), m, since_in(s))
}

pub open spec fn valid_until_of() -> spec_fn(PeerView) -> Option<u64> {
    |p: PeerView| Some(p.valid_until)
}

/// Earliest instant until which any peer of the ledger is valid, if there is any peer.
pub open spec fn earliest_expiry(m: Map<PeerId, PeerView>) -> Option<u64> {
    least(m.dom(), m, valid_until_of())
}

/// Accumulated counts for an indiviual Semaphore
#[derive(Debug, Clone, Copy, PartialEq, Eq)]
pub struct Counts {
    /// Accumulated count of acquired leases (aka. the count) of the semaphore.
    pub acquired: i64,
    /// Accumulated count of pending leases.
    pub pending: i64,
    /// Instant since when the earliest pending lock waits, if any lock is pending.
    pub longest_pending_since: Option<u64>,
}

impl Default for Counts {
    fn default() -> (c: Counts)
        ensures
            c.acquired == 0,
            c.pending == 0,
            c.longest_pending_since is None,
    {
        Counts { acquired: 0, pending: 0, longest_pending_since: None }
    }
}

impl Counts {
    /// Time the longest pending peer is waiting until `now`, to acquire a lock to a semaphore. A
    /// lock requested after `now` counts as waiting for no time at all.
    pub fn longest_pending(&self, now: u64) -> (d: u64)
        ensures
            d == (match self.longest_pending_since {
                Some(earlier) => if now >= earlier { (now - earlier) as u64 } else { 0 },
                None => 0,
            }),
    {
        match self.longest_pending_since {
            Some(earlier) => if now >= earlier { now - earlier } else { 0 },
            None => 0,
        }
    }
}

/// Peers waiting for a lock to `s`.
pub open spec fn waiting(m: Map<PeerId, PeerView>, s: Seq<char>) -> Set<PeerId> {
    m.dom().filter(|id: PeerId| pending_since(m[id], s) is Some)
}

/// Peer `a` waits for `s` at least as long as `b` does; ties are broken by the smaller id.
pub open spec fn precedes(m: Map<PeerId, PeerView>, s: Seq<char>, a: PeerId, b: PeerId) -> bool {
    let ta = pending_since(m[a], s)->0;
    let tb = pending_since(m[b], s)->0;
    ta < tb || (ta == tb && a <= b)
}

/// `id` is the peer waiting the longest for a lock to `s`: its pending lock is the next to be
/// considered.
pub open spec fn is_next(m: Map<PeerId, PeerView>, s: Seq<char>, id: PeerId) -> bool {
    &&& waiting(m, s).contains(id)
    &&& forall|j: PeerId| waiting(m, s).contains(j) ==> precedes(m, s, id, j)
}

/// The next peer waiting for `s`, if any.
pub open spec fn next_waiting(m: Map<PeerId, PeerView>, s: Seq<char>) -> Option<PeerId> {
    if exists|id: PeerId| is_next(m, s, id) {
        Some(choose|id: PeerId| is_next(m, s, id))
    } else {
        None
    }
}

/// Promoting pending locks of `s` in the order of their priority, as long as `remainder` covers
/// them. Gives the new ledger and the peers whose locks have been acquired, in order. The first
/// lock that is not covered stops the procession, so no smaller lock can overtake a larger one
/// waiting longer.
pub open spec fn resolve_steps(m: Map<PeerId, PeerView>, s: Seq<char>, remainder: int) -> (Map<PeerId, PeerView>, Seq<PeerId>)
    decreases waiting(m, s).len(),
    when m.dom().finite()
{
    match next_waiting(m, s) {
        Some(id) => {
            let rest = remainder - m[id].pending->0.count;
            if rest >= 0 {
                proof {
                    lemma_waiting_after_promotion(m, s, id);
                }
                let (m2, ids) = resolve_steps(m.insert(id, promoted(m[id])), s, rest);
                (m2, seq![id] + ids)
            } else {
                (m, Seq::empty())
            }
        },
        None => (m, Seq::empty()),
    }
}

pub proof fn lemma_waiting_after_promotion(m: Map<PeerId, PeerView>, s: Seq<char>, id: PeerId)
    requires
        m.dom().finite(),
        exists|i: PeerId| is_next(m, s, i),
        id == choose|i: PeerId| is_next(m, s, i),
    ensures
        waiting(m.insert(id, promoted(m[id])), s) == waiting(m, s).remove(id),
        waiting(m, s).contains(id),
        waiting(m, s).finite(),
        waiting(m.insert(id, promoted(m[id])), s).len() < waiting(m, s).len(),
        m.insert(id, promoted(m[id])).dom().finite(),
{
    assert(is_next(m, s, id));
    let m2 = m.insert(id, promoted(m[id]));
    assert(waiting(m2, s) =~= waiting(m, s).remove(id));
    assert(waiting(m, s).subset_of(m.dom()));
    vstd::set_lib::lemma_set_subset_finite(m.dom(), waiting(m, s));
    assert(m2.dom() =~= m.dom());
}

/// Peers which are expired at `now`.
pub open spec fn expired(m: Map<PeerId, PeerView>, now: u64) -> Set<PeerId> {
    m.dom().filter(|id: PeerId| m[id].valid_until < now)
}

/// Semaphores to which any of the peers `ids` holds a lock.
pub open spec fn affected(m: Map<PeerId, PeerView>, ids: Set<PeerId>) -> Set<Seq<char>> {
    Set::new(|s: Seq<char>| exists|id: PeerId| ids.contains(id) && #[trigger] semaphores_of(m[id]).contains(s))
}

/// Names in strictly ascending lexicographic order; in particular without duplicates.
pub open spec fn strictly_sorted(v: Seq<Seq<char>>) -> bool {
    forall|i: int, j: int| 0 <= i < j < v.len() ==> lex_less(#[trigger] v[i], #[trigger] v[j])
}

/// Inserts `name` into the sorted list of names, unless it is present already.
fn insert_sorted(v: &mut Vec<String>, name: String)
    requires
        strictly_sorted(names(old(v)@)),
    ensures
        strictly_sorted(names(final(v)@)),
        names(final(v)@).to_set() == names(old(v)@).to_set().insert(name@),
{
    let ghost pre = names(v@);
    let n = v.len();
    let mut p: usize = 0;
    while p < n && str_less(v[p].as_str(), name.as_str())
        invariant
            n == v@.len(),
            pre == names(v@),
            p <= n,
            forall|i: int| 0 <= i < p ==> lex_less(#[trigger] pre[i], name@),
        decreases n - p,
    {
        p = p + 1;
    }
    if p < n && crate::text::str_eq(v[p].as_str(), name.as_str()) {
        proof {
            assert(pre.to_set().insert(name@) =~= pre.to_set()) by {
                assert(pre[p as int] == name@);
                assert(pre.to_set().contains(name@));
            }
        }
        return;
    }
    proof {
        if p < n {
            assert(!lex_less(pre[p as int], name@));
            assert(pre[p as int] != name@);
            lemma_lex_total(pre[p as int], name@);
            assert(lex_less(name@, pre[p as int]));
        }
    }
    let ghost name_view = name@;
    v.insert(p, name);
    proof {
        let post = names(v@);
        assert(post =~= pre.insert(p as int, name_view));
        assert forall|i: int, j: int| 0 <= i < j < post.len() implies lex_less(#[trigger] post[i], #[trigger] post[j]) by {
            if j < p {
                assert(post[i] == pre[i] && post[j] == pre[j]);
            } else if j == p {
                assert(post[i] == pre[i]);
            } else if i == p {
                assert(post[j] == pre[j - 1]);
                if j - 1 > p {
                    lemma_lex_transitive(name_view, pre[p as int], pre[j - 1]);
                }
            } else if i < p {
                assert(post[i] == pre[i] && post[j] == pre[j - 1]);
            } else {
                assert(post[i] == pre[i - 1] && post[j] == pre[j - 1]);
            }
        }
        assert forall|x: Seq<char>| post.to_set().contains(x) <==> pre.to_set().insert(name_view).contains(x) by {
            if post.to_set().contains(x) {
                let k = choose|k: int| 0 <= k < post.len() && post[k] == x;
                if k < p {
                    assert(pre[k] == x);
                } else if k > p {
                    assert(pre[k - 1] == x);
                }
            }
            if pre.to_set().contains(x) {
                let k = choose|k: int| 0 <= k < pre.len() && pre[k] == x;
                if k < p {
                    assert(post[k] == x);
                } else {
                    assert(post[k + 1] == x);
                }
            }
            if x == name_view {
                assert(post[p as int] == x);
            }
        }
        assert(post.to_set() =~= pre.to_set().insert(name_view));
    }
}

/// Names of strings as character sequences.
pub open spec fn names(v: Seq<String>) -> Seq<Seq<char>> {
    v.map_values(|s: String| s@)
}

/// Every peer of the ledger is well formed.
pub open spec fn ledger_wf(m: Map<PeerId, PeerView>) -> bool {
    forall|id: PeerId| m.contains_key(id) ==> peer_wf(#[trigger] m[id])
}

pub proof fn lemma_ledger_wf_insert(m: Map<PeerId, PeerView>, id: PeerId, p: PeerView)
    requires
        ledger_wf(m),
        peer_wf(p),
    ensures
        ledger_wf(m.insert(id, p)),
{
    assert forall|i: PeerId| m.insert(id, p).contains_key(i) implies peer_wf(#[trigger] m.insert(id, p)[i]) by {
        if i != id {
            assert(m.contains_key(i));
        }
    }
}

pub proof fn lemma_ledger_wf_remove(m: Map<PeerId, PeerView>, id: PeerId)
    requires
        ledger_wf(m),
    ensures
        ledger_wf(m.remove(id)),
{
    assert forall|i: PeerId| m.remove(id).contains_key(i) implies peer_wf(#[trigger] m.remove(id)[i]) by {
        assert(m.contains_key(i));
    }
}

/// Counts which are not positive come first in `first_invalid`.
pub proof fn lemma_first_invalid_skip(e: Seq<(Seq<char>, i64)>, i: int)
    requires
        0 <= i <= e.len(),
        forall|j: int| 0 <= j < i ==> #[trigger] e[j].1 >= 1,
    ensures
        first_invalid(e) == first_invalid(e.skip(i)),
    decreases i,
{
    if i > 0 {
        let t = e.drop_first();
        assert forall|j: int| 0 <= j < i - 1 implies #[trigger] t[j].1 >= 1 by {
            assert(t[j] == e[j + 1]);
        }
        lemma_first_invalid_skip(t, i - 1);
        assert(t.skip(i - 1) =~= e.skip(i));
        assert(e[0].1 >= 1);
    } else {
        assert(e.skip(0) =~= e);
    }
}

/// Without a count that is not positive, all counts are positive.
pub proof fn lemma_first_invalid_none(e: Seq<(Seq<char>, i64)>)
    requires
        first_invalid(e) is None,
    ensures
        forall|j: int| 0 <= j < e.len() ==> #[trigger] e[j].1 >= 1,
    decreases e.len(),
{
    if e.len() > 0 {
        lemma_first_invalid_none(e.drop_first());
        assert forall|j: int| 0 <= j < e.len() implies #[trigger] e[j].1 >= 1 by {
            if j > 0 {
                assert(e[j] == e.drop_first()[j - 1]);
            }
        }
    }
}

/// Counts of well formed peers are non-negative.
pub proof fn lemma_peer_counts(p: PeerView, s: Seq<char>)
    requires
        peer_wf(p),
    ensures
        0 <= acquired_count(p, s) <= i64::MAX,
        0 <= pending_count(p, s) <= i64::MAX,
        0 <= demand(p, s) <= i64::MAX,
        has_key(p.acquired, s) <==> acquired_count(p, s) != 0,
{
    lemma_lookup(p.acquired, s);
    if has_key(p.acquired, s) {
        let i = choose|i: int| 0 <= i < p.acquired.len() && #[trigger] p.acquired[i].0 == s;
        assert(p.acquired[i].1 >= 1);
    }
}

impl Leases {
    /// Every peer is well formed, and there are finitely many.
    pub open spec fn wf(&self) -> bool {
        &&& ledger_wf(self@)
        &&& self@.dom().finite()
    }

    proof fn lemma_view(&self)
        ensures
            self@.dom() == self.ledger@.dom(),
            forall|id: PeerId| self.ledger@.contains_key(id) ==> #[trigger] self@[id] == self.ledger@[id]@,
            self@.dom().finite(),
    {
        assert(self@.dom() =~= self.ledger@.dom());
    }

    /// An empty ledger.
    pub fn new() -> (l: Self)
        ensures
            l.wf(),
            l@ == Map::<PeerId, PeerView>::empty(),
    {
        let l = Leases { ledger: HashMap::new() };
        assert(l@ =~= Map::<PeerId, PeerView>::empty());
        l
    }

    /// Generates a random new peer id which does not collide with any preexisting
    fn new_unique_peer_id(&self) -> (id: PeerId)
        ensures
            !self@.contains_key(id),
    {
        proof {
            self.lemma_view();
        }
        let mut attempts: u32 = 0;
        while attempts < 64
            decreases 64 - attempts,
        {
            let candidate = random_peer_id();
            if !self.ledger.contains_key(&candidate) {
                return candidate;
            }
            attempts = attempts + 1;
        }
        // Every one of the random candidates has been taken. Then take the smallest free id; there
        // is one, since the ledger holds fewer than 2^64 peers.
        let n = self.ledger.len();
        let mut candidate: u64 = 0;
        while self.ledger.contains_key(&candidate)
            invariant
                n == self.ledger@.dom().len(),
                self.ledger@.dom().finite(),
                forall|x: u64| x < candidate ==> self.ledger@.dom().contains(x),
            decreases n - candidate,
        {
            proof {
                let below = Set::new(|x: u64| x < candidate).insert(candidate);
                lemma_numbers_below(candidate);
                assert(below.subset_of(self.ledger@.dom()));
                vstd::set_lib::lemma_len_subset(below, self.ledger@.dom());
            }
            candidate = candidate + 1;
        }
        candidate
    }

    /// Creates a new empty peer with no locks.
    ///
    /// # Return
    ///
    /// The id identifying the new peer. Used as a key in this datastructure to access and
    /// manipulate its state.
    pub fn new_peer(&mut self, valid_until: u64) -> (id: PeerId)
        requires
            old(self).wf(),
        ensures
            final(self).wf(),
            !old(self)@.contains_key(id),
            final(self)@ == old(self)@.insert(
                id,
                PeerView { acquired: Seq::empty(), pending: None, valid_until },
            ),
    {
        let id = self.new_unique_peer_id();
        let acquired = NameMap::new();
        let peer = Peer::new(valid_until, acquired);
        let ghost pre = self@;
        self.ledger.insert(id, peer);
        proof {
            assert(self@ =~= pre.insert(id, PeerView { acquired: Seq::empty(), pending: None, valid_until }));
            lemma_ledger_wf_insert(pre, id, PeerView { acquired: Seq::empty(), pending: None, valid_until });
        }
        id
    }

    /// Called to increase the timestamp of a lease to prevent it from expiring.
    ///
    /// # Return
    ///
    /// May return `ThrottleError::UnknownPeer` if `peer_id` is not found.
    pub fn update_valid_until(&mut self, peer_id: PeerId, valid_until: u64) -> (r: Result<(), ThrottleError>)
        requires
            old(self).wf(),
        ensures
            final(self).wf(),
            r == (if old(self)@.contains_key(peer_id) {
                Ok(())
            } else {
                Err(ThrottleError::UnknownPeer)
            }),
            final(self)@ == (if old(self)@.contains_key(peer_id) {
                old(self)@.insert(
                    peer_id,
                    PeerView { valid_until, ..old(self)@[peer_id] },
                )
            } else {
                old(self)@
            }),
    {
        proof {
            self.lemma_view();
        }
        let ghost pre = self@;
        match self.ledger.remove(&peer_id) {
            Some(mut peer) => {
                assert(peer@ == pre[peer_id]);
                assert(peer_wf(pre[peer_id]));
                peer.valid_until = valid_until;
                self.ledger.insert(peer_id, peer);
                proof {
                    assert(self@ =~= pre.insert(peer_id, PeerView { valid_until, ..pre[peer_id] }));
                    lemma_ledger_wf_insert(pre, peer_id, PeerView { valid_until, ..pre[peer_id] });
                }
                Ok(())
            },
            None => {
                assert(self@ =~= pre);
                Err(ThrottleError::UnknownPeer)
            },
        }
    }

    /// Sum of the counts of the acquired locks to the semaphore, without bound.
    pub(crate) fn count_wide(&self, semaphore: &str) -> (r: i128)
        requires
            self.wf(),
        ensures
            r == total_acquired(self@, semaphore@),
            0 <= r <= (usize::MAX as int) * (i64::MAX as int),
    {
        proof {
            self.lemma_view();
        }
        let n = self.ledger.len();
        let mut total: i128 = 0;
        let ghost mut done: Seq<PeerId> = Seq::empty();
        let ghost g = acquired_in(semaphore@);
        assert forall|i: PeerId| self@.contains_key(i) implies 0 <= #[trigger] g(self@[i]) <= i64::MAX by {
            lemma_peer_counts(self@[i], semaphore@);
        }
        for id in it: self.ledger.keys()
            invariant
                self.wf(),
                n == self.ledger@.dom().len(),
                self@.dom() == self.ledger@.dom(),
                forall|i: PeerId| self.ledger@.contains_key(i) ==> #[trigger] self@[i] == self.ledger@[i]@,
                it.seq().unref().to_set() == self.ledger@.dom(),
                it.seq().unref().no_duplicates(),
                it.seq().len() == n,
                it.seq().unref().take(it.seq().len() as int) == it.seq().unref(),
                it.index() <= it.seq().len(),
                done == it.seq().unref().take(it.index() as int),
                g == acquired_in(semaphore@),
                total == seq_tally(done, self@, g),
                forall|i: PeerId| self@.contains_key(i) ==> 0 <= #[trigger] g(self@[i]) <= i64::MAX,
        {
            proof {
                assert(it.index() < it.seq().len());
                assert(self.ledger@.dom().contains(*id)) by {
                    assert(it.seq().unref()[it.index() as int] == *id);
                }
                lemma_seq_tally_bounds(done, self@, g, 0, i64::MAX as int);
                assert(done.len() * (i64::MAX as int) <= (usize::MAX as int) * (i64::MAX as int)) by (nonlinear_arith)
                    requires done.len() <= usize::MAX;
            }
            let peer = self.ledger.get(id).unwrap();
            assert(peer_wf(peer@)) by {
                assert(*peer == self.ledger@[*id]);
                assert(self@.contains_key(*id));
                assert(peer_wf(self@[*id]));
            }
            let c = peer.count_acquired(semaphore);
            total = total + c as i128;
            proof {
                let before = done;
                done = done.push(*id);
                assert(done.drop_last() =~= before);
            }
        }
        proof {
            assert(done.to_set() == self@.dom());
            lemma_tally_seq(done, self@, g);
            lemma_seq_tally_bounds(done, self@, g, 0, i64::MAX as int);
            assert(done.len() * (i64::MAX as int) <= (usize::MAX as int) * (i64::MAX as int)) by (nonlinear_arith)
                requires done.len() <= usize::MAX;
        }
        total
    }

    /// Sum of the counts of the pending locks to the semaphore, without bound.
    pub(crate) fn pending_wide(&self, semaphore: &str) -> (r: i128)
        requires
            self.wf(),
        ensures
            r == total_pending(self@, semaphore@),
            0 <= r <= (usize::MAX as int) * (i64::MAX as int),
    {
        proof {
            self.lemma_view();
        }
        let n = self.ledger.len();
        let mut total: i128 = 0;
        let ghost mut done: Seq<PeerId> = Seq::empty();
        let ghost g = pending_in(semaphore@);
        assert forall|i: PeerId| self@.contains_key(i) implies 0 <= #[trigger] g(self@[i]) <= i64::MAX by {
            lemma_peer_counts(self@[i], semaphore@);
        }
        for id in it: self.ledger.keys()
            invariant
                self.wf(),
                n == self.ledger@.dom().len(),
                self@.dom() == self.ledger@.dom(),
                forall|i: PeerId| self.ledger@.contains_key(i) ==> #[trigger] self@[i] == self.ledger@[i]@,
                it.seq().unref().to_set() == self.ledger@.dom(),
                it.seq().unref().no_duplicates(),
                it.seq().len() == n,
                it.seq().unref().take(it.seq().len() as int) == it.seq().unref(),
                it.index() <= it.seq().len(),
                done == it.seq().unref().take(it.index() as int),
                g == pending_in(semaphore@),
                total == seq_tally(done, self@, g),
                forall|i: PeerId| self@.contains_key(i) ==> 0 <= #[trigger] g(self@[i]) <= i64::MAX,
        {
            proof {
                assert(it.index() < it.seq().len());
                assert(self.ledger@.dom().contains(*id)) by {
                    assert(it.seq().unref()[it.index() as int] == *id);
                }
                lemma_seq_tally_bounds(done, self@, g, 0, i64::MAX as int);
                assert(done.len() * (i64::MAX as int) <= (usize::MAX as int) * (i64::MAX as int)) by (nonlinear_arith)
                    requires done.len() <= usize::MAX;
            }
            let peer = self.ledger.get(id).unwrap();
            assert(peer_wf(peer@)) by {
                assert(*peer == self.ledger@[*id]);
                assert(self@.contains_key(*id));
                assert(peer_wf(self@[*id]));
            }
            let c = peer.count_pending(semaphore);
            total = total + c as i128;
            proof {
                let before = done;
                done = done.push(*id);
                assert(done.drop_last() =~= before);
            }
        }
        proof {
            assert(done.to_set() == self@.dom());
            lemma_tally_seq(done, self@, g);
            lemma_seq_tally_bounds(done, self@, g, 0, i64::MAX as int);
            assert(done.len() * (i64::MAX as int) <= (usize::MAX as int) * (i64::MAX as int)) by (nonlinear_arith)
                requires done.len() <= usize::MAX;
        }
        total
    }

    /// Aggregated count of active leases for the semaphore
    pub fn count(&self, semaphore: &str) -> (r: i64)
        requires
            self.wf(),
            total_acquired(self@, semaphore@) <= i64::MAX,
        ensures
            r == total_acquired(self@, semaphore@),
            r >= 0,
    {
        let total = self.count_wide(semaphore);
        total as i64
    }

    /// The peer waiting the longest for a lock to `semaphore`, with the instant since it waits.
    fn longest_waiting(&self, semaphore: &str) -> (r: Option<(PeerId, u64)>)
        requires
            self.wf(),
        ensures
            match r {
                Some((id, t)) => next_waiting(self@, semaphore@) == Some(id) && pending_since(self@[id], semaphore@) == Some(t),
                None => next_waiting(self@, semaphore@) is None,
            },
    {
        proof {
            self.lemma_view();
        }
        let ghost m = self@;
        let ghost s = semaphore@;
        let mut best: Option<(PeerId, u64)> = None;
        let ghost mut done: Seq<PeerId> = Seq::empty();
        for id in it: self.ledger.keys()
            invariant
                m == self@,
                s == semaphore@,
                self@.dom() == self.ledger@.dom(),
                forall|i: PeerId| self.ledger@.contains_key(i) ==> #[trigger] self@[i] == self.ledger@[i]@,
                it.seq().unref().to_set() == self.ledger@.dom(),
                it.seq().unref().take(it.seq().len() as int) == it.seq().unref(),
                it.index() <= it.seq().len(),
                done == it.seq().unref().take(it.index() as int),
                match best {
                    Some((b, t)) => waiting(m, s).contains(b) && pending_since(m[b], s) == Some(t)
                        && forall|j: PeerId| #[trigger] done.contains(j) && waiting(m, s).contains(j) ==> precedes(m, s, b, j),
                    None => forall|j: PeerId| #[trigger] done.contains(j) ==> !waiting(m, s).contains(j),
                },
        {
            proof {
                assert(it.index() < it.seq().len());
                assert(self.ledger@.dom().contains(*id)) by {
                    assert(it.seq().unref()[it.index() as int] == *id);
                }
            }
            let peer = self.ledger.get(id).unwrap();
            assert(peer@ == m[*id]);
            let ghost before = done;
            proof {
                done = done.push(*id);
                assert(done.drop_last() =~= before);
                assert forall|j: PeerId| #[trigger] done.contains(j) implies before.contains(j) || j == *id by {
                    let k = choose|k: int| 0 <= k < done.len() && done[k] == j;
                    if k < before.len() {
                        assert(before[k] == j);
                    }
                }
                assert(done[before.len() as int] == *id);
            }
            match peer.pending_since(semaphore) {
                Some(t) => {
                    let better = match best {
                        Some((b, bt)) => t < bt || (t == bt && *id < b),
                        None => true,
                    };
                    if better {
                        best = Some((*id, t));
                    }
                    proof {
                        assert(waiting(m, s).contains(*id));
                    }
                },
                None => {
                    proof {
                        assert(!waiting(m, s).contains(*id));
                    }
                },
            }
            proof {
                assert forall|j: PeerId| #[trigger] before.contains(j) implies done.contains(j) by {
                    let k = choose|k: int| 0 <= k < before.len() && before[k] == j;
                    assert(done[k] == j);
                }
            }
        }
        proof {
            assert(done.to_set() == m.dom());
            assert forall|j: PeerId| waiting(m, s).contains(j) implies #[trigger] done.contains(j) by {
                assert(done.to_set().contains(j));
            }
            match best {
                Some((b, t)) => {
                    assert(is_next(m, s, b));
                    let c = choose|i: PeerId| is_next(m, s, i);
                    assert(is_next(m, s, c));
                    assert(precedes(m, s, b, c) && precedes(m, s, c, b));
                },
                None => {
                    if exists|i: PeerId| is_next(m, s, i) {
                        let c = choose|i: PeerId| is_next(m, s, i);
                        assert(done.contains(c));
                    }
                },
            }
        }
        best
    }

    /// Considers the pending lock with the highest priority for this semaphore: the one whose
    /// peer waits the longest. The remainder is decremented by its count, and the lock is acquired
    /// if the remainder stays non-negative.
    ///
    /// Returns the peer whose lock has been acquired, `None` in case there are not any pending
    /// locks or the remainder did not suffice.
    fn resolve_highest_priority_pending(&mut self, semaphore: &str, remainder: &mut i128) -> (r: Option<PeerId>)
        requires
            old(self).wf(),
            *old(remainder) >= i128::MIN + i64::MAX,
        ensures
            final(self).wf(),
            match next_waiting(old(self)@, semaphore@) {
                Some(id) => {
                    &&& *final(remainder) == *old(remainder) - old(self)@[id].pending->0.count
                    &&& r == (if *final(remainder) >= 0 { Some(id) } else { None })
                    &&& final(self)@ == (if *final(remainder) >= 0 {
                        old(self)@.insert(id, promoted(old(self)@[id]))
                    } else {
                        old(self)@
                    })
                },
                None => r is None && *final(remainder) == *old(remainder) && final(self)@ == old(self)@,
            },
    {
        proof {
            self.lemma_view();
        }
        match self.longest_waiting(semaphore) {
            Some((id, _since)) => {
                let ghost pre = self@;
                proof {
                    assert(waiting(pre, semaphore@).contains(id));
                    assert(peer_wf(pre[id]));
                }
                let mut peer = match self.ledger.remove(&id) {
                    Some(peer) => peer,
                    None => return None,
                };
                assert(peer@ == pre[id]);
                // Decrements the remainder of the amount, regardless of wether we acquire it or not
                // doing so prevents us from starving locks requesting big amounts.
                let resolved = peer.try_resolve(remainder);
                let ghost after = peer@;
                self.ledger.insert(id, peer);
                proof {
                    assert(self@ =~= pre.insert(id, after));
                    lemma_ledger_wf_insert(pre, id, after);
                    if !resolved {
                        assert(pre.insert(id, after) =~= pre);
                    }
                }
                if resolved {
                    Some(id)
                } else {
                    None
                }
            },
            None => None,
        }
    }

    /// Acquires pending leases for the semaphore until its count is >= max. It acquires the locks
    /// pending the longest first. The peers whose locks have been acquired are appended to
    /// `resolved_peers`.
    pub fn resolve_pending(&mut self, semaphore: &str, max: i64, resolved_peers: &mut Vec<PeerId>)
        requires
            old(self).wf(),
        ensures
            final(self).wf(),
            final(self)@ == resolve_steps(old(self)@, semaphore@, max - total_acquired(old(self)@, semaphore@)).0,
            final(resolved_peers)@ == old(resolved_peers)@ + resolve_steps(
                old(self)@,
                semaphore@,
                max - total_acquired(old(self)@, semaphore@),
            ).1,
            total_acquired(final(self)@, semaphore@) == total_acquired(old(self)@, semaphore@)
                + crate::laws::pending_total(
                old(self)@,
                semaphore@,
                resolve_steps(old(self)@, semaphore@, max - total_acquired(old(self)@, semaphore@)).1,
            ),
            total_acquired(old(self)@, semaphore@) <= max ==> total_acquired(final(self)@, semaphore@) <= max,
    {
        proof {
            self.lemma_view();
            crate::laws::law_resolve_counts(self@, semaphore@, max - total_acquired(self@, semaphore@));
        }
        let count = self.count_wide(semaphore);
        let mut remainder: i128 = max as i128 - count;
        let ghost s = semaphore@;
        let ghost target = resolve_steps(self@, s, remainder as int);
        let ghost start = resolved_peers@;
        assert(start + target.1 =~= resolved_peers@ + resolve_steps(self@, s, remainder as int).1);
        loop
            invariant_except_break
                remainder >= i128::MIN + i64::MAX,
                resolve_steps(self@, s, remainder as int).0 == target.0,
                resolved_peers@ + resolve_steps(self@, s, remainder as int).1 == start + target.1,
            invariant
                self.wf(),
                s == semaphore@,
                self@.dom().finite(),
            ensures
                self@ == target.0,
                resolved_peers@ == start + target.1,
            decreases waiting(self@, s).len(),
        {
            let ghost pre = self@;
            let ghost pre_remainder = remainder as int;
            let ghost pre_resolved = resolved_peers@;
            match self.resolve_highest_priority_pending(semaphore, &mut remainder) {
                Some(peer_id) => {
                    resolved_peers.push(peer_id);
                    proof {
                        lemma_waiting_after_promotion(pre, s, peer_id);
                        let step = resolve_steps(self@, s, remainder as int);
                        assert(resolve_steps(pre, s, pre_remainder) == (step.0, seq![peer_id] + step.1));
                        assert(resolved_peers@ + step.1 =~= pre_resolved + (seq![peer_id] + step.1));
                        self.lemma_view();
                    }
                },
                None => {
                    proof {
                        assert(resolve_steps(pre, s, pre_remainder) == (pre, Seq::<PeerId>::empty()));
                        assert(resolved_peers@ =~= pre_resolved + Seq::<PeerId>::empty());
                    }
                    break;
                },
            }
        }
    }

    /// Should a peer with `peer_id` be found, it is removed and the names of the semaphores it
    /// holds is returned. If the `peer_id` has not been found `None` is returned.
    pub fn remove_peer(&mut self, peer_id: PeerId) -> (r: Option<Vec<String>>)
        requires
            old(self).wf(),
        ensures
            final(self).wf(),
            r is Some <==> old(self)@.contains_key(peer_id),
            r matches Some(v) ==> names(v@) == semaphores_of(old(self)@[peer_id]),
            final(self)@ == old(self)@.remove(peer_id),
    {
        proof {
            self.lemma_view();
            lemma_ledger_wf_remove(self@, peer_id);
        }
        let ghost pre = self@;
        match self.ledger.remove(&peer_id) {
            Some(mut peer) => {
                assert(self@ =~= pre.remove(peer_id));
                Some(peer.clear())
            },
            None => {
                assert(self@ =~= pre.remove(peer_id));
                None
            },
        }
    }

    /// Release a lock associated with a peer.
    ///
    /// # Return
    ///
    /// `true` if the lock had been pending. A peer without a lock to the semaphore stays as it is.
    pub fn release_lock(&mut self, peer_id: PeerId, semaphore: &str) -> (r: Result<bool, ThrottleError>)
        requires
            old(self).wf(),
        ensures
            final(self).wf(),
            r == (if old(self)@.contains_key(peer_id) {
                Ok(!has_key(old(self)@[peer_id].acquired, semaphore@) && pending_on(old(self)@[peer_id], semaphore@))
            } else {
                Err(ThrottleError::UnknownPeer)
            }),
            final(self)@ == (if old(self)@.contains_key(peer_id) {
                old(self)@.insert(peer_id, released(old(self)@[peer_id], semaphore@))
            } else {
                old(self)@
            }),
    {
        proof {
            self.lemma_view();
        }
        let ghost pre = self@;
        match self.ledger.remove(&peer_id) {
            Some(mut peer) => {
                assert(peer@ == pre[peer_id]);
                assert(peer_wf(pre[peer_id]));
                let was_pending = peer.release_lock(semaphore);
                let ghost after = peer@;
                self.ledger.insert(peer_id, peer);
                proof {
                    assert(self@ =~= pre.insert(peer_id, after));
                    lemma_ledger_wf_insert(pre, peer_id, after);
                }
                Ok(was_pending)
            },
            None => {
                assert(self@ =~= pre);
                Err(ThrottleError::UnknownPeer)
            },
        }
    }

    /// Creates a new peer with an existing peer id.
    ///
    /// # Parameters
    ///
    /// * `peer_id`: Peer for which the locks are restored.
    /// * `acquired`: Semaphore names and counts, acquired by this peer.
    /// * `valid_until`: The instant until the new peer remains valid (i.e. does not expire).
    ///
    /// This is useful, to restore revenants (i.e. Peers for which we receive a heartbeat after we
    /// removed them, due to expiration). This way we can restore them without having to change the
    /// peer id on the client side.
    ///
    /// Restoring an existing peer is only allowed, if it is identical to the one that would be
    /// created through restore (apart from its expiration). Then nothing changes. This exception is
    /// made in order to be idempotent.
    ///
    /// This will acquire all the locks for the forgotten peer. This will always succeed indpedent
    /// of current demand, even if the active semaphore count goes beyond the full count: the peer
    /// had the locks already acquired and is accessing the resource.
    pub fn restore(&mut self, peer_id: PeerId, acquired: &NameMap<i64>, valid_until: u64) -> (r: Result<(), ThrottleError>)
        requires
            old(self).wf(),
            acquired.wf(),
        ensures
            final(self).wf(),
            r == restore_result(old(self)@, peer_id, acquired.entries()),
            // A known peer is only restored with exactly the locks it holds, and waiting for none.
            r is Ok && old(self)@.contains_key(peer_id) ==> old(self)@[peer_id].pending is None
                && forall|k: Seq<char>| #[trigger] lookup(old(self)@[peer_id].acquired, k) == lookup(acquired.entries(), k),
            final(self)@ == (if r is Ok && !old(self)@.contains_key(peer_id) {
                old(self)@.insert(
                    peer_id,
                    PeerView { acquired: acquired.entries(), pending: None, valid_until },
                )
            } else {
                old(self)@
            }),
    {
        proof {
            self.lemma_view();
        }
        let ghost e = acquired.entries();
        let n = acquired.len();
        for i in 0..n
            invariant
                n == e.len(),
                e == acquired.entries(),
                self.wf(),
                forall|j: int| 0 <= j < i ==> #[trigger] e[j].1 >= 1,
        {
            let count = *acquired.value(i);
            if count < 1 {
                proof {
                    lemma_first_invalid_skip(e, i as int);
                    assert(e.skip(i as int)[0] == e[i as int]);
                }
                return Err(ThrottleError::InvalidLockCount { count });
            }
        }
        proof {
            lemma_first_invalid_skip(e, n as int);
            assert(e.skip(n as int) =~= Seq::<(Seq<char>, i64)>::empty());
        }
        // We don't want to allow changing existing peers through the restore route.
        match self.ledger.get(&peer_id) {
            Some(prev) => {
                proof {
                    assert(prev@ == self@[peer_id]);
                    assert(peer_wf(self@[peer_id]));
                }
                prev.assert_restore_valid(acquired)
            },
            None => {
                let ghost pre = self@;
                let peer = Peer::new(valid_until, acquired.cloned());
                self.ledger.insert(peer_id, peer);
                proof {
                    let p = PeerView { acquired: e, pending: None, valid_until };
                    assert(self@ =~= pre.insert(peer_id, p));
                    lemma_first_invalid_none(e);
                    lemma_ledger_wf_insert(pre, peer_id, p);
                }
                Ok(())
            },
        }
    }

    /// Returns wether the demand (i.e. the sum of pending and acquired lock counts) for this lease
    /// is smaller or equal to `max`.
    fn demand_smaller_or_equal(&self, semaphore: &str, max: i64) -> (r: bool)
        requires
            self.wf(),
            max >= 0,
        ensures
            r == (total_demand(self@, semaphore@) <= max),
    {
        proof {
            self.lemma_view();
        }
        let n = self.ledger.len();
        let mut demand: i128 = 0;
        let ghost mut done: Seq<PeerId> = Seq::empty();
        let ghost g = demand_in(semaphore@);
        assert forall|i: PeerId| self@.contains_key(i) implies 0 <= #[trigger] g(self@[i]) <= i64::MAX by {
            lemma_peer_counts(self@[i], semaphore@);
        }
        for id in it: self.ledger.keys()
            invariant
                self.wf(),
                n == self.ledger@.dom().len(),
                self@.dom() == self.ledger@.dom(),
                forall|i: PeerId| self.ledger@.contains_key(i) ==> #[trigger] self@[i] == self.ledger@[i]@,
                it.seq().unref().to_set() == self.ledger@.dom(),
                it.seq().unref().no_duplicates(),
                it.seq().len() == n,
                it.seq().unref().take(it.seq().len() as int) == it.seq().unref(),
                it.index() <= it.seq().len(),
                done == it.seq().unref().take(it.index() as int),
                g == demand_in(semaphore@),
                demand == seq_tally(done, self@, g),
                demand <= max,
                forall|i: PeerId| self@.contains_key(i) ==> 0 <= #[trigger] g(self@[i]) <= i64::MAX,
        {
            proof {
                assert(it.index() < it.seq().len());
                assert(self.ledger@.dom().contains(*id)) by {
                    assert(it.seq().unref()[it.index() as int] == *id);
                }
            }
            let peer = self.ledger.get(id).unwrap();
            assert(peer_wf(peer@)) by {
                assert(*peer == self.ledger@[*id]);
                assert(peer_wf(self@[*id]));
            }
            let c = peer.count_demand(semaphore);
            demand = demand + c as i128;
            proof {
                let before = done;
                done = done.push(*id);
                assert(done.drop_last() =~= before);
            }
            // early return
            if demand > max as i128 {
                proof {
                    let all = it.seq().unref();
                    assert(done == all.take(it.index() + 1));
                    assert forall|j: int| 0 <= j < all.len() implies 0 <= #[trigger] g(self@[all[j]]) by {
                        assert(all.to_set().contains(all[j]));
                    }
                    lemma_seq_tally_prefix(all, self@, g, it.index() + 1);
                    lemma_tally_seq(all, self@, g);
                }
                return false;
            }
        }
        proof {
            assert(done.to_set() == self@.dom());
            lemma_tally_seq(done, self@, g);
        }
        true
    }

    /// Acquires a lock for a peer. If the count of the semaphore is high enough, the lease is going
    /// to be acquired, otherwise it remains pending. This method does not block.
    ///
    /// # Parameters
    ///
    /// * `now`: Instant of the request. A lock which remains pending, waits since then.
    /// * `peer_id`: The peer requesting the lock.
    /// * `semaphore`: Name of the semaphore to which a lock is requested.
    /// * `amount`: Requested amount of the semaphore.
    /// * `max`: A check is performed and the lock is only going to be acquired, if the total demand
    /// for the requested semaphore would not exceed the `max`.
    /// * `level`: Lock level of the semaphore.
    /// * `lock_levels`: Configuration of the semaphores, which gives the levels of the locks the
    /// peer holds already.
    ///
    /// # Return
    ///
    /// Returns `true` if, and only if, all locks of the peer are acquired.
    pub fn acquire(
        &mut self,
        now: u64,
        peer_id: PeerId,
        semaphore: &str,
        amount: i64,
        max: i64,
        level: i32,
        lock_levels: &NameMap<SemaphoreCfg>,
    ) -> (r: Result<bool, ThrottleError>)
        requires
            old(self).wf(),
            lock_levels.wf(),
            // The lock levels are consulted only for a new lock, and the full count only once the
            // new lock keeps to the lock hierarchy.
            amount >= 1 && old(self)@.contains_key(peer_id) && demand(old(self)@[peer_id], semaphore@) == 0
                ==> configured(old(self)@[peer_id], lock_levels.entries()),
            amount >= 1 && old(self)@.contains_key(peer_id) && demand(old(self)@[peer_id], semaphore@) == 0
                && !(peer_level(old(self)@[peer_id].acquired, lock_levels.entries()) matches Some(c) && c <= level)
                ==> amount <= max,
        ensures
            final(self).wf(),
            r == acquire_result(old(self)@, peer_id, semaphore@, amount, max, level, lock_levels.entries()),
            final(self)@ == (if r is Ok && demand(old(self)@[peer_id], semaphore@) == 0 {
                old(self)@.insert(
                    peer_id,
                    with_new_lock(old(self)@[peer_id], semaphore@, amount, r->Ok_0, now),
                )
            } else {
                old(self)@
            }),
            // A new lock which keeps to the lock hierarchy is granted if it fits, pending if it
            // does not, and refused if the peer already waits for a lock.
            old(self)@.contains_key(peer_id) && amount >= 1 && demand(old(self)@[peer_id], semaphore@) == 0
                && (forall|i: int| 0 <= i < old(self)@[peer_id].acquired.len()
                    ==> level_of(lock_levels.entries(), #[trigger] old(self)@[peer_id].acquired[i].0) > level)
                ==> r == (if old(self)@[peer_id].pending is Some {
                    Err(ThrottleError::AlreadyPending)
                } else {
                    Ok(total_demand(old(self)@, semaphore@) + amount <= max)
                }),
            // A granted or pending answer is backed by the ledger.
            r is Ok ==> final(self)@.contains_key(peer_id)
                && demand(final(self)@[peer_id], semaphore@) == amount
                && r == Ok::<bool, ThrottleError>(final(self)@[peer_id].pending is None),
            amount < 1 ==> r == Err::<bool, ThrottleError>(ThrottleError::InvalidLockCount { count: amount }),
            amount >= 1 && !old(self)@.contains_key(peer_id) ==> r == Err::<bool, ThrottleError>(ThrottleError::UnknownPeer),
            // A repeated request with another count: shrinking is not supported, growing might
            // deadlock.
            amount >= 1 && old(self)@.contains_key(peer_id) && demand(old(self)@[peer_id], semaphore@) != 0 ==> r == (
                if amount < demand(old(self)@[peer_id], semaphore@) {
                    Err(ThrottleError::ShrinkingLockCount)
                } else if amount > demand(old(self)@[peer_id], semaphore@) {
                    Err(ThrottleError::Deadlock { current: level, requested: level })
                } else {
                    Ok(old(self)@[peer_id].pending is None)
                }),
            // A new lock breaking the lock hierarchy is refused.
            forall|i: int| amount >= 1 && old(self)@.contains_key(peer_id) && demand(old(self)@[peer_id], semaphore@) == 0
                && 0 <= i < old(self)@[peer_id].acquired.len()
                && level_of(lock_levels.entries(), #[trigger] old(self)@[peer_id].acquired[i].0) <= level
                ==> (r matches Err(ThrottleError::Deadlock { current, requested }) && current <= level && requested == level),
            // Only the requesting peer's lock to the semaphore may change.
            r is Err ==> final(self)@ == old(self)@,
            final(self)@.dom() == old(self)@.dom(),
            forall|b: PeerId| b != peer_id && #[trigger] old(self)@.contains_key(b) ==> final(self)@[b] == old(self)@[b],
            old(self)@.contains_key(peer_id) ==> final(self)@[peer_id].valid_until == old(self)@[peer_id].valid_until,
            old(self)@.contains_key(peer_id) ==> forall|x: Seq<char>| x != semaphore@
                ==> #[trigger] acquired_count(final(self)@[peer_id], x) == acquired_count(old(self)@[peer_id], x),
    {
        proof {
            self.lemma_view();
            let m = self@;
            let cfg = lock_levels.entries();
            if m.contains_key(peer_id) && amount >= 1 && demand(m[peer_id], semaphore@) == 0
                && (forall|i: int| 0 <= i < m[peer_id].acquired.len()
                    ==> level_of(cfg, #[trigger] m[peer_id].acquired[i].0) > level) {
                if m[peer_id].pending is Some {
                    crate::laws::law_one_pending_lock(m, peer_id, semaphore@, amount, max, level, cfg);
                } else {
                    crate::laws::law_acquire_below_current_level(m, peer_id, semaphore@, amount, max, level, cfg);
                }
            }
            assert forall|i: int| amount >= 1 && m.contains_key(peer_id) && demand(m[peer_id], semaphore@) == 0
                && 0 <= i < m[peer_id].acquired.len()
                && level_of(cfg, #[trigger] m[peer_id].acquired[i].0) <= level
                implies (acquire_result(m, peer_id, semaphore@, amount, max, level, cfg) matches Err(ThrottleError::Deadlock { current, requested })
                    && current <= level && requested == level) by {
                crate::laws::law_hierarchy_refuses(m, peer_id, semaphore@, amount, max, level, cfg, i);
            }
            if acquire_result(m, peer_id, semaphore@, amount, max, level, cfg) is Ok {
                crate::laws::law_answer_backed_by_ledger(m, peer_id, semaphore@, amount, max, level, cfg, now);
                let p = m[peer_id];
                if demand(p, semaphore@) == 0 {
                    assert(m.insert(peer_id, p).dom() =~= m.dom());
                    let q = with_new_lock(p, semaphore@, amount, acquire_result(m, peer_id, semaphore@, amount, max, level, cfg)->Ok_0, now);
                    assert(m.insert(peer_id, q).dom() =~= m.dom());
                    assert(peer_wf(p));
                    lemma_lookup(p.acquired, semaphore@);
                    lemma_peer_counts(p, semaphore@);
                    lemma_lookup_push(p.acquired, semaphore@, amount);
                    assert forall|x: Seq<char>| x != semaphore@ implies #[trigger] acquired_count(q, x) == acquired_count(p, x) by {
                    }
                }
            }
        }
        if amount < 1 {
            return Err(ThrottleError::InvalidLockCount { count: amount });
        }
        // Compare with previous state of the lock. If the same amount for the same semaphore has
        // been demanded already, do nothing.
        let peer = match self.ledger.get(&peer_id) {
            Some(peer) => peer,
            None => return Err(ThrottleError::UnknownPeer),
        };
        assert(peer@ == self@[peer_id] && peer_wf(self@[peer_id]));
        let previous_demand = peer.count_demand(semaphore);
        if previous_demand != 0 {
            if amount < previous_demand {
                return Err(ThrottleError::ShrinkingLockCount);
            } else if amount == previous_demand {
                return Ok(peer.all_acquired());
            } else {
                return Err(ThrottleError::Deadlock { current: level, requested: level });
            }
        }
        // Check for lock hierarchy violation
        match peer.level(lock_levels) {
            Some(current) => {
                if current <= level {
                    return Err(ThrottleError::Deadlock { current, requested: level });
                }
            },
            None => {},
        }
        // Since this creates a new lock, we know it has the most recent timestamp. This implies
        // that due to fairness every other peer has priority over this one taking the lock.
        // Therfore we only take the lock, if the total demand is smaller than max.
        //
        // Note: This is different than taking the lock from a semaphore for which the count is
        // smaller than max in situations there e.g. a lock with a count of 5 is pending with while
        // the remainder is 3.
        let acquired = self.demand_smaller_or_equal(semaphore, max - amount);
        let ghost pre = self@;
        let mut peer = match self.ledger.remove(&peer_id) {
            Some(peer) => peer,
            None => return Err(ThrottleError::UnknownPeer),
        };
        assert(peer@ == pre[peer_id]);
        proof {
            lemma_peer_counts(pre[peer_id], semaphore@);
        }
        let added = peer.add_lock(semaphore.to_owned(), amount, acquired, now);
        let ghost after = peer@;
        self.ledger.insert(peer_id, peer);
        proof {
            assert(self@ =~= pre.insert(peer_id, after));
            lemma_ledger_wf_insert(pre, peer_id, after);
            if added is Err {
                assert(pre.insert(peer_id, after) =~= pre);
            }
        }
        match added {
            Ok(()) => Ok(acquired),
            Err(e) => Err(e),
        }
    }

    /// Remove every lease, which is not valid until now.
    ///
    /// Under ordinary circumstances leases should be explicitly removed. Yet a client may die due
    /// to an error and never get a chance to free the lease. Therfore we free this litter on
    /// ocation. After calling this resolved pending should be invoked on the affected semaphores.
    ///
    /// # Return
    ///
    /// (List of expired peers, affected_semaphores). The affected semaphores are sorted and free of
    /// duplicates.
    pub fn remove_expired(&mut self, now: u64) -> (r: (Vec<PeerId>, Vec<String>))
        requires
            old(self).wf(),
        ensures
            final(self).wf(),
            final(self)@ == old(self)@.remove_keys(expired(old(self)@, now)),
            r.0@.no_duplicates(),
            r.0@.to_set() == expired(old(self)@, now),
            strictly_sorted(names(r.1@)),
            names(r.1@).to_set() == affected(old(self)@, expired(old(self)@, now)),
    {
        proof {
            self.lemma_view();
        }
        let ghost m = self@;
        let mut expired_peers: Vec<PeerId> = Vec::new();
        let ghost mut done: Seq<PeerId> = Seq::empty();
        for id in it: self.ledger.keys()
            invariant
                m == self@,
                self@.dom() == self.ledger@.dom(),
                forall|i: PeerId| self.ledger@.contains_key(i) ==> #[trigger] self@[i] == self.ledger@[i]@,
                it.seq().unref().to_set() == self.ledger@.dom(),
                it.seq().unref().no_duplicates(),
                it.seq().unref().take(it.seq().len() as int) == it.seq().unref(),
                it.index() <= it.seq().len(),
                done == it.seq().unref().take(it.index() as int),
                expired_peers@.no_duplicates(),
                forall|x: PeerId| #[trigger] expired_peers@.contains(x) <==> done.contains(x) && m[x].valid_until < now,
        {
            proof {
                assert(it.index() < it.seq().len());
                assert(self.ledger@.dom().contains(*id)) by {
                    assert(it.seq().unref()[it.index() as int] == *id);
                }
                assert(!done.contains(*id)) by {
                    if done.contains(*id) {
                        let k = choose|k: int| 0 <= k < done.len() && done[k] == *id;
                        assert(it.seq().unref()[k] == it.seq().unref()[it.index() as int]);
                    }
                }
            }
            let peer = self.ledger.get(id).unwrap();
            assert(peer@ == m[*id]);
            let ghost before = done;
            let ghost before_expired = expired_peers@;
            if peer.valid_until < now {
                expired_peers.push(*id);
            }
            proof {
                done = done.push(*id);
                assert(done.drop_last() =~= before);
                assert forall|x: PeerId| #[trigger] done.contains(x) <==> before.contains(x) || x == *id by {
                    if done.contains(x) {
                        let k = choose|k: int| 0 <= k < done.len() && done[k] == x;
                        if k < before.len() {
                            assert(before[k] == x);
                        }
                    }
                    if before.contains(x) {
                        let k = choose|k: int| 0 <= k < before.len() && before[k] == x;
                        assert(done[k] == x);
                    }
                    assert(done[before.len() as int] == *id);
                }
                if m[*id].valid_until < now {
                    assert(!before_expired.contains(*id));
                    assert(expired_peers@ == before_expired.push(*id));
                    assert forall|a: int, b: int| 0 <= a < expired_peers@.len() && 0 <= b < expired_peers@.len() && a != b
                        implies expired_peers@[a] != expired_peers@[b] by {
                        if a < before_expired.len() && b < before_expired.len() {
                        } else if a < before_expired.len() {
                            assert(before_expired.contains(expired_peers@[a]));
                        } else {
                            assert(before_expired.contains(expired_peers@[b]));
                        }
                    }
                    assert forall|x: PeerId| #[trigger] expired_peers@.contains(x) <==> before_expired.contains(x) || x == *id by {
                        if expired_peers@.contains(x) {
                            let k = choose|k: int| 0 <= k < expired_peers@.len() && expired_peers@[k] == x;
                            if k < before_expired.len() {
                                assert(before_expired[k] == x);
                            }
                        }
                        if before_expired.contains(x) {
                            let k = choose|k: int| 0 <= k < before_expired.len() && before_expired[k] == x;
                            assert(expired_peers@[k] == x);
                        }
                        assert(expired_peers@[before_expired.len() as int] == *id);
                    }
                }
            }
        }
        proof {
            assert(done.to_set() == m.dom());
            assert(expired_peers@.to_set() =~= expired(m, now)) by {
                assert forall|x: PeerId| expired_peers@.to_set().contains(x) <==> expired(m, now).contains(x) by {
                    assert(done.contains(x) <==> done.to_set().contains(x));
                }
            }
        }
        let mut affected_semaphores: Vec<String> = Vec::new();
        let n = expired_peers.len();
        assert(names(affected_semaphores@).to_set() =~= Set::<Seq<char>>::empty());
        assert(expired_peers@.take(0).to_set() =~= Set::<PeerId>::empty());
        assert(affected(m, Set::<PeerId>::empty()) =~= Set::<Seq<char>>::empty());
        assert(m.remove_keys(Set::<PeerId>::empty()) =~= m);
        for i in 0..n
            invariant
                n == expired_peers@.len(),
                expired_peers@.no_duplicates(),
                expired_peers@.to_set() == expired(m, now),
                ledger_wf(m),
                self.wf(),
                self@ == m.remove_keys(expired_peers@.take(i as int).to_set()),
                strictly_sorted(names(affected_semaphores@)),
                names(affected_semaphores@).to_set() == affected(m, expired_peers@.take(i as int).to_set()),
        {
            let id = expired_peers[i];
            let ghost removed = expired_peers@.take(i as int).to_set();
            let ghost pre = self@;
            proof {
                self.lemma_view();
                assert(!removed.contains(id)) by {
                    let e0 = expired_peers@.take(i as int);
                    if removed.contains(id) {
                        let k = choose|k: int| 0 <= k < e0.len() && e0[k] == id;
                        assert(expired_peers@[k] == expired_peers@[i as int]);
                    }
                }
                assert(expired_peers@.to_set().contains(id));
                assert(m.contains_key(id));
                assert(pre.contains_key(id) && pre[id] == m[id]);
                lemma_ledger_wf_remove(pre, id);
            }
            let removed_peer = self.ledger.remove(&id);
            let ghost before_affected = names(affected_semaphores@).to_set();
            let mut peer = match removed_peer {
                Some(peer) => peer,
                None => {
                    proof {
                        assert(false);
                    }
                    Peer::new(0, NameMap::new())
                },
            };
            assert(peer@ == m[id]);
            proof {
                self.lemma_view();
                assert(self@ =~= pre.remove(id));
            }
            match peer.remove_expired(now) {
                Some(semaphores) => {
                    let k = semaphores.len();
                    assert(names(semaphores@).take(0).to_set() =~= Set::<Seq<char>>::empty());
                    for j in 0..k
                        invariant
                            k == semaphores@.len(),
                            strictly_sorted(names(affected_semaphores@)),
                            names(affected_semaphores@).to_set() == before_affected.union(
                                names(semaphores@).take(j as int).to_set(),
                            ),
                    {
                        let ghost before_set = names(affected_semaphores@).to_set();
                        insert_sorted(&mut affected_semaphores, semaphores[j].clone());
                        proof {
                            let t = names(semaphores@);
                            let t1 = t.take(j + 1);
                            let t0 = t.take(j as int);
                            assert(t1.to_set() =~= t0.to_set().insert(t[j as int])) by {
                                assert forall|x: Seq<char>| t1.to_set().contains(x) <==> t0.to_set().insert(t[j as int]).contains(x) by {
                                    if t1.to_set().contains(x) {
                                        let q = choose|q: int| 0 <= q < t1.len() && t1[q] == x;
                                        if q < j {
                                            assert(t0[q] == x);
                                        }
                                    }
                                    if t0.to_set().contains(x) {
                                        let q = choose|q: int| 0 <= q < t0.len() && t0[q] == x;
                                        assert(t1[q] == x);
                                    }
                                    assert(t1[j as int] == t[j as int]);
                                }
                            }
                            assert(names(affected_semaphores@).to_set() =~= before_affected.union(t.take(j + 1).to_set()));
                        }
                    }
                    proof {
                        assert(names(semaphores@).take(k as int) =~= names(semaphores@));
                    }
                },
                None => {
                    assert(false);
                },
            }
            proof {
                let e1 = expired_peers@.take(i + 1);
                let e0 = expired_peers@.take(i as int);
                let removed2 = e1.to_set();
                assert(removed2 =~= removed.insert(id)) by {
                    assert forall|x: PeerId| removed2.contains(x) <==> removed.insert(id).contains(x) by {
                        if removed2.contains(x) {
                            let q = choose|q: int| 0 <= q < e1.len() && e1[q] == x;
                            if q < i {
                                assert(e0[q] == x);
                            }
                        }
                        if removed.contains(x) {
                            let q = choose|q: int| 0 <= q < e0.len() && e0[q] == x;
                            assert(e1[q] == x);
                        }
                        assert(e1[i as int] == id);
                    }
                }
                assert(m.remove_keys(removed).remove(id) =~= m.remove_keys(removed2));
                assert(affected(m, removed2) =~= affected(m, removed).union(semaphores_of(m[id]).to_set())) by {
                    assert forall|x: Seq<char>| affected(m, removed2).contains(x) <==> affected(m, removed).union(semaphores_of(m[id]).to_set()).contains(x) by {
                        if affected(m, removed2).contains(x) {
                            let w = choose|w: PeerId| removed2.contains(w) && #[trigger] semaphores_of(m[w]).contains(x);
                            if w != id {
                                assert(affected(m, removed).contains(x));
                            }
                        }
                        if affected(m, removed).contains(x) {
                            let w = choose|w: PeerId| removed.contains(w) && #[trigger] semaphores_of(m[w]).contains(x);
                            assert(removed2.contains(w));
                        }
                        if semaphores_of(m[id]).to_set().contains(x) {
                            assert(removed2.contains(id));
                            assert(semaphores_of(m[id]).contains(x));
                        }
                    }
                }
            }
        }
        proof {
            assert(expired_peers@.take(n as int) =~= expired_peers@);
        }
        (expired_peers, affected_semaphores)
    }

    /// Fills counts with the current accumulated counts for each semaphore. One entry for each
    /// semaphore of the locks must already be present in `counts`.
    pub fn fill_counts(&self, counts: &mut NameMap<Counts>)
        requires
            self.wf(),
            old(counts).wf(),
            forall|id: PeerId, j: int| self@.contains_key(id) && 0 <= j < semaphores_of(self@[id]).len()
                ==> has_key(old(counts).entries(), #[trigger] semaphores_of(self@[id])[j]),
            forall|i: int| 0 <= i < old(counts).entries().len() ==> {
                let k = #[trigger] old(counts).entries()[i].0;
                &&& old(counts).entries()[i].1.acquired + total_acquired(self@, k) <= i64::MAX
                &&& old(counts).entries()[i].1.pending + total_pending(self@, k) <= i64::MAX
            },
        ensures
            final(counts).wf(),
            final(counts).entries().len() == old(counts).entries().len(),
            forall|i: int| 0 <= i < old(counts).entries().len() ==> {
                let k = #[trigger] old(counts).entries()[i].0;
                let c = old(counts).entries()[i].1;
                let d = final(counts).entries()[i].1;
                &&& final(counts).entries()[i].0 == k
                &&& d.acquired == c.acquired + total_acquired(self@, k)
                &&& d.pending == c.pending + total_pending(self@, k)
                &&& d.longest_pending_since == min_opt(c.longest_pending_since, earliest_pending(self@, k))
            },
    {
        proof {
            self.lemma_view();
        }
        let ghost m = self@;
        let ghost pre = counts.entries();
        let ghost mut done: Seq<PeerId> = Seq::empty();
        for id in it: self.ledger.keys()
            invariant
                m == self@,
                self.wf(),
                self@.dom() == self.ledger@.dom(),
                forall|i: PeerId| self.ledger@.contains_key(i) ==> #[trigger] self@[i] == self.ledger@[i]@,
                it.seq().unref().to_set() == self.ledger@.dom(),
                it.seq().unref().no_duplicates(),
                it.seq().unref().take(it.seq().len() as int) == it.seq().unref(),
                it.index() <= it.seq().len(),
                done == it.seq().unref().take(it.index() as int),
                counts.wf(),
                counts.entries().len() == pre.len(),
                forall|id: PeerId, j: int| m.contains_key(id) && 0 <= j < semaphores_of(m[id]).len()
                    ==> has_key(pre, #[trigger] semaphores_of(m[id])[j]),
                forall|i: int| 0 <= i < pre.len() ==> {
                    let k = #[trigger] pre[i].0;
                    &&& pre[i].1.acquired + total_acquired(m, k) <= i64::MAX
                    &&& pre[i].1.pending + total_pending(m, k) <= i64::MAX
                },
                forall|i: int| 0 <= i < pre.len() ==> {
                    let k = #[trigger] pre[i].0;
                    let c = pre[i].1;
                    let d = counts.entries()[i].1;
                    &&& counts.entries()[i].0 == k
                    &&& d.acquired == c.acquired + seq_tally(done, m, acquired_in(k))
                    &&& d.pending == c.pending + seq_tally(done, m, pending_in(k))
                    &&& d.longest_pending_since == min_opt(c.longest_pending_since, seq_least(done, m, since_in(k)))
                },
        {
            let ghost all = it.seq().unref();
            proof {
                assert(it.index() < it.seq().len());
                assert(self.ledger@.dom().contains(*id)) by {
                    assert(all[it.index() as int] == *id);
                }
            }
            let peer = self.ledger.get(id).unwrap();
            assert(peer@ == m[*id]);
            let ghost next = done.push(*id);
            proof {
                assert(next.drop_last() =~= done);
                assert(next == all.take(it.index() + 1));
                assert forall|i: int| 0 <= i < counts.entries().len() implies {
                    let k = #[trigger] counts.entries()[i].0;
                    &&& counts.entries()[i].1.acquired + acquired_count(peer@, k) <= i64::MAX
                    &&& counts.entries()[i].1.pending + pending_count(peer@, k) <= i64::MAX
                } by {
                    let k = pre[i].0;
                    assert(counts.entries()[i].0 == k);
                    assert(next.last() == *id);
                    assert(seq_tally(next, m, acquired_in(k)) == seq_tally(done, m, acquired_in(k)) + acquired_count(m[*id], k));
                    assert(seq_tally(next, m, pending_in(k)) == seq_tally(done, m, pending_in(k)) + pending_count(m[*id], k));
                    assert forall|j: int| 0 <= j < all.len() implies 0 <= #[trigger] acquired_in(k)(m[all[j]]) by {
                        assert(all.to_set().contains(all[j]));
                        lemma_peer_counts(m[all[j]], k);
                    }
                    assert forall|j: int| 0 <= j < all.len() implies 0 <= #[trigger] pending_in(k)(m[all[j]]) by {
                        assert(all.to_set().contains(all[j]));
                        lemma_peer_counts(m[all[j]], k);
                    }
                    lemma_seq_tally_prefix(all, m, acquired_in(k), it.index() + 1);
                    lemma_seq_tally_prefix(all, m, pending_in(k), it.index() + 1);
                    lemma_tally_seq(all, m, acquired_in(k));
                    lemma_tally_seq(all, m, pending_in(k));
                }
                assert forall|j: int| 0 <= j < semaphores_of(peer@).len() implies has_key(counts.entries(), #[trigger] semaphores_of(peer@)[j]) by {
                    assert(has_key(pre, semaphores_of(m[*id])[j]));
                    let q = choose|q: int| 0 <= q < pre.len() && #[trigger] pre[q].0 == semaphores_of(m[*id])[j];
                    assert(counts.entries()[q].0 == pre[q].0);
                }
            }
            peer.update_counts(counts);
            proof {
                done = next;
            }
        }
        proof {
            assert(done.to_set() == m.dom());
            assert forall|i: int| 0 <= i < pre.len() implies {
                let k = #[trigger] pre[i].0;
                &&& seq_tally(done, m, acquired_in(k)) == total_acquired(m, k)
                &&& seq_tally(done, m, pending_in(k)) == total_pending(m, k)
                &&& seq_least(done, m, since_in(k)) == earliest_pending(m, k)
            } by {
                let k = pre[i].0;
                lemma_tally_seq(done, m, acquired_in(k));
                lemma_tally_seq(done, m, pending_in(k));
                lemma_least_seq(done, m, since_in(k));
            }
        }
    }

    /// Instant at which the next peer expires: the earliest instant until which any peer is
    /// valid, `None` if there are no peers.
    pub fn min_valid_until(&self) -> (r: Option<u64>)
        ensures
            r == earliest_expiry(self@),
    {
        proof {
            self.lemma_view();
        }
        let ghost m = self@;
        let ghost h = valid_until_of();
        let mut earliest: Option<u64> = None;
        let ghost mut done: Seq<PeerId> = Seq::empty();
        for id in it: self.ledger.keys()
            invariant
                m == self@,
                h == valid_until_of(),
                self@.dom() == self.ledger@.dom(),
                forall|i: PeerId| self.ledger@.contains_key(i) ==> #[trigger] self@[i] == self.ledger@[i]@,
                it.seq().unref().to_set() == self.ledger@.dom(),
                it.seq().unref().no_duplicates(),
                it.seq().unref().take(it.seq().len() as int) == it.seq().unref(),
                it.index() <= it.seq().len(),
                done == it.seq().unref().take(it.index() as int),
                earliest == seq_least(done, m, h),
        {
            proof {
                assert(it.index() < it.seq().len());
                assert(self.ledger@.dom().contains(*id)) by {
                    assert(it.seq().unref()[it.index() as int] == *id);
                }
            }
            let peer = self.ledger.get(id).unwrap();
            assert(peer@ == m[*id]);
            earliest = match earliest {
                Some(e) => if e <= peer.valid_until { Some(e) } else { Some(peer.valid_until) },
                None => Some(peer.valid_until),
            };
            proof {
                let before = done;
                done = done.push(*id);
                assert(done.drop_last() =~= before);
            }
        }
        proof {
            assert(done.to_set() == m.dom());
            lemma_least_seq(done, m, h);
        }
        earliest
    }

    /// Wether the peer has any pending leases.
    ///
    /// # Return
    ///
    /// `true` if peer has any pending leases, `false` if not. Returns `UnknownPeer` if peer does
    /// not exist.
    pub fn has_pending(&self, peer_id: PeerId) -> (r: Result<bool, ThrottleError>)
        ensures
            r == (if self@.contains_key(peer_id) {
                Ok(self@[peer_id].pending is Some)
            } else {
                Err(ThrottleError::UnknownPeer)
            }),
    {
        proof {
            self.lemma_view();
        }
        match self.ledger.get(&peer_id) {
            Some(peer) => Ok(!peer.all_acquired()),
            None => Err(ThrottleError::UnknownPeer),
        }
    }
}

} // verus!
