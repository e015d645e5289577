//! A small map keyed by names (semaphore names), keeping its entries in insertion order.
//!
//! It stands where a `HashMap<String, _>` would: vstd's specification of `HashMap` only holds for
//! key types that obey its key model (`obeys_key_model`), which vstd grants to primitive integers
//! and `bool` but not to `String`, and which could only be assumed. Names are compared here
//! character by character instead.
use crate::text::str_eq;
use vstd::prelude::*;

verus! {

/// Map from names to values. Every name occurs at most once; entries keep the order in which
/// their names were first inserted.
pub struct NameMap<V> {
    entries: Vec<(String, V)>,
}

/// Views of the entries of a map: names as character sequences, in order.
pub open spec fn view_entries<V>(e: Seq<(String, V)>) -> Seq<(Seq<char>, V)> {
    e.map_values(|p: (String, V)| (p.0@, p.1))
}

/// Names of a sequence of entries.
pub open spec fn entry_keys<V>(e: Seq<(Seq<char>, V)>) -> Seq<Seq<char>> {
    e.map_values(|p: (Seq<char>, V)| p.0)
}

/// Whether `k` is the name of some entry.
pub open spec fn has_key<V>(e: Seq<(Seq<char>, V)>, k: Seq<char>) -> bool {
    exists|i: int| 0 <= i < e.len() && #[trigger] e[i].0 == k
}

/// The value stored under `k`, if any; the first entry with that name.
pub open spec fn lookup<V>(e: Seq<(Seq<char>, V)>, k: Seq<char>) -> Option<V>
    decreases e.len(),
{
    if e.len() == 0 {
        None
    } else if e[0].0 == k {
        Some(e[0].1)
    } else {
        lookup(e.drop_first(), k)
    }
}

/// No two entries share a name.
pub open spec fn distinct_keys<V>(e: Seq<(Seq<char>, V)>) -> bool {
    forall|i: int, j: int| 0 <= i < j < e.len() ==> #[trigger] e[i].0 != #[trigger] e[j].0
}

pub proof fn lemma_lookup<V>(e: Seq<(Seq<char>, V)>, k: Seq<char>)
    requires
        distinct_keys(e),
    ensures
        lookup(e, k) is Some <==> has_key(e, k),
        forall|i: int| 0 <= i < e.len() && #[trigger] e[i].0 == k ==> lookup(e, k) == Some(e[i].1),
    decreases e.len(),
{
    if e.len() > 0 {
        let t = e.drop_first();
        assert(distinct_keys(t)) by {
            assert forall|i: int, j: int| 0 <= i < j < t.len() implies #[trigger] t[i].0 != #[trigger] t[j].0 by {
                assert(t[i] == e[i + 1] && t[j] == e[j + 1]);
            }
        }
        lemma_lookup(t, k);
        if e[0].0 == k {
            assert(has_key(e, k)) by { assert(e[0].0 == k); }
        } else {
            if has_key(e, k) {
                let i = choose|i: int| 0 <= i < e.len() && #[trigger] e[i].0 == k;
                assert(t[i - 1].0 == k);
            }
            if has_key(t, k) {
                let i = choose|i: int| 0 <= i < t.len() && #[trigger] t[i].0 == k;
                assert(e[i + 1].0 == k);
            }
            assert forall|i: int| 0 <= i < e.len() && #[trigger] e[i].0 == k implies lookup(e, k) == Some(e[i].1) by {
                assert(i > 0);
                assert(t[i - 1] == e[i]);
            }
        }
    }
}

pub proof fn lemma_lookup_absent<V>(e: Seq<(Seq<char>, V)>, k: Seq<char>)
    requires
        !has_key(e, k),
    ensures
        lookup(e, k) is None,
    decreases e.len(),
{
    if e.len() > 0 {
        assert(e[0].0 != k);
        if has_key(e.drop_first(), k) {
            let i = choose|i: int| 0 <= i < e.len() - 1 && #[trigger] e.drop_first()[i].0 == k;
            assert(e[i + 1].0 == k);
        }
        lemma_lookup_absent(e.drop_first(), k);
    }
}

/// The entries without the first one named `k`.
pub open spec fn remove_key<V>(e: Seq<(Seq<char>, V)>, k: Seq<char>) -> Seq<(Seq<char>, V)>
    decreases e.len(),
{
    if e.len() == 0 {
        e
    } else if e[0].0 == k {
        e.drop_first()
    } else {
        seq![e[0]] + remove_key(e.drop_first(), k)
    }
}

/// Removing the entry at the position of a name.
pub proof fn lemma_remove_key<V>(e: Seq<(Seq<char>, V)>, k: Seq<char>, i: int)
    requires
        distinct_keys(e),
        0 <= i < e.len(),
        e[i].0 == k,
    ensures
        remove_key(e, k) == e.remove(i),
    decreases e.len(),
{
    if i == 0 {
        assert(e.remove(0) =~= e.drop_first());
    } else {
        let t = e.drop_first();
        assert(distinct_keys(t)) by {
            assert forall|a: int, b: int| 0 <= a < b < t.len() implies #[trigger] t[a].0 != #[trigger] t[b].0 by {
                assert(t[a] == e[a + 1] && t[b] == e[b + 1]);
            }
        }
        assert(e[0].0 != k);
        lemma_remove_key(t, k, i - 1);
        assert(seq![e[0]] + t.remove(i - 1) =~= e.remove(i));
    }
}

/// Removing a name that is not present changes nothing.
pub proof fn lemma_remove_absent_key<V>(e: Seq<(Seq<char>, V)>, k: Seq<char>)
    requires
        !has_key(e, k),
    ensures
        remove_key(e, k) == e,
    decreases e.len(),
{
    if e.len() > 0 {
        assert(e[0].0 != k);
        let t = e.drop_first();
        if has_key(t, k) {
            let j = choose|j: int| 0 <= j < t.len() && #[trigger] t[j].0 == k;
            assert(e[j + 1].0 == k);
        }
        lemma_remove_absent_key(t, k);
        assert(seq![e[0]] + t =~= e);
    }
}

/// Removing a name keeps the other names with their values, and the names distinct.
pub proof fn lemma_lookup_remove<V>(e: Seq<(Seq<char>, V)>, k: Seq<char>, x: Seq<char>)
    requires
        distinct_keys(e),
    ensures
        distinct_keys(remove_key(e, k)),
        lookup(remove_key(e, k), x) == (if x == k { None } else { lookup(e, x) }),
        forall|i: int| 0 <= i < remove_key(e, k).len() ==> exists|j: int|
            0 <= j < e.len() && e[j] == #[trigger] remove_key(e, k)[i],
    decreases e.len(),
{
    if e.len() > 0 {
        let t = e.drop_first();
        assert(distinct_keys(t)) by {
            assert forall|a: int, b: int| 0 <= a < b < t.len() implies #[trigger] t[a].0 != #[trigger] t[b].0 by {
                assert(t[a] == e[a + 1] && t[b] == e[b + 1]);
            }
        }
        lemma_lookup_remove(t, k, x);
        let r = remove_key(e, k);
        if e[0].0 == k {
            assert(r == t);
            lemma_lookup(e, x);
            lemma_lookup(t, x);
            if x == k {
                if has_key(t, x) {
                    let i = choose|i: int| 0 <= i < t.len() && #[trigger] t[i].0 == x;
                    assert(e[i + 1].0 == e[0].0);
                }
                lemma_lookup_absent(t, x);
            }
            assert forall|i: int| 0 <= i < r.len() implies exists|j: int| 0 <= j < e.len() && e[j] == #[trigger] r[i] by {
                assert(e[i + 1] == r[i]);
            }
        } else {
            let rt = remove_key(t, k);
            assert(r == seq![e[0]] + rt);
            assert forall|i: int| 0 <= i < r.len() implies exists|j: int| 0 <= j < e.len() && e[j] == #[trigger] r[i] by {
                if i == 0 {
                    assert(e[0] == r[0]);
                } else {
                    assert(r[i] == rt[i - 1]);
                    let j = choose|j: int| 0 <= j < t.len() && t[j] == #[trigger] rt[i - 1];
                    assert(e[j + 1] == r[i]);
                }
            }
            assert(distinct_keys(r)) by {
                assert forall|a: int, b: int| 0 <= a < b < r.len() implies #[trigger] r[a].0 != #[trigger] r[b].0 by {
                    if a == 0 {
                        assert(r[b] == rt[b - 1]);
                        let j = choose|j: int| 0 <= j < t.len() && t[j] == #[trigger] rt[b - 1];
                        assert(e[j + 1] == r[b]);
                    } else {
                        assert(r[a] == rt[a - 1] && r[b] == rt[b - 1]);
                    }
                }
            }
            assert(r.drop_first() =~= rt);
        }
    }
}

/// Looking a name up in a prefix of the entries, one entry more at a time.
pub proof fn lemma_lookup_take<V>(e: Seq<(Seq<char>, V)>, k: Seq<char>, j: int)
    requires
        distinct_keys(e),
        0 <= j < e.len(),
    ensures
        lookup(e.take(j + 1), k) == (if e[j].0 == k {
            Some(e[j].1)
        } else {
            lookup(e.take(j), k)
        }),
{
    let t1 = e.take(j + 1);
    let t0 = e.take(j);
    assert(distinct_keys(t1)) by {
        assert forall|a: int, b: int| 0 <= a < b < t1.len() implies #[trigger] t1[a].0 != #[trigger] t1[b].0 by {
            assert(t1[a] == e[a] && t1[b] == e[b]);
        }
    }
    assert(distinct_keys(t0)) by {
        assert forall|a: int, b: int| 0 <= a < b < t0.len() implies #[trigger] t0[a].0 != #[trigger] t0[b].0 by {
            assert(t0[a] == e[a] && t0[b] == e[b]);
        }
    }
    lemma_lookup(t1, k);
    lemma_lookup(t0, k);
    if e[j].0 == k {
        assert(t1[j].0 == k);
    } else {
        if has_key(t1, k) {
            let i = choose|i: int| 0 <= i < t1.len() && #[trigger] t1[i].0 == k;
            assert(i != j);
            assert(t0[i] == t1[i]);
        }
        if has_key(t0, k) {
            let i = choose|i: int| 0 <= i < t0.len() && #[trigger] t0[i].0 == k;
            assert(t0[i] == t1[i]);
        }
    }
}

/// Appending an entry with a new name.
pub proof fn lemma_lookup_push<V>(e: Seq<(Seq<char>, V)>, k: Seq<char>, v: V)
    requires
        distinct_keys(e),
        !has_key(e, k),
    ensures
        distinct_keys(e.push((k, v))),
        lookup(e.push((k, v)), k) == Some(v),
        forall|k2: Seq<char>| k2 != k ==> #[trigger] lookup(e.push((k, v)), k2) == lookup(e, k2),
{
    let f = e.push((k, v));
    assert(distinct_keys(f)) by {
        assert forall|a: int, b: int| 0 <= a < b < f.len() implies #[trigger] f[a].0 != #[trigger] f[b].0 by {
            if b < e.len() {
                assert(f[a] == e[a] && f[b] == e[b]);
            } else {
                assert(f[a] == e[a]);
            }
        }
    }
    assert(f.take(e.len() as int) =~= e);
    assert(f.take(f.len() as int) =~= f);
    assert forall|k2: Seq<char>| k2 != k implies #[trigger] lookup(f, k2) == lookup(e, k2) by {
        lemma_lookup_take(f, k2, e.len() as int);
    }
    lemma_lookup_take(f, k, e.len() as int);
}

impl<V> NameMap<V> {
    /// The entries, names as character sequences, in order.
    pub closed spec fn entries(&self) -> Seq<(Seq<char>, V)> {
        view_entries(self.entries@)
    }

    /// Every name occurs at most once.
    pub open spec fn wf(&self) -> bool {
        distinct_keys(self.entries())
    }

    /// The value stored under `k`, if any.
    pub open spec fn get_spec(&self, k: Seq<char>) -> Option<V> {
        lookup(self.entries(), k)
    }

    /// An empty map.
    pub fn new() -> (m: Self)
        ensures
            m.wf(),
            m.entries() == Seq::<(Seq<char>, V)>::empty(),
    {
        let m = NameMap { entries: Vec::new() };
        assert(m.entries() =~= Seq::<(Seq<char>, V)>::empty());
        m
    }

    /// Number of entries.
    pub fn len(&self) -> (n: usize)
        ensures
            n == self.entries().len(),
    {
        self.entries.len()
    }

    /// Name of the entry at position `i`.
    pub fn key(&self, i: usize) -> (k: &String)
        requires
            i < self.entries().len(),
        ensures
            k@ == self.entries()[i as int].0,
    {
        &self.entries[i].0
    }

    /// Value of the entry at position `i`.
    pub fn value(&self, i: usize) -> (v: &V)
        requires
            i < self.entries().len(),
        ensures
            *v == self.entries()[i as int].1,
    {
        &self.entries[i].1
    }

    /// Position of the entry named `name`, if any.
    pub fn find(&self, name: &str) -> (r: Option<usize>)
        ensures
            match r {
                Some(i) => i < self.entries().len() && self.entries()[i as int].0 == name@,
                None => !has_key(self.entries(), name@),
            },
    {
        let n = self.entries.len();
        let mut i: usize = 0;
        while i < n
            invariant
                n == self.entries().len(),
                i <= n,
                forall|j: int| 0 <= j < i ==> self.entries()[j].0 != name@,
            decreases n - i,
        {
            if str_eq(self.entries[i].0.as_str(), name) {
                return Some(i);
            }
            i = i + 1;
        }
        None
    }

    /// The value stored under `name`, if any.
    pub fn get(&self, name: &str) -> (r: Option<&V>)
        requires
            self.wf(),
        ensures
            r is Some <==> self.get_spec(name@) is Some,
            r matches Some(v) ==> self.get_spec(name@) == Some(*v),
    {
        proof {
            lemma_lookup(self.entries(), name@);
        }
        match self.find(name) {
            Some(i) => Some(&self.entries[i].1),
            None => None,
        }
    }

    /// Whether an entry is named `name`.
    pub fn contains_key(&self, name: &str) -> (r: bool)
        requires
            self.wf(),
        ensures
            r == self.get_spec(name@) is Some,
    {
        proof {
            lemma_lookup(self.entries(), name@);
        }
        self.find(name).is_some()
    }

    /// Stores `value` under `name`. An existing entry keeps its position and gets the new value;
    /// a new name is appended. Returns the previous value.
    pub fn insert(&mut self, name: String, value: V) -> (r: Option<V>)
        requires
            old(self).wf(),
        ensures
            final(self).wf(),
            r == old(self).get_spec(name@),
            has_key(old(self).entries(), name@) ==> exists|i: int|
                0 <= i < old(self).entries().len() && old(self).entries()[i].0 == name@
                    && final(self).entries() == old(self).entries().update(i, (name@, value)),
            !has_key(old(self).entries(), name@) ==> final(self).entries()
                == old(self).entries().push((name@, value)),
            final(self).get_spec(name@) == Some(value),
            forall|k: Seq<char>| k != name@ ==> #[trigger] final(self).get_spec(k) == old(self).get_spec(k),
    {
        proof {
            lemma_lookup(self.entries(), name@);
        }
        let ghost pre = self.entries();
        match self.find(name.as_str()) {
            Some(i) => {
                let (_, previous) = self.entries.remove(i);
                self.entries.insert(i, (name, value));
                proof {
                    assert(self.entries() =~= pre.update(i as int, (name@, value)));
                    let e = self.entries();
                    assert forall|a: int, b: int| 0 <= a < b < e.len() implies #[trigger] e[a].0 != #[trigger] e[b].0 by {
                        if a != i && b != i {
                            assert(e[a] == pre[a] && e[b] == pre[b]);
                        } else if a == i {
                            assert(e[b] == pre[b]);
                        } else {
                            assert(e[a] == pre[a]);
                        }
                    }
                    lemma_lookup(e, name@);
                    assert(e[i as int].0 == name@);
                    assert forall|k: Seq<char>| k != name@ implies #[trigger] lookup(e, k) == lookup(pre, k) by {
                        lemma_lookup(e, k);
                        lemma_lookup(pre, k);
                        if has_key(e, k) {
                            let j = choose|j: int| 0 <= j < e.len() && #[trigger] e[j].0 == k;
                            assert(pre[j] == e[j]);
                        }
                        if has_key(pre, k) {
                            let j = choose|j: int| 0 <= j < pre.len() && #[trigger] pre[j].0 == k;
                            assert(pre[j] == e[j]);
                        }
                    }
                }
                Some(previous)
            },
            None => {
                self.entries.push((name, value));
                proof {
                    assert(self.entries() =~= pre.push((name@, value)));
                    let e = self.entries();
                    assert forall|a: int, b: int| 0 <= a < b < e.len() implies #[trigger] e[a].0 != #[trigger] e[b].0 by {
                        if b < pre.len() {
                            assert(e[a] == pre[a] && e[b] == pre[b]);
                        } else {
                            assert(e[a] == pre[a]);
                        }
                    }
                    lemma_lookup(e, name@);
                    assert(e[pre.len() as int].0 == name@);
                    assert forall|k: Seq<char>| k != name@ implies #[trigger] lookup(e, k) == lookup(pre, k) by {
                        lemma_lookup(e, k);
                        lemma_lookup(pre, k);
                        if has_key(e, k) {
                            let j = choose|j: int| 0 <= j < e.len() && #[trigger] e[j].0 == k;
                            assert(pre[j] == e[j]);
                        }
                        if has_key(pre, k) {
                            let j = choose|j: int| 0 <= j < pre.len() && #[trigger] pre[j].0 == k;
                            assert(pre[j] == e[j]);
                        }
                    }
                }
                None
            },
        }
    }

    /// Removes the entry named `name`, returning its value. The other entries keep their order.
    pub fn remove(&mut self, name: &str) -> (r: Option<V>)
        requires
            old(self).wf(),
        ensures
            final(self).wf(),
            r == old(self).get_spec(name@),
            final(self).entries() == remove_key(old(self).entries(), name@),
            final(self).get_spec(name@) is None,
            forall|k: Seq<char>| k != name@ ==> #[trigger] final(self).get_spec(k) == old(self).get_spec(k),
    {
        proof {
            lemma_lookup(self.entries(), name@);
        }
        let ghost pre = self.entries();
        match self.find(name) {
            Some(i) => {
                let (_, previous) = self.entries.remove(i);
                proof {
                    assert(self.entries() =~= pre.remove(i as int));
                    lemma_remove_key(pre, name@, i as int);
                    let e = self.entries();
                    assert forall|a: int, b: int| 0 <= a < b < e.len() implies #[trigger] e[a].0 != #[trigger] e[b].0 by {
                        if b < i {
                            assert(e[a] == pre[a] && e[b] == pre[b]);
                        } else if a < i {
                            assert(e[a] == pre[a] && e[b] == pre[b + 1]);
                        } else {
                            assert(e[a] == pre[a + 1] && e[b] == pre[b + 1]);
                        }
                    }
                    assert(!has_key(e, name@)) by {
                        if has_key(e, name@) {
                            let j = choose|j: int| 0 <= j < e.len() && #[trigger] e[j].0 == name@;
                            if j < i {
                                assert(e[j] == pre[j]);
                            } else {
                                assert(e[j] == pre[j + 1]);
                            }
                        }
                    }
                    lemma_lookup(e, name@);
                    assert forall|k: Seq<char>| k != name@ implies #[trigger] lookup(e, k) == lookup(pre, k) by {
                        lemma_lookup(e, k);
                        lemma_lookup(pre, k);
                        if has_key(e, k) {
                            let j = choose|j: int| 0 <= j < e.len() && #[trigger] e[j].0 == k;
                            if j < i {
                                assert(e[j] == pre[j]);
                            } else {
                                assert(e[j] == pre[j + 1]);
                            }
                        }
                        if has_key(pre, k) {
                            let j = choose|j: int| 0 <= j < pre.len() && #[trigger] pre[j].0 == k;
                            assert(j != i);
                            if j < i {
                                assert(e[j] == pre[j]);
                            } else {
                                assert(e[j - 1] == pre[j]);
                            }
                        }
                    }
                }
                Some(previous)
            },
            None => {
                proof {
                    lemma_lookup_absent(pre, name@);
                    lemma_remove_absent_key(pre, name@);
                }
                None
            },
        }
    }

    /// Replaces the value of the entry at position `i`.
    pub fn set_value(&mut self, i: usize, value: V)
        requires
            old(self).wf(),
            i < old(self).entries().len(),
        ensures
            final(self).wf(),
            final(self).entries() == old(self).entries().update(
                i as int,
                (old(self).entries()[i as int].0, value),
            ),
    {
        let ghost pre = self.entries();
        let (name, _) = self.entries.remove(i);
        self.entries.insert(i, (name, value));
        proof {
            assert(self.entries() =~= pre.update(i as int, (pre[i as int].0, value)));
            let e = self.entries();
            assert forall|a: int, b: int| 0 <= a < b < e.len() implies #[trigger] e[a].0 != #[trigger] e[b].0 by {
                assert(e[a].0 == pre[a].0 && e[b].0 == pre[b].0);
            }
        }
    }
}

impl NameMap<i64> {
    /// Whether both maps store the same counts under the same names, in whatever order.
    pub fn same_entries(&self, other: &NameMap<i64>) -> (r: bool)
        requires
            self.wf(),
            other.wf(),
        ensures
            r == (forall|k: Seq<char>| #[trigger] self.get_spec(k) == other.get_spec(k)),
    {
        let n = self.entries.len();
        let mut i: usize = 0;
        while i < n
            invariant
                self.wf(),
                other.wf(),
                n == self.entries().len(),
                i <= n,
                forall|j: int| 0 <= j < i ==> #[trigger] other.get_spec(self.entries()[j].0) == Some(self.entries()[j].1),
            decreases n - i,
        {
            match other.get(self.entries[i].0.as_str()) {
                Some(v) => {
                    if *v != self.entries[i].1 {
                        proof {
                            let k = self.entries()[i as int].0;
                            lemma_lookup(self.entries(), k);
                            assert(self.get_spec(k) != other.get_spec(k));
                        }
                        return false;
                    }
                },
                None => {
                    proof {
                        let k = self.entries()[i as int].0;
                        lemma_lookup(self.entries(), k);
                        assert(self.get_spec(k) != other.get_spec(k));
                    }
                    return false;
                },
            }
            i = i + 1;
        }
        let m = other.entries.len();
        let mut j: usize = 0;
        while j < m
            invariant
                self.wf(),
                other.wf(),
                m == other.entries().len(),
                j <= m,
                forall|a: int| 0 <= a < n ==> #[trigger] other.get_spec(self.entries()[a].0) == Some(self.entries()[a].1),
                n == self.entries().len(),
                forall|b: int| 0 <= b < j ==> #[trigger] self.get_spec(other.entries()[b].0) is Some,
            decreases m - j,
        {
            if !self.contains_key(other.entries[j].0.as_str()) {
                proof {
                    let k = other.entries()[j as int].0;
                    lemma_lookup(other.entries(), k);
                    assert(self.get_spec(k) != other.get_spec(k));
                }
                return false;
            }
            j = j + 1;
        }
        proof {
            assert forall|k: Seq<char>| #[trigger] self.get_spec(k) == other.get_spec(k) by {
                lemma_lookup(self.entries(), k);
                lemma_lookup(other.entries(), k);
                if has_key(self.entries(), k) {
                    let a = choose|a: int| 0 <= a < self.entries().len() && #[trigger] self.entries()[a].0 == k;
                    assert(other.get_spec(self.entries()[a].0) == Some(self.entries()[a].1));
                } else if has_key(other.entries(), k) {
                    let b = choose|b: int| 0 <= b < other.entries().len() && #[trigger] other.entries()[b].0 == k;
                    assert(self.get_spec(other.entries()[b].0) is Some);
                }
            }
        }
        true
    }
}

impl<V: Copy> NameMap<V> {
    /// A copy of the map with the same entries in the same order.
    pub fn cloned(&self) -> (m: Self)
        ensures
            m.entries() == self.entries(),
            m.wf() == self.wf(),
    {
        let mut entries: Vec<(String, V)> = Vec::new();
        let n = self.entries.len();
        let mut i: usize = 0;
        while i < n
            invariant
                n == self.entries@.len(),
                i <= n,
                view_entries(entries@) =~= view_entries(self.entries@.take(i as int)),
            decreases n - i,
        {
            let name = self.entries[i].0.clone();
            let value = self.entries[i].1;
            let ghost before = entries@;
            entries.push((name, value));
            proof {
                assert(self.entries@.take(i + 1) =~= self.entries@.take(i as int).push(self.entries@[i as int]));
                assert(entries@ == before.push((name, value)));
                assert(name@ == self.entries@[i as int].0@);
                assert(value == self.entries@[i as int].1);
                assert(view_entries(entries@) =~= view_entries(before).push((name@, value)));
                assert(view_entries(self.entries@.take(i + 1)) =~= view_entries(self.entries@.take(i as int)).push((self.entries@[i as int].0@, self.entries@[i as int].1)));
            }
            i = i + 1;
        }
        proof {
            assert(self.entries@.take(n as int) =~= self.entries@);
        }
        NameMap { entries }
    }
}

} // verus!
