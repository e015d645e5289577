//! Sums and minima over the values of a finite map, taken over a set of keys in no particular
//! order.
use vstd::prelude::*;
use vstd::set::fold::*;

verus! {

/// Sum of `g(m[id])` over the keys `ids`.
pub open spec fn tally<V>(ids: Set<u64>, m: Map<u64, V>, g: spec_fn(V) -> int) -> int {
    ids.fold(0int, |acc: int, id: u64| acc + g(m[id]))
}

/// Sum of `g(m[id])` over the keys listed in `s`, in order.
pub open spec fn seq_tally<V>(s: Seq<u64>, m: Map<u64, V>, g: spec_fn(V) -> int) -> int
    decreases s.len(),
{
    if s.len() == 0 {
        0
    } else {
        seq_tally(s.drop_last(), m, g) + g(m[s.last()])
    }
}

proof fn lemma_adder_commutative<V>(m: Map<u64, V>, g: spec_fn(V) -> int)
    ensures
        is_fun_commutative(|acc: int, id: u64| acc + g(m[id])),
{
}

pub proof fn lemma_tally_empty<V>(m: Map<u64, V>, g: spec_fn(V) -> int)
    ensures
        tally(Set::empty(), m, g) == 0,
{
    lemma_fold_empty(0int, |acc: int, id: u64| acc + g(m[id]));
}

pub proof fn lemma_tally_insert<V>(ids: Set<u64>, m: Map<u64, V>, g: spec_fn(V) -> int, id: u64)
    requires
        ids.finite(),
        !ids.contains(id),
    ensures
        tally(ids.insert(id), m, g) == tally(ids, m, g) + g(m[id]),
{
    lemma_adder_commutative(m, g);
    lemma_fold_insert(ids, 0int, |acc: int, id: u64| acc + g(m[id]), id);
}

pub proof fn lemma_tally_remove<V>(ids: Set<u64>, m: Map<u64, V>, g: spec_fn(V) -> int, id: u64)
    requires
        ids.finite(),
        ids.contains(id),
    ensures
        tally(ids, m, g) == tally(ids.remove(id), m, g) + g(m[id]),
{
    assert(ids.remove(id).insert(id) =~= ids);
    lemma_tally_insert(ids.remove(id), m, g, id);
}

/// The sum only depends on the summands of the keys in `ids`.
pub proof fn lemma_tally_congruent<V, W>(
    ids: Set<u64>,
    m1: Map<u64, V>,
    g1: spec_fn(V) -> int,
    m2: Map<u64, W>,
    g2: spec_fn(W) -> int,
)
    requires
        ids.finite(),
        forall|id: u64| ids.contains(id) ==> g1(m1[id]) == g2(m2[id]),
    ensures
        tally(ids, m1, g1) == tally(ids, m2, g2),
    decreases ids.len(),
{
    if ids.len() == 0 {
        assert(ids =~= Set::empty());
        lemma_tally_empty(m1, g1);
        lemma_tally_empty(m2, g2);
    } else {
        let id = ids.choose();
        lemma_tally_remove(ids, m1, g1, id);
        lemma_tally_remove(ids, m2, g2, id);
        lemma_tally_congruent(ids.remove(id), m1, g1, m2, g2);
    }
}

/// Replacing the value of one key changes the sum by the difference of its summands.
pub proof fn lemma_tally_update<V>(m: Map<u64, V>, g: spec_fn(V) -> int, id: u64, v: V)
    requires
        m.dom().finite(),
        m.contains_key(id),
    ensures
        tally(m.insert(id, v).dom(), m.insert(id, v), g) == tally(m.dom(), m, g) - g(m[id]) + g(v),
{
    let m2 = m.insert(id, v);
    assert(m2.dom() =~= m.dom());
    lemma_tally_remove(m.dom(), m, g, id);
    lemma_tally_remove(m.dom(), m2, g, id);
    lemma_tally_congruent(m.dom().remove(id), m, g, m2, g);
}

/// With non-negative summands, a sum over fewer keys is not larger.
pub proof fn lemma_tally_subset<V>(a: Set<u64>, b: Set<u64>, m: Map<u64, V>, g: spec_fn(V) -> int)
    requires
        b.finite(),
        a.subset_of(b),
        forall|id: u64| b.contains(id) ==> 0 <= #[trigger] g(m[id]),
    ensures
        tally(a, m, g) <= tally(b, m, g),
    decreases b.len(),
{
    vstd::set_lib::lemma_set_subset_finite(b, a);
    if !(b =~= a) {
        let x = choose|x: u64| b.contains(x) && !a.contains(x);
        lemma_tally_remove(b, m, g, x);
        lemma_tally_subset(a, b.remove(x), m, g);
    }
}

/// Sums of pointwise smaller summands over the same keys are smaller.
pub proof fn lemma_tally_le<V, W>(
    ids: Set<u64>,
    m1: Map<u64, V>,
    g1: spec_fn(V) -> int,
    m2: Map<u64, W>,
    g2: spec_fn(W) -> int,
)
    requires
        ids.finite(),
        forall|id: u64| ids.contains(id) ==> g1(m1[id]) <= g2(m2[id]),
    ensures
        tally(ids, m1, g1) <= tally(ids, m2, g2),
    decreases ids.len(),
{
    if ids.len() == 0 {
        assert(ids =~= Set::empty());
        lemma_tally_empty(m1, g1);
        lemma_tally_empty(m2, g2);
    } else {
        let id = ids.choose();
        lemma_tally_remove(ids, m1, g1, id);
        lemma_tally_remove(ids, m2, g2, id);
        lemma_tally_le(ids.remove(id), m1, g1, m2, g2);
    }
}

/// Summing in the order of a list of distinct keys gives the same sum.
pub proof fn lemma_tally_seq<V>(s: Seq<u64>, m: Map<u64, V>, g: spec_fn(V) -> int)
    requires
        s.no_duplicates(),
    ensures
        tally(s.to_set(), m, g) == seq_tally(s, m, g),
    decreases s.len(),
{
    if s.len() == 0 {
        assert(s.to_set() =~= Set::empty());
        lemma_tally_empty(m, g);
    } else {
        let t = s.drop_last();
        assert(t.no_duplicates()) by {
            assert forall|i: int, j: int| 0 <= i < t.len() && 0 <= j < t.len() && i != j implies t[i] != t[j] by {
                assert(t[i] == s[i] && t[j] == s[j]);
            }
        }
        lemma_tally_seq(t, m, g);
        assert(s.to_set() =~= t.to_set().insert(s.last())) by {
            assert forall|x: u64| s.to_set().contains(x) implies t.to_set().insert(s.last()).contains(x) by {
                let i = choose|i: int| 0 <= i < s.len() && s[i] == x;
                if i < s.len() - 1 {
                    assert(t[i] == x);
                }
            }
            assert forall|x: u64| t.to_set().insert(s.last()).contains(x) implies s.to_set().contains(x) by {
                if x == s.last() {
                    assert(s[s.len() - 1] == x);
                } else {
                    let i = choose|i: int| 0 <= i < t.len() && t[i] == x;
                    assert(s[i] == x);
                }
            }
        }
        assert(!t.to_set().contains(s.last())) by {
            if t.to_set().contains(s.last()) {
                let i = choose|i: int| 0 <= i < t.len() && t[i] == s.last();
                assert(s[i] == s[s.len() - 1]);
            }
        }
        t.lemma_cardinality_of_set();
        vstd::seq_lib::seq_to_set_is_finite(t);
        lemma_tally_insert(t.to_set(), m, g, s.last());
    }
}

/// Bounds of a sum whose summands are bounded.
pub proof fn lemma_seq_tally_bounds<V>(s: Seq<u64>, m: Map<u64, V>, g: spec_fn(V) -> int, lo: int, hi: int)
    requires
        0 <= hi,
        lo <= 0,
        forall|i: int| 0 <= i < s.len() ==> lo <= #[trigger] g(m[s[i]]) <= hi,
    ensures
        s.len() * lo <= seq_tally(s, m, g) <= s.len() * hi,
    decreases s.len(),
{
    if s.len() > 0 {
        let t = s.drop_last();
        assert forall|i: int| 0 <= i < t.len() implies lo <= #[trigger] g(m[t[i]]) <= hi by {
            assert(t[i] == s[i]);
        }
        lemma_seq_tally_bounds(t, m, g, lo, hi);
        assert(g(m[s[s.len() - 1]]) <= hi);
        assert(t.len() * hi + hi == s.len() * hi) by (nonlinear_arith)
            requires t.len() + 1 == s.len();
        assert(t.len() * lo + lo == s.len() * lo) by (nonlinear_arith)
            requires t.len() + 1 == s.len();
    }
}

/// The smaller of two optional instants; `None` stands for no instant at all.
pub open spec fn min_opt(a: Option<u64>, b: Option<u64>) -> Option<u64> {
    match (a, b) {
        (Some(x), Some(y)) => if x <= y { Some(x) } else { Some(y) },
        (Some(x), None) => Some(x),
        (None, y) => y,
    }
}

/// Least of the instants `h(m[id])` over the keys `ids`.
pub open spec fn least<V>(ids: Set<u64>, m: Map<u64, V>, h: spec_fn(V) -> Option<u64>) -> Option<u64> {
    ids.fold(None::<u64>, |acc: Option<u64>, id: u64| min_opt(acc, h(m[id])))
}

/// Least of the instants `h(m[id])` over the keys listed in `s`.
pub open spec fn seq_least<V>(s: Seq<u64>, m: Map<u64, V>, h: spec_fn(V) -> Option<u64>) -> Option<u64>
    decreases s.len(),
{
    if s.len() == 0 {
        None
    } else {
        min_opt(seq_least(s.drop_last(), m, h), h(m[s.last()]))
    }
}

/// Taking the least in the order of a list of distinct keys gives the same result.
pub proof fn lemma_least_seq<V>(s: Seq<u64>, m: Map<u64, V>, h: spec_fn(V) -> Option<u64>)
    requires
        s.no_duplicates(),
    ensures
        least(s.to_set(), m, h) == seq_least(s, m, h),
    decreases s.len(),
{
    let f = |acc: Option<u64>, id: u64| min_opt(acc, h(m[id]));
    assert(is_fun_commutative(f));
    if s.len() == 0 {
        assert(s.to_set() =~= Set::empty());
        lemma_fold_empty(None::<u64>, f);
    } else {
        let t = s.drop_last();
        assert(t.no_duplicates()) by {
            assert forall|i: int, j: int| 0 <= i < t.len() && 0 <= j < t.len() && i != j implies t[i] != t[j] by {
                assert(t[i] == s[i] && t[j] == s[j]);
            }
        }
        lemma_least_seq(t, m, h);
        assert(s.to_set() =~= t.to_set().insert(s.last())) by {
            assert forall|x: u64| s.to_set().contains(x) implies t.to_set().insert(s.last()).contains(x) by {
                let i = choose|i: int| 0 <= i < s.len() && s[i] == x;
                if i < s.len() - 1 {
                    assert(t[i] == x);
                }
            }
            assert forall|x: u64| t.to_set().insert(s.last()).contains(x) implies s.to_set().contains(x) by {
                if x == s.last() {
                    assert(s[s.len() - 1] == x);
                } else {
                    let i = choose|i: int| 0 <= i < t.len() && t[i] == x;
                    assert(s[i] == x);
                }
            }
        }
        assert(!t.to_set().contains(s.last())) by {
            if t.to_set().contains(s.last()) {
                let i = choose|i: int| 0 <= i < t.len() && t[i] == s.last();
                assert(s[i] == s[s.len() - 1]);
            }
        }
        vstd::seq_lib::seq_to_set_is_finite(t);
        lemma_fold_insert(t.to_set(), None::<u64>, f, s.last());
    }
}

/// Where every key has an instant, the least instant is that of one of the keys and is not larger
/// than the instant of any key; there is none only for no keys at all.
pub proof fn lemma_least_bounds<V>(ids: Set<u64>, m: Map<u64, V>, h: spec_fn(V) -> Option<u64>)
    requires
        ids.finite(),
        forall|id: u64| ids.contains(id) ==> #[trigger] h(m[id]) is Some,
    ensures
        least(ids, m, h) is None <==> ids.len() == 0,
        forall|id: u64| #[trigger] ids.contains(id) ==> (least(ids, m, h) matches Some(t) && t <= h(m[id])->0),
        least(ids, m, h) matches Some(t) ==> exists|id: u64| ids.contains(id) && h(m[id]) == Some(t),
    decreases ids.len(),
{
    let f = |acc: Option<u64>, id: u64| min_opt(acc, h(m[id]));
    assert(is_fun_commutative(f));
    if ids.len() == 0 {
        assert(ids =~= Set::empty());
        lemma_fold_empty(None::<u64>, f);
    } else {
        let x = ids.choose();
        let rest = ids.remove(x);
        lemma_least_bounds(rest, m, h);
        assert(rest.insert(x) =~= ids);
        lemma_fold_insert(rest, None::<u64>, f, x);
        assert(least(ids, m, h) == min_opt(least(rest, m, h), h(m[x])));
        assert forall|id: u64| #[trigger] ids.contains(id) implies (least(ids, m, h) matches Some(t) && t <= h(m[id])->0) by {
            if id != x {
                assert(rest.contains(id));
            }
        }
        if least(rest, m, h) is Some {
            let t = least(rest, m, h)->0;
            let w = choose|id: u64| rest.contains(id) && h(m[id]) == Some(t);
            assert(ids.contains(w));
        }
        assert(ids.contains(x));
    }
}

/// With non-negative summands, the sum over a prefix is at most the sum over the whole list.
pub proof fn lemma_seq_tally_prefix<V>(s: Seq<u64>, m: Map<u64, V>, g: spec_fn(V) -> int, i: int)
    requires
        0 <= i <= s.len(),
        forall|j: int| 0 <= j < s.len() ==> 0 <= #[trigger] g(m[s[j]]),
    ensures
        seq_tally(s.take(i), m, g) <= seq_tally(s, m, g),
    decreases s.len(),
{
    if i < s.len() {
        let t = s.drop_last();
        assert forall|j: int| 0 <= j < t.len() implies 0 <= #[trigger] g(m[t[j]]) by {
            assert(t[j] == s[j]);
        }
        lemma_seq_tally_prefix(t, m, g, i);
        assert(t.take(i) =~= s.take(i));
        assert(g(m[s[s.len() - 1]]) >= 0);
    } else {
        assert(s.take(i) =~= s);
    }
}

} // verus!
