//! The mathematical model of the statistics, and the laws that relate them.

use vstd::prelude::*;

verus! {

/// The order that the sorted copy of the input follows.
pub open spec fn leq_i32() -> spec_fn(i32, i32) -> bool {
    |a: i32, b: i32| a <= b
}

/// Each element is at most the next ones.
pub open spec fn ascending(s: Seq<i32>) -> bool {
    forall|i: int, j: int| 0 <= i < j < s.len() ==> s[i] <= s[j]
}

/// Each element is below the next ones: ascending without repeats.
pub open spec fn strictly_ascending(s: Seq<i32>) -> bool {
    forall|i: int, j: int| 0 <= i < j < s.len() ==> s[i] < s[j]
}

/// The input's values in ascending order.
pub open spec fn sorted_of(s: Seq<i32>) -> Seq<i32> {
    s.sort_by(leq_i32())
}

/// How often `x` occurs in `s`.
pub open spec fn freq(s: Seq<i32>, x: i32) -> nat {
    s.to_multiset().count(x)
}

/// `x` occurs in `s`, and no value occurs more often.
pub open spec fn is_mode(s: Seq<i32>, x: i32) -> bool {
    &&& freq(s, x) > 0
    &&& forall|y: i32| #[trigger] freq(s, y) <= freq(s, x)
}

/// The values that are modes of `s`.
pub open spec fn mode_set(s: Seq<i32>) -> Set<i32> {
    Set::new(|x: i32| is_mode(s, x))
}

/// The values of `st`, in ascending order and each once.
pub open spec fn ascending_list(st: Set<i32>) -> Seq<i32> {
    choose|m: Seq<i32>| strictly_ascending(m) && m.to_set() == st
}

/// The modes of `s`, in ascending order and each once.
pub open spec fn modes_of(s: Seq<i32>) -> Seq<i32> {
    ascending_list(mode_set(s))
}

/// The sum of the values, as a mathematical integer.
pub open spec fn seq_sum(s: Seq<i32>) -> int
    decreases s.len(),
{
    if s.len() == 0 {
        0
    } else {
        seq_sum(s.drop_last()) + s.last()
    }
}

/// Twice the median of an ascending, non-empty `t`: the middle element doubled,
/// or the two middle elements added.
pub open spec fn median2(t: Seq<i32>) -> int {
    let half = (t.len() / 2) as int;
    if t.len() % 2 == 0 {
        t[half - 1] as int + t[half] as int
    } else {
        2 * (t[half] as int)
    }
}

/// Twice the first quartile: the median of the lower half `[0, n/2)`, none where
/// that half is empty.
pub open spec fn q1_2(t: Seq<i32>) -> Option<int> {
    let end = t.len() / 2;
    if end == 0 {
        None
    } else {
        Some(median2(t.subrange(0, end as int)))
    }
}

/// Twice the third quartile: the median of the upper half `[ceil(n/2), n)`, none
/// where that half is empty.
pub open spec fn q3_2(t: Seq<i32>) -> Option<int> {
    let start = (t.len() + 1) / 2;
    if start >= t.len() {
        None
    } else {
        Some(median2(t.subrange(start as int, t.len() as int)))
    }
}

/// The smallest value of a non-empty `s`.
pub open spec fn min_of(s: Seq<i32>) -> int {
    sorted_of(s)[0] as int
}

/// The largest value of a non-empty `s`.
pub open spec fn max_of(s: Seq<i32>) -> int {
    sorted_of(s).last() as int
}

/// The input's sum and range fit in `i32`, the arithmetic they are computed in.
/// The empty input, which is refused, is within bounds.
pub open spec fn within_bounds(s: Seq<i32>) -> bool {
    s.len() > 0 ==> {
        &&& i32::MIN <= seq_sum(s) <= i32::MAX
        &&& max_of(s) - min_of(s) <= i32::MAX
    }
}

pub proof fn lemma_leq_total()
    ensures
        vstd::relations::total_ordering(leq_i32()),
{
}

/// The sorted copy holds the input's values, in ascending order.
pub proof fn lemma_sorted_of(s: Seq<i32>)
    ensures
        ascending(sorted_of(s)),
        sorted_of(s).to_multiset() == s.to_multiset(),
        sorted_of(s).len() == s.len(),
{
    lemma_leq_total();
    s.lemma_sort_by_ensures(leq_i32());
    let t = sorted_of(s);
    assert forall|i: int, j: int| 0 <= i < j < t.len() implies t[i] <= t[j] by {
        assert((leq_i32())(t[i], t[j]));
    }
    t.to_multiset_ensures();
    s.to_multiset_ensures();
}

/// Two ascending sequences that hold the same values are equal.
pub proof fn lemma_ascending_unique(a: Seq<i32>, b: Seq<i32>)
    requires
        ascending(a),
        ascending(b),
        a.to_multiset() == b.to_multiset(),
    ensures
        a == b,
    decreases a.len(),
{
    a.to_multiset_ensures();
    b.to_multiset_ensures();
    if a.len() == 0 {
        assert(b.len() == 0);
        assert(a =~= b);
    } else {
        let x = a.last();
        let y = b.last();
        assert(a.contains(x));
        assert(a.to_multiset().count(x) > 0);
        assert(b.contains(x));
        assert(b.contains(y));
        assert(b.to_multiset().count(y) > 0);
        assert(a.contains(y));
        let j = choose|j: int| 0 <= j < b.len() && b[j] == x;
        let k = choose|k: int| 0 <= k < a.len() && a[k] == y;
        assert(x <= y);
        assert(y <= x);
        let a0 = a.drop_last();
        let b0 = b.drop_last();
        assert(a0.push(x) =~= a);
        assert(b0.push(x) =~= b);
        a0.to_multiset_ensures();
        b0.to_multiset_ensures();
        assert(a.to_multiset() == a0.to_multiset().insert(x));
        assert(b.to_multiset() == b0.to_multiset().insert(x));
        assert(a0.to_multiset() =~= b0.to_multiset()) by {
            broadcast use vstd::multiset::group_multiset_axioms;

            assert forall|v: i32| a0.to_multiset().count(v) == b0.to_multiset().count(v) by {
                assert(a.to_multiset().count(v) == b.to_multiset().count(v));
                assert(a0.to_multiset().insert(x).count(v) == a0.to_multiset().count(v) + if v
                    == x {
                    1int
                } else {
                    0int
                });
                assert(b0.to_multiset().insert(x).count(v) == b0.to_multiset().count(v) + if v
                    == x {
                    1int
                } else {
                    0int
                });
            }
        }
        lemma_ascending_unique(a0, b0);
        assert(a =~= b);
    }
}

/// Removing one element takes its value off the sum.
pub proof fn lemma_sum_remove(s: Seq<i32>, j: int)
    requires
        0 <= j < s.len(),
    ensures
        seq_sum(s) == seq_sum(s.remove(j)) + s[j],
    decreases s.len(),
{
    if j == s.len() - 1 {
        assert(s.remove(j) =~= s.drop_last());
    } else {
        let r = s.remove(j);
        assert(r.drop_last() =~= s.drop_last().remove(j));
        assert(r.last() == s.last());
        lemma_sum_remove(s.drop_last(), j);
    }
}

/// The sum does not depend on the order of the values.
pub proof fn lemma_sum_permutation(a: Seq<i32>, b: Seq<i32>)
    requires
        a.to_multiset() == b.to_multiset(),
    ensures
        seq_sum(a) == seq_sum(b),
    decreases a.len(),
{
    a.to_multiset_ensures();
    b.to_multiset_ensures();
    if a.len() == 0 {
        assert(b.len() == 0);
    } else {
        let x = a.last();
        assert(a.contains(x));
        assert(a.to_multiset().count(x) > 0);
        assert(b.contains(x));
        let j = choose|j: int| 0 <= j < b.len() && b[j] == x;
        let a0 = a.drop_last();
        let b0 = b.remove(j);
        assert(a0.push(x) =~= a);
        a0.to_multiset_ensures();
        assert(a0.to_multiset() =~= b0.to_multiset()) by {
            assert forall|v: i32| a0.to_multiset().count(v) == b0.to_multiset().count(v) by {
                assert(a.to_multiset().count(v) == b.to_multiset().count(v));
            }
        }
        lemma_sum_permutation(a0, b0);
        lemma_sum_remove(b, j);
    }
}

/// The modes of `s` are the one strictly ascending list of them.
pub proof fn lemma_modes_of(s: Seq<i32>, m: Seq<i32>)
    requires
        strictly_ascending(m),
        forall|x: i32| #[trigger] m.contains(x) <==> is_mode(s, x),
    ensures
        modes_of(s) == m,
{
    assert(m.to_set() =~= mode_set(s));
    let c = modes_of(s);
    assert(strictly_ascending(c) && c.to_set() == mode_set(s));
    assert forall|x: i32| #[trigger] c.contains(x) <==> m.contains(x) by {
        assert(c.to_set().contains(x) == m.to_set().contains(x));
    }
    lemma_strictly_ascending_unique(c, m);
}

/// Two strictly ascending lists of the same values are equal.
pub proof fn lemma_strictly_ascending_unique(a: Seq<i32>, b: Seq<i32>)
    requires
        strictly_ascending(a),
        strictly_ascending(b),
        forall|x: i32| #[trigger] a.contains(x) <==> b.contains(x),
    ensures
        a == b,
{
    a.to_multiset_ensures();
    b.to_multiset_ensures();
    a.lemma_multiset_has_no_duplicates();
    b.lemma_multiset_has_no_duplicates();
    assert(a.to_multiset() =~= b.to_multiset()) by {
        assert forall|x: i32| a.to_multiset().count(x) == b.to_multiset().count(x) by {
            if a.contains(x) {
                assert(b.contains(x));
            }
        }
    }
    lemma_ascending_unique(a, b);
}

/// Every value lies between the smallest and the largest.
pub proof fn lemma_extremes(s: Seq<i32>)
    requires
        s.len() > 0,
    ensures
        forall|i: int| 0 <= i < s.len() ==> min_of(s) <= #[trigger] s[i] <= max_of(s),
{
    lemma_sorted_of(s);
    let t = sorted_of(s);
    s.to_multiset_ensures();
    t.to_multiset_ensures();
    assert forall|i: int| 0 <= i < s.len() implies min_of(s) <= #[trigger] s[i] <= max_of(s) by {
        assert(s.contains(s[i]));
        assert(s.to_multiset().count(s[i]) > 0);
        assert(t.contains(s[i]));
    }
}

/// Two inputs that hold the same values, in whatever order, have the same sorted
/// copy, sum and modes: every statistic of one is that of the other.
pub proof fn lemma_order_independent(a: Seq<i32>, b: Seq<i32>)
    requires
        a.to_multiset() == b.to_multiset(),
    ensures
        a.len() == b.len(),
        sorted_of(a) == sorted_of(b),
        seq_sum(a) == seq_sum(b),
        modes_of(a) == modes_of(b),
{
    a.to_multiset_ensures();
    b.to_multiset_ensures();
    lemma_sorted_of(a);
    lemma_sorted_of(b);
    lemma_ascending_unique(sorted_of(a), sorted_of(b));
    lemma_sum_permutation(a, b);
    assert(mode_set(a) =~= mode_set(b)) by {
        assert forall|x: i32| is_mode(a, x) == is_mode(b, x) by {
            assert forall|y: i32| freq(a, y) == freq(b, y) by {}
        }
    }
}

/// From two values on, the first quartile is at most the median and the median
/// at most the third quartile.
pub proof fn lemma_quartiles_bracket_median(s: Seq<i32>)
    requires
        s.len() >= 2,
    ensures
        q1_2(sorted_of(s)) matches Some(q1) && q1 <= median2(sorted_of(s)),
        q3_2(sorted_of(s)) matches Some(q3) && median2(sorted_of(s)) <= q3,
{
    lemma_sorted_of(s);
    lemma_quartiles_bracket_median_sorted(sorted_of(s));
}

/// The same, stated of any ascending list of two values or more.
pub proof fn lemma_quartiles_bracket_median_sorted(t: Seq<i32>)
    requires
        ascending(t),
        t.len() >= 2,
    ensures
        q1_2(t) matches Some(q1) && q1 <= median2(t),
        q3_2(t) matches Some(q3) && median2(t) <= q3,
{
    let n = t.len() as int;
    let h = n / 2;
    let c = (n + 1) / 2;
    let lower = t.subrange(0, h);
    let upper = t.subrange(c, n);
    assert(median2(lower) <= 2 * (t[h - 1] as int)) by {
        let k = lower.len() / 2;
        assert(lower[k as int] == t[k as int]);
        if lower.len() % 2 == 0 {
            assert(lower[k - 1] == t[k - 1]);
        }
    }
    assert(median2(upper) >= 2 * (t[c] as int)) by {
        let k = upper.len() / 2;
        assert(upper[k as int] == t[c + k]);
        if upper.len() % 2 == 0 {
            assert(upper[k - 1] == t[c + k - 1]);
        }
    }
    assert(2 * (t[h - 1] as int) <= median2(t) <= 2 * (t[c] as int)) by {
        assert(t[h - 1] <= t[h]);
        if n % 2 == 1 {
            assert(t[h] <= t[c]);
        }
    }
}

/// Where no value repeats, every value is a mode: all are tied at one occurrence.
pub proof fn lemma_distinct_all_modes(s: Seq<i32>)
    requires
        s.no_duplicates(),
    ensures
        forall|x: i32| #[trigger] is_mode(s, x) <==> s.contains(x),
        mode_set(s) == s.to_set(),
{
    s.to_multiset_ensures();
    s.lemma_multiset_has_no_duplicates();
    assert forall|x: i32| #[trigger] is_mode(s, x) <==> s.contains(x) by {
        if s.contains(x) {
            assert(s.to_multiset().count(x) > 0);
            assert forall|y: i32| #[trigger] freq(s, y) <= freq(s, x) by {
                if s.contains(y) {
                    assert(s.to_multiset().count(y) > 0);
                }
            }
        }
    }
    assert(mode_set(s) =~= s.to_set());
}

} // verus!
