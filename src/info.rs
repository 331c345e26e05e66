//! The statistics record and the computation that fills it.

use crate::calls::{max_count_runs, sort_ascending, top_count};
use crate::model::{
    ascending, freq, is_mode, lemma_ascending_unique, lemma_extremes, lemma_modes_of,
    lemma_order_independent, lemma_quartiles_bracket_median_sorted, lemma_sorted_of, max_of, median2, min_of, modes_of, q1_2, q3_2,
    seq_sum, sorted_of, strictly_ascending, within_bounds,
};
use vstd::prelude::*;

verus! {

/// An exact value of the form `twice / 2`: what a median of integers is.
#[derive(Debug, Clone, Copy, PartialEq, Eq, Structural)]
pub struct Halves {
    pub twice: i64,
}

/// An exact fraction `num / den`.
#[derive(Debug, Clone, Copy, PartialEq, Eq, Structural)]
pub struct Ratio {
    pub num: i64,
    pub den: usize,
}

/// Why no record could be computed.
#[derive(Debug, Clone, Copy, PartialEq, Eq, Structural)]
pub enum StatsError {
    /// The input holds no values.
    EmptyInput,
}


/// The value of an optional half-integer, as twice that value.
pub open spec fn opt_twice(o: Option<Halves>) -> Option<int> {
    match o {
        Some(h) => Some(h.twice as int),
        None => None,
    }
}

/// Twice the interquartile range `q3 - q1`, where both quartiles are defined.
pub open spec fn iqr2(t: Seq<i32>) -> Option<int> {
    match (q1_2(t), q3_2(t)) {
        (Some(a), Some(b)) => Some(b - a),
        _ => None,
    }
}

/// `runs` lists each value of `t` once, ascending, with how often it occurs.
pub open spec fn counts_runs(t: Seq<i32>, runs: Seq<(i32, usize)>) -> bool {
    &&& forall|i: int, j: int| 0 <= i < j < runs.len() ==> runs[i].0 < runs[j].0
    &&& forall|k: int| 0 <= k < runs.len() ==> runs[k].1 == freq(t, runs[k].0)
    &&& forall|k: int| 0 <= k < runs.len() ==> #[trigger] runs[k].1 > 0
    &&& forall|x: i32|
        freq(t, x) > 0 ==> exists|k: int| 0 <= k < runs.len() && #[trigger] runs[k].0 == x
}

/// Descriptive statistics of a non-empty list of values.
#[derive(Debug)]
pub struct StatisticalInfo {
    /// The modes: every value that occurs most often, ascending, each once.
    pub mo: Vec<i32>,
    /// The median.
    pub me: Halves,
    /// The smallest value.
    pub xmin: i32,
    /// The largest value.
    pub xmax: i32,
    /// The sum of the values.
    pub xsum: i32,
    /// The mean: the sum over the number of values.
    pub xavg: Ratio,
    /// The first quartile, the median of the lower half; none for one value.
    pub q1: Option<Halves>,
    /// The third quartile, the median of the upper half; none for one value.
    pub q3: Option<Halves>,
    /// The range `xmax - xmin`.
    pub r: i32,
    /// The interquartile range `q3 - q1`; none for one value.
    pub qr: Option<Halves>,
}

impl StatisticalInfo {
    /// Each field is the statistic of `s` that it names.
    pub open spec fn describes(&self, s: Seq<i32>) -> bool {
        let t = sorted_of(s);
        &&& self.mo@ == modes_of(s)
        &&& self.me.twice == median2(t)
        &&& self.xmin == min_of(s)
        &&& self.xmax == max_of(s)
        &&& self.xsum == seq_sum(s)
        &&& self.xavg.num == seq_sum(s)
        &&& self.xavg.den == s.len()
        &&& opt_twice(self.q1) == q1_2(t)
        &&& opt_twice(self.q3) == q3_2(t)
        &&& self.r == max_of(s) - min_of(s)
        &&& opt_twice(self.qr) == iqr2(t)
    }

    /// Computes the statistics of `nums`; the empty input is refused.
    pub fn new(nums: &[i32]) -> (r: Result<StatisticalInfo, StatsError>)
        requires
            within_bounds(nums@),
        ensures
            nums@.len() == 0 <==> r == Err::<StatisticalInfo, StatsError>(StatsError::EmptyInput),
            r matches Ok(info) ==> info.describes(nums@),
            r matches Ok(info) ==> forall|i: int|
                0 <= i < nums@.len() ==> info.xmin <= #[trigger] nums@[i] <= info.xmax,
            r matches Ok(info) ==> info.r == info.xmax - info.xmin,
            r matches Ok(info) ==> strictly_ascending(info.mo@),
            r matches Ok(info) ==> forall|x: i32| #[trigger]
                info.mo@.contains(x) <==> is_mode(nums@, x),
            r matches Ok(info) ==> match (info.q1, info.q3, info.qr) {
                (Some(a), Some(b), Some(d)) => d.twice == b.twice - a.twice,
                (None, None, None) => nums@.len() == 1,
                _ => false,
            },
    {
        if nums.len() == 0 {
            return Err(StatsError::EmptyInput);
        }
        let xsum = Self::calc_sum(nums);
        let mut t = copy_values(nums);
        sort_ascending(&mut t);
        proof {
            lemma_sorted_of(nums@);
            lemma_ascending_unique(t@, sorted_of(nums@));
            lemma_extremes(nums@);
        }
        let xmin = Self::get_min(&t);
        let xmax = Self::get_max(&t);
        let q1 = Self::calc_first_quartille(&t);
        let q3 = Self::calc_third_quartille(&t);
        let mo = Self::get_most_frequent_number(nums);
        let qr = match (q1, q3) {
            (Some(a), Some(b)) => Some(Halves { twice: b.twice - a.twice }),
            _ => None,
        };
        let info = StatisticalInfo {
            mo,
            me: Self::get_median(&t, 0, t.len()),
            xmin,
            xmax,
            xsum,
            xavg: Self::calc_average(xsum, nums.len()),
            q1,
            q3,
            r: xmax - xmin,
            qr,
        };
        proof {
            assert(t@.subrange(0, t@.len() as int) =~= t@);
        }
        Ok(info)
    }

    /// The modes of `nums`, in any order: the values counted most often,
    /// ascending and each once.
    fn get_most_frequent_number(nums: &[i32]) -> (mo: Vec<i32>)
        ensures
            strictly_ascending(mo@),
            forall|x: i32| #[trigger] mo@.contains(x) <==> is_mode(nums@, x),
            nums@.len() > 0 ==> 1 <= mo@.len() <= nums@.len(),
            mo@ == modes_of(nums@),
    {
        let mut t = copy_values(nums);
        sort_ascending(&mut t);
        let runs = count_runs(&t);
        let top = max_count_runs(&runs);
        let ghost pred = |e: (i32, usize)| top_count(runs@, e.1);
        proof {
            assert forall|x: i32| is_mode(t@, x) == is_mode(nums@, x) by {
                assert forall|y: i32| freq(t@, y) == freq(nums@, y) by {}
            }
            t@.to_multiset_ensures();
            nums@.to_multiset_ensures();
            runs@.lemma_filter_len(pred);
            if runs@.len() > 0 {
                lemma_max_entry(runs@);
                let k = choose|k: int| 0 <= k < runs@.len() && #[trigger] top_count(runs@, runs@[k].1);
                assert(pred(runs@[k]));
                runs@.lemma_filter_contains(pred, k);
                assert(top@.contains(runs@[k]));
            }
            lemma_filter_keys_ascending(runs@, pred);
            assert forall|x: i32|
                (exists|j: int| 0 <= j < top@.len() && #[trigger] top@[j].0 == x) <==> is_mode(
                    t@,
                    x,
                ) by {
                if exists|j: int| 0 <= j < top@.len() && #[trigger] top@[j].0 == x {
                    let j = choose|j: int| 0 <= j < top@.len() && #[trigger] top@[j].0 == x;
                    let e = top@[j];
                    runs@.lemma_filter_pred(pred, j);
                    assert(top_count(runs@, e.1));
                    assert(runs@.filter(pred).contains(e));
                    runs@.lemma_filter_contains_rev(pred, e);
                    let k = choose|k: int| 0 <= k < runs@.len() && runs@[k] == e;
                    assert(freq(t@, x) == e.1);
                    assert(freq(t@, x) > 0);
                    assert forall|y: i32| #[trigger] freq(t@, y) <= freq(t@, x) by {
                        if freq(t@, y) > 0 {
                            let k2 = choose|k2: int| 0 <= k2 < runs@.len() && #[trigger] runs@[k2].0 == y;
                            assert(runs@[k2].1 <= e.1);
                        }
                    }
                }
                if is_mode(t@, x) {
                    let k = choose|k: int| 0 <= k < runs@.len() && #[trigger] runs@[k].0 == x;
                    assert forall|i: int| 0 <= i < runs@.len() implies runs@[i].1 <= runs@[k].1 by {
                        assert(freq(t@, runs@[i].0) <= freq(t@, x));
                    }
                    assert(pred(runs@[k]));
                    runs@.lemma_filter_contains(pred, k);
                    assert(top@.contains(runs@[k]));
                    let j = choose|j: int| 0 <= j < top@.len() && top@[j] == runs@[k];
                    assert(top@[j].0 == x);
                }
            }
        }
        let mut mo: Vec<i32> = Vec::new();
        let mut i: usize = 0;
        while i < top.len()
            invariant
                i <= top@.len(),
                mo@.len() == i,
                forall|j: int| 0 <= j < i ==> mo@[j] == top@[j].0,
            decreases top@.len() - i,
        {
            mo.push(top[i].0);
            i += 1;
        }
        proof {
            assert forall|x: i32| #[trigger] mo@.contains(x) <==> is_mode(t@, x) by {
                if mo@.contains(x) {
                    let j = choose|j: int| 0 <= j < mo@.len() && mo@[j] == x;
                    assert(top@[j].0 == x);
                }
                if is_mode(t@, x) {
                    let j = choose|j: int| 0 <= j < top@.len() && #[trigger] top@[j].0 == x;
                    assert(mo@[j] == x);
                }
            }
            lemma_modes_of(nums@, mo@);
        }
        mo
    }

    /// The sum of the values, which fits in `i32`.
    fn calc_sum(nums: &[i32]) -> (r: i32)
        requires
            i32::MIN <= seq_sum(nums@) <= i32::MAX,
        ensures
            r == seq_sum(nums@),
    {
        sum_wide(nums) as i32
    }

    /// The mean, as the sum over the number of values.
    fn calc_average(sum: i32, len: usize) -> (r: Ratio)
        requires
            len > 0,
        ensures
            r.num == sum,
            r.den == len,
    {
        Ratio { num: sum as i64, den: len }
    }

    /// The median of the ascending run `nums[lo..hi]`.
    fn get_median(nums: &Vec<i32>, lo: usize, hi: usize) -> (r: Halves)
        requires
            lo < hi <= nums@.len(),
        ensures
            r.twice == median2(nums@.subrange(lo as int, hi as int)),
            -4294967296 <= r.twice <= 4294967294,
    {
        let len = hi - lo;
        let half = len / 2;
        if len % 2 == 0 {
            Halves { twice: nums[lo + half - 1] as i64 + nums[lo + half] as i64 }
        } else {
            Halves { twice: 2 * (nums[lo + half] as i64) }
        }
    }

    /// The largest value of an ascending, non-empty list: its last.
    fn get_max(nums: &Vec<i32>) -> (r: i32)
        requires
            nums@.len() > 0,
        ensures
            r == nums@.last(),
            ascending(nums@) ==> forall|i: int| 0 <= i < nums@.len() ==> #[trigger] nums@[i] <= r,
    {
        nums[nums.len() - 1]
    }

    /// The smallest value of an ascending, non-empty list: its first.
    fn get_min(nums: &Vec<i32>) -> (r: i32)
        requires
            nums@.len() > 0,
        ensures
            r == nums@[0],
            ascending(nums@) ==> forall|i: int| 0 <= i < nums@.len() ==> r <= #[trigger] nums@[i],
    {
        nums[0]
    }

    /// The first quartile of an ascending list: the median of `[0, n/2)`.
    fn calc_first_quartille(nums: &Vec<i32>) -> (r: Option<Halves>)
        ensures
            opt_twice(r) == q1_2(nums@),
            r matches Some(h) ==> -4294967296 <= h.twice <= 4294967294,
            ascending(nums@) && nums@.len() >= 2 ==> (r matches Some(h) && h.twice <= median2(
                nums@,
            )),
    {
        proof {
            if ascending(nums@) && nums@.len() >= 2 {
                lemma_quartiles_bracket_median_sorted(nums@);
            }
        }
        let half = nums.len() / 2;
        if half == 0 {
            None
        } else {
            Some(Self::get_median(nums, 0, half))
        }
    }

    /// The third quartile of an ascending list: the median of `[ceil(n/2), n)`.
    fn calc_third_quartille(nums: &Vec<i32>) -> (r: Option<Halves>)
        ensures
            opt_twice(r) == q3_2(nums@),
            r matches Some(h) ==> -4294967296 <= h.twice <= 4294967294,
            ascending(nums@) && nums@.len() >= 2 ==> (r matches Some(h) && median2(nums@)
                <= h.twice),
    {
        proof {
            if ascending(nums@) && nums@.len() >= 2 {
                lemma_quartiles_bracket_median_sorted(nums@);
            }
        }
        let ceiled_half = nums.len() / 2 + nums.len() % 2;
        if ceiled_half >= nums.len() {
            None
        } else {
            Some(Self::get_median(nums, ceiled_half, nums.len()))
        }
    }
}

/// A record describes an input exactly when it describes any reordering of it:
/// the statistics depend on the values alone, not on their order.
pub proof fn lemma_record_order_independent(a: Seq<i32>, b: Seq<i32>)
    requires
        a.to_multiset() == b.to_multiset(),
    ensures
        forall|info: StatisticalInfo| #[trigger] info.describes(a) == info.describes(b),
{
    lemma_order_independent(a, b);
}

/// Whether the sum and the range of `nums` fit in `i32`, as `new` asks.
pub fn fits_in_i32(nums: &[i32]) -> (r: bool)
    ensures
        r == within_bounds(nums@),
{
    if nums.len() == 0 {
        return true;
    }
    let sum = sum_wide(nums);
    let mut t = copy_values(nums);
    sort_ascending(&mut t);
    proof {
        lemma_sorted_of(nums@);
        lemma_ascending_unique(t@, sorted_of(nums@));
    }
    let lo = t[0] as i64;
    let hi = t[t.len() - 1] as i64;
    -2147483648 <= sum && sum <= 2147483647 && hi - lo <= 2147483647
}

/// The sum of the values, in an integer wide enough for any slice.
fn sum_wide(nums: &[i32]) -> (r: i128)
    ensures
        r == seq_sum(nums@),
{
    let mut acc: i128 = 0;
    let mut i: usize = 0;
    while i < nums.len()
        invariant
            i <= nums@.len(),
            acc == seq_sum(nums@.subrange(0, i as int)),
            -2147483648 * (i as int) <= acc <= 2147483647 * (i as int),
        decreases nums@.len() - i,
    {
        proof {
            assert(nums@.subrange(0, i + 1).drop_last() =~= nums@.subrange(0, i as int));
        }
        acc = acc + nums[i] as i128;
        i += 1;
    }
    proof {
        assert(nums@.subrange(0, nums@.len() as int) =~= nums@);
    }
    acc
}

/// A copy of the values, in their order.
fn copy_values(nums: &[i32]) -> (v: Vec<i32>)
    ensures
        v@ == nums@,
{
    let mut v: Vec<i32> = Vec::new();
    let mut i: usize = 0;
    while i < nums.len()
        invariant
            i <= nums@.len(),
            v@ == nums@.subrange(0, i as int),
        decreases nums@.len() - i,
    {
        v.push(nums[i]);
        i += 1;
        proof {
            assert(v@ =~= nums@.subrange(0, i as int));
        }
    }
    proof {
        assert(v@ =~= nums@);
    }
    v
}

/// Each value of an ascending `t`, once and ascending, with how often it occurs.
fn count_runs(t: &Vec<i32>) -> (runs: Vec<(i32, usize)>)
    requires
        ascending(t@),
    ensures
        counts_runs(t@, runs@),
        runs@.len() <= t@.len(),
        t@.len() > 0 ==> runs@.len() > 0,
{
    let mut runs: Vec<(i32, usize)> = Vec::new();
    let mut i: usize = 0;
    proof {
        let e = t@.subrange(0, 0);
        e.to_multiset_ensures();
        assert forall|x: i32| freq(e, x) == 0 by {
            assert(!e.contains(x));
        }
    }
    while i < t.len()
        invariant
            i <= t@.len(),
            ascending(t@),
            counts_runs(t@.subrange(0, i as int), runs@),
            i == 0 <==> runs@.len() == 0,
            runs@.len() <= i,
            i > 0 ==> runs@.last().0 == t@[i - 1],
            forall|k: int| 0 <= k < runs@.len() ==> 1 <= #[trigger] runs@[k].1 <= i,
        decreases t@.len() - i,
    {
        let x = t[i];
        let ghost p = t@.subrange(0, i as int);
        let ghost p1 = t@.subrange(0, i + 1);
        proof {
            assert(p1 =~= p.push(x));
            p.to_multiset_ensures();
            assert forall|y: i32| freq(p1, y) == freq(p, y) + if y == x { 1int } else { 0int } by {}
        }
        let n = runs.len();
        let ghost old_runs = runs@;
        if n > 0 && runs[n - 1].0 == x {
            let c = runs[n - 1].1;
            runs.set(n - 1, (x, c + 1));
        } else {
            proof {
                if freq(p, x) > 0 {
                    let k = choose|k: int| 0 <= k < runs@.len() && #[trigger] runs@[k].0 == x;
                    assert(t@[i - 1] <= x);
                }
            }
            runs.push((x, 1));
        }
        proof {
            assert forall|k: int| 0 <= k < runs@.len() implies runs@[k].1 == freq(p1, runs@[k].0) by {
                if k < n {
                    assert(runs@[k].1 == old_runs[k].1 || runs@[k].0 == x);
                }
            }
            assert forall|y: i32| freq(p1, y) > 0 implies exists|k: int|
                0 <= k < runs@.len() && #[trigger] runs@[k].0 == y by {
                if y == x {
                    assert(runs@[runs@.len() - 1].0 == x);
                } else {
                    assert(freq(p, y) > 0);
                    let k = choose|k: int| 0 <= k < old_runs.len() && #[trigger] old_runs[k].0 == y;
                    assert(runs@[k].0 == y);
                }
            }
        }
        i += 1;
    }
    proof {
        assert(t@.subrange(0, t@.len() as int) =~= t@);
    }
    runs
}

/// A non-empty list has an entry whose count no other entry exceeds.
proof fn lemma_max_entry(s: Seq<(i32, usize)>)
    requires
        s.len() > 0,
    ensures
        exists|k: int| 0 <= k < s.len() && #[trigger] top_count(s, s[k].1),
    decreases s.len(),
{
    if s.len() == 1 {
        assert(top_count(s, s[0].1));
    } else {
        let s0 = s.drop_last();
        lemma_max_entry(s0);
        let k = choose|k: int| 0 <= k < s0.len() && #[trigger] top_count(s0, s0[k].1);
        let l = s.len() - 1;
        assert(s0[k] == s[k]);
        assert forall|i: int| 0 <= i < l implies s[i].1 <= s[k].1 by {
            assert(s0[i] == s[i]);
        }
        if s[l].1 <= s[k].1 {
            assert(top_count(s, s[k].1));
        } else {
            assert(top_count(s, s[l].1));
        }
    }
}

/// Keeping some entries of a list whose keys ascend strictly keeps them ascending.
proof fn lemma_filter_keys_ascending(s: Seq<(i32, usize)>, p: spec_fn((i32, usize)) -> bool)
    requires
        forall|i: int, j: int| 0 <= i < j < s.len() ==> s[i].0 < s[j].0,
    ensures
        forall|i: int, j: int|
            0 <= i < j < s.filter(p).len() ==> s.filter(p)[i].0 < s.filter(p)[j].0,
    decreases s.len(),
{
    reveal(Seq::filter);
    if s.len() > 0 {
        let s0 = s.drop_last();
        lemma_filter_keys_ascending(s0, p);
        let f0 = s0.filter(p);
        assert forall|i: int| 0 <= i < f0.len() implies f0[i].0 < s.last().0 by {
            assert(f0.contains(f0[i]));
            s0.lemma_filter_contains_rev(p, f0[i]);
        }
    }
}

} // verus!
