//! Descriptive statistics over a sequence of fixed-point values.
//!
//! Everything is stated against exact models: the sum and the squared
//! deviations as unbounded integers, the variance and standard
//! deviation through truncating division and the floor square root,
//! the median and mode through the sorted permutation of the data.

use crate::fixed::{div_t, div_trunc, in_i64, isqrt, lemma_div_t_bound, sqrt_floor, SCALE};
use crate::Error;
use vstd::arithmetic::div_mod::{
    lemma_div_is_ordered, lemma_div_is_ordered_by_denominator, lemma_div_multiples_vanish,
};
use vstd::pervasive::VecAdditionalExecFns;
use vstd::prelude::*;
use vstd::relations::{sorted_by, total_ordering};
use vstd::seq_lib::{lemma_multiset_commutative, lemma_sorted_unique};

verus! {

/// The order the sorted views of this module use.
pub open spec fn le_ord() -> spec_fn(i64, i64) -> bool {
    |a: i64, b: i64| a <= b
}

/// The sum of a sequence of values, as an unbounded integer.
pub open spec fn seq_sum(s: Seq<i64>) -> int
    decreases s.len(),
{
    if s.len() == 0 {
        0
    } else {
        seq_sum(s.drop_last()) + s.last()
    }
}

/// The mean, rounded toward zero.
pub open spec fn mean_of(s: Seq<i64>) -> int
    recommends
        s.len() >= 1,
{
    div_t(seq_sum(s), s.len() as int)
}

/// The sum of squared deviations from `m`, exact.
pub open spec fn sumsq_dev(s: Seq<i64>, m: int) -> int
    decreases s.len(),
{
    if s.len() == 0 {
        0
    } else {
        sumsq_dev(s.drop_last(), m) + (s.last() - m) * (s.last() - m)
    }
}

/// The sum of squared deviations from the mean.
pub open spec fn ssq_of(s: Seq<i64>) -> int
    recommends
        s.len() >= 1,
{
    sumsq_dev(s, mean_of(s))
}

/// Whether every deviation from the mean is representable.
pub open spec fn dev_ok(s: Seq<i64>) -> bool {
    forall|i: int| 0 <= i < s.len() ==> in_i64(s[i] - mean_of(s))
}

/// The population variance in micro-units: the squared deviations are in
/// squared micro-units, so dividing by `n * SCALE` lands on micro-units.
pub open spec fn variance_of(s: Seq<i64>) -> int
    recommends
        s.len() >= 1,
{
    div_t(ssq_of(s), s.len() * (SCALE as int))
}

/// The population standard deviation in micro-units: the floor square
/// root of the mean squared deviation, which is already in squared
/// micro-units.
pub open spec fn std_of(s: Seq<i64>) -> int
    recommends
        s.len() >= 1,
{
    sqrt_floor(div_t(ssq_of(s), s.len() as int))
}

/// The standard error in micro-units: the standard deviation divided by
/// the square root of the count.
pub open spec fn std_err_of(s: Seq<i64>) -> int
    recommends
        s.len() >= 1,
{
    div_t(std_of(s) * (SCALE as int), sqrt_floor(s.len() * (SCALE as int) * (SCALE as int)))
}

/// Whether the moment computations stay in the representable range.
pub open spec fn moments_ok(s: Seq<i64>) -> bool {
    &&& dev_ok(s)
    &&& ssq_of(s) <= i128::MAX
    &&& variance_of(s) <= i64::MAX
    &&& std_of(s) <= i64::MAX
}

/// The sorted permutation of a sequence.
pub open spec fn sorted_of(s: Seq<i64>) -> Seq<i64> {
    s.sort_by(le_ord())
}

/// The median: the middle of the sorted permutation, or the mean of the
/// two middle values, rounded toward zero, when the count is even.
pub open spec fn median_of(s: Seq<i64>) -> int
    recommends
        s.len() >= 1,
{
    let t = sorted_of(s);
    if s.len() % 2 == 1 {
        t[s.len() as int / 2] as int
    } else {
        div_t(t[s.len() as int / 2 - 1] + t[s.len() as int / 2], 2)
    }
}

/// How often `v` occurs in `s`.
pub open spec fn count_of(s: Seq<i64>, v: i64) -> nat {
    s.to_multiset().count(v)
}

/// Whether `m` is the mode of `s`: a most frequent value, and the
/// smallest such, which is the one whose run a left-to-right scan of
/// the sorted sequence meets first.
pub open spec fn is_mode_of(s: Seq<i64>, m: i64) -> bool {
    &&& s.contains(m)
    &&& forall|v: i64|
        #[trigger] s.contains(v) ==> count_of(s, v) <= count_of(s, m) && (count_of(s, v)
            == count_of(s, m) ==> m <= v)
}

/// Descriptive statistics computed once from a sample.
pub struct Statistics {
    /// The mean, rounded toward zero, in micro-units.
    pub mean: i64,
    /// The population variance in micro-units.
    pub variance: i64,
    /// The population standard deviation in micro-units.
    pub std_dev: i64,
    /// The standard error of the mean in micro-units.
    pub std_err: i64,
    /// The median in micro-units.
    pub median: i64,
    /// The mode in micro-units.
    pub mode: i64,
    /// The smallest value.
    pub min: i64,
    /// The largest value.
    pub max: i64,
    /// The exact sum of all values, in micro-units.
    pub sum: i128,
    /// How many values the sample held.
    pub count: usize,
}

/// The sum stays between `n` times the smallest and `n` times the
/// largest representable value.
proof fn lemma_seq_sum_bounds(s: Seq<i64>)
    ensures
        s.len() * (i64::MIN as int) <= seq_sum(s) <= s.len() * (i64::MAX as int),
    decreases s.len(),
{
    if s.len() > 0 {
        lemma_seq_sum_bounds(s.drop_last());
    }
}

/// A truncated average of representable values is representable.
pub proof fn lemma_avg_in_i64(sum: int, n: int)
    requires
        n >= 1,
        n * (i64::MIN as int) <= sum <= n * (i64::MAX as int),
    ensures
        in_i64(div_t(sum, n)),
{
    lemma_div_t_bound(sum, n);
    if sum >= 0 {
        lemma_div_is_ordered(sum, n * (i64::MAX as int), n);
        lemma_div_multiples_vanish(i64::MAX as int, n);
    } else {
        lemma_div_is_ordered(-sum, n * (-(i64::MIN as int)), n);
        assert(n * (-(i64::MIN as int)) == -(n * (i64::MIN as int))) by (nonlinear_arith);
        lemma_div_multiples_vanish(-(i64::MIN as int), n);
    }
}

/// Squared deviations are non-negative, and a prefix sum never exceeds
/// the whole sum.
proof fn lemma_sumsq_prefix(s: Seq<i64>, m: int, k: int)
    requires
        0 <= k <= s.len(),
    ensures
        0 <= sumsq_dev(s.subrange(0, k), m) <= sumsq_dev(s, m),
    decreases s.len(),
{
    if s.len() == 0 {
        assert(s.subrange(0, k) =~= s);
    } else if k == s.len() {
        assert(s.subrange(0, k) =~= s);
        lemma_sumsq_prefix(s.drop_last(), m, s.len() - 1);
        assert(s.drop_last().subrange(0, s.len() - 1) =~= s.drop_last());
        assert((s.last() - m) * (s.last() - m) >= 0) by (nonlinear_arith);
    } else {
        assert(s.subrange(0, k) =~= s.drop_last().subrange(0, k));
        lemma_sumsq_prefix(s.drop_last(), m, k);
        assert((s.last() - m) * (s.last() - m) >= 0) by (nonlinear_arith);
    }
}

/// The exact sum of the values.
pub fn sum_values(v: &Vec<i64>) -> (s: i128)
    ensures
        s == seq_sum(v@),
{
    let mut acc: i128 = 0;
    let mut i: usize = 0;
    while i < v.len()
        invariant
            0 <= i <= v@.len(),
            acc == seq_sum(v@.subrange(0, i as int)),
            (i as int) * (i64::MIN as int) <= acc <= (i as int) * (i64::MAX as int),
        decreases v@.len() - i,
    {
        proof {
            assert(v@.subrange(0, i + 1).drop_last() =~= v@.subrange(0, i as int));
            assert(v@.subrange(0, i + 1).last() == v@[i as int]);
        }
        acc = acc + (v[i] as i128);
        i += 1;
    }
    proof {
        assert(v@.subrange(0, v@.len() as int) =~= v@);
    }
    acc
}

/// The mean of the values, rounded toward zero.
pub fn mean_value(v: &Vec<i64>) -> (m: i64)
    requires
        v@.len() >= 1,
    ensures
        m == mean_of(v@),
        in_i64(mean_of(v@)),
{
    let s = sum_values(v);
    proof {
        lemma_seq_sum_bounds(v@);
        lemma_avg_in_i64(seq_sum(v@), v@.len() as int);
    }
    let q = div_trunc(s, v.len() as i128);
    q as i64
}

/// The whole sum of squared deviations is non-negative.
pub proof fn lemma_sumsq_nonneg(s: Seq<i64>, m: int)
    ensures
        sumsq_dev(s, m) >= 0,
{
    lemma_sumsq_prefix(s, m, s.len() as int);
    assert(s.subrange(0, s.len() as int) =~= s);
}

/// The exact sum of squared deviations from `m`, or `None` when a
/// deviation or the sum itself leaves the representable range.
pub fn sumsq_devs(v: &Vec<i64>, m: i64) -> (r: Option<i128>)
    ensures
        (forall|i: int| 0 <= i < v@.len() ==> in_i64(v@[i] - m)) && sumsq_dev(v@, m as int)
            <= i128::MAX ==> r == Some(sumsq_dev(v@, m as int) as i128),
        !((forall|i: int| 0 <= i < v@.len() ==> in_i64(v@[i] - m)) && sumsq_dev(v@, m as int)
            <= i128::MAX) ==> r is None,
{
    let mut acc: i128 = 0;
    let mut i: usize = 0;
    while i < v.len()
        invariant
            0 <= i <= v@.len(),
            acc == sumsq_dev(v@.subrange(0, i as int), m as int),
            0 <= acc <= i128::MAX,
            forall|j: int| 0 <= j < i ==> in_i64(v@[j] - m),
        decreases v@.len() - i,
    {
        let d: i128 = (v[i] as i128) - (m as i128);
        proof {
            assert(v@.subrange(0, i + 1).drop_last() =~= v@.subrange(0, i as int));
            assert(v@.subrange(0, i + 1).last() == v@[i as int]);
            lemma_sumsq_prefix(v@, m as int, i as int);
        }
        if d < i64::MIN as i128 || d > i64::MAX as i128 {
            return None;
        }
        proof {
            assert(d * d <= i128::MAX) by (nonlinear_arith)
                requires
                    i64::MIN as i128 <= d <= i64::MAX as i128,
            ;
            assert(d * d >= 0) by (nonlinear_arith);
        }
        let sq: i128 = d * d;
        let next = match acc.checked_add(sq) {
            Some(t) => t,
            None => {
                proof {
                    lemma_sumsq_prefix(v@, m as int, i + 1);
                }
                return None;
            },
        };
        acc = next;
        i += 1;
    }
    proof {
        assert(v@.subrange(0, v@.len() as int) =~= v@);
    }
    Some(acc)
}

/// Sorts the values in place: the result is ordered and is a
/// permutation of the input.
pub fn sort_values(v: &mut Vec<i64>)
    ensures
        sorted_by(final(v)@, le_ord()),
        final(v)@.to_multiset() == old(v)@.to_multiset(),
        final(v)@.len() == old(v)@.len(),
{
    let n = v.len();
    if n == 0 {
        return ;
    }
    let mut i: usize = 1;
    while i < n
        invariant
            1 <= i <= n == v@.len(),
            v@.to_multiset() == old(v)@.to_multiset(),
            forall|a: int, b: int| 0 <= a < b < i ==> v@[a] <= v@[b],
        decreases n - i,
    {
        let mut j: usize = i;
        while j > 0 && v[j - 1] > v[j]
            invariant
                0 <= j <= i < n == v@.len(),
                v@.to_multiset() == old(v)@.to_multiset(),
                forall|a: int, b: int| 0 <= a < b <= i && b != j ==> v@[a] <= v@[b],
                forall|a: int| j < a <= i ==> v@[j as int] <= v@[a],
            decreases j,
        {
            let x = v[j - 1];
            let y = v[j];
            let ghost before = v@;
            v.set(j - 1, y);
            v.set(j, x);
            proof {
                lemma_swap_adjacent_multiset(before, j - 1);
            }
            j -= 1;
        }
        i += 1;
    }
    proof {
        assert(forall|a: int, b: int| 0 <= a < b < v@.len() ==> le_ord()(v@[a], v@[b]));
    }
}

/// Occurrences split across a cut of the sequence.
proof fn lemma_count_split(s: Seq<i64>, i: int, v: i64)
    requires
        0 <= i <= s.len(),
    ensures
        count_of(s, v) == count_of(s.subrange(0, i), v) + count_of(
            s.subrange(i, s.len() as int),
            v,
        ),
{
    broadcast use vstd::multiset::group_multiset_axioms;

    let a = s.subrange(0, i);
    let b = s.subrange(i, s.len() as int);
    assert(s =~= a + b);
    lemma_multiset_commutative(a, b);
}

/// A value that occurs nowhere in the sequence has count zero.
proof fn lemma_count_zero(s: Seq<i64>, v: i64)
    requires
        forall|k: int| 0 <= k < s.len() ==> s[k] != v,
    ensures
        count_of(s, v) == 0,
{
    broadcast use vstd::seq_lib::group_to_multiset_ensures;

    assert(!s.contains(v));
}

/// Extending a prefix by one element raises exactly that value's count.
proof fn lemma_count_push(p: Seq<i64>, x: i64, v: i64)
    ensures
        count_of(p.push(x), v) == count_of(p, v) + (if v == x {
            1int
        } else {
            0int
        }),
{
    broadcast use vstd::seq_lib::group_to_multiset_ensures;
    broadcast use vstd::multiset::group_multiset_axioms;
}

/// A value at an index has a positive count.
proof fn lemma_count_at_least_one(s: Seq<i64>, k: int)
    requires
        0 <= k < s.len(),
    ensures
        count_of(s, s[k]) >= 1,
{
    broadcast use vstd::seq_lib::group_to_multiset_ensures;

    assert(s.contains(s[k]));
}

/// The mode of a sorted sequence: the value of the longest run, and of
/// the first such run when several are equally long. Since the sequence
/// is sorted, a run's length is the value's count, and the first run
/// among the longest carries the smallest value.
fn mode_sorted(sv: &Vec<i64>) -> (m: i64)
    requires
        sv@.len() >= 1,
        sorted_by(sv@, le_ord()),
    ensures
        is_mode_of(sv@, m),
{
    let ghost t = sv@;
    let n = sv.len();
    let mut best = sv[0];
    let mut best_c: usize = 0;
    let mut cur = sv[0];
    let mut cur_c: usize = 0;
    let mut i: usize = 0;
    proof {
        lemma_count_zero(t.subrange(0, 0), cur);
    }
    while i < n
        invariant
            0 <= i <= n,
            n == t.len(),
            sv@ == t,
            n >= 1,
            sorted_by(t, le_ord()),
            i == 0 ==> cur == t[0] && cur_c == 0 && best_c == 0,
            i > 0 ==> cur == t[i - 1] && cur_c >= 1,
            cur_c == count_of(t.subrange(0, i as int), cur),
            cur_c <= i,
            best_c <= i,
            forall|v: i64|
                #[trigger] t.subrange(0, i as int).contains(v) && v != cur ==> count_of(t, v)
                    <= best_c && (count_of(t, v) == best_c ==> best <= v),
            best_c > 0 ==> best < cur && t.contains(best) && count_of(t, best) == best_c,
        decreases n - i,
    {
        let x = sv[i];
        proof {
            assert(t.subrange(0, i + 1) =~= t.subrange(0, i as int).push(t[i as int]));
        }
        if x == cur {
            proof {
                lemma_count_push(t.subrange(0, i as int), x, cur);
                lemma_count_at_least_one(t.subrange(0, i + 1), i as int);
            }
            cur_c += 1;
        } else {
            proof {
                assert(i > 0 && cur == t[i - 1]);
                // the run of `cur` is over: everything from `i` on is larger
                assert(le_ord()(t[i - 1], t[i as int]));
                assert(forall|k: int| #![trigger t[k]]
                    i <= k < n ==> le_ord()(t[i as int], t[k]) || k == i) by {
                    assert(forall|k: int| #![trigger t[k]] i < k < n ==> le_ord()(t[i as int], t[k]));
                }
                assert(forall|k: int| #![trigger t[k]] i <= k < n ==> t[k] > cur);
                lemma_count_split(t, i as int, cur);
                lemma_count_zero(t.subrange(i as int, n as int), cur);
                assert(count_of(t, cur) == cur_c);
                // nothing before the run equals the new value
                assert(forall|k: int| #![trigger t[k]] 0 <= k < i ==> le_ord()(t[k], t[i - 1]) || k == i - 1);
                assert(forall|k: int| 0 <= k < i ==> t.subrange(0, i as int)[k] != x);
                lemma_count_zero(t.subrange(0, i as int), x);
                lemma_count_push(t.subrange(0, i as int), x, x);
            }
            if cur_c > best_c {
                best = cur;
                best_c = cur_c;
            }
            proof {
                assert(count_of(t, cur) <= best_c && (count_of(t, cur) == best_c ==> best <= cur));
            }
            cur = x;
            cur_c = 1;
        }
        i += 1;
        proof {
            assert(forall|v: i64|
                t.subrange(0, i as int).contains(v) && v != cur ==> t.subrange(
                    0,
                    i - 1,
                ).contains(v) || v == t[i - 1]);
        }
    }
    proof {
        assert(t.subrange(0, n as int) =~= t);
        lemma_count_split(t, n as int, cur);
        lemma_count_zero(t.subrange(n as int, n as int), cur);
        assert(count_of(t, cur) == cur_c);
    }
    if cur_c > best_c {
        best = cur;
        best_c = cur_c;
    }
    proof {
        assert(count_of(t, best) == best_c);
        assert(t.contains(best));
        assert(forall|v: i64| #[trigger] t.contains(v) && v != cur ==> t.subrange(
            0,
            t.len() as int,
        ).contains(v));
    }
    best
}

/// The truncated midpoint of two ordered values lies between them.
proof fn lemma_half_between(a: int, b: int)
    requires
        a <= b,
    ensures
        a <= div_t(a + b, 2) <= b,
{
    lemma_div_multiples_vanish(a, 2);
    lemma_div_multiples_vanish(-a, 2);
    lemma_div_multiples_vanish(b, 2);
    lemma_div_multiples_vanish(-b, 2);
    assert(div_t(2 * a, 2) == a);
    assert(div_t(2 * b, 2) == b);
    crate::fixed::lemma_div_t_ordered(2 * a, a + b, 2);
    crate::fixed::lemma_div_t_ordered(a + b, 2 * b, 2);
}

impl Statistics {
    /// Computes every statistic of the sample at once. Fails with
    /// `EmptyInput` on an empty sample, and with `NumericDegenerate`
    /// exactly when a squared-deviation moment leaves the representable
    /// range; the order statistics and the mean never fail on their own.
    pub fn new(data: &Vec<i64>) -> (r: Result<Statistics, Error>)
        ensures
            data@.len() == 0 <==> r == Err::<Statistics, Error>(Error::EmptyInput),
            data@.len() >= 1 && !moments_ok(data@) <==> r == Err::<Statistics, Error>(
                Error::NumericDegenerate,
            ),
            r matches Ok(st) ==> {
                &&& data@.len() >= 1 && moments_ok(data@)
                &&& st.count == data@.len()
                &&& st.sum == seq_sum(data@)
                &&& st.mean == mean_of(data@)
                &&& st.variance == variance_of(data@)
                &&& st.std_dev == std_of(data@)
                &&& st.std_err == std_err_of(data@)
                &&& st.median == median_of(data@)
                &&& is_mode_of(data@, st.mode)
                &&& data@.contains(st.min) && data@.contains(st.max)
                &&& forall|i: int| 0 <= i < data@.len() ==> st.min <= #[trigger] data@[i] <= st.max
            },
    {
        let n = data.len();
        if n == 0 {
            return Err(Error::EmptyInput);
        }
        let total = sum_values(data);
        let mean = mean_value(data);
        let ssq: i128 = match sumsq_devs(data, mean) {
            Some(t) => t,
            None => {
                return Err(Error::NumericDegenerate);
            },
        };
        proof {
            lemma_sumsq_prefix(data@, mean as int, data@.len() as int);
            assert(data@.subrange(0, data@.len() as int) =~= data@);
        }
        let den: i128 = (n as i128) * (SCALE as i128);
        let var128 = div_trunc(ssq, den);
        proof {
            lemma_div_t_bound(ssq as int, den as int);
        }
        if var128 > i64::MAX as i128 {
            return Err(Error::NumericDegenerate);
        }
        let variance = var128 as i64;
        let q = div_trunc(ssq, n as i128);
        proof {
            lemma_div_t_bound(ssq as int, n as int);
        }
        let sroot = isqrt(q as u128);
        if sroot > i64::MAX as u64 {
            return Err(Error::NumericDegenerate);
        }
        let std_dev = sroot as i64;
        let nss: u128 = (n as u128) * 1_000_000 * 1_000_000;
        let sqn = isqrt(nss);
        proof {
            assert(nss >= 1_000_000_000_000);
            assert(sqn >= 1_000_000) by (nonlinear_arith)
                requires
                    (sqn as int) * (sqn as int) <= nss as int,
                    (nss as int) < ((sqn as int) + 1) * ((sqn as int) + 1),
                    nss >= 1_000_000_000_000,
            ;
        }
        let se128 = div_trunc((std_dev as i128) * (SCALE as i128), sqn as i128);
        proof {
            lemma_div_is_ordered_by_denominator(
                (std_dev as int) * (SCALE as int),
                SCALE as int,
                sqn as int,
            );
            lemma_div_multiples_vanish(std_dev as int, SCALE as int);
            lemma_div_t_bound((std_dev as int) * (SCALE as int), sqn as int);
            assert((std_dev as int) * (SCALE as int) == (SCALE as int) * (std_dev as int))
                by (nonlinear_arith);
        }
        let std_err = se128 as i64;
        // order statistics over a sorted copy
        let mut sv: Vec<i64> = Vec::new();
        let mut i: usize = 0;
        while i < n
            invariant
                0 <= i <= n == data@.len(),
                sv@ == data@.subrange(0, i as int),
            decreases n - i,
        {
            sv.push(data[i]);
            proof {
                assert(data@.subrange(0, i + 1) =~= data@.subrange(0, i as int).push(
                    data@[i as int],
                ));
            }
            i += 1;
        }
        proof {
            assert(data@.subrange(0, data@.len() as int) =~= data@);
        }
        sort_values(&mut sv);
        proof {
            assert(total_ordering(le_ord()));
            data@.lemma_sort_by_ensures(le_ord());
            lemma_sorted_unique(sv@, sorted_of(data@), le_ord());
            assert(sv@ == sorted_of(data@));
        }
        let mid = n / 2;
        let median: i64 = if n % 2 == 1 {
            sv[mid]
        } else {
            let a = sv[mid - 1];
            let b = sv[mid];
            proof {
                assert(le_ord()(sv@[mid - 1], sv@[mid as int]));
                lemma_half_between(a as int, b as int);
            }
            div_trunc((a as i128) + (b as i128), 2) as i64
        };
        let mode = mode_sorted(&sv);
        let minv = sv[0];
        let maxv = sv[n - 1];
        proof {
            broadcast use vstd::seq_lib::group_to_multiset_ensures;

            lemma_count_at_least_one(sv@, 0);
            lemma_count_at_least_one(sv@, sv@.len() - 1);
            assert(data@.contains(minv) && data@.contains(maxv));
            assert forall|k: int| 0 <= k < data@.len() implies minv <= #[trigger] data@[k]
                <= maxv by {
                lemma_count_at_least_one(data@, k);
                assert(sv@.contains(data@[k]));
                let j = choose|j: int| 0 <= j < sv@.len() && sv@[j] == data@[k];
                if j > 0 {
                    assert(le_ord()(sv@[0], sv@[j]));
                }
                if j < sv@.len() - 1 {
                    assert(le_ord()(sv@[j], sv@[sv@.len() - 1]));
                }
            }
            assert forall|v: i64| #[trigger] data@.contains(v) implies count_of(data@, v)
                <= count_of(data@, mode) && (count_of(data@, v) == count_of(data@, mode)
                ==> mode <= v) by {
                assert(count_of(data@, v) > 0);
                assert(count_of(sv@, v) > 0);
                assert(sv@.contains(v));
            }
            assert(data@.contains(mode));
        }
        Ok(
            Statistics {
                mean,
                variance,
                std_dev,
                std_err,
                median,
                mode,
                min: minv,
                max: maxv,
                sum: total,
                count: n,
            },
        )
    }
}

/// Swapping two neighbours leaves the multiset of a sequence unchanged.
proof fn lemma_swap_adjacent_multiset(s: Seq<i64>, i: int)
    requires
        0 <= i,
        i + 1 < s.len(),
    ensures
        s.update(i, s[i + 1]).update(i + 1, s[i]).to_multiset() == s.to_multiset(),
{
    broadcast use vstd::seq_lib::group_to_multiset_ensures;
    broadcast use vstd::multiset::group_multiset_axioms;

    let t = s.update(i, s[i + 1]).update(i + 1, s[i]);
    let a = s.subrange(0, i);
    let m1 = s.subrange(i, i + 2);
    let m2 = t.subrange(i, i + 2);
    let z = s.subrange(i + 2, s.len() as int);
    assert(s =~= a + m1 + z);
    assert(t =~= a + m2 + z);
    assert(m1 =~= Seq::<i64>::empty().push(s[i]).push(s[i + 1]));
    assert(m2 =~= Seq::<i64>::empty().push(s[i + 1]).push(s[i]));
    assert(m1.to_multiset() =~= m2.to_multiset());
    lemma_multiset_commutative(a, m1);
    lemma_multiset_commutative(a + m1, z);
    lemma_multiset_commutative(a, m2);
    lemma_multiset_commutative(a + m2, z);
    assert(t.to_multiset() =~= s.to_multiset());
}

} // verus!
