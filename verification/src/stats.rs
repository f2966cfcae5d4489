//! Fixed-point statistics over one series of sensor values.
//!
//! A series is a vector of signed fixed-point readings.  All seven
//! statistics of a series — mean, sample standard deviation, minimum,
//! maximum, coefficient of variation, 25th and 75th percentile — are
//! defined exactly over the mathematical integers: quotients truncate
//! toward zero, square roots round down, and the coefficient of variation
//! is reported in thousandths.  The same definitions serve the training
//! and the inference path, which keeps feature computation reproducible
//! bit for bit between the two.

use vstd::arithmetic::div_mod::{
    lemma_div_is_ordered, lemma_div_multiples_vanish, lemma_div_nonincreasing,
    lemma_div_pos_is_pos, lemma_fundamental_div_mod,
};
use vstd::prelude::*;
use vstd::relations::{sorted_by, total_ordering};
use vstd::seq_lib::group_to_multiset_ensures;

verus! {

/// Largest magnitude a single series value may have.  Sensor readings are
/// bounded well below this; the magnitude series of a bounded sample
/// stream stays below it as well.
pub const SERIES_BOUND: i64 = 2_000_000_000;

/// Largest series length the statistics accept.
pub const SERIES_CAP: usize = 1_000_000;

/// Every value of the series lies within `-b ..= b`.
pub open spec fn series_bounded(s: Seq<i64>, b: int) -> bool {
    forall|i: int| 0 <= i < s.len() ==> -b <= #[trigger] s[i] <= b
}

/// Integer division truncating toward zero, the rounding of the
/// executable `/` on signed machine integers.
pub open spec fn div_trunc(x: int, d: int) -> int
    recommends
        d != 0,
{
    if x == 0 {
        0
    } else if x > 0 && d > 0 {
        x / d
    } else if x < 0 && d < 0 {
        ((x * -1) / (d * -1))
    } else if x < 0 {
        ((x * -1) / d) * -1
    } else {
        (x / (d * -1)) * -1
    }
}

/// The sum of a series.
pub open spec fn sum_of(s: Seq<i64>) -> int
    decreases s.len(),
{
    if s.len() == 0 {
        0
    } else {
        sum_of(s.drop_last()) + s.last()
    }
}

/// The smallest value of a non-empty series.
pub open spec fn spec_min(s: Seq<i64>) -> int
    recommends
        s.len() > 0,
    decreases s.len(),
{
    if s.len() <= 1 {
        s[0] as int
    } else if s.last() < spec_min(s.drop_last()) {
        s.last() as int
    } else {
        spec_min(s.drop_last())
    }
}

/// The largest value of a non-empty series.
pub open spec fn spec_max(s: Seq<i64>) -> int
    recommends
        s.len() > 0,
    decreases s.len(),
{
    if s.len() <= 1 {
        s[0] as int
    } else if s.last() > spec_max(s.drop_last()) {
        s.last() as int
    } else {
        spec_max(s.drop_last())
    }
}

/// The truncating mean of a non-empty series.
pub open spec fn spec_mean(s: Seq<i64>) -> int
    recommends
        s.len() > 0,
{
    div_trunc(sum_of(s), s.len() as int)
}

/// The ordering the series statistics sort by.
pub open spec fn i64_le() -> spec_fn(i64, i64) -> bool {
    |x: i64, y: i64| x <= y
}

/// The sorted permutation of a series.
pub open spec fn sorted_of(s: Seq<i64>) -> Seq<i64> {
    s.sort_by(i64_le())
}

/// `r` is the square root of `n` rounded down.
pub open spec fn is_sqrt_floor(n: int, r: int) -> bool {
    0 <= r && r * r <= n < (r + 1) * (r + 1)
}

/// The square root of a non-negative integer, rounded down.
pub open spec fn sqrt_floor(n: int) -> int
    recommends
        n >= 0,
{
    choose|r: int| is_sqrt_floor(n, r)
}

/// The value-ordering on series values is a total ordering.
pub proof fn lemma_i64_le_total()
    ensures
        total_ordering(i64_le()),
{
}

/// A floor square root is unique, so any witness pins `sqrt_floor` down.
pub proof fn lemma_sqrt_floor_unique(n: int, r: int)
    requires
        is_sqrt_floor(n, r),
    ensures
        sqrt_floor(n) == r,
{
    assert(exists|x: int| is_sqrt_floor(n, x));
    let r2 = sqrt_floor(n);
    assert(is_sqrt_floor(n, r2));
    if r2 < r {
        assert((r2 + 1) * (r2 + 1) <= r * r) by (nonlinear_arith)
            requires
                0 <= r2 + 1 <= r,
        ;
    }
    if r2 > r {
        assert((r + 1) * (r + 1) <= r2 * r2) by (nonlinear_arith)
            requires
                0 <= r + 1 <= r2,
        ;
    }
}

/// The square root of `n`, rounded down.
pub fn isqrt(n: u128) -> (r: u64)
    ensures
        is_sqrt_floor(n as int, r as int),
        r == sqrt_floor(n as int),
{
    let mut lo: u128 = 0;
    let mut hi: u128 = 0x1_0000_0000_0000_0000;
    proof {
        assert(hi * hi == 0x1_0000_0000_0000_0000_0000_0000_0000_0000int) by (nonlinear_arith)
            requires
                hi == 0x1_0000_0000_0000_0000,
        ;
    }
    while lo + 1 < hi
        invariant
            0 <= lo < hi <= 0x1_0000_0000_0000_0000,
            lo * lo <= n,
            n < hi * hi,
        decreases hi - lo,
    {
        let mid: u128 = lo + (hi - lo) / 2;
        assert(lo < mid < hi);
        assert(mid * mid <= 0xffff_ffff_ffff_ffff * 0xffff_ffff_ffff_ffff) by (nonlinear_arith)
            requires
                0 <= mid <= 0xffff_ffff_ffff_ffff,
        ;
        if mid * mid <= n {
            lo = mid;
        } else {
            hi = mid;
        }
    }
    proof {
        lemma_sqrt_floor_unique(n as int, lo as int);
    }
    lo as u64
}

/// Two sorted series over the same multiset of values are the same series.
pub proof fn lemma_sorted_unique(a: Seq<i64>, b: Seq<i64>)
    requires
        sorted_by(a, i64_le()),
        sorted_by(b, i64_le()),
        a.to_multiset() == b.to_multiset(),
    ensures
        a == b,
    decreases a.len(),
{
    broadcast use group_to_multiset_ensures;

    if a.len() == 0 {
        assert(b.to_multiset().len() == 0);
        assert(a =~= b);
    } else {
        assert(a.contains(a[0]));
        assert(a.to_multiset().count(a[0]) > 0);
        assert(b.to_multiset().count(a[0]) > 0);
        assert(b.contains(a[0]));
        assert(b.contains(b[0]));
        assert(b.to_multiset().count(b[0]) > 0);
        assert(a.to_multiset().count(b[0]) > 0);
        assert(a.contains(b[0]));
        let i = choose|i: int| 0 <= i < a.len() && a[i] == b[0];
        let j = choose|j: int| 0 <= j < b.len() && b[j] == a[0];
        assert(i64_le()(a[0], a[i]));
        assert(i64_le()(b[0], b[j]));
        assert(a[0] == b[0]);
        assert(a.drop_first() =~= a.remove(0));
        assert(b.drop_first() =~= b.remove(0));
        assert(a.remove(0).to_multiset() == b.remove(0).to_multiset());
        assert(sorted_by(a.drop_first(), i64_le())) by {
            assert forall|x: int, y: int|
                0 <= x <= y < a.drop_first().len() implies i64_le()(
                a.drop_first()[x],
                a.drop_first()[y],
            ) by {
                assert(a.drop_first()[x] == a[x + 1]);
                assert(a.drop_first()[y] == a[y + 1]);
            }
        }
        assert(sorted_by(b.drop_first(), i64_le())) by {
            assert forall|x: int, y: int|
                0 <= x <= y < b.drop_first().len() implies i64_le()(
                b.drop_first()[x],
                b.drop_first()[y],
            ) by {
                assert(b.drop_first()[x] == b[x + 1]);
                assert(b.drop_first()[y] == b[y + 1]);
            }
        }
        lemma_sorted_unique(a.drop_first(), b.drop_first());
        assert(a.len() == a.to_multiset().len());
        assert(b.len() == b.to_multiset().len());
        assert forall|k: int| 0 <= k < a.len() implies a[k] == b[k] by {
            if k > 0 {
                assert(a[k] == a.drop_first()[k - 1]);
                assert(b[k] == b.drop_first()[k - 1]);
            }
        }
        assert(a =~= b);
    }
}

/// Sorts a series into ascending order.
#[verifier::rlimit(60)]
pub fn sort_series(v: &Vec<i64>) -> (out: Vec<i64>)
    ensures
        out@ == sorted_of(v@),
        out@.to_multiset() == v@.to_multiset(),
        sorted_by(out@, i64_le()),
        out@.len() == v@.len(),
{
    let mut out: Vec<i64> = Vec::new();
    let n: usize = v.len();
    let mut i: usize = 0;
    proof {
        broadcast use group_to_multiset_ensures;

        assert(v@.take(0).to_multiset() =~= out@.to_multiset());
    }
    while i < n
        invariant
            0 <= i <= n,
            n == v@.len(),
            out@.len() == i,
            sorted_by(out@, i64_le()),
            out@.to_multiset() == v@.take(i as int).to_multiset(),
        decreases n - i,
    {
        let x = v[i];
        let mut p: usize = 0;
        while p < out.len() && out[p] <= x
            invariant
                0 <= p <= out@.len(),
                forall|j: int| 0 <= j < p ==> #[trigger] out@[j] <= x,
            decreases out@.len() - p,
        {
            p += 1;
        }
        let ghost out0 = out@;
        out.insert(p, x);
        proof {
            broadcast use group_to_multiset_ensures;

            vstd::seq_lib::to_multiset_insert(out0, p as int, x);
            assert(sorted_by(out@, i64_le())) by {
                out0.insert_ensures(p as int, x);
                assert forall|a: int, b: int| 0 <= a <= b < out@.len() implies i64_le()(
                    out@[a],
                    out@[b],
                ) by {
                    let pi = p as int;
                    assert(out@ == out0.insert(pi, x));
                    assert(out@[pi] == x);
                    assert(forall|j: int| 0 <= j < pi ==> #[trigger] out@[j] == out0[j]);
                    assert(forall|j: int|
                        pi <= j < out0.len() ==> #[trigger] out0[j] == out@[j + 1]);
                    if pi < out0.len() {
                        assert(!(out0[pi] <= x));
                    }
                    let av: i64 = if a < pi {
                        out0[a]
                    } else if a == pi {
                        x
                    } else {
                        out0[a - 1]
                    };
                    let bv: i64 = if b < pi {
                        out0[b]
                    } else if b == pi {
                        x
                    } else {
                        out0[b - 1]
                    };
                    assert(out@[a] == av);
                    assert(out@[b] == bv);
                    if a < pi {
                        assert(out0[a] <= x);
                    }
                    if b > pi {
                        if pi < b - 1 {
                            assert(i64_le()(out0[pi], out0[b - 1]));
                        }
                        assert(x <= out0[b - 1]);
                    }
                    if a < b && b < pi {
                        assert(i64_le()(out0[a], out0[b]));
                    }
                    if pi < a && a < b {
                        assert(i64_le()(out0[a - 1], out0[b - 1]));
                    }
                    assert(av <= bv);
                }
            }
            assert(v@.take(i + 1).drop_last() =~= v@.take(i as int));
            assert(v@.take(i + 1) =~= v@.take(i as int).push(v@[i as int]));
            assert(v@.take(i as int).push(x).to_multiset() == v@.take(
                i as int,
            ).to_multiset().insert(x));
            assert(out@.to_multiset() == v@.take(i + 1).to_multiset());
        }
        i += 1;
    }
    proof {
        assert(v@.take(n as int) =~= v@);
        lemma_i64_le_total();
        v@.lemma_sort_by_ensures(i64_le());
        lemma_sorted_unique(out@, sorted_of(v@));
    }
    out
}

/// The sum of squared deviations of a series from a centre `m`.
pub open spec fn sq_dev_sum(s: Seq<i64>, m: int) -> int
    decreases s.len(),
{
    if s.len() == 0 {
        0
    } else {
        sq_dev_sum(s.drop_last(), m) + (s.last() - m) * (s.last() - m)
    }
}

/// A sum of squares is never negative.
pub proof fn lemma_sq_dev_sum_nonneg(s: Seq<i64>, m: int)
    ensures
        sq_dev_sum(s, m) >= 0,
    decreases s.len(),
{
    if s.len() > 0 {
        lemma_sq_dev_sum_nonneg(s.drop_last(), m);
        let d = s.last() - m;
        assert(d * d >= 0) by (nonlinear_arith);
    }
}

/// The sample standard deviation of a non-empty series: the floor square
/// root of the sum of squared deviations from the truncating mean, divided
/// by one less than the length.  A single reading has no spread, so its
/// standard deviation is zero.
pub open spec fn spec_std_dev(s: Seq<i64>) -> int
    recommends
        s.len() > 0,
{
    if s.len() < 2 {
        0
    } else {
        sqrt_floor(sq_dev_sum(s, spec_mean(s)) / (s.len() - 1))
    }
}

/// The coefficient of variation of a non-empty series, in thousandths:
/// zero whenever the mean is zero, regardless of spread, else the spread
/// over the mean.
pub open spec fn spec_coeff_var(s: Seq<i64>) -> int
    recommends
        s.len() > 0,
{
    if spec_mean(s) == 0 {
        0
    } else {
        div_trunc(spec_std_dev(s) * 1000, spec_mean(s))
    }
}

/// The `p`-th percentile of a sorted series, by linear interpolation
/// between the two nearest order statistics.
pub open spec fn spec_percentile_sorted(ss: Seq<i64>, p: int) -> int
    recommends
        ss.len() > 0,
        0 <= p <= 100,
{
    let q = (ss.len() - 1) * p;
    let idx = q / 100;
    let rem = q % 100;
    if rem == 0 {
        ss[idx] as int
    } else {
        ss[idx] + (ss[idx + 1] - ss[idx]) * rem / 100
    }
}

/// The `p`-th percentile of a non-empty series.
pub open spec fn spec_percentile(s: Seq<i64>, p: int) -> int
    recommends
        s.len() > 0,
        0 <= p <= 100,
{
    spec_percentile_sorted(sorted_of(s), p)
}

/// The seven statistics of one series, in fixed-point sensor units
/// (`coeff_var` in thousandths).
#[derive(Clone, Copy, Debug, PartialEq, Eq, Structural)]
pub struct SeriesStats {
    pub mean: i64,
    pub std_dev: i64,
    pub min: i64,
    pub max: i64,
    pub coeff_var: i64,
    pub p25: i64,
    pub p75: i64,
}

/// A series the statistics accept: non-empty, of bounded length, with
/// every value within the series bound.
pub open spec fn stats_wf(s: Seq<i64>) -> bool {
    &&& 1 <= s.len() <= SERIES_CAP
    &&& series_bounded(s, SERIES_BOUND as int)
}

/// The ranges the statistics of a well-formed series stay within.
pub open spec fn stats_in_range(st: SeriesStats) -> bool {
    &&& -SERIES_BOUND <= st.mean <= SERIES_BOUND
    &&& 0 <= st.std_dev <= 4_000_000_000_000
    &&& -SERIES_BOUND <= st.min <= st.max <= SERIES_BOUND
    &&& -4_000_000_000_000_000 <= st.coeff_var <= 4_000_000_000_000_000
    &&& -SERIES_BOUND <= st.p25 <= SERIES_BOUND
    &&& -SERIES_BOUND <= st.p75 <= SERIES_BOUND
}

/// A quotient of values within `d * b` lies within `b`.
proof fn lemma_div_trunc_bound(x: int, d: int, b: int)
    requires
        d >= 1,
        b >= 0,
        -(d * b) <= x <= d * b,
    ensures
        -b <= div_trunc(x, d) <= b,
{
    if x > 0 {
        lemma_div_pos_is_pos(x, d);
        lemma_div_is_ordered(x, d * b, d);
        lemma_div_multiples_vanish(b, d);
    } else if x < 0 {
        lemma_div_pos_is_pos(-x, d);
        lemma_div_is_ordered(-x, d * b, d);
        lemma_div_multiples_vanish(b, d);
    }
}

/// Computes the truncating mean of a series.
fn mean_series(v: &Vec<i64>) -> (m: i64)
    requires
        stats_wf(v@),
    ensures
        m == spec_mean(v@),
        -SERIES_BOUND <= m <= SERIES_BOUND,
{
    let n: usize = v.len();
    let mut acc: i64 = 0;
    let mut i: usize = 0;
    while i < n
        invariant
            0 <= i <= n,
            n == v@.len(),
            stats_wf(v@),
            acc == sum_of(v@.take(i as int)),
            -(i as int) * (SERIES_BOUND as int) <= acc <= (i as int) * (SERIES_BOUND as int),
        decreases n - i,
    {
        proof {
            assert(v@.take(i + 1).drop_last() =~= v@.take(i as int));
            assert(v@.take(i + 1).last() == v@[i as int]);
            assert((i + 1) as int * (SERIES_BOUND as int) == (i as int) * (SERIES_BOUND as int)
                + SERIES_BOUND as int) by (nonlinear_arith);
        }
        acc = acc + v[i];
        i += 1;
    }
    proof {
        assert(v@.take(n as int) =~= v@);
        assert((n as int) * (SERIES_BOUND as int) <= 2_000_000_000_000_000int) by (nonlinear_arith)
            requires
                0 <= n <= 1_000_000,
        ;
        lemma_div_trunc_bound(acc as int, n as int, SERIES_BOUND as int);
        assert((n as int) * (SERIES_BOUND as int) >= acc >= -((n as int) * (SERIES_BOUND as int)));
    }
    let m = acc.checked_div(n as i64).unwrap();
    proof {
        assert(m == div_trunc(acc as int, n as int));
    }
    m
}

/// Computes the smallest and largest value of a series by one linear scan.
pub fn min_max_series(v: &Vec<i64>) -> (r: (i64, i64))
    requires
        v@.len() >= 1,
        series_bounded(v@, SERIES_BOUND as int),
    ensures
        r.0 == spec_min(v@),
        r.1 == spec_max(v@),
        -SERIES_BOUND <= r.0 <= r.1 <= SERIES_BOUND,
{
    let n: usize = v.len();
    let mut lo: i64 = v[0];
    let mut hi: i64 = v[0];
    let mut i: usize = 1;
    proof {
        assert(v@.take(1) =~= seq![v@[0]]);
        assert(-SERIES_BOUND <= v@[0] <= SERIES_BOUND);
    }
    while i < n
        invariant
            1 <= i <= n,
            n == v@.len(),
            series_bounded(v@, SERIES_BOUND as int),
            lo == spec_min(v@.take(i as int)),
            hi == spec_max(v@.take(i as int)),
            -SERIES_BOUND <= lo <= hi <= SERIES_BOUND,
        decreases n - i,
    {
        proof {
            assert(v@.take(i + 1).drop_last() =~= v@.take(i as int));
            assert(v@.take(i + 1).last() == v@[i as int]);
        }
        proof {
            assert(-SERIES_BOUND <= v@[i as int] <= SERIES_BOUND);
        }
        let x = v[i];
        if x < lo {
            lo = x;
        }
        if x > hi {
            hi = x;
        }
        i += 1;
    }
    proof {
        assert(v@.take(n as int) =~= v@);
    }
    (lo, hi)
}

/// Computes the sum of squared deviations of a series from a centre `m`.
fn sq_dev_total(v: &Vec<i64>, m: i64) -> (t: u128)
    requires
        stats_wf(v@),
        -SERIES_BOUND <= m <= SERIES_BOUND,
    ensures
        t == sq_dev_sum(v@, m as int),
        t <= 16_000_000_000_000_000_000_000_000u128,
{
    let n: usize = v.len();
    let mut acc: u128 = 0;
    let mut i: usize = 0;
    while i < n
        invariant
            0 <= i <= n,
            n == v@.len(),
            stats_wf(v@),
            -SERIES_BOUND <= m <= SERIES_BOUND,
            acc == sq_dev_sum(v@.take(i as int), m as int),
            acc <= (i as int) * 16_000_000_000_000_000_000int,
        decreases n - i,
    {
        proof {
            assert(v@.take(i + 1).drop_last() =~= v@.take(i as int));
            assert(v@.take(i + 1).last() == v@[i as int]);
        }
        proof {
            assert(-SERIES_BOUND <= v@[i as int] <= SERIES_BOUND);
        }
        let d: i64 = v[i] - m;
        let du: u64 = if d >= 0 {
            d as u64
        } else {
            (-d) as u64
        };
        proof {
            assert((du as int) * (du as int) <= 16_000_000_000_000_000_000int) by (nonlinear_arith)
                requires
                    0 <= du <= 4_000_000_000,
            ;
        }
        let sq: u128 = (du as u128) * (du as u128);
        proof {
            assert(sq == (d as int) * (d as int)) by (nonlinear_arith)
                requires
                    du == if d >= 0 {
                        d as int
                    } else {
                        -(d as int)
                    },
                    sq == (du as int) * (du as int),
            ;
            assert((i + 1) as int * 16_000_000_000_000_000_000int == (i as int)
                * 16_000_000_000_000_000_000int + 16_000_000_000_000_000_000int) by (
            nonlinear_arith);
        }
        acc = acc + sq;
        i += 1;
    }
    proof {
        assert(v@.take(n as int) =~= v@);
        assert((n as int) * 16_000_000_000_000_000_000int
            <= 16_000_000_000_000_000_000_000_000int) by (nonlinear_arith)
            requires
                0 <= n <= 1_000_000,
        ;
    }
    acc
}

/// Computes all seven statistics of one series.  The same function serves
/// the training and the inference path, so feature computation is
/// deterministic: the result is a pure function of the series.
pub fn series_stats(v: &Vec<i64>) -> (st: SeriesStats)
    requires
        stats_wf(v@),
    ensures
        st.mean == spec_mean(v@),
        st.std_dev == spec_std_dev(v@),
        st.min == spec_min(v@),
        st.max == spec_max(v@),
        st.coeff_var == spec_coeff_var(v@),
        st.p25 == spec_percentile(v@, 25),
        st.p75 == spec_percentile(v@, 75),
        stats_in_range(st),
{
    let n: usize = v.len();
    let mean = mean_series(v);
    let (lo, hi) = min_max_series(v);
    let std_dev: i64 = if n < 2 {
        0
    } else {
        let total = sq_dev_total(v, mean);
        let var: u128 = total / ((n - 1) as u128);
        proof {
            lemma_sq_dev_sum_nonneg(v@, mean as int);
            lemma_div_nonincreasing(total as int, (n - 1) as int);
            lemma_div_pos_is_pos(total as int, (n - 1) as int);
        }
        let root = isqrt(var);
        proof {
            assert(root as int <= 4_000_000_000_000int) by (nonlinear_arith)
                requires
                    0 <= root,
                    (root as int) * (root as int) <= 16_000_000_000_000_000_000_000_000int,
            ;
        }
        root as i64
    };
    let coeff_var: i64 = if mean == 0 {
        0
    } else {
        let scaled = std_dev * 1000;
        let c = scaled.checked_div(mean).unwrap();
        proof {
            lemma_div_trunc_bound(scaled as int, if mean >= 0 {
                mean as int
            } else {
                -(mean as int)
            }, 4_000_000_000_000_000int);
        }
        c
    };
    let sorted = sort_series(v);
    proof {
        lemma_sorted_has_bounds(v@, sorted@);
    }
    let p25 = percentile_sorted(&sorted, 25);
    let p75 = percentile_sorted(&sorted, 75);
    SeriesStats { mean, std_dev, min: lo, max: hi, coeff_var, p25, p75 }
}

/// The sorted permutation of a bounded series is bounded the same way.
proof fn lemma_sorted_has_bounds(s: Seq<i64>, ss: Seq<i64>)
    requires
        ss.to_multiset() == s.to_multiset(),
        series_bounded(s, SERIES_BOUND as int),
    ensures
        series_bounded(ss, SERIES_BOUND as int),
{
    broadcast use group_to_multiset_ensures;

    assert forall|i: int|
        0 <= i < ss.len() implies -(SERIES_BOUND as int) <= #[trigger] ss[i]
        <= SERIES_BOUND as int by {
        assert(ss.contains(ss[i]));
        assert(ss.to_multiset().count(ss[i]) > 0);
        assert(s.contains(ss[i]));
        let j = choose|j: int| 0 <= j < s.len() && s[j] == ss[i];
        assert(-(SERIES_BOUND as int) <= s[j] <= SERIES_BOUND as int);
    }
}

/// Computes a percentile of an already sorted series.
fn percentile_sorted(ss: &Vec<i64>, p: u64) -> (r: i64)
    requires
        1 <= ss@.len() <= SERIES_CAP,
        series_bounded(ss@, SERIES_BOUND as int),
        sorted_by(ss@, i64_le()),
        0 < p < 100,
    ensures
        r == spec_percentile_sorted(ss@, p as int),
        -SERIES_BOUND <= r <= SERIES_BOUND,
{
    let n: usize = ss.len();
    proof {
        assert(((n - 1) as int) * (p as int) <= 100_000_000int && ((n - 1) as int) * (p as int)
            <= (n - 1) as int * 100) by (nonlinear_arith)
            requires
                1 <= n <= 1_000_000,
                0 < p < 100,
        ;
    }
    let q: u64 = ((n - 1) as u64) * p;
    proof {
        lemma_div_is_ordered(q as int, (n - 1) as int * 100, 100);
        lemma_div_multiples_vanish((n - 1) as int, 100);
        assert(q as int / 100 <= (n - 1) as int);
        lemma_div_pos_is_pos(q as int, 100);
        lemma_fundamental_div_mod(q as int, 100);
    }
    let idx: usize = (q / 100) as usize;
    let rem: u64 = q % 100;
    if rem == 0 {
        ss[idx]
    } else {
        proof {
            assert(idx < (n - 1) as int) by {
                if idx == (n - 1) as int {
                    assert(q == 100 * ((n - 1) as int) + rem);
                    assert(q <= (n - 1) as int * 100);
                }
            }
        }
        let lo = ss[idx];
        let hi = ss[idx + 1];
        proof {
            assert(i64_le()(ss@[idx as int], ss@[idx as int + 1]));
        }
        let d: u64 = (hi - lo) as u64;
        proof {
            assert((d as int) * (rem as int) <= 400_000_000_000int && (d as int) * (rem as int)
                <= (d as int) * 100 && (d as int) * (rem as int) >= 0) by (nonlinear_arith)
                requires
                    0 <= d <= 4_000_000_000,
                    0 <= rem < 100,
            ;
        }
        let add: u64 = (d * rem) / 100;
        proof {
            assert(add == (ss@[idx as int + 1] - ss@[idx as int]) * rem / 100);
            lemma_div_is_ordered(d as int * rem, d as int * 100, 100);
            lemma_div_multiples_vanish(d as int, 100);
            lemma_div_pos_is_pos(d as int * rem, 100);
            assert(d as int * rem >= 0) by (nonlinear_arith)
                requires
                    d >= 0,
                    rem >= 0,
            ;
        }
        lo + (add as i64)
    }
}

/// The coefficient of variation is zero whenever the mean is zero,
/// regardless of the spread of the series.
pub proof fn lemma_coeff_var_zero_mean(s: Seq<i64>)
    requires
        s.len() >= 1,
        spec_mean(s) == 0,
    ensures
        spec_coeff_var(s) == 0,
{
}

/// The minimum and maximum of a non-empty series bound every value and
/// are themselves values of the series.
pub proof fn lemma_min_max_order(s: Seq<i64>)
    requires
        s.len() >= 1,
    ensures
        forall|i: int| 0 <= i < s.len() ==> spec_min(s) <= #[trigger] s[i] <= spec_max(s),
        exists|i: int| 0 <= i < s.len() && s[i] == spec_min(s),
        exists|i: int| 0 <= i < s.len() && s[i] == spec_max(s),
    decreases s.len(),
{
    if s.len() == 1 {
        assert(s[0] == spec_min(s));
        assert(s[0] == spec_max(s));
    } else {
        let d = s.drop_last();
        lemma_min_max_order(d);
        assert forall|i: int| 0 <= i < s.len() implies spec_min(s) <= #[trigger] s[i] <= spec_max(
            s,
        ) by {
            if i < d.len() {
                assert(s[i] == d[i]);
                assert(spec_min(d) <= d[i] <= spec_max(d));
            }
        }
        if spec_min(s) == s.last() {
            assert(s[s.len() - 1] == spec_min(s));
        } else {
            let i = choose|i: int| 0 <= i < d.len() && d[i] == spec_min(d);
            assert(s[i] == spec_min(s));
        }
        if spec_max(s) == s.last() {
            assert(s[s.len() - 1] == spec_max(s));
        } else {
            let i = choose|i: int| 0 <= i < d.len() && d[i] == spec_max(d);
            assert(s[i] == spec_max(s));
        }
    }
}

/// The sorted permutation of a series starts at the minimum and ends at
/// the maximum.
pub proof fn lemma_sorted_ends(s: Seq<i64>)
    requires
        s.len() >= 1,
    ensures
        sorted_of(s).len() == s.len(),
        sorted_by(sorted_of(s), i64_le()),
        sorted_of(s)[0] == spec_min(s),
        sorted_of(s)[s.len() - 1] == spec_max(s),
{
    broadcast use group_to_multiset_ensures;

    lemma_i64_le_total();
    s.lemma_sort_by_ensures(i64_le());
    lemma_min_max_order(s);
    let ss = sorted_of(s);
    assert(ss.to_multiset().len() == s.to_multiset().len());
    assert(ss.len() == s.len());
    // the minimum of s occurs in the sorted series
    let i = choose|i: int| 0 <= i < s.len() && s[i] == spec_min(s);
    assert(s.contains(s[i]));
    assert(s.to_multiset().count(s[i]) > 0);
    assert(ss.to_multiset().count(s[i]) > 0);
    assert(ss.contains(s[i]));
    let k = choose|k: int| 0 <= k < ss.len() && ss[k] == s[i];
    if 0 < k {
        assert(i64_le()(ss[0], ss[k]));
    }
    // the first sorted value occurs in s, so the minimum is below it
    assert(ss.contains(ss[0]));
    assert(ss.to_multiset().count(ss[0]) > 0);
    assert(s.to_multiset().count(ss[0]) > 0);
    assert(s.contains(ss[0]));
    let j = choose|j: int| 0 <= j < s.len() && s[j] == ss[0];
    assert(spec_min(s) <= s[j]);
    assert(ss[0] == spec_min(s));
    // and symmetrically for the maximum
    let i2 = choose|i2: int| 0 <= i2 < s.len() && s[i2] == spec_max(s);
    assert(s.contains(s[i2]));
    assert(s.to_multiset().count(s[i2]) > 0);
    assert(ss.to_multiset().count(s[i2]) > 0);
    assert(ss.contains(s[i2]));
    let k2 = choose|k2: int| 0 <= k2 < ss.len() && ss[k2] == s[i2];
    if k2 < ss.len() - 1 {
        assert(i64_le()(ss[k2], ss[ss.len() - 1]));
    }
    assert(ss.contains(ss[ss.len() - 1]));
    assert(ss.to_multiset().count(ss[ss.len() - 1]) > 0);
    assert(s.to_multiset().count(ss[ss.len() - 1]) > 0);
    assert(s.contains(ss[ss.len() - 1]));
    let j2 = choose|j2: int| 0 <= j2 < s.len() && s[j2] == ss[ss.len() - 1];
    assert(s[j2] <= spec_max(s));
    assert(ss[ss.len() - 1] == spec_max(s));
}

/// Index and remainder facts of the percentile rank computation.
proof fn lemma_pct_idx(n: int, p: int)
    requires
        n >= 1,
        0 < p < 100,
    ensures
        0 <= (n - 1) * p / 100 <= n - 1,
        0 <= (n - 1) * p % 100 < 100,
        (n - 1) * p % 100 != 0 ==> (n - 1) * p / 100 < n - 1,
{
    let q = (n - 1) * p;
    assert(0 <= (n - 1) * p <= (n - 1) * 100) by (nonlinear_arith)
        requires
            n >= 1,
            0 < p < 100,
    ;
    lemma_div_pos_is_pos(q, 100);
    lemma_div_is_ordered(q, (n - 1) * 100, 100);
    lemma_div_multiples_vanish(n - 1, 100);
    lemma_fundamental_div_mod(q, 100);
    if q % 100 != 0 && q / 100 == n - 1 {
        assert(q == 100 * (n - 1) + q % 100);
        assert(q > (n - 1) * 100);
    }
}

/// Linear interpolation between two neighbouring sorted values stays
/// between them.
proof fn lemma_interp_bounds(ss: Seq<i64>, idx: int, rem: int)
    requires
        sorted_by(ss, i64_le()),
        0 <= idx,
        idx + 1 < ss.len(),
        0 < rem < 100,
    ensures
        ss[idx] <= ss[idx] + (ss[idx + 1] - ss[idx]) * rem / 100 <= ss[idx + 1],
{
    assert(i64_le()(ss[idx], ss[idx + 1]));
    let d = ss[idx + 1] - ss[idx];
    assert(0 <= d * rem <= d * 100) by (nonlinear_arith)
        requires
            d >= 0,
            0 < rem < 100,
    ;
    lemma_div_pos_is_pos(d * rem, 100);
    lemma_div_is_ordered(d * rem, d * 100, 100);
    lemma_div_multiples_vanish(d, 100);
}

/// Every percentile of a sorted series lies between its first and its
/// last value.
proof fn lemma_percentile_sorted_range(ss: Seq<i64>, p: int)
    requires
        ss.len() >= 1,
        sorted_by(ss, i64_le()),
        0 < p < 100,
    ensures
        ss[0] <= spec_percentile_sorted(ss, p) <= ss[ss.len() - 1],
{
    let n = ss.len() as int;
    let q = (n - 1) * p;
    let idx = q / 100;
    let rem = q % 100;
    lemma_pct_idx(n, p);
    if 0 < idx {
        assert(i64_le()(ss[0], ss[idx]));
    }
    if rem == 0 {
        if idx < n - 1 {
            assert(i64_le()(ss[idx], ss[n - 1]));
        }
    } else {
        lemma_interp_bounds(ss, idx, rem);
        if idx + 1 < n - 1 {
            assert(i64_le()(ss[idx + 1], ss[n - 1]));
        }
    }
}

/// Percentiles of one sorted series are monotone in the rank.
proof fn lemma_percentile_sorted_monotone(ss: Seq<i64>, p1: int, p2: int)
    requires
        ss.len() >= 1,
        sorted_by(ss, i64_le()),
        0 < p1 <= p2 < 100,
    ensures
        spec_percentile_sorted(ss, p1) <= spec_percentile_sorted(ss, p2),
{
    let n = ss.len() as int;
    let q1 = (n - 1) * p1;
    let q2 = (n - 1) * p2;
    let idx1 = q1 / 100;
    let idx2 = q2 / 100;
    let rem1 = q1 % 100;
    let rem2 = q2 % 100;
    lemma_pct_idx(n, p1);
    lemma_pct_idx(n, p2);
    assert((n - 1) * p1 <= (n - 1) * p2) by (nonlinear_arith)
        requires
            n >= 1,
            0 < p1 <= p2 < 100,
    ;
    lemma_div_is_ordered(q1, q2, 100);
    lemma_fundamental_div_mod(q1, 100);
    lemma_fundamental_div_mod(q2, 100);
    if idx1 == idx2 {
        if rem1 == 0 {
            if rem2 != 0 {
                lemma_interp_bounds(ss, idx1, rem2);
            }
        } else {
            // a later rank in the same gap cannot fall back to the gap's start
            assert(rem2 != 0);
            let d = ss[idx1 + 1] - ss[idx1];
            assert(i64_le()(ss[idx1], ss[idx1 + 1]));
            assert(d * rem1 <= d * rem2) by (nonlinear_arith)
                requires
                    d >= 0,
                    0 < rem1 <= rem2,
            ;
            lemma_div_is_ordered(d * rem1, d * rem2, 100);
        }
    } else {
        // the lower rank stays below the end of its gap, which is at or
        // below the start of the higher rank's gap
        if rem1 == 0 {
            assert(i64_le()(ss[idx1], ss[idx2]));
        } else {
            lemma_interp_bounds(ss, idx1, rem1);
            if idx1 + 1 < idx2 {
                assert(i64_le()(ss[idx1 + 1], ss[idx2]));
            }
        }
        if rem2 != 0 {
            lemma_interp_bounds(ss, idx2, rem2);
        }
    }
}

/// The sum of a non-empty series lies between length-many copies of its
/// minimum and of its maximum.
proof fn lemma_sum_bounds(s: Seq<i64>)
    requires
        s.len() >= 1,
    ensures
        s.len() * spec_min(s) <= sum_of(s) <= s.len() * spec_max(s),
    decreases s.len(),
{
    lemma_min_max_order(s);
    if s.len() == 1 {
        assert(sum_of(s) == sum_of(s.drop_last()) + s.last());
        assert(sum_of(s.drop_last()) == 0);
    } else {
        let d = s.drop_last();
        lemma_sum_bounds(d);
        lemma_min_max_order(d);
        let n = s.len() as int;
        assert(forall|i: int| 0 <= i < d.len() ==> #[trigger] d[i] == s[i]);
        assert(spec_min(s) <= spec_min(d)) by {
            let i = choose|i: int| 0 <= i < d.len() && d[i] == spec_min(d);
            assert(spec_min(s) <= s[i]);
        }
        assert(spec_max(d) <= spec_max(s)) by {
            let i = choose|i: int| 0 <= i < d.len() && d[i] == spec_max(d);
            assert(s[i] <= spec_max(s));
        }
        assert((n - 1) * spec_min(d) >= (n - 1) * spec_min(s) && (n - 1) * spec_max(d) <= (n - 1)
            * spec_max(s)) by (nonlinear_arith)
            requires
                n >= 2,
                spec_min(s) <= spec_min(d),
                spec_max(d) <= spec_max(s),
        ;
        assert(s.last() >= spec_min(s) && s.last() <= spec_max(s));
        assert((n - 1) * spec_min(s) + spec_min(s) == n * spec_min(s)) by (nonlinear_arith);
        assert((n - 1) * spec_max(s) + spec_max(s) == n * spec_max(s)) by (nonlinear_arith);
    }
}

/// The truncating mean of a non-empty series lies between its minimum and
/// its maximum.
pub proof fn lemma_mean_in_range(s: Seq<i64>)
    requires
        s.len() >= 1,
    ensures
        spec_min(s) <= spec_mean(s) <= spec_max(s),
{
    lemma_sum_bounds(s);
    lemma_min_max_order(s);
    let n = s.len() as int;
    let t = sum_of(s);
    let lo = spec_min(s);
    let hi = spec_max(s);
    if t == 0 {
        assert(n * lo <= 0 <= n * hi);
        assert(lo <= 0 <= hi) by (nonlinear_arith)
            requires
                n >= 1,
                n * lo <= 0 <= n * hi,
        ;
    } else if t > 0 {
        assert(spec_mean(s) == t / n);
        lemma_div_pos_is_pos(t, n);
        // above the minimum: either the minimum is negative, or divide
        // the lower product bound through by the length
        if lo > 0 {
            lemma_div_is_ordered(n * lo, t, n);
            lemma_div_multiples_vanish(lo, n);
        }
        // below the maximum
        assert(hi > 0) by (nonlinear_arith)
            requires
                n >= 1,
                t > 0,
                t <= n * hi,
        ;
        lemma_div_is_ordered(t, n * hi, n);
        lemma_div_multiples_vanish(hi, n);
    } else {
        assert(spec_mean(s) == -((-t) / n));
        lemma_div_pos_is_pos(-t, n);
        assert(lo < 0) by (nonlinear_arith)
            requires
                n >= 1,
                t < 0,
                n * lo <= t,
        ;
        assert(n * (-lo) == -(n * lo)) by (nonlinear_arith);
        lemma_div_is_ordered(-t, n * (-lo), n);
        lemma_div_multiples_vanish(-lo, n);
        if hi < 0 {
            assert(n * (-hi) == -(n * hi)) by (nonlinear_arith);
            lemma_div_is_ordered(n * (-hi), -t, n);
            lemma_div_multiples_vanish(-hi, n);
        }
    }
}

/// On every non-empty series the order statistics are ordered: the
/// minimum is at most the 25th percentile, which is at most the 75th
/// percentile, which is at most the maximum; and the mean also lies
/// between the minimum and the maximum.
pub proof fn lemma_statistics_ordered(s: Seq<i64>)
    requires
        s.len() >= 1,
    ensures
        spec_min(s) <= spec_percentile(s, 25),
        spec_percentile(s, 25) <= spec_percentile(s, 75),
        spec_percentile(s, 75) <= spec_max(s),
        spec_min(s) <= spec_mean(s) <= spec_max(s),
{
    lemma_sorted_ends(s);
    let ss = sorted_of(s);
    lemma_percentile_sorted_range(ss, 25);
    lemma_percentile_sorted_range(ss, 75);
    lemma_percentile_sorted_monotone(ss, 25, 75);
    lemma_mean_in_range(s);
}

} // verus!
