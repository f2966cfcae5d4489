//! Windowed statistical feature extraction.
//!
//! One window of three-axis samples becomes one feature vector of exactly
//! 28 ordered values: four series (magnitude, x, y, z), each summarised by
//! the seven statistics of `stats` in a fixed order.  The group order and
//! the within-group statistic order are part of the wire contract: the
//! classifier is only meaningful if training-time and inference-time
//! extraction agree bit for bit, so extraction is specified as a pure
//! function of the window.

use crate::errors::FeatureError;
use crate::stats::{
    is_sqrt_floor, lemma_mean_in_range, lemma_min_max_order, lemma_sorted_ends,
    lemma_sqrt_floor_unique, lemma_statistics_ordered, isqrt, series_bounded, series_stats,
    sorted_of, spec_coeff_var, spec_max, spec_mean, spec_min, spec_percentile, spec_std_dev,
    sqrt_floor, stats_in_range, stats_wf, SeriesStats, SERIES_BOUND, SERIES_CAP,
};
use vstd::prelude::*;

verus! {

/// Largest magnitude a single axis reading may have, in fixed-point
/// sensor units.
pub const SAMPLE_BOUND: i64 = 1_000_000_000;

/// One three-axis accelerometer reading, in fixed-point sensor units.
#[derive(Clone, Copy, Debug, PartialEq, Eq, Structural)]
pub struct Sample {
    pub x: i64,
    pub y: i64,
    pub z: i64,
}

/// Every axis of the reading is within the sample bound.
pub open spec fn sample_wf(s: Sample) -> bool {
    &&& -SAMPLE_BOUND <= s.x <= SAMPLE_BOUND
    &&& -SAMPLE_BOUND <= s.y <= SAMPLE_BOUND
    &&& -SAMPLE_BOUND <= s.z <= SAMPLE_BOUND
}

/// Every reading of the window is within bounds.
pub open spec fn samples_wf(w: Seq<Sample>) -> bool {
    forall|i: int| 0 <= i < w.len() ==> sample_wf(#[trigger] w[i])
}

/// The x-axis series of a window.
pub open spec fn xs(w: Seq<Sample>) -> Seq<i64> {
    w.map_values(|s: Sample| s.x)
}

/// The y-axis series of a window.
pub open spec fn ys(w: Seq<Sample>) -> Seq<i64> {
    w.map_values(|s: Sample| s.y)
}

/// The z-axis series of a window.
pub open spec fn zs(w: Seq<Sample>) -> Seq<i64> {
    w.map_values(|s: Sample| s.z)
}

/// The Euclidean magnitude of one reading, rounded down.
pub open spec fn spec_magnitude(s: Sample) -> int {
    sqrt_floor(s.x * s.x + s.y * s.y + s.z * s.z)
}

/// The magnitude series of a window.
pub open spec fn mags(w: Seq<Sample>) -> Seq<i64> {
    w.map_values(|s: Sample| spec_magnitude(s) as i64)
}

/// The seven statistics of one series, bundled.
pub open spec fn spec_series_stats(s: Seq<i64>) -> SeriesStats {
    SeriesStats {
        mean: spec_mean(s) as i64,
        std_dev: spec_std_dev(s) as i64,
        min: spec_min(s) as i64,
        max: spec_max(s) as i64,
        coeff_var: spec_coeff_var(s) as i64,
        p25: spec_percentile(s, 25) as i64,
        p75: spec_percentile(s, 75) as i64,
    }
}

/// The 28-value statistical summary of one window: four series in fixed
/// order, each with its seven statistics in fixed order.
#[derive(Clone, Copy, Debug, PartialEq, Eq, Structural)]
pub struct FeatureVector {
    pub mag: SeriesStats,
    pub x: SeriesStats,
    pub y: SeriesStats,
    pub z: SeriesStats,
}

/// The feature vector of a non-empty window.
pub open spec fn spec_features(w: Seq<Sample>) -> FeatureVector {
    FeatureVector {
        mag: spec_series_stats(mags(w)),
        x: spec_series_stats(xs(w)),
        y: spec_series_stats(ys(w)),
        z: spec_series_stats(zs(w)),
    }
}

/// Every statistic of every series of the vector is within the ranges a
/// well-formed window can produce.
pub open spec fn features_in_range(fv: FeatureVector) -> bool {
    &&& stats_in_range(fv.mag)
    &&& stats_in_range(fv.x)
    &&& stats_in_range(fv.y)
    &&& stats_in_range(fv.z)
}

/// A window the extractor accepts: bounded length, bounded readings.
pub open spec fn window_wf(w: Seq<Sample>) -> bool {
    &&& w.len() <= SERIES_CAP
    &&& samples_wf(w)
}

/// Computes the Euclidean magnitude of one reading, rounded down.
pub fn magnitude(s: &Sample) -> (m: i64)
    requires
        sample_wf(*s),
    ensures
        m == spec_magnitude(*s),
        0 <= m <= SERIES_BOUND,
{
    let xa: u64 = if s.x >= 0 {
        s.x as u64
    } else {
        (-s.x) as u64
    };
    let ya: u64 = if s.y >= 0 {
        s.y as u64
    } else {
        (-s.y) as u64
    };
    let za: u64 = if s.z >= 0 {
        s.z as u64
    } else {
        (-s.z) as u64
    };
    proof {
        assert((xa as int) * (xa as int) == (s.x as int) * (s.x as int) && (xa as int) * (
        xa as int) <= 1_000_000_000_000_000_000int) by (nonlinear_arith)
            requires
                0 <= xa <= 1_000_000_000,
                xa == if s.x >= 0 {
                    s.x as int
                } else {
                    -(s.x as int)
                },
        ;
        assert((ya as int) * (ya as int) == (s.y as int) * (s.y as int) && (ya as int) * (
        ya as int) <= 1_000_000_000_000_000_000int) by (nonlinear_arith)
            requires
                0 <= ya <= 1_000_000_000,
                ya == if s.y >= 0 {
                    s.y as int
                } else {
                    -(s.y as int)
                },
        ;
        assert((za as int) * (za as int) == (s.z as int) * (s.z as int) && (za as int) * (
        za as int) <= 1_000_000_000_000_000_000int) by (nonlinear_arith)
            requires
                0 <= za <= 1_000_000_000,
                za == if s.z >= 0 {
                    s.z as int
                } else {
                    -(s.z as int)
                },
        ;
    }
    let sq: u64 = xa * xa + ya * ya + za * za;
    let root = isqrt(sq as u128);
    proof {
        assert(root as int <= 1_800_000_000int) by (nonlinear_arith)
            requires
                0 <= root,
                (root as int) * (root as int) <= 3_000_000_000_000_000_000int,
        ;
        lemma_sqrt_floor_unique(sq as int, root as int);
    }
    root as i64
}

/// Extracts the feature vector of one window.  A zero-length window is
/// rejected with a typed error rather than summarised; every non-empty
/// window yields exactly the feature vector that `spec_features` assigns
/// to it, so identical windows always produce identical vectors.
pub fn extract_features(w: &Vec<Sample>) -> (r: Result<FeatureVector, FeatureError>)
    requires
        window_wf(w@),
    ensures
        r is Ok <==> w@.len() > 0,
        r matches Ok(fv) ==> fv == spec_features(w@) && features_in_range(fv),
{
    let n: usize = w.len();
    if n == 0 {
        return Err(FeatureError::EmptyWindow);
    }
    let mut mv: Vec<i64> = Vec::new();
    let mut xv: Vec<i64> = Vec::new();
    let mut yv: Vec<i64> = Vec::new();
    let mut zv: Vec<i64> = Vec::new();
    let mut i: usize = 0;
    while i < n
        invariant
            0 <= i <= n,
            n == w@.len(),
            window_wf(w@),
            mv@.len() == i && xv@.len() == i && yv@.len() == i && zv@.len() == i,
            forall|j: int| 0 <= j < i ==> #[trigger] mv@[j] == spec_magnitude(w@[j]) as i64,
            forall|j: int| 0 <= j < i ==> 0 <= #[trigger] mv@[j] <= SERIES_BOUND,
            forall|j: int| 0 <= j < i ==> #[trigger] xv@[j] == w@[j].x,
            forall|j: int| 0 <= j < i ==> #[trigger] yv@[j] == w@[j].y,
            forall|j: int| 0 <= j < i ==> #[trigger] zv@[j] == w@[j].z,
        decreases n - i,
    {
        proof {
            assert(sample_wf(w@[i as int]));
        }
        let s = w[i];
        let m = magnitude(&s);
        mv.push(m);
        xv.push(s.x);
        yv.push(s.y);
        zv.push(s.z);
        i += 1;
    }
    proof {
        assert(mv@ =~= mags(w@));
        assert(xv@ =~= xs(w@));
        assert(yv@ =~= ys(w@));
        assert(zv@ =~= zs(w@));
        assert(stats_wf(mv@));
        assert(stats_wf(xv@));
        assert(stats_wf(yv@));
        assert(stats_wf(zv@));
    }
    let mag_st = series_stats(&mv);
    let x_st = series_stats(&xv);
    let y_st = series_stats(&yv);
    let z_st = series_stats(&zv);
    let fv = FeatureVector { mag: mag_st, x: x_st, y: y_st, z: z_st };
    proof {
        assert(fv == spec_features(w@));
    }
    Ok(fv)
}

/// The per-axis extremes of one activity's readings, for the training
/// data summary.
#[derive(Clone, Copy, Debug, PartialEq, Eq, Structural)]
pub struct AxisExtremes {
    pub min_x: i64,
    pub min_y: i64,
    pub min_z: i64,
    pub max_x: i64,
    pub max_y: i64,
    pub max_z: i64,
}

/// Computes the smallest and largest reading of each axis over a
/// non-empty sample sequence.
pub fn axis_extremes(w: &Vec<Sample>) -> (r: AxisExtremes)
    requires
        window_wf(w@),
        w@.len() >= 1,
    ensures
        r.min_x == spec_min(xs(w@)) && r.max_x == spec_max(xs(w@)),
        r.min_y == spec_min(ys(w@)) && r.max_y == spec_max(ys(w@)),
        r.min_z == spec_min(zs(w@)) && r.max_z == spec_max(zs(w@)),
{
    let n: usize = w.len();
    let mut xv: Vec<i64> = Vec::new();
    let mut yv: Vec<i64> = Vec::new();
    let mut zv: Vec<i64> = Vec::new();
    let mut i: usize = 0;
    while i < n
        invariant
            0 <= i <= n,
            n == w@.len(),
            window_wf(w@),
            xv@.len() == i && yv@.len() == i && zv@.len() == i,
            forall|j: int| 0 <= j < i ==> #[trigger] xv@[j] == w@[j].x,
            forall|j: int| 0 <= j < i ==> #[trigger] yv@[j] == w@[j].y,
            forall|j: int| 0 <= j < i ==> #[trigger] zv@[j] == w@[j].z,
        decreases n - i,
    {
        let s = w[i];
        xv.push(s.x);
        yv.push(s.y);
        zv.push(s.z);
        i += 1;
    }
    proof {
        assert(xv@ =~= xs(w@));
        assert(yv@ =~= ys(w@));
        assert(zv@ =~= zs(w@));
        lemma_window_series_wf(w@);
    }
    let (min_x, max_x) = crate::stats::min_max_series(&xv);
    let (min_y, max_y) = crate::stats::min_max_series(&yv);
    let (min_z, max_z) = crate::stats::min_max_series(&zv);
    AxisExtremes { min_x, min_y, min_z, max_x, max_y, max_z }
}

/// The order statistics of one well-formed series are ordered in its
/// bundled statistics, the casts to machine integers being exact within
/// the series bound.
pub proof fn lemma_series_stats_ordered(s: Seq<i64>)
    requires
        stats_wf(s),
    ensures
        spec_series_stats(s).min <= spec_series_stats(s).p25,
        spec_series_stats(s).p25 <= spec_series_stats(s).p75,
        spec_series_stats(s).p75 <= spec_series_stats(s).max,
        spec_series_stats(s).min <= spec_series_stats(s).mean,
        spec_series_stats(s).mean <= spec_series_stats(s).max,
{
    lemma_statistics_ordered(s);
    lemma_min_max_order(s);
    lemma_mean_in_range(s);
    assert(-SERIES_BOUND <= spec_min(s) <= SERIES_BOUND) by {
        let i = choose|i: int| 0 <= i < s.len() && s[i] == spec_min(s);
        assert(-SERIES_BOUND <= s[i] <= SERIES_BOUND);
    }
    assert(-SERIES_BOUND <= spec_max(s) <= SERIES_BOUND) by {
        let i = choose|i: int| 0 <= i < s.len() && s[i] == spec_max(s);
        assert(-SERIES_BOUND <= s[i] <= SERIES_BOUND);
    }
}

/// For every non-empty window, on each of the four series of its feature
/// vector, the minimum is at most the 25th percentile, which is at most
/// the 75th percentile, which is at most the maximum; and the mean lies
/// between the minimum and the maximum.
pub proof fn lemma_feature_statistics_ordered(w: Seq<Sample>)
    requires
        window_wf(w),
        w.len() >= 1,
    ensures
        ({
            let fv = spec_features(w);
            &&& fv.mag.min <= fv.mag.p25 <= fv.mag.p75 <= fv.mag.max
            &&& fv.mag.min <= fv.mag.mean <= fv.mag.max
            &&& fv.x.min <= fv.x.p25 <= fv.x.p75 <= fv.x.max
            &&& fv.x.min <= fv.x.mean <= fv.x.max
            &&& fv.y.min <= fv.y.p25 <= fv.y.p75 <= fv.y.max
            &&& fv.y.min <= fv.y.mean <= fv.y.max
            &&& fv.z.min <= fv.z.p25 <= fv.z.p75 <= fv.z.max
            &&& fv.z.min <= fv.z.mean <= fv.z.max
        }),
{
    lemma_window_series_wf(w);
    lemma_series_stats_ordered(mags(w));
    lemma_series_stats_ordered(xs(w));
    lemma_series_stats_ordered(ys(w));
    lemma_series_stats_ordered(zs(w));
}

/// The four series of a well-formed window are themselves well-formed
/// series: the axis series inherit the sample bound, and each magnitude
/// is a floor square root of a sum of three bounded squares.
pub proof fn lemma_window_series_wf(w: Seq<Sample>)
    requires
        window_wf(w),
        w.len() >= 1,
    ensures
        stats_wf(mags(w)),
        stats_wf(xs(w)),
        stats_wf(ys(w)),
        stats_wf(zs(w)),
{
    assert forall|i: int|
        0 <= i < w.len() implies -(SERIES_BOUND as int) <= #[trigger] xs(w)[i]
        <= SERIES_BOUND as int && -(SERIES_BOUND as int) <= ys(w)[i] <= SERIES_BOUND as int && -(
    SERIES_BOUND as int) <= zs(w)[i] <= SERIES_BOUND as int by {
        assert(sample_wf(w[i]));
    }
    assert forall|i: int|
        0 <= i < w.len() implies -(SERIES_BOUND as int) <= #[trigger] mags(w)[i]
        <= SERIES_BOUND as int by {
        assert(sample_wf(w[i]));
        lemma_magnitude_in_range(w[i]);
    }
}

/// The magnitude of a bounded reading stays within the series bound.
proof fn lemma_magnitude_in_range(s: Sample)
    requires
        sample_wf(s),
    ensures
        0 <= spec_magnitude(s) <= SERIES_BOUND,
{
    let n = s.x * s.x + s.y * s.y + s.z * s.z;
    assert(0 <= s.x * s.x + s.y * s.y + s.z * s.z <= 3_000_000_000_000_000_000int) by (
    nonlinear_arith)
        requires
            -1_000_000_000 <= s.x <= 1_000_000_000,
            -1_000_000_000 <= s.y <= 1_000_000_000,
            -1_000_000_000 <= s.z <= 1_000_000_000,
    ;
    lemma_sqrt_floor_exists(n);
    let r = sqrt_floor(n);
    assert(is_sqrt_floor(n, r));
    assert(r <= 1_800_000_000int) by (nonlinear_arith)
        requires
            0 <= r,
            r * r <= 3_000_000_000_000_000_000int,
    ;
}

/// Every non-negative integer has a floor square root.
proof fn lemma_sqrt_floor_exists(n: int)
    requires
        n >= 0,
    ensures
        exists|r: int| is_sqrt_floor(n, r),
        is_sqrt_floor(n, sqrt_floor(n)),
    decreases n,
{
    if n == 0 {
        assert(is_sqrt_floor(0, 0));
    } else {
        lemma_sqrt_floor_exists(n - 1);
        let r = sqrt_floor(n - 1);
        assert(is_sqrt_floor(n - 1, r));
        if (r + 1) * (r + 1) <= n {
            assert(n <= (r + 1) * (r + 1)) by (nonlinear_arith)
                requires
                    0 <= r,
                    n - 1 < (r + 1) * (r + 1),
            ;
            assert(n < (r + 2) * (r + 2)) by (nonlinear_arith)
                requires
                    0 <= r,
                    n == (r + 1) * (r + 1),
            ;
            assert(is_sqrt_floor(n, r + 1));
        } else {
            assert(is_sqrt_floor(n, r));
        }
    }
}

/// The 28 values of a feature vector in their fixed wire order.
pub open spec fn spec_row(fv: FeatureVector) -> Seq<i64> {
    seq![
        fv.mag.mean,
        fv.mag.std_dev,
        fv.mag.min,
        fv.mag.max,
        fv.mag.coeff_var,
        fv.mag.p25,
        fv.mag.p75,
        fv.x.mean,
        fv.x.std_dev,
        fv.x.min,
        fv.x.max,
        fv.x.coeff_var,
        fv.x.p25,
        fv.x.p75,
        fv.y.mean,
        fv.y.std_dev,
        fv.y.min,
        fv.y.max,
        fv.y.coeff_var,
        fv.y.p25,
        fv.y.p75,
        fv.z.mean,
        fv.z.std_dev,
        fv.z.min,
        fv.z.max,
        fv.z.coeff_var,
        fv.z.p25,
        fv.z.p75,
    ]
}

impl FeatureVector {
    /// Flattens the vector into its 28 values, in the fixed order that
    /// both the trainer and the classifier rely on.
    pub fn to_row(&self) -> (r: Vec<i64>)
        ensures
            r@ == spec_row(*self),
            r@.len() == 28,
    {
        let mut r: Vec<i64> = Vec::new();
        r.push(self.mag.mean);
        r.push(self.mag.std_dev);
        r.push(self.mag.min);
        r.push(self.mag.max);
        r.push(self.mag.coeff_var);
        r.push(self.mag.p25);
        r.push(self.mag.p75);
        r.push(self.x.mean);
        r.push(self.x.std_dev);
        r.push(self.x.min);
        r.push(self.x.max);
        r.push(self.x.coeff_var);
        r.push(self.x.p25);
        r.push(self.x.p75);
        r.push(self.y.mean);
        r.push(self.y.std_dev);
        r.push(self.y.min);
        r.push(self.y.max);
        r.push(self.y.coeff_var);
        r.push(self.y.p25);
        r.push(self.y.p75);
        r.push(self.z.mean);
        r.push(self.z.std_dev);
        r.push(self.z.min);
        r.push(self.z.max);
        r.push(self.z.coeff_var);
        r.push(self.z.p25);
        r.push(self.z.p75);
        proof {
            assert(r@ =~= spec_row(*self));
        }
        r
    }
}

} // verus!
