//! The feature matrix: one row of descriptors per cell, and its min-max
//! normalisation, column by column, in fixed point.

use crate::pixels::ChannelMean;
use crate::vector::{grid, uniform};
use vstd::prelude::*;

verus! {

/// The fixed-point value that stands for `1.0` in a normalised matrix.
pub const UNIT: i32 = 1_000_000;

/// The raw matrix as mathematical integers: one row per cell, one column per
/// feature.
pub open spec fn raw_grid(m: Seq<Vec<i64>>) -> Seq<Seq<int>> {
    Seq::new(m.len(), |i: int| Seq::new(m[i]@.len(), |j: int| m[i]@[j] as int))
}

/// The smallest value of column `j` in the first `n` rows.
pub open spec fn column_min(m: Seq<Seq<int>>, j: int, n: int) -> int
    decreases n,
{
    if n <= 1 {
        m[0][j]
    } else {
        let rest = column_min(m, j, n - 1);
        if m[n - 1][j] < rest {
            m[n - 1][j]
        } else {
            rest
        }
    }
}

/// The largest value of column `j` in the first `n` rows.
pub open spec fn column_max(m: Seq<Seq<int>>, j: int, n: int) -> int
    decreases n,
{
    if n <= 1 {
        m[0][j]
    } else {
        let rest = column_max(m, j, n - 1);
        if m[n - 1][j] > rest {
            m[n - 1][j]
        } else {
            rest
        }
    }
}

/// Where `v` lies between `lo` and `hi`, as a fraction of `UNIT` rounded
/// down; zero when the two bounds coincide.
pub open spec fn scaled(v: int, lo: int, hi: int) -> int {
    if hi == lo {
        0
    } else {
        (v - lo) * UNIT as int / (hi - lo)
    }
}

/// The matrix with every value replaced by its place between the smallest and
/// the largest value of its column.
pub open spec fn normalized(m: Seq<Seq<int>>) -> Seq<Seq<int>> {
    Seq::new(
        m.len(),
        |i: int|
            Seq::new(
                m[i].len(),
                |j: int|
                    scaled(
                        m[i][j],
                        column_min(m, j, m.len() as int),
                        column_max(m, j, m.len() as int),
                    ),
            ),
    )
}

/// The column's smallest and largest values bound every value of the column,
/// and each is the value of some row.
pub proof fn lemma_column_bounds(m: Seq<Seq<int>>, j: int, n: int)
    requires
        1 <= n <= m.len(),
    ensures
        forall|i: int| 0 <= i < n ==> column_min(m, j, n) <= (#[trigger] m[i])[j] <= column_max(m, j, n),
        exists|i: int| 0 <= i < n && (#[trigger] m[i])[j] == column_min(m, j, n),
        exists|i: int| 0 <= i < n && (#[trigger] m[i])[j] == column_max(m, j, n),
    decreases n,
{
    if n > 1 {
        lemma_column_bounds(m, j, n - 1);
        let lo = choose|i: int| 0 <= i < n - 1 && (#[trigger] m[i])[j] == column_min(m, j, n - 1);
        let hi = choose|i: int| 0 <= i < n - 1 && (#[trigger] m[i])[j] == column_max(m, j, n - 1);
        if m[n - 1][j] < column_min(m, j, n - 1) {
            assert(m[n - 1][j] == column_min(m, j, n));
        } else {
            assert(m[lo][j] == column_min(m, j, n));
        }
        if m[n - 1][j] > column_max(m, j, n - 1) {
            assert(m[n - 1][j] == column_max(m, j, n));
        } else {
            assert(m[hi][j] == column_max(m, j, n));
        }
    } else {
        assert(m[0][j] == column_min(m, j, n));
    }
}

/// A value between the bounds is scaled into `0..=UNIT`: the lower bound to
/// zero and, where the bounds differ, the upper bound to `UNIT`.
pub proof fn lemma_scaled_range(v: int, lo: int, hi: int)
    requires
        lo <= v <= hi,
    ensures
        0 <= scaled(v, lo, hi) <= UNIT,
        scaled(lo, lo, hi) == 0,
        lo < hi ==> scaled(hi, lo, hi) == UNIT,
        lo == hi ==> scaled(v, lo, hi) == 0,
{
    if lo < hi {
        let span = hi - lo;
        let unit = UNIT as int;
        assert(0 <= (v - lo) * unit <= span * unit) by (nonlinear_arith)
            requires
                0 <= v - lo <= span,
                unit == 1_000_000,
        ;
        assert(0 <= ((v - lo) * unit) / span <= unit) by (nonlinear_arith)
            requires
                0 <= (v - lo) * unit <= span * unit,
                span > 0,
        ;
        assert((lo - lo) * unit / span == 0) by (nonlinear_arith)
            requires
                span > 0,
        ;
        assert((hi - lo) * unit / span == unit) by (nonlinear_arith)
            requires
                span == hi - lo,
                span > 0,
        ;
    }
}

/// Of any matrix with at least one row: a column that holds one value
/// throughout is normalised to zero throughout; in a column that varies, the
/// rows with its smallest value get zero and the rows with its largest get
/// `UNIT`; and every normalised value lies in `0..=UNIT`.
pub proof fn lemma_normalized_column(m: Seq<Seq<int>>, j: int)
    requires
        m.len() > 0,
        forall|i: int| 0 <= i < m.len() ==> 0 <= j < (#[trigger] m[i]).len(),
    ensures
        forall|i: int| 0 <= i < m.len() ==> 0 <= (#[trigger] normalized(m)[i])[j] <= UNIT,
        (forall|i: int| 0 <= i < m.len() ==> (#[trigger] m[i])[j] == m[0][j]) ==> forall|i: int|
            0 <= i < m.len() ==> (#[trigger] normalized(m)[i])[j] == 0,
        forall|i: int|
            0 <= i < m.len() && (#[trigger] m[i])[j] == column_min(m, j, m.len() as int)
                ==> normalized(m)[i][j] == 0,
        forall|i: int|
            0 <= i < m.len() && (#[trigger] m[i])[j] == column_max(m, j, m.len() as int)
                && column_min(m, j, m.len() as int) < column_max(m, j, m.len() as int)
                ==> normalized(m)[i][j] == UNIT,
{
    let n = m.len() as int;
    let lo = column_min(m, j, n);
    let hi = column_max(m, j, n);
    lemma_column_bounds(m, j, n);
    assert forall|i: int| 0 <= i < m.len() implies 0 <= (#[trigger] normalized(m)[i])[j]
        <= UNIT by {
        assert(lo <= m[i][j] <= hi);
        lemma_scaled_range(m[i][j], lo, hi);
    }
    if forall|i: int| 0 <= i < m.len() ==> (#[trigger] m[i])[j] == m[0][j] {
        assert(lo == hi);
        assert forall|i: int| 0 <= i < m.len() implies (#[trigger] normalized(m)[i])[j] == 0 by {}
    }
    assert forall|i: int| 0 <= i < m.len() && (#[trigger] m[i])[j] == lo implies normalized(
        m,
    )[i][j] == 0 by {
        lemma_scaled_range(lo, lo, hi);
    }
    assert forall|i: int| 0 <= i < m.len() && (#[trigger] m[i])[j] == hi && lo < hi implies normalized(
        m,
    )[i][j] == UNIT by {
        lemma_scaled_range(hi, lo, hi);
    }
}

/// The smallest and the largest value of column `j`.
fn column_bounds(features: &Vec<Vec<i64>>, j: usize) -> (bounds: (i64, i64))
    requires
        features.len() > 0,
        forall|i: int| 0 <= i < features.len() ==> j < (#[trigger] features@[i]).len(),
    ensures
        bounds.0 == column_min(raw_grid(features@), j as int, features.len() as int),
        bounds.1 == column_max(raw_grid(features@), j as int, features.len() as int),
{
    let ghost m = raw_grid(features@);
    assert(m[0][j as int] == features@[0]@[j as int]);
    let mut lo: i64 = features[0][j];
    let mut hi: i64 = features[0][j];
    let mut i: usize = 1;
    while i < features.len()
        invariant
            1 <= i <= features.len(),
            m == raw_grid(features@),
            forall|i: int| 0 <= i < features.len() ==> j < (#[trigger] features@[i]).len(),
            lo == column_min(m, j as int, i as int),
            hi == column_max(m, j as int, i as int),
        decreases features.len() - i,
    {
        assert(m[i as int][j as int] == features@[i as int]@[j as int]);
        let v = features[i][j];
        if v < lo {
            lo = v;
        }
        if v > hi {
            hi = v;
        }
        i += 1;
    }
    (lo, hi)
}

/// The place of `v` between `lo` and `hi` as a fraction of `UNIT`.
fn scale_value(v: i64, lo: i64, hi: i64) -> (s: i32)
    requires
        lo <= v <= hi,
    ensures
        s == scaled(v as int, lo as int, hi as int),
{
    if hi == lo {
        return 0;
    }
    let span: u128 = (hi as i128 - lo as i128) as u128;
    let offset: u128 = (v as i128 - lo as i128) as u128;
    proof {
        lemma_scaled_range(v as int, lo as int, hi as int);
        assert(offset * 1_000_000 <= 0xffff_ffff_ffff_ffff * 1_000_000) by (nonlinear_arith)
            requires
                offset <= 0xffff_ffff_ffff_ffff,
        ;
    }
    let q: u128 = offset * 1_000_000 / span;
    q as i32
}

/// Normalises every column of the matrix to `0..=UNIT`: each value becomes
/// `(v - min) * UNIT / (max - min)`, rounded down, with the column's smallest
/// and largest value over all rows; a column whose values are all equal
/// becomes zero. The rows must be of one length.
pub fn normalize_features(features: &Vec<Vec<i64>>) -> (out: Vec<Vec<i32>>)
    requires
        exists|dim: int| uniform(raw_grid(features@), dim),
    ensures
        grid(out@) == normalized(raw_grid(features@)),
{
    let ghost m = raw_grid(features@);
    let ghost dim = choose|dim: int| uniform(m, dim);
    let mut out: Vec<Vec<i32>> = Vec::new();
    if features.len() == 0 {
        assert(grid(out@) =~= normalized(m));
        return out;
    }
    let rows = features.len();
    let width = features[0].len();
    proof {
        assert(m[0].len() == width);
        assert forall|i: int| 0 <= i < features.len() implies (#[trigger] features@[i]).len()
            == width by {
            assert(m[i].len() == dim);
        }
    }
    let mut bounds: Vec<(i64, i64)> = Vec::new();
    let mut j: usize = 0;
    while j < width
        invariant
            j <= width,
            rows == features.len(),
            rows > 0,
            m == raw_grid(features@),
            forall|i: int| 0 <= i < features.len() ==> (#[trigger] features@[i]).len() == width,
            bounds.len() == j,
            forall|x: int|
                0 <= x < j ==> (#[trigger] bounds@[x]).0 == column_min(m, x, rows as int)
                    && bounds@[x].1 == column_max(m, x, rows as int),
        decreases width - j,
    {
        let b = column_bounds(features, j);
        bounds.push(b);
        j += 1;
    }
    let mut i: usize = 0;
    while i < rows
        invariant
            i <= rows,
            rows == features.len(),
            m == raw_grid(features@),
            forall|i: int| 0 <= i < features.len() ==> (#[trigger] features@[i]).len() == width,
            bounds.len() == width,
            forall|x: int|
                0 <= x < width ==> (#[trigger] bounds@[x]).0 == column_min(m, x, rows as int)
                    && bounds@[x].1 == column_max(m, x, rows as int),
            out.len() == i,
            forall|x: int| 0 <= x < i ==> #[trigger] grid(out@)[x] == normalized(m)[x],
        decreases rows - i,
    {
        let mut row: Vec<i32> = Vec::new();
        let mut j: usize = 0;
        while j < width
            invariant
                j <= width,
                i < rows,
                rows == features.len(),
                m == raw_grid(features@),
                forall|i: int| 0 <= i < features.len() ==> (#[trigger] features@[i]).len() == width,
                bounds.len() == width,
                forall|x: int|
                    0 <= x < width ==> (#[trigger] bounds@[x]).0 == column_min(m, x, rows as int)
                        && bounds@[x].1 == column_max(m, x, rows as int),
                row.len() == j,
                forall|x: int|
                    0 <= x < j ==> #[trigger] row@[x] == scaled(
                        m[i as int][x],
                        column_min(m, x, rows as int),
                        column_max(m, x, rows as int),
                    ),
            decreases width - j,
        {
            let v = features[i][j];
            let b = bounds[j];
            proof {
                assert(m[i as int][j as int] == v);
                lemma_column_bounds(m, j as int, rows as int);
            }
            let s = scale_value(v, b.0, b.1);
            row.push(s);
            j += 1;
        }
        let ghost done = out@;
        out.push(row);
        proof {
            assert(grid(out@)[i as int] =~= normalized(m)[i as int]);
            assert forall|x: int| 0 <= x < i + 1 implies #[trigger] grid(out@)[x] == normalized(
                m,
            )[x] by {
                if x < i {
                    assert(grid(done)[x] == normalized(m)[x]);
                    assert(grid(out@)[x] == grid(done)[x]);
                }
            }
        }
        i += 1;
    }
    proof {
        assert(grid(out@) =~= normalized(m));
    }
    out
}

/// The number of descriptors of a cell.
pub const FEATURES: usize = 7;

/// The factor by which a channel's mean is scaled before it is rounded down
/// to a whole number.
pub const MEAN_SCALE: u128 = 1000;

/// The mean is that of at least one and at most `u64::MAX` pixels, with no
/// channel above 255.
pub open spec fn is_mean(mean: ChannelMean) -> bool {
    &&& 0 < mean.denominator <= u64::MAX
    &&& mean.red <= 255 * mean.denominator
    &&& mean.green <= 255 * mean.denominator
    &&& mean.blue <= 255 * mean.denominator
}

/// The descriptors of one cell: the centre's `x` and `y`, twice the hull's
/// area, the mean red, green and blue in thousandths, and the cell's share
/// of the image.
pub open spec fn feature_row(
    centre: (i32, i32),
    doubled_area: u128,
    mean: ChannelMean,
    share: u64,
) -> Seq<int> {
    seq![
        centre.0 as int,
        centre.1 as int,
        doubled_area as int,
        (mean.red * MEAN_SCALE) as int / (mean.denominator as int),
        (mean.green * MEAN_SCALE) as int / (mean.denominator as int),
        (mean.blue * MEAN_SCALE) as int / (mean.denominator as int),
        share as int,
    ]
}

/// The four lists describe the same cells, with values that a row can hold.
pub open spec fn can_assemble(
    centres: Seq<(i32, i32)>,
    doubled_areas: Seq<u128>,
    means: Seq<ChannelMean>,
    shares: Seq<u64>,
) -> bool {
    &&& doubled_areas.len() == centres.len()
    &&& means.len() == centres.len()
    &&& shares.len() == centres.len()
    &&& forall|i: int|
        0 <= i < centres.len() ==> (#[trigger] doubled_areas[i]) <= i64::MAX && is_mean(means[i])
            && shares[i] <= i64::MAX
}

/// The thousandths of a channel's mean, rounded down.
fn scaled_mean(sum: u128, denominator: u128) -> (m: i64)
    requires
        0 < denominator <= u64::MAX,
        sum <= 255 * denominator,
    ensures
        m == (sum * MEAN_SCALE) as int / (denominator as int),
{
    assert(sum * 1000 <= 255 * 0xffff_ffff_ffff_ffff * 1000) by (nonlinear_arith)
        requires
            sum <= 255 * denominator,
            denominator <= 0xffff_ffff_ffff_ffff,
    ;
    let q: u128 = sum * 1000 / denominator;
    assert(q <= 255_000) by (nonlinear_arith)
        requires
            q == (sum * 1000) / (denominator as int),
            sum <= 255 * denominator,
            denominator > 0,
    ;
    q as i64
}

/// Whether the mean is one that `assemble_features` takes.
fn mean_is_valid(mean: &ChannelMean) -> (ok: bool)
    ensures
        ok == is_mean(*mean),
{
    if mean.denominator == 0 || mean.denominator > 0xffff_ffff_ffff_ffff {
        return false;
    }
    let limit: u128 = 255 * mean.denominator;
    mean.red <= limit && mean.green <= limit && mean.blue <= limit
}

/// Assembles the raw feature matrix, one row of `FEATURES` descriptors for
/// each cell. `None` when the lists differ in length, when an area or a share
/// does not fit in 64 bits with a sign, or when a mean is not the mean of
/// pixels.
pub fn assemble_features(
    centres: &Vec<(i32, i32)>,
    doubled_areas: &Vec<u128>,
    means: &Vec<ChannelMean>,
    shares: &Vec<u64>,
) -> (rows: Option<Vec<Vec<i64>>>)
    ensures
        rows is Some <==> can_assemble(centres@, doubled_areas@, means@, shares@),
        rows matches Some(m) ==> raw_grid(m@) == Seq::new(
            centres.len() as nat,
            |i: int| feature_row(centres@[i], doubled_areas@[i], means@[i], shares@[i]),
        ),
{
    let n = centres.len();
    if doubled_areas.len() != n || means.len() != n || shares.len() != n {
        return None;
    }
    let ghost goal = Seq::new(
        n as nat,
        |i: int| feature_row(centres@[i], doubled_areas@[i], means@[i], shares@[i]),
    );
    let mut rows: Vec<Vec<i64>> = Vec::new();
    let mut i: usize = 0;
    while i < n
        invariant
            i <= n,
            n == centres.len(),
            n == doubled_areas.len(),
            n == means.len(),
            n == shares.len(),
            goal == Seq::new(
                n as nat,
                |i: int| feature_row(centres@[i], doubled_areas@[i], means@[i], shares@[i]),
            ),
            rows.len() == i,
            forall|x: int|
                0 <= x < i ==> (#[trigger] doubled_areas@[x]) <= i64::MAX && is_mean(means@[x])
                    && shares@[x] <= i64::MAX,
            forall|x: int| 0 <= x < i ==> #[trigger] raw_grid(rows@)[x] == goal[x],
        decreases n - i,
    {
        let area = doubled_areas[i];
        let share = shares[i];
        let mean = means[i];
        if area > 0x7fff_ffff_ffff_ffff || share > 0x7fff_ffff_ffff_ffff || !mean_is_valid(&mean) {
            proof {
                assert(!(doubled_areas@[i as int] <= i64::MAX && is_mean(means@[i as int])
                    && shares@[i as int] <= i64::MAX));
            }
            return None;
        }
        let centre = centres[i];
        let mut row: Vec<i64> = Vec::new();
        row.push(centre.0 as i64);
        row.push(centre.1 as i64);
        row.push(area as i64);
        row.push(scaled_mean(mean.red, mean.denominator));
        row.push(scaled_mean(mean.green, mean.denominator));
        row.push(scaled_mean(mean.blue, mean.denominator));
        row.push(share as i64);
        let ghost done = rows@;
        rows.push(row);
        proof {
            assert(raw_grid(rows@)[i as int] =~= goal[i as int]);
            assert forall|x: int| 0 <= x < i + 1 implies #[trigger] raw_grid(rows@)[x]
                == goal[x] by {
                if x < i {
                    assert(raw_grid(done)[x] == goal[x]);
                    assert(raw_grid(rows@)[x] == raw_grid(done)[x]);
                }
            }
        }
        i += 1;
    }
    proof {
        assert(raw_grid(rows@) =~= goal);
    }
    Some(rows)
}

} // verus!
