//! Datasets and column normalization.
//!
//! A [`Dataset`] holds a row-per-sample feature matrix of fixed-point raw
//! measurements plus one integer outcome per row. [`Dataset::normalize`]
//! rescales each feature column by its own maximum so that every column
//! with a positive maximum peaks at exactly `SCALE` (the fixed-point `1.0`);
//! a column whose maximum is zero is left untouched.

use vstd::prelude::*;
use vstd::arithmetic::div_mod::{
    lemma_div_is_ordered, lemma_div_multiples_vanish, lemma_div_pos_is_pos,
};
use vstd::arithmetic::mul::{lemma_mul_inequality, lemma_mul_nonnegative};
use crate::fixed::SCALE;

verus! {

/// Largest raw feature value a dataset accepts; keeps `value * SCALE`
/// far below `i64::MAX`.
pub const RAW_MAX: i64 = 0x100_0000_0000;

/// The faults the library reports.
#[derive(Clone, Copy, Debug, PartialEq, Eq, Structural)]
pub enum SomError {
    /// A row, weight vector, or matrix has the wrong length.
    ShapeMismatch,
    /// A value lies outside the representable fixed-point range.
    ValueOutOfRange,
}

/// The sequence of row views of a vector of vectors.
pub open spec fn rows_view(v: Seq<Vec<i64>>) -> Seq<Seq<i64>> {
    Seq::new(v.len(), |i: int| v[i]@)
}

/// All rows have width `width` and entries within `[lo, hi]`.
pub open spec fn matrix_in_range(rows: Seq<Seq<i64>>, width: int, lo: int, hi: int) -> bool {
    &&& forall|r: int| 0 <= r < rows.len() ==> #[trigger] rows[r].len() == width
    &&& forall|r: int, c: int|
        0 <= r < rows.len() && 0 <= c < width ==> lo <= #[trigger] rows[r][c] <= hi
}

/// Maximum entry of column `c` over the first `n` rows, with `0` as the
/// maximum of no rows.
pub open spec fn col_max_upto(rows: Seq<Seq<i64>>, c: int, n: int) -> int
    decreases n,
{
    if n <= 0 {
        0
    } else {
        let prev = col_max_upto(rows, c, n - 1);
        if rows[n - 1][c] > prev {
            rows[n - 1][c] as int
        } else {
            prev
        }
    }
}

/// Maximum entry of column `c` over all rows.
pub open spec fn col_max(rows: Seq<Seq<i64>>, c: int) -> int {
    col_max_upto(rows, c, rows.len() as int)
}

/// Every entry of the first `n` rows of column `c` is bounded by the
/// running maximum, which itself is either `0` or one of those entries.
pub proof fn lemma_col_max_upto_props(rows: Seq<Seq<i64>>, c: int, n: int)
    requires
        0 <= n <= rows.len(),
    ensures
        forall|r: int| 0 <= r < n ==> #[trigger] rows[r][c] <= col_max_upto(rows, c, n),
        col_max_upto(rows, c, n) == 0 || exists|r: int|
            0 <= r < n && #[trigger] rows[r][c] == col_max_upto(rows, c, n),
    decreases n,
{
    if n > 0 {
        lemma_col_max_upto_props(rows, c, n - 1);
    }
}

/// What one entry normalizes to: scaled by its column maximum when that
/// maximum is positive, otherwise unchanged.
pub open spec fn norm_entry(rows: Seq<Seq<i64>>, r: int, c: int) -> int {
    let m = col_max(rows, c);
    if m > 0 {
        rows[r][c] * SCALE / m
    } else {
        rows[r][c] as int
    }
}

/// The whole feature matrix column-normalized: entry by entry `norm_entry`.
pub open spec fn normalized_matrix(rows: Seq<Seq<i64>>, width: int) -> Seq<Seq<i64>> {
    Seq::new(rows.len(), |r: int| Seq::new(width as nat, |c: int| norm_entry(rows, r, c) as i64))
}

/// A dataset: one feature row plus one integer outcome per sample.
#[derive(Debug)]
pub struct Dataset {
    features: Vec<Vec<i64>>,
    outcomes: Vec<i64>,
    dim: usize,
}

impl Dataset {
    /// The feature matrix.
    pub closed spec fn feats(&self) -> Seq<Seq<i64>> {
        rows_view(self.features@)
    }

    /// The outcome column.
    pub closed spec fn outs(&self) -> Seq<i64> {
        self.outcomes@
    }

    /// The feature dimensionality D.
    pub closed spec fn dim_spec(&self) -> int {
        self.dim as int
    }

    /// Well-formedness: at least one row, uniform width `1 <= D <= 2^20`,
    /// raw values within `[0, RAW_MAX]`, one outcome per row.
    pub open spec fn wf(&self) -> bool {
        &&& 1 <= self.dim_spec() <= 0x10_0000
        &&& self.feats().len() >= 1
        &&& self.outs().len() == self.feats().len()
        &&& matrix_in_range(self.feats(), self.dim_spec(), 0, RAW_MAX as int)
    }

    /// Number of sample rows.
    pub fn nrows(&self) -> (r: usize)
        requires
            self.wf(),
        ensures
            r == self.feats().len(),
            r == self.outs().len(),
    {
        self.features.len()
    }

    /// Feature dimensionality D.
    pub fn dim(&self) -> (r: usize)
        ensures
            r == self.dim_spec(),
    {
        self.dim
    }

    /// A borrowed feature row.
    pub fn feature_row(&self, r: usize) -> (row: &Vec<i64>)
        requires
            r < self.feats().len(),
        ensures
            row@ == self.feats()[r as int],
    {
        &self.features[r]
    }

    /// The outcome of row `r`.
    pub fn outcome(&self, r: usize) -> (v: i64)
        requires
            r < self.outs().len(),
        ensures
            v == self.outs()[r as int],
    {
        self.outcomes[r]
    }

    /// Builds a dataset from raw rows, each `dim` feature values followed by
    /// one outcome value. Fails with `ShapeMismatch` when there is no row,
    /// `dim` is zero or above `2^20`, or some row does not hold exactly
    /// `dim + 1` values; with `ValueOutOfRange` when a well-shaped input
    /// holds a feature outside `[0, RAW_MAX]`.
    pub fn new(rows: Vec<Vec<i64>>, dim: usize) -> (r: Result<Dataset, SomError>)
        ensures
            match r {
                Ok(d) => {
                    &&& d.wf()
                    &&& d.dim_spec() == dim
                    &&& rows@.len() >= 1
                    &&& 1 <= dim <= 0x10_0000
                    &&& d.feats().len() == rows@.len()
                    &&& forall|i: int| 0 <= i < rows@.len()
                        ==> #[trigger] rows_view(rows@)[i].len() == dim + 1
                            && d.feats()[i] == rows_view(rows@)[i].take(dim as int)
                            && d.outs()[i] == rows_view(rows@)[i][dim as int]
                },
                Err(SomError::ShapeMismatch) => rows@.len() == 0 || dim < 1 || dim > 0x10_0000
                    || exists|i: int| 0 <= i < rows@.len()
                        && #[trigger] rows_view(rows@)[i].len() != dim + 1,
                Err(SomError::ValueOutOfRange) => {
                    &&& rows@.len() >= 1 && 1 <= dim <= 0x10_0000
                    &&& forall|i: int| 0 <= i < rows@.len()
                        ==> #[trigger] rows_view(rows@)[i].len() == dim + 1
                    &&& exists|i: int, c: int| 0 <= i < rows@.len() && 0 <= c < dim
                        && !(0 <= #[trigger] rows_view(rows@)[i][c] <= RAW_MAX)
                },
            },
    {
        if rows.len() == 0 || dim < 1 || dim > 0x10_0000 {
            return Err(SomError::ShapeMismatch);
        }
        let nrows = rows.len();
        let mut i: usize = 0;
        while i < nrows
            invariant
                nrows == rows@.len(),
                i <= nrows,
                forall|j: int| 0 <= j < i ==> #[trigger] rows_view(rows@)[j].len() == dim + 1,
            decreases nrows - i,
        {
            assert(rows_view(rows@)[i as int] == rows@[i as int]@);
            if rows[i].len() != dim + 1 {
                return Err(SomError::ShapeMismatch);
            }
            i = i + 1;
        }
        let mut features: Vec<Vec<i64>> = Vec::new();
        let mut outcomes: Vec<i64> = Vec::new();
        let mut r: usize = 0;
        while r < nrows
            invariant
                r <= nrows,
                features@.len() == r,
                outcomes@.len() == r,
                forall|j: int| 0 <= j < r
                    ==> #[trigger] features@[j]@ == rows@[j]@.take(dim as int)
                        && outcomes@[j] == rows@[j]@[dim as int],
                forall|j: int, k: int| 0 <= j < r && 0 <= k < dim
                    ==> 0 <= #[trigger] features@[j]@[k] <= RAW_MAX,
            decreases nrows - r,
        {
            let row = &rows[r];
            assert(rows_view(rows@)[r as int] == row@);
            assert(row@.len() == dim + 1);
            let mut feat: Vec<i64> = Vec::new();
            let mut c: usize = 0;
            while c < dim
                invariant
                    c <= dim,
                    feat@.len() == c,
                    forall|k: int| 0 <= k < c
                        ==> #[trigger] feat@[k] == row@[k] && 0 <= feat@[k] <= RAW_MAX,
                decreases dim - c,
            {
                let v = row[c];
                if v < 0 || v > RAW_MAX {
                    assert(rows_view(rows@)[r as int][c as int] == row@[c as int]);
                    return Err(SomError::ValueOutOfRange);
                }
                feat.push(v);
                c = c + 1;
            }
            assert(feat@ =~= row@.take(dim as int));
            features.push(feat);
            outcomes.push(row[dim]);
            r = r + 1;
        }
        let d = Dataset { features, outcomes, dim };
        assert forall|j: int| 0 <= j < nrows implies #[trigger] d.feats()[j]
            == rows_view(rows@)[j].take(dim as int) && d.outs()[j] == rows_view(rows@)[j][dim as int] by {
            assert(d.feats()[j] == features@[j]@);
            assert(rows_view(rows@)[j] == rows@[j]@);
        }
        assert forall|j: int, k: int| 0 <= j < nrows && 0 <= k < dim
            implies 0 <= #[trigger] d.feats()[j][k] <= RAW_MAX by {
            assert(d.feats()[j] == features@[j]@);
        }
        assert forall|j: int| 0 <= j < nrows implies #[trigger] d.feats()[j].len() == dim by {
            assert(d.feats()[j] == features@[j]@);
        }
        Ok(d)
    }

    /// Rescales every feature column by its own maximum (see module doc);
    /// outcomes pass through unchanged.
    pub fn normalize(&self) -> (nd: NormalizedDataset)
        requires
            self.wf(),
        ensures
            nd.wf(),
            nd.dim_spec() == self.dim_spec(),
            nd.feats().len() == self.feats().len(),
            nd.outs() == self.outs(),
            forall|r: int, c: int|
                0 <= r < self.feats().len() && 0 <= c < self.dim_spec()
                    ==> #[trigger] nd.feats()[r][c] == norm_entry(self.feats(), r, c),
            nd.feats() == normalized_matrix(self.feats(), self.dim_spec()),
    {
        let nrows = self.features.len();
        let dim = self.dim;
        let ghost orig = self.feats();
        assert(orig.len() == nrows);
        // column maxima
        let mut maxima: Vec<i64> = Vec::new();
        let mut c: usize = 0;
        while c < dim
            invariant
                c <= dim,
                maxima@.len() == c,
                forall|k: int| 0 <= k < c ==> #[trigger] maxima@[k] == col_max(orig, k),
            decreases dim - c,
        {
            let mut m: i64 = 0;
            let mut r: usize = 0;
            while r < nrows
                invariant
                    r <= nrows,
                    c < dim,
                    m == col_max_upto(orig, c as int, r as int),
                decreases nrows - r,
            {
                assert(orig[r as int] == self.features@[r as int]@);
                assert(orig[r as int].len() == dim);
                let v = self.features[r][c];
                assert(v == orig[r as int][c as int]);
                if v > m {
                    m = v;
                }
                r = r + 1;
            }
            maxima.push(m);
            c = c + 1;
        }
        // scale each entry by its column maximum
        let mut out: Vec<Vec<i64>> = Vec::new();
        let mut r: usize = 0;
        while r < nrows
            invariant
                r <= nrows,
                out@.len() == r,
                forall|i: int| 0 <= i < r ==> #[trigger] out@[i]@.len() == dim,
                forall|i: int, k: int| 0 <= i < r && 0 <= k < dim
                    ==> #[trigger] out@[i]@[k] == norm_entry(orig, i, k)
                        && 0 <= out@[i]@[k] <= SCALE,
            decreases nrows - r,
        {
            let mut row: Vec<i64> = Vec::new();
            let mut k: usize = 0;
            while k < dim
                invariant
                    k <= dim,
                    r < nrows,
                    row@.len() == k,
                    forall|j: int| 0 <= j < k
                        ==> #[trigger] row@[j] == norm_entry(orig, r as int, j)
                            && 0 <= row@[j] <= SCALE,
                decreases dim - k,
            {
                assert(orig[r as int] == self.features@[r as int]@);
                assert(orig[r as int].len() == dim);
                let v = self.features[r][k];
                assert(v == orig[r as int][k as int] && 0 <= v <= RAW_MAX);
                let m = maxima[k];
                proof {
                    lemma_col_max_upto_props(orig, k as int, orig.len() as int);
                    assert(orig[r as int][k as int] <= col_max(orig, k as int));
                }
                let nv: i64;
                if m > 0 {
                    assert(0 <= v as int * SCALE <= RAW_MAX as int * SCALE) by (nonlinear_arith)
                        requires
                            0 <= v <= RAW_MAX,
                    ;
                    proof {
                        lemma_entry_scaled_in_range(v as int, m as int);
                    }
                    nv = (v * SCALE) / m;
                } else {
                    assert(v == 0);
                    nv = v;
                }
                row.push(nv);
                k = k + 1;
            }
            out.push(row);
            r = r + 1;
        }
        let mut outs: Vec<i64> = Vec::new();
        let mut j: usize = 0;
        while j < nrows
            invariant
                j <= nrows,
                outs@ == self.outs().take(j as int),
            decreases nrows - j,
        {
            outs.push(self.outcomes[j]);
            assert(outs@ =~= self.outs().take(j + 1));
            j = j + 1;
        }
        assert(outs@ =~= self.outs());
        let nd = NormalizedDataset { features: out, outcomes: outs, dim };
        assert forall|i: int, k: int| 0 <= i < nrows && 0 <= k < dim
            implies #[trigger] nd.feats()[i][k] == norm_entry(orig, i, k)
                && 0 <= nd.feats()[i][k] <= SCALE by {
            assert(nd.feats()[i] == out@[i]@);
        }
        assert forall|i: int| 0 <= i < nrows implies #[trigger] nd.feats()[i].len() == dim by {
            assert(nd.feats()[i] == out@[i]@);
        }
        proof {
            assert forall|i: int| 0 <= i < nrows
                implies #[trigger] nd.feats()[i] == normalized_matrix(orig, dim as int)[i] by {
                assert(nd.feats()[i] =~= normalized_matrix(orig, dim as int)[i]);
            }
            assert(nd.feats() =~= normalized_matrix(orig, dim as int));
        }
        nd
    }
}

/// For `0 <= e <= m`, the scaled entry `e * SCALE / m` stays within
/// `[0, SCALE]`, reaching `SCALE` exactly when `e == m`.
pub proof fn lemma_entry_scaled_in_range(e: int, m: int)
    requires
        0 <= e <= m,
        0 < m,
    ensures
        0 <= e * SCALE / m <= SCALE,
        e == m ==> e * SCALE / m == SCALE,
{
    lemma_mul_nonnegative(e, SCALE as int);
    lemma_div_pos_is_pos(e * SCALE, m);
    lemma_mul_inequality(e, m, SCALE as int);
    lemma_div_is_ordered(e * SCALE, m * SCALE, m);
    lemma_div_multiples_vanish(SCALE as int, m);
}

/// A dataset whose feature entries all lie in `[0, SCALE]`.
#[derive(Debug)]
pub struct NormalizedDataset {
    features: Vec<Vec<i64>>,
    outcomes: Vec<i64>,
    dim: usize,
}

impl NormalizedDataset {
    /// The normalized feature matrix.
    pub closed spec fn feats(&self) -> Seq<Seq<i64>> {
        rows_view(self.features@)
    }

    /// The outcome column.
    pub closed spec fn outs(&self) -> Seq<i64> {
        self.outcomes@
    }

    /// The feature dimensionality D.
    pub closed spec fn dim_spec(&self) -> int {
        self.dim as int
    }

    /// Well-formedness: like `Dataset::wf`, with entries in `[0, SCALE]`.
    pub open spec fn wf(&self) -> bool {
        &&& 1 <= self.dim_spec() <= 0x10_0000
        &&& self.feats().len() >= 1
        &&& self.outs().len() == self.feats().len()
        &&& matrix_in_range(self.feats(), self.dim_spec(), 0, SCALE as int)
    }

    /// Number of sample rows.
    pub fn nrows(&self) -> (r: usize)
        requires
            self.wf(),
        ensures
            r == self.feats().len(),
            r == self.outs().len(),
    {
        self.features.len()
    }

    /// Feature dimensionality D.
    pub fn dim(&self) -> (r: usize)
        ensures
            r == self.dim_spec(),
    {
        self.dim
    }

    /// A borrowed feature row.
    pub fn feature_row(&self, r: usize) -> (row: &Vec<i64>)
        requires
            r < self.feats().len(),
        ensures
            row@ == self.feats()[r as int],
    {
        &self.features[r]
    }

    /// The outcome of row `r`.
    pub fn outcome(&self, r: usize) -> (v: i64)
        requires
            r < self.outs().len(),
        ensures
            v == self.outs()[r as int],
    {
        self.outcomes[r]
    }
}

/// Law: normalization fixes each column's maximum. A column of the
/// normalized matrix peaks at exactly `SCALE` whenever the original
/// column's maximum was positive, and is unchanged (hence all zero)
/// whenever that maximum was zero.
pub proof fn lemma_normalized_col_max(orig: Seq<Seq<i64>>, norm: Seq<Seq<i64>>, width: int, c: int)
    requires
        orig.len() >= 1,
        norm.len() == orig.len(),
        0 <= c < width,
        matrix_in_range(orig, width, 0, RAW_MAX as int),
        forall|r: int| 0 <= r < norm.len() ==> #[trigger] norm[r].len() == width,
        forall|r: int| 0 <= r < norm.len() ==> #[trigger] norm[r][c] == norm_entry(orig, r, c),
    ensures
        col_max(orig, c) > 0 ==> col_max(norm, c) == SCALE,
        col_max(orig, c) == 0 ==> col_max(norm, c) == 0
            && forall|r: int| 0 <= r < norm.len() ==> #[trigger] norm[r][c] == orig[r][c],
{
    let n = orig.len() as int;
    let m = col_max(orig, c);
    lemma_col_max_upto_props(orig, c, n);
    lemma_col_max_upto_props(norm, c, n);
    assert(m >= 0) by {
        assert(orig[0][c] >= 0);
        assert(orig[0][c] <= m);
    }
    if m > 0 {
        // every normalized entry is at most SCALE ...
        assert forall|r: int| 0 <= r < n implies #[trigger] norm[r][c] <= SCALE by {
            assert(0 <= orig[r][c] <= m);
            lemma_entry_scaled_in_range(orig[r][c] as int, m);
        }
        // ... and some row attains the original maximum, hence SCALE.
        let r0 = choose|r: int| 0 <= r < n && #[trigger] orig[r][c] == m;
        lemma_entry_scaled_in_range(orig[r0][c] as int, m);
        assert(norm[r0][c] == SCALE);
        assert(norm[r0][c] <= col_max(norm, c));
        if col_max(norm, c) != 0 {
            let r1 = choose|r: int| 0 <= r < n && #[trigger] norm[r][c] == col_max(norm, c);
            assert(col_max(norm, c) <= SCALE);
        }
    } else {
        assert forall|r: int| 0 <= r < n implies #[trigger] norm[r][c] == orig[r][c] by {
            assert(0 <= orig[r][c] <= m);
        }
        if col_max(norm, c) != 0 {
            let r1 = choose|r: int| 0 <= r < n && #[trigger] norm[r][c] == col_max(norm, c);
            assert(norm[r1][c] == orig[r1][c]);
            assert(0 <= orig[r1][c] <= m);
            assert(false);
        }
    }
}

} // verus!
