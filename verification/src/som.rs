//! The self-organizing map: grid, best-matching-unit search, and the
//! randomized competitive training loop.
//!
//! Explicit configuration (see [`SomParams`]): the learning rate and the
//! neighborhood radius both decay linearly to zero over the configured
//! iteration count; the neighborhood kernel is linear in the Chebyshev
//! grid distance `d`, worth `(sigma + 1 - d) / (sigma + 1)` of the
//! learning rate for `d <= sigma` and nothing beyond the radius.

use vstd::prelude::*;
use vstd::arithmetic::div_mod::{
    lemma_div_pos_is_pos, lemma_fundamental_div_mod, lemma_fundamental_div_mod_converse,
    lemma_mod_bound,
};
use vstd::arithmetic::mul::lemma_mul_is_commutative;
use crate::fixed::{lemma_scaled_frac, SCALE};
use crate::dataset::{matrix_in_range, rows_view, NormalizedDataset, SomError};
use crate::rng::{lcg_iter, lcg_next, SomRng};

verus! {

/// Squared Euclidean distance over the first `n` coordinates.
pub open spec fn dist2_upto(a: Seq<i64>, b: Seq<i64>, n: int) -> int
    decreases n,
{
    if n <= 0 {
        0
    } else {
        let d = a[n - 1] - b[n - 1];
        dist2_upto(a, b, n - 1) + d * d
    }
}

/// Squared Euclidean distance between two equally long vectors.
pub open spec fn dist2(a: Seq<i64>, b: Seq<i64>) -> int {
    dist2_upto(a, b, a.len() as int)
}

/// Index of the best-matching cell among the first `n`: least squared
/// distance to `s`, earliest index on ties.
pub open spec fn winner_upto(cells: Seq<Seq<i64>>, s: Seq<i64>, n: int) -> int
    decreases n,
{
    if n <= 1 {
        0
    } else {
        let b = winner_upto(cells, s, n - 1);
        if dist2(cells[n - 1], s) < dist2(cells[b], s) {
            n - 1
        } else {
            b
        }
    }
}

/// Index of the best-matching cell of the whole grid.
pub open spec fn winner_idx(cells: Seq<Seq<i64>>, s: Seq<i64>) -> int {
    winner_upto(cells, s, cells.len() as int)
}

/// The winner among the first `n` cells is in range, no cell beats it,
/// and every earlier cell is strictly worse.
pub proof fn lemma_winner_upto_props(cells: Seq<Seq<i64>>, s: Seq<i64>, n: int)
    requires
        1 <= n <= cells.len(),
    ensures
        0 <= winner_upto(cells, s, n) < n,
        forall|j: int| 0 <= j < n
            ==> dist2(cells[winner_upto(cells, s, n)], s) <= dist2(#[trigger] cells[j], s),
        forall|j: int| 0 <= j < winner_upto(cells, s, n)
            ==> dist2(cells[winner_upto(cells, s, n)], s) < dist2(#[trigger] cells[j], s),
    decreases n,
{
    if n > 1 {
        lemma_winner_upto_props(cells, s, n - 1);
    }
}

/// Chebyshev distance between two grid coordinates.
pub open spec fn cheb(x1: int, y1: int, x2: int, y2: int) -> int {
    let dx = if x1 >= x2 { x1 - x2 } else { x2 - x1 };
    let dy = if y1 >= y2 { y1 - y2 } else { y2 - y1 };
    if dx >= dy { dx } else { dy }
}

/// Linearly decayed value of `v0` at iteration `t` of `tmax`.
pub open spec fn decayed(v0: int, tmax: int, t: int) -> int {
    v0 * (tmax - t) / tmax
}

/// Neighborhood influence at Chebyshev distance `d` for radius `sigma`,
/// as a fixed-point fraction of `SCALE`: full at the winner, linearly
/// down to nothing beyond the radius.
pub open spec fn influence(sigma: int, d: int) -> int {
    if d > sigma {
        0
    } else {
        (sigma + 1 - d) * SCALE / (sigma + 1)
    }
}

/// One weight coordinate nudged toward the sample by the fixed-point
/// fraction `f` of the gap.
pub open spec fn nudged(v: int, s: int, f: int) -> int {
    if s >= v {
        v + f * (s - v) / (SCALE as int)
    } else {
        v - f * (v - s) / (SCALE as int)
    }
}

/// The nudged value stays between the weight and the sample.
pub proof fn lemma_nudged_in_range(v: int, s: int, f: int)
    requires
        0 <= v <= SCALE,
        0 <= s <= SCALE,
        0 <= f <= SCALE,
    ensures
        0 <= nudged(v, s, f) <= SCALE,
{
    if s >= v {
        lemma_scaled_frac(s - v, f, SCALE as int);
        lemma_mul_is_commutative(f, s - v);
    } else {
        lemma_scaled_frac(v - s, f, SCALE as int);
        lemma_mul_is_commutative(f, v - s);
    }
}

/// A whole cell nudged toward the sample by the fraction `f`.
pub open spec fn updated_cell(cell: Seq<i64>, s: Seq<i64>, f: int) -> Seq<i64> {
    Seq::new(cell.len(), |k: int| nudged(cell[k] as int, s[k] as int, f) as i64)
}

/// One training step: every cell within the radius of the winner moves
/// toward the sample, scaled by the decayed rate and the kernel.
pub open spec fn step_cells(
    cells: Seq<Seq<i64>>,
    h: int,
    s: Seq<i64>,
    alpha: int,
    sigma: int,
) -> Seq<Seq<i64>> {
    let b = winner_idx(cells, s);
    Seq::new(cells.len(), |i: int| {
        let d = cheb(i / h, i % h, b / h, b % h);
        if d <= sigma {
            updated_cell(cells[i], s, alpha * influence(sigma, d) / (SCALE as int))
        } else {
            cells[i]
        }
    })
}

/// The grid contents after `t` training iterations: each iteration draws
/// one sample row with the generator and applies `step_cells` with the
/// linearly decayed rate and radius.
pub open spec fn train_cells(
    cells0: Seq<Seq<i64>>,
    h: int,
    feats: Seq<Seq<i64>>,
    alpha0: int,
    sigma0: int,
    tmax: int,
    seed: u64,
    t: nat,
) -> Seq<Seq<i64>>
    decreases t,
{
    if t == 0 {
        cells0
    } else {
        let prev = train_cells(cells0, h, feats, alpha0, sigma0, tmax, seed, (t - 1) as nat);
        let idx = lcg_iter(seed, t) as int % (feats.len() as int);
        step_cells(prev, h, feats[idx], decayed(alpha0, tmax, t - 1), decayed(sigma0, tmax, t - 1))
    }
}

/// Explicit training configuration: grid shape, initial learning rate
/// (fixed point, at most `SCALE`), initial neighborhood radius in cells,
/// and the total iteration count.
#[derive(Debug)]
pub struct SomParams {
    /// Grid width W.
    pub width: usize,
    /// Grid height H.
    pub height: usize,
    /// Initial learning rate as a fraction of `SCALE`.
    pub alpha0: i64,
    /// Initial neighborhood radius, in grid cells.
    pub sigma0: usize,
    /// Total number of training iterations T.
    pub iterations: usize,
}

impl SomParams {
    /// Bounds that keep every intermediate product within `i64`.
    pub open spec fn wf(&self) -> bool {
        &&& 1 <= self.width
        &&& 1 <= self.height
        &&& self.width * self.height <= 0x10_0000
        &&& 0 < self.alpha0 <= SCALE
        &&& self.sigma0 <= 0x1_0000
        &&& 1 <= self.iterations <= 0x4000_0000
    }
}

/// A W x H grid of D-dimensional fixed-point weight vectors.
#[derive(Debug)]
pub struct SomGrid {
    width: usize,
    height: usize,
    dim: usize,
    cells: Vec<Vec<i64>>,
}

impl SomGrid {
    /// Grid width W.
    pub closed spec fn w_spec(&self) -> int {
        self.width as int
    }

    /// Grid height H.
    pub closed spec fn h_spec(&self) -> int {
        self.height as int
    }

    /// Weight dimensionality D.
    pub closed spec fn dim_spec(&self) -> int {
        self.dim as int
    }

    /// The weight vectors, row-major: cell `(x, y)` is entry `x * H + y`.
    pub closed spec fn cells_spec(&self) -> Seq<Seq<i64>> {
        rows_view(self.cells@)
    }

    /// Well-formedness: positive shape within product bound `2^20`,
    /// `1 <= D <= 2^20`, and all weights within `[0, SCALE]`.
    pub open spec fn wf(&self) -> bool {
        &&& 1 <= self.w_spec()
        &&& 1 <= self.h_spec()
        &&& self.w_spec() * self.h_spec() <= 0x10_0000
        &&& 1 <= self.dim_spec() <= 0x10_0000
        &&& self.cells_spec().len() == self.w_spec() * self.h_spec()
        &&& matrix_in_range(self.cells_spec(), self.dim_spec(), 0, SCALE as int)
    }

    /// Grid width W.
    pub fn width(&self) -> (r: usize)
        ensures
            r == self.w_spec(),
    {
        self.width
    }

    /// Grid height H.
    pub fn height(&self) -> (r: usize)
        ensures
            r == self.h_spec(),
    {
        self.height
    }

    /// Weight dimensionality D.
    pub fn dim(&self) -> (r: usize)
        ensures
            r == self.dim_spec(),
    {
        self.dim
    }

    /// The weight vector of the cell at row-major index `i`.
    pub fn cell(&self, i: usize) -> (r: &Vec<i64>)
        requires
            self.wf(),
            i < self.cells_spec().len(),
        ensures
            r@ == self.cells_spec()[i as int],
    {
        &self.cells[i]
    }

    /// Squared Euclidean distance between a cell and a sample vector.
    pub(crate) fn cell_dist2(&self, i: usize, s: &Vec<i64>) -> (r: i64)
        requires
            self.wf(),
            i < self.cells_spec().len(),
            s@.len() == self.dim_spec(),
            forall|k: int| 0 <= k < s@.len() ==> 0 <= #[trigger] s@[k] <= SCALE,
        ensures
            r == dist2(self.cells_spec()[i as int], s@),
            0 <= r <= self.dim_spec() * (SCALE as int) * (SCALE as int),
    {
        let ghost cell = self.cells_spec()[i as int];
        assert(cell == self.cells@[i as int]@);
        assert(cell.len() == self.dim);
        let row = &self.cells[i];
        let dim = self.dim;
        let mut acc: i64 = 0;
        let mut k: usize = 0;
        while k < dim
            invariant
                k <= dim,
                row@ == cell,
                acc == dist2_upto(cell, s@, k as int),
                0 <= acc <= k * (SCALE as int) * (SCALE as int),
            decreases dim - k,
        {
            let a = row[k];
            let b = s[k];
            let d = if a >= b { a - b } else { b - a };
            proof {
                let dd = cell[k as int] - s@[k as int];
                assert(d * d == dd * dd) by (nonlinear_arith)
                    requires
                        d == if dd >= 0 { dd } else { -dd },
                ;
                assert(0 <= d * d <= (SCALE as int) * (SCALE as int)) by (nonlinear_arith)
                    requires
                        0 <= d <= SCALE as int,
                ;
                assert(k * (SCALE as int) * (SCALE as int) + (SCALE as int) * (SCALE as int)
                    == (k + 1) * (SCALE as int) * (SCALE as int)) by (nonlinear_arith);
                assert((k + 1) * (SCALE as int) * (SCALE as int)
                    <= 0x10_0000 * (SCALE as int) * (SCALE as int)) by (nonlinear_arith)
                    requires
                        k + 1 <= 0x10_0000,
                ;
            }
            acc = acc + d * d;
            k = k + 1;
        }
        proof {
            assert((dim as int) * (SCALE as int) * (SCALE as int)
                == self.dim_spec() * (SCALE as int) * (SCALE as int));
        }
        acc
    }

    /// Best-matching unit: the grid coordinate of the cell with least
    /// squared Euclidean distance to `sample`, scanning row-major and
    /// keeping the earliest cell on ties. A pure query: the result is a
    /// function of the grid contents and the sample alone.
    pub fn winner(&self, sample: &Vec<i64>) -> (r: (usize, usize))
        requires
            self.wf(),
            sample@.len() == self.dim_spec(),
            forall|k: int| 0 <= k < sample@.len() ==> 0 <= #[trigger] sample@[k] <= SCALE,
        ensures
            r.0 < self.w_spec(),
            r.1 < self.h_spec(),
            r.0 * self.h_spec() + r.1 == winner_idx(self.cells_spec(), sample@),
            forall|j: int| 0 <= j < self.cells_spec().len()
                ==> dist2(self.cells_spec()[winner_idx(self.cells_spec(), sample@)], sample@)
                    <= dist2(#[trigger] self.cells_spec()[j], sample@),
            forall|j: int| 0 <= j < winner_idx(self.cells_spec(), sample@)
                ==> dist2(self.cells_spec()[winner_idx(self.cells_spec(), sample@)], sample@)
                    < dist2(#[trigger] self.cells_spec()[j], sample@),
    {
        let n = self.width * self.height;
        assert(n >= 1) by (nonlinear_arith)
            requires
                self.width >= 1,
                self.height >= 1,
                n == self.width * self.height,
        ;
        let mut best: usize = 0;
        let mut best_d = self.cell_dist2(0, sample);
        let mut i: usize = 1;
        while i < n
            invariant
                1 <= i <= n,
                best < i,
                best == winner_upto(self.cells_spec(), sample@, i as int),
                best_d == dist2(self.cells_spec()[best as int], sample@),
            decreases n - i,
        {
            let d = self.cell_dist2(i, sample);
            if d < best_d {
                best = i;
                best_d = d;
            }
            i = i + 1;
        }
        let x = best / self.height;
        let y = best % self.height;
        proof {
            lemma_winner_upto_props(self.cells_spec(), sample@, n as int);
            lemma_fundamental_div_mod(best as int, self.height as int);
            lemma_mod_bound(best as int, self.height as int);
            lemma_div_pos_is_pos(best as int, self.height as int);
            lemma_mul_is_commutative(x as int, self.height as int);
            assert(x < self.width) by (nonlinear_arith)
                requires
                    self.height as int >= 1,
                    best as int == self.height as int * (x as int) + (y as int),
                    0 <= y as int,
                    (best as int) < (self.width as int) * (self.height as int),
            ;
        }
        (x, y)
    }

    /// Builds a grid from caller-supplied weight vectors, row-major.
    /// Fails with `ShapeMismatch` when the matrix does not hold exactly
    /// `W * H` rows of length `dim` each; with `ValueOutOfRange` when a
    /// well-shaped matrix holds a weight outside `[0, SCALE]`.
    pub fn from_weights(params: &SomParams, dim: usize, weights: Vec<Vec<i64>>) -> (r: Result<
        SomGrid,
        SomError,
    >)
        requires
            params.wf(),
            1 <= dim <= 0x10_0000,
        ensures
            match r {
                Ok(g) => {
                    &&& g.wf()
                    &&& g.w_spec() == params.width
                    &&& g.h_spec() == params.height
                    &&& g.dim_spec() == dim
                    &&& g.cells_spec() == rows_view(weights@)
                },
                Err(SomError::ShapeMismatch) => weights@.len() != params.width * params.height
                    || exists|i: int| 0 <= i < weights@.len()
                        && #[trigger] rows_view(weights@)[i].len() != dim,
                Err(SomError::ValueOutOfRange) => {
                    &&& weights@.len() == params.width * params.height
                    &&& forall|i: int| 0 <= i < weights@.len()
                        ==> #[trigger] rows_view(weights@)[i].len() == dim
                    &&& exists|i: int, k: int| 0 <= i < weights@.len() && 0 <= k < dim
                        && !(0 <= #[trigger] rows_view(weights@)[i][k] <= SCALE)
                },
            },
    {
        let n = params.width * params.height;
        if weights.len() != n {
            return Err(SomError::ShapeMismatch);
        }
        let mut i: usize = 0;
        while i < n
            invariant
                i <= n,
                forall|j: int| 0 <= j < i ==> #[trigger] weights@[j]@.len() == dim,
            decreases n - i,
        {
            assert(rows_view(weights@)[i as int] == weights@[i as int]@);
            if weights[i].len() != dim {
                return Err(SomError::ShapeMismatch);
            }
            i = i + 1;
        }
        assert forall|j: int| 0 <= j < n implies #[trigger] rows_view(weights@)[j].len()
            == dim by {
            assert(rows_view(weights@)[j] == weights@[j]@);
        }
        let mut i: usize = 0;
        while i < n
            invariant
                i <= n,
                forall|j: int, k: int| 0 <= j < i && 0 <= k < dim
                    ==> 0 <= #[trigger] weights@[j]@[k] <= SCALE,
            decreases n - i,
        {
            let row = &weights[i];
            let mut k: usize = 0;
            while k < dim
                invariant
                    k <= dim,
                    row@ == weights@[i as int]@,
                    forall|c: int| 0 <= c < k ==> 0 <= #[trigger] row@[c] <= SCALE,
                decreases dim - k,
            {
                let v = row[k];
                if v < 0 || v > SCALE {
                    assert(rows_view(weights@)[i as int][k as int] == v);
                    return Err(SomError::ValueOutOfRange);
                }
                k = k + 1;
            }
            i = i + 1;
        }
        let g = SomGrid { width: params.width, height: params.height, dim, cells: weights };
        assert forall|j: int, k: int| 0 <= j < n && 0 <= k < dim
            implies 0 <= #[trigger] g.cells_spec()[j][k] <= SCALE by {
            assert(g.cells_spec()[j] == g.cells@[j]@);
        }
        assert forall|j: int| 0 <= j < n implies #[trigger] g.cells_spec()[j].len() == dim by {
            assert(g.cells_spec()[j] == g.cells@[j]@);
        }
        Ok(g)
    }

    /// Builds a grid of small random weights drawn from the generator:
    /// cell `i`, coordinate `k` holds the `(i * dim + k + 1)`-th generator
    /// state reduced to `[0, INIT_MAX]`.
    pub fn new_random(params: &SomParams, dim: usize, rng: &mut SomRng) -> (g: SomGrid)
        requires
            params.wf(),
            1 <= dim <= 0x10_0000,
        ensures
            g.wf(),
            g.w_spec() == params.width,
            g.h_spec() == params.height,
            g.dim_spec() == dim,
            g.cells_spec() == init_cells(
                old(rng).state_spec(),
                params.width * params.height,
                dim as int,
            ),
            final(rng).state_spec() == lcg_iter(
                old(rng).state_spec(),
                (params.width * params.height * dim) as nat,
            ),
    {
        let ghost seed = rng.state_spec();
        let n = params.width * params.height;
        let mut cells: Vec<Vec<i64>> = Vec::new();
        let mut i: usize = 0;
        while i < n
            invariant
                i <= n,
                cells@.len() == i,
                rng.state_spec() == lcg_iter(seed, (i * dim) as nat),
                forall|j: int| 0 <= j < i
                    ==> #[trigger] cells@[j]@ == init_cells(seed, n as int, dim as int)[j],
            decreases n - i,
        {
            let mut row: Vec<i64> = Vec::new();
            let mut k: usize = 0;
            while k < dim
                invariant
                    k <= dim,
                    i < n,
                    row@.len() == k,
                    rng.state_spec() == lcg_iter(seed, (i * dim + k) as nat),
                    forall|c: int| 0 <= c < k
                        ==> #[trigger] row@[c] == init_cells(seed, n as int, dim as int)[i as int][c],
                decreases dim - k,
            {
                let ghost pre = (i * dim + k) as nat;
                let v = rng.next_u64();
                proof {
                    assert(lcg_iter(seed, pre + 1) == lcg_next(lcg_iter(seed, pre)));
                }
                let w = (v % ((INIT_MAX + 1) as u64)) as i64;
                assert(init_cells(seed, n as int, dim as int)[i as int][k as int]
                    == (lcg_iter(seed, (i * dim + k + 1) as nat) as int % ((INIT_MAX + 1) as int)) as i64);
                row.push(w);
                k = k + 1;
            }
            proof {
                assert((i * dim + dim) as nat == ((i + 1) * dim) as nat) by (nonlinear_arith);
                assert(row@ =~= init_cells(seed, n as int, dim as int)[i as int]);
            }
            cells.push(row);
            i = i + 1;
        }
        let g = SomGrid { width: params.width, height: params.height, dim, cells };
        proof {
            assert(g.cells_spec() =~~= init_cells(seed, n as int, dim as int));
            assert forall|j: int, k: int| 0 <= j < n && 0 <= k < dim
                implies 0 <= #[trigger] g.cells_spec()[j][k] <= SCALE by {
                lemma_mod_bound(lcg_iter(seed, (j * dim + k + 1) as nat) as int, (INIT_MAX + 1) as int);
            }
            assert forall|j: int| 0 <= j < n implies #[trigger] g.cells_spec()[j].len() == dim by {
            }
        }
        g
    }
}

impl SomGrid {
    /// Builds the nudged copy of one weight vector: every coordinate moves
    /// toward the sample by the fixed-point fraction `f` of its gap.
    fn nudge_cell(cell: &Vec<i64>, s: &Vec<i64>, f: i64) -> (nc: Vec<i64>)
        requires
            cell@.len() == s@.len(),
            forall|k: int| 0 <= k < cell@.len() ==> 0 <= #[trigger] cell@[k] <= SCALE,
            forall|k: int| 0 <= k < s@.len() ==> 0 <= #[trigger] s@[k] <= SCALE,
            0 <= f <= SCALE,
        ensures
            nc@ == updated_cell(cell@, s@, f as int),
            nc@.len() == cell@.len(),
            forall|k: int| 0 <= k < nc@.len() ==> 0 <= #[trigger] nc@[k] <= SCALE,
    {
        let dim = cell.len();
        let mut nc: Vec<i64> = Vec::new();
        let mut k: usize = 0;
        while k < dim
            invariant
                k <= dim,
                nc@.len() == k,
                forall|c: int| 0 <= c < k
                    ==> #[trigger] nc@[c] == nudged(cell@[c] as int, s@[c] as int, f as int) as i64
                        && 0 <= nc@[c] <= SCALE,
            decreases dim - k,
        {
            let v = cell[k];
            let sv = s[k];
            proof {
                assert((f as int) * ((if sv >= v { sv - v } else { v - sv }) as int)
                    <= 65536 * 65536) by (nonlinear_arith)
                    requires
                        0 <= f as int <= 65536,
                        0 <= (if sv >= v { sv - v } else { v - sv }) as int <= 65536,
                ;
                lemma_nudged_in_range(v as int, sv as int, f as int);
                if sv >= v {
                    lemma_scaled_frac((sv - v) as int, f as int, SCALE as int);
                    lemma_mul_is_commutative(f as int, (sv - v) as int);
                } else {
                    lemma_scaled_frac((v - sv) as int, f as int, SCALE as int);
                    lemma_mul_is_commutative(f as int, (v - sv) as int);
                }
            }
            let nv: i64 = if sv >= v {
                v + (f * (sv - v)) / SCALE
            } else {
                v - (f * (v - sv)) / SCALE
            };
            assert(nv == nudged(v as int, sv as int, f as int));
            nc.push(nv);
            k = k + 1;
        }
        assert(nc@ =~= updated_cell(cell@, s@, f as int));
        nc
    }

    /// One training step: nudges every cell within Chebyshev radius
    /// `sigma` of the sample's best-matching unit toward the sample,
    /// scaled by `alpha` and the linear kernel.
    #[verifier::rlimit(60)]
    fn step(&mut self, sample: &Vec<i64>, alpha: i64, sigma: usize)
        requires
            old(self).wf(),
            sample@.len() == old(self).dim_spec(),
            forall|k: int| 0 <= k < sample@.len() ==> 0 <= #[trigger] sample@[k] <= SCALE,
            0 <= alpha <= SCALE,
            sigma <= 0x1_0000,
        ensures
            final(self).wf(),
            final(self).w_spec() == old(self).w_spec(),
            final(self).h_spec() == old(self).h_spec(),
            final(self).dim_spec() == old(self).dim_spec(),
            final(self).cells_spec() == step_cells(
                old(self).cells_spec(),
                old(self).h_spec(),
                sample@,
                alpha as int,
                sigma as int,
            ),
    {
        let dim = self.dim;
        let h = self.height;
        let n = self.width * self.height;
        assert(n == self.cells@.len());
        let ghost prev = self.cells_spec();
        let (bx, by) = self.winner(sample);
        proof {
            assert(bx * (h as int) + by < (self.width as int) * (h as int)) by (nonlinear_arith)
                requires
                    (bx as int) < self.width as int,
                    (by as int) < h as int,
                    0 <= bx as int,
                    0 <= by as int,
                    1 <= h as int,
            ;
        }
        let b = bx * h + by;
        proof {
            lemma_fundamental_div_mod_converse(b as int, h as int, bx as int, by as int);
        }
        let ghost stepped = step_cells(prev, h as int, sample@, alpha as int, sigma as int);
        assert(stepped.len() == n);
        let mut i: usize = 0;
        while i < n
            invariant
                i <= n,
                self.cells@.len() == n,
                self.width == old(self).w_spec(),
                self.height == old(self).h_spec(),
                self.dim == old(self).dim_spec(),
                b == winner_idx(prev, sample@),
                forall|j: int| 0 <= j < i ==> #[trigger] self.cells_spec()[j] == stepped[j],
                forall|j: int| i <= j < n ==> #[trigger] self.cells_spec()[j] == prev[j],
                forall|j: int| 0 <= j < n ==> #[trigger] self.cells_spec()[j].len() == dim,
                forall|j: int, k: int| 0 <= j < n && 0 <= k < dim
                    ==> 0 <= #[trigger] self.cells_spec()[j][k] <= SCALE,
            decreases n - i,
        {
            assert(self.cells_spec()[i as int] == self.cells@[i as int]@);
            assert(self.cells_spec()[i as int] == prev[i as int]);
            let cx = i / h;
            let cy = i % h;
            let dx = if cx >= bx { cx - bx } else { bx - cx };
            let dy = if cy >= by { cy - by } else { by - cy };
            let d = if dx >= dy { dx } else { dy };
            assert(d == cheb(i as int / (h as int), i as int % (h as int),
                b as int / (h as int), b as int % (h as int)));
            if d <= sigma {
                proof {
                    assert(((sigma - d) as int + 1) * (SCALE as int)
                        <= (0x1_0001 as int) * (SCALE as int)) by (nonlinear_arith)
                        requires
                            0 <= (sigma - d) as int + 1 <= 0x1_0001,
                    ;
                    lemma_scaled_frac(SCALE as int, (sigma - d) as int + 1, sigma as int + 1);
                    lemma_mul_is_commutative(SCALE as int, (sigma - d) as int + 1);
                }
                let infl: i64 = (((sigma - d) as i64 + 1) * SCALE) / ((sigma as i64) + 1);
                assert(infl == influence(sigma as int, d as int));
                assert(0 <= infl <= SCALE);
                proof {
                    assert((alpha as int) * (infl as int) <= 65536 * 65536) by (nonlinear_arith)
                        requires
                            0 <= alpha as int <= 65536,
                            0 <= infl as int <= 65536,
                    ;
                    lemma_scaled_frac(alpha as int, infl as int, SCALE as int);
                }
                let f: i64 = (alpha * infl) / SCALE;
                assert(0 <= f <= SCALE);
                let nc = Self::nudge_cell(&self.cells[i], sample, f);
                proof {
                    assert(f as int == (alpha as int) * influence(sigma as int, d as int)
                        / (SCALE as int));
                    assert(stepped[i as int] == updated_cell(prev[i as int], sample@, f as int));
                }
                let ghost cur = self.cells_spec();
                self.cells.set(i, nc);
                proof {
                    assert forall|j: int| 0 <= j < n && j != i as int
                        implies #[trigger] self.cells_spec()[j] == cur[j] by {
                        assert(self.cells_spec()[j] == self.cells@[j]@);
                        assert(cur[j] == self.cells@[j]@);
                    }
                    assert(self.cells_spec()[i as int] == nc@);
                }
            } else {
                proof {
                    assert(stepped[i as int] == prev[i as int]);
                }
            }
            i = i + 1;
        }
        assert(self.cells_spec() =~~= stepped);
    }

    /// Runs the randomized competitive training protocol for exactly
    /// `params.iterations` iterations: each iteration draws one sample row
    /// uniformly (with replacement) from the generator, finds its
    /// best-matching unit, and nudges every cell within the decayed
    /// Chebyshev radius toward the sample by the decayed rate times the
    /// linear kernel. The result is the pure function `train_cells` of the
    /// starting weights, the data, the configuration, and the seed.
    pub fn train_random(&mut self, data: &NormalizedDataset, params: &SomParams, rng: &mut SomRng)
        requires
            old(self).wf(),
            params.wf(),
            data.wf(),
            data.dim_spec() == old(self).dim_spec(),
        ensures
            final(self).wf(),
            final(self).w_spec() == old(self).w_spec(),
            final(self).h_spec() == old(self).h_spec(),
            final(self).dim_spec() == old(self).dim_spec(),
            final(self).cells_spec() == train_cells(
                old(self).cells_spec(),
                old(self).h_spec(),
                data.feats(),
                params.alpha0 as int,
                params.sigma0 as int,
                params.iterations as int,
                old(rng).state_spec(),
                params.iterations as nat,
            ),
            final(rng).state_spec() == lcg_iter(old(rng).state_spec(), params.iterations as nat),
    {
        let tmax = params.iterations;
        let nrows = data.nrows();
        let ghost cells0 = self.cells_spec();
        let ghost seed = rng.state_spec();
        let ghost feats = data.feats();
        let ghost a0 = params.alpha0 as int;
        let ghost s0 = params.sigma0 as int;
        let mut t: usize = 0;
        while t < tmax
            invariant
                t <= tmax,
                self.wf(),
                self.w_spec() == old(self).w_spec(),
                self.h_spec() == old(self).h_spec(),
                self.dim_spec() == old(self).dim_spec(),
                rng.state_spec() == lcg_iter(seed, t as nat),
                self.cells_spec() == train_cells(cells0, old(self).h_spec(), feats, a0, s0,
                    tmax as int, seed, t as nat),
            decreases tmax - t,
        {
            let idx = rng.next_below(nrows);
            proof {
                assert(lcg_iter(seed, (t + 1) as nat) == lcg_next(lcg_iter(seed, t as nat)));
            }
            let sample = data.feature_row(idx);
            assert(sample@ == feats[idx as int]);
            assert forall|k: int| 0 <= k < sample@.len()
                implies 0 <= #[trigger] sample@[k] <= SCALE by {
                assert(feats[idx as int][k] == sample@[k]);
            }
            let rem = tmax - t;
            proof {
                assert(params.alpha0 * (rem as int) <= 65536 * 0x4000_0000) by (nonlinear_arith)
                    requires
                        0 < params.alpha0 <= 65536,
                        0 <= rem as int <= 0x4000_0000,
                ;
                lemma_scaled_frac(params.alpha0 as int, rem as int, tmax as int);
                assert((params.sigma0 as int) * (rem as int) <= 0x1_0000 * 0x4000_0000)
                    by (nonlinear_arith)
                    requires
                        0 <= params.sigma0 as int <= 0x1_0000,
                        0 <= rem as int <= 0x4000_0000,
                ;
                lemma_scaled_frac(params.sigma0 as int, rem as int, tmax as int);
            }
            let alpha: i64 = (params.alpha0 * (rem as i64)) / (tmax as i64);
            let sigma_u: u64 = ((params.sigma0 as u64) * (rem as u64)) / (tmax as u64);
            let sigma: usize = sigma_u as usize;
            assert(alpha == decayed(a0, tmax as int, t as int));
            assert(sigma == decayed(s0, tmax as int, t as int));
            self.step(sample, alpha, sigma);
            proof {
                assert(train_cells(cells0, old(self).h_spec(), feats, a0, s0, tmax as int, seed,
                    (t + 1) as nat) == self.cells_spec());
            }
            t = t + 1;
        }
    }
}

/// Upper bound of the random initial weights: an eighth of `SCALE`,
/// keeping the starting grid at small magnitudes.
pub const INIT_MAX: i64 = 8192;

/// The initial grid contents drawn from `seed`: `n` cells of `dim` small
/// weights, consuming one generator step per coordinate.
pub open spec fn init_cells(seed: u64, n: int, dim: int) -> Seq<Seq<i64>> {
    Seq::new(n as nat, |i: int| Seq::new(dim as nat, |k: int|
        (lcg_iter(seed, (i * dim + k + 1) as nat) as int % ((INIT_MAX + 1) as int)) as i64))
}

} // verus!
