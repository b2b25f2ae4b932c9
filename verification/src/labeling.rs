//! Majority-vote labeling: the mode of each cell's bucket of outcomes.
//!
//! Every sample is assigned to its winning cell; each non-empty bucket of
//! outcome values reduces to its mode, ties broken toward the numerically
//! largest value; empty buckets get the sentinel label `0`.

use vstd::prelude::*;
use crate::dataset::NormalizedDataset;
use crate::grid::Grid;
use crate::som::{winner_idx, SomGrid};

verus! {

/// How often `v` occurs among the first `n` values of `s`.
pub open spec fn count_upto(s: Seq<i64>, v: i64, n: int) -> int
    decreases n,
{
    if n <= 0 {
        0
    } else {
        count_upto(s, v, n - 1) + if s[n - 1] == v { 1int } else { 0int }
    }
}

/// How often `v` occurs in `s`.
pub open spec fn count_of(s: Seq<i64>, v: i64) -> int {
    count_upto(s, v, s.len() as int)
}

/// `v` is the mode of `s`: it occurs, nothing occurs more often, and it is
/// the largest among the values tied for the highest count.
pub open spec fn is_mode(s: Seq<i64>, v: i64) -> bool {
    &&& s.contains(v)
    &&& forall|u: i64| s.contains(u) ==> count_of(s, u) <= count_of(s, v)
    &&& forall|u: i64| s.contains(u) && count_of(s, u) == count_of(s, v) ==> u <= v
}

/// Law: the mode is unique — two values that both satisfy `is_mode` of the
/// same bucket are equal, so majority labeling is deterministic.
pub proof fn lemma_mode_unique(s: Seq<i64>, v1: i64, v2: i64)
    requires
        is_mode(s, v1),
        is_mode(s, v2),
    ensures
        v1 == v2,
{
    assert(count_of(s, v1) <= count_of(s, v2));
    assert(count_of(s, v2) <= count_of(s, v1));
    assert(v1 <= v2);
    assert(v2 <= v1);
}

/// How often `v` occurs in `values`.
pub fn count_occurrences(values: &Vec<i64>, v: i64) -> (r: usize)
    ensures
        r == count_of(values@, v),
{
    let n = values.len();
    let mut r: usize = 0;
    let mut i: usize = 0;
    while i < n
        invariant
            i <= n,
            r == count_upto(values@, v, i as int),
            r <= i,
        decreases n - i,
    {
        if values[i] == v {
            r = r + 1;
        }
        i = i + 1;
    }
    r
}

/// The most common value of a bucket: the value with the highest
/// occurrence count, ties broken toward the numerically largest value;
/// `0` for an empty bucket.
pub fn mcv(values: &Vec<i64>) -> (r: i64)
    ensures
        values@.len() == 0 ==> r == 0,
        values@.len() > 0 ==> is_mode(values@, r),
{
    let n = values.len();
    if n == 0 {
        return 0;
    }
    let mut best_v: i64 = values[0];
    let mut best_c: usize = count_occurrences(values, best_v);
    assert(values@.contains(best_v)) by {
        assert(values@[0] == best_v);
    }
    let mut i: usize = 1;
    while i < n
        invariant
            1 <= i <= n,
            values@.contains(best_v),
            best_c == count_of(values@, best_v),
            forall|j: int| 0 <= j < i
                ==> count_of(values@, #[trigger] values@[j]) < best_c
                    || (count_of(values@, values@[j]) == best_c && values@[j] <= best_v),
        decreases n - i,
    {
        let cand = values[i];
        let c = count_occurrences(values, cand);
        if c > best_c || (c == best_c && cand > best_v) {
            best_v = cand;
            best_c = c;
            assert(values@.contains(best_v)) by {
                assert(values@[i as int] == best_v);
            }
        }
        i = i + 1;
    }
    assert forall|u: i64| values@.contains(u)
        implies count_of(values@, u) <= count_of(values@, best_v)
            && (count_of(values@, u) == count_of(values@, best_v) ==> u <= best_v) by {
        let j = choose|j: int| 0 <= j < values@.len() && values@[j] == u;
        assert(values@[j] == u);
    }
    best_v
}

/// The outcomes of the samples (among the first `n`) whose winner in
/// `cells` is cell `i`, in sample order.
pub open spec fn bucket_upto(
    cells: Seq<Seq<i64>>,
    feats: Seq<Seq<i64>>,
    outs: Seq<i64>,
    i: int,
    n: int,
) -> Seq<i64>
    decreases n,
{
    if n <= 0 {
        Seq::empty()
    } else {
        let pre = bucket_upto(cells, feats, outs, i, n - 1);
        if winner_idx(cells, feats[n - 1]) == i {
            pre.push(outs[n - 1])
        } else {
            pre
        }
    }
}

/// The full bucket of cell `i`.
pub open spec fn bucket_of(
    cells: Seq<Seq<i64>>,
    feats: Seq<Seq<i64>>,
    outs: Seq<i64>,
    i: int,
) -> Seq<i64> {
    bucket_upto(cells, feats, outs, i, feats.len() as int)
}

/// The winner map: for every sample, the grid coordinate of its
/// best-matching cell in the (frozen) grid. Derived by the pure winner
/// query, one coordinate per sample row.
pub fn winner_map(grid: &SomGrid, data: &NormalizedDataset) -> (w: Vec<(usize, usize)>)
    requires
        grid.wf(),
        data.wf(),
        data.dim_spec() == grid.dim_spec(),
    ensures
        w@.len() == data.feats().len(),
        forall|j: int| 0 <= j < w@.len() ==> {
            let c = #[trigger] w@[j];
            c.0 < grid.w_spec() && c.1 < grid.h_spec()
                && c.0 * grid.h_spec() + c.1 == winner_idx(grid.cells_spec(), data.feats()[j])
        },
{
    let nrows = data.nrows();
    let mut w: Vec<(usize, usize)> = Vec::new();
    let mut r: usize = 0;
    while r < nrows
        invariant
            r <= nrows,
            w@.len() == r,
            forall|j: int| 0 <= j < r ==> {
                let c = #[trigger] w@[j];
                c.0 < grid.w_spec() && c.1 < grid.h_spec()
                    && c.0 * grid.h_spec() + c.1
                        == winner_idx(grid.cells_spec(), data.feats()[j])
            },
        decreases nrows - r,
    {
        let sample = data.feature_row(r);
        assert forall|k: int| 0 <= k < sample@.len()
            implies 0 <= #[trigger] sample@[k] <= crate::fixed::SCALE by {
            assert(data.feats()[r as int][k] == sample@[k]);
        }
        let c = grid.winner(sample);
        w.push(c);
        r = r + 1;
    }
    w
}

/// Labels every grid cell with the mode of the outcomes of the samples
/// it wins, and `0` where it wins none. The result always has shape
/// exactly W x H, whatever the dataset's row count.
pub fn label_grid(grid: &SomGrid, data: &NormalizedDataset) -> (g: Grid)
    requires
        grid.wf(),
        data.wf(),
        data.dim_spec() == grid.dim_spec(),
    ensures
        g.wf(),
        g.width == grid.w_spec(),
        g.height == grid.h_spec(),
        g.cells@.len() == grid.w_spec() * grid.h_spec(),
        forall|i: int| 0 <= i < g.cells@.len() ==> {
            let bk = bucket_of(grid.cells_spec(), data.feats(), data.outs(), i);
            (bk.len() == 0 ==> #[trigger] g.cells@[i] == 0)
                && (bk.len() > 0 ==> is_mode(bk, g.cells@[i]))
        },
{
    let nrows = data.nrows();
    let n = grid.width() * grid.height();
    let ghost cells = grid.cells_spec();
    let ghost feats = data.feats();
    let ghost outs = data.outs();
    // winner cell index of every sample
    let mut winners: Vec<usize> = Vec::new();
    let mut r: usize = 0;
    while r < nrows
        invariant
            r <= nrows,
            winners@.len() == r,
            forall|j: int| 0 <= j < r
                ==> #[trigger] winners@[j] == winner_idx(cells, feats[j]),
        decreases nrows - r,
    {
        let sample = data.feature_row(r);
        assert forall|k: int| 0 <= k < sample@.len()
            implies 0 <= #[trigger] sample@[k] <= crate::fixed::SCALE by {
            assert(feats[r as int][k] == sample@[k]);
        }
        let (x, y) = grid.winner(sample);
        proof {
            assert(x * grid.h_spec() + y < grid.w_spec() * grid.h_spec()) by (nonlinear_arith)
                requires
                    (x as int) < grid.w_spec(),
                    (y as int) < grid.h_spec(),
                    0 <= x as int,
                    0 <= y as int,
                    1 <= grid.h_spec(),
            ;
        }
        let w = x * grid.height() + y;
        winners.push(w);
        r = r + 1;
    }
    // bucket and reduce each cell
    let mut labels: Vec<i64> = Vec::new();
    let mut i: usize = 0;
    while i < n
        invariant
            i <= n,
            labels@.len() == i,
            forall|j: int| 0 <= j < i ==> {
                let bk = bucket_of(cells, feats, outs, j);
                (bk.len() == 0 ==> #[trigger] labels@[j] == 0)
                    && (bk.len() > 0 ==> is_mode(bk, labels@[j]))
            },
        decreases n - i,
    {
        let mut bucket: Vec<i64> = Vec::new();
        let mut r: usize = 0;
        while r < nrows
            invariant
                r <= nrows,
                i < n,
                bucket@ == bucket_upto(cells, feats, outs, i as int, r as int),
            decreases nrows - r,
        {
            if winners[r] == i {
                bucket.push(data.outcome(r));
            }
            r = r + 1;
        }
        let label = mcv(&bucket);
        labels.push(label);
        i = i + 1;
    }
    Grid { width: grid.width(), height: grid.height(), cells: labels }
}

} // verus!
