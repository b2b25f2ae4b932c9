//! The full batch computation: normalize, train, label, derive distances.

use vstd::prelude::*;
use crate::dataset::{normalized_matrix, Dataset};
use crate::distmap::{dist_out, distance_map, raw_max};
use crate::fixed::SCALE;
use crate::grid::Grid;
use crate::labeling::{bucket_of, is_mode, label_grid};
use crate::rng::{lcg_iter, SomRng};
use crate::som::{init_cells, train_cells, SomGrid, SomParams};

verus! {

/// `v` is a correct label for cell `i`: the sentinel `0` where the
/// bucket is empty, the bucket's mode otherwise.
pub open spec fn label_ok(
    cells: Seq<Seq<i64>>,
    feats: Seq<Seq<i64>>,
    outs: Seq<i64>,
    i: int,
    v: i64,
) -> bool {
    let bk = bucket_of(cells, feats, outs, i);
    &&& bk.len() == 0 ==> v == 0
    &&& bk.len() > 0 ==> is_mode(bk, v)
}

/// The weight cells the whole pipeline trains from `data`, `params` and
/// `seed`: random initial weights drawn from the seed, then the training
/// protocol over the column-normalized features.
pub open spec fn pipeline_cells(data: Dataset, params: SomParams, seed: u64) -> Seq<Seq<i64>> {
    let n = params.width * params.height;
    train_cells(
        init_cells(seed, n as int, data.dim_spec()),
        params.height as int,
        normalized_matrix(data.feats(), data.dim_spec()),
        params.alpha0 as int,
        params.sigma0 as int,
        params.iterations as int,
        lcg_iter(seed, (n * data.dim_spec()) as nat),
        params.iterations as nat,
    )
}

/// Runs the whole pipeline: normalizes the dataset, trains a fresh
/// randomly initialized map for the configured number of iterations, and
/// returns the majority-vote label grid and the normalized
/// neighbor-distance grid, both of shape exactly W x H.
pub fn analyze(data: &Dataset, params: &SomParams, seed: u64) -> (r: (Grid, Grid))
    requires
        data.wf(),
        params.wf(),
    ensures
        r.0.wf() && r.1.wf(),
        r.0.width == params.width && r.0.height == params.height,
        r.1.width == params.width && r.1.height == params.height,
        r.0.cells@.len() == params.width * params.height,
        r.1.cells@.len() == params.width * params.height,
        forall|i: int| 0 <= i < r.0.cells@.len()
            ==> label_ok(pipeline_cells(*data, *params, seed),
                normalized_matrix(data.feats(), data.dim_spec()), data.outs(), i,
                #[trigger] r.0.cells@[i]),
        forall|i: int| 0 <= i < r.1.cells@.len()
            ==> #[trigger] r.1.cells@[i] == dist_out(pipeline_cells(*data, *params, seed),
                params.width as int, params.height as int, i),
        forall|i: int| 0 <= i < r.1.cells@.len() ==> 0 <= #[trigger] r.1.cells@[i] <= SCALE,
        raw_max(pipeline_cells(*data, *params, seed), params.width as int,
            params.height as int) > 0 ==> exists|i: int|
            0 <= i < r.1.cells@.len() && #[trigger] r.1.cells@[i] == SCALE,
{
    let nd = data.normalize();
    let mut rng = SomRng::new(seed);
    let mut grid = SomGrid::new_random(params, data.dim(), &mut rng);
    grid.train_random(&nd, params, &mut rng);
    assert(grid.cells_spec() == pipeline_cells(*data, *params, seed));
    let labels = label_grid(&grid, &nd);
    let dists = distance_map(&grid);
    (labels, dists)
}

/// Law: determinism. The distance grid is pinned cell by cell by the spec
/// function `dist_out`, and a label grid is pinned cell by cell because a
/// bucket's mode is unique; so any two outputs that satisfy `analyze`'s
/// contract for the same dataset, configuration and seed are equal.
pub proof fn lemma_analyze_deterministic(
    labels1: Seq<i64>,
    labels2: Seq<i64>,
    dists1: Seq<i64>,
    dists2: Seq<i64>,
    cells: Seq<Seq<i64>>,
    w: int,
    h: int,
    feats: Seq<Seq<i64>>,
    outs: Seq<i64>,
)
    requires
        labels1.len() == w * h,
        labels2.len() == w * h,
        dists1.len() == w * h,
        dists2.len() == w * h,
        forall|i: int| 0 <= i < w * h ==> label_ok(cells, feats, outs, i, #[trigger] labels1[i]),
        forall|i: int| 0 <= i < w * h ==> label_ok(cells, feats, outs, i, #[trigger] labels2[i]),
        forall|i: int| 0 <= i < w * h ==> #[trigger] dists1[i] == dist_out(cells, w, h, i),
        forall|i: int| 0 <= i < w * h ==> #[trigger] dists2[i] == dist_out(cells, w, h, i),
    ensures
        labels1 == labels2,
        dists1 == dists2,
{
    assert forall|i: int| 0 <= i < w * h implies #[trigger] labels1[i] == labels2[i] by {
        let bk = bucket_of(cells, feats, outs, i);
        if bk.len() > 0 {
            crate::labeling::lemma_mode_unique(bk, labels1[i], labels2[i]);
        }
    }
    assert(labels1 =~= labels2);
    assert(dists1 =~= dists2);
}

} // verus!
