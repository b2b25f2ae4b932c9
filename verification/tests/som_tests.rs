use wine_som::dataset::Dataset;
use wine_som::distmap::distance_map;
use wine_som::fixed::SCALE;
use wine_som::labeling::{label_grid, winner_map};
use wine_som::pipeline::analyze;
use wine_som::rng::SomRng;
use wine_som::som::{SomGrid, SomParams};

fn params(width: usize, height: usize, iterations: usize) -> SomParams {
    SomParams {
        width,
        height,
        alpha0: SCALE / 2,
        sigma0: 3,
        iterations,
    }
}

fn flat_grid(width: usize, height: usize, weights: Vec<Vec<i64>>) -> SomGrid {
    let dim = weights[0].len();
    SomGrid::from_weights(&params(width, height, 10), dim, weights).unwrap()
}

#[test]
fn winner_is_pure_repeated_calls_agree() {
    let g = flat_grid(2, 2, vec![vec![0], vec![100], vec![200], vec![300]]);
    let s = vec![90i64];
    let first = g.winner(&s);
    for _ in 0..10 {
        assert_eq!(g.winner(&s), first);
    }
}

#[test]
fn winner_picks_nearest_cell() {
    let g = flat_grid(2, 2, vec![vec![0], vec![100], vec![200], vec![300]]);
    assert_eq!(g.winner(&vec![90]), (0, 1)); // cell index 1 = 0*2+1
    assert_eq!(g.winner(&vec![299]), (1, 1)); // cell index 3
    assert_eq!(g.winner(&vec![0]), (0, 0));
}

#[test]
fn winner_tie_breaks_to_first_in_row_major_order() {
    let g = flat_grid(1, 3, vec![vec![50], vec![50], vec![50]]);
    assert_eq!(g.winner(&vec![50]), (0, 0));
    let g2 = flat_grid(2, 1, vec![vec![40], vec![60]]);
    // 50 is equidistant; the earlier cell wins
    assert_eq!(g2.winner(&vec![50]), (0, 0));
}

#[test]
fn from_weights_shape_mismatch() {
    let p = params(2, 2, 10);
    let r = SomGrid::from_weights(&p, 1, vec![vec![0], vec![1]]);
    assert!(r.is_err());
    let r2 = SomGrid::from_weights(&p, 2, vec![vec![0], vec![1], vec![2], vec![3]]);
    assert!(r2.is_err());
}

#[test]
fn from_weights_value_out_of_range() {
    let p = params(1, 2, 10);
    let r = SomGrid::from_weights(&p, 1, vec![vec![0], vec![SCALE + 1]]);
    assert!(r.is_err());
    let r2 = SomGrid::from_weights(&p, 1, vec![vec![-1], vec![0]]);
    assert!(r2.is_err());
}

#[test]
fn grids_have_exact_shape_even_for_single_row_dataset() {
    let d = Dataset::new(vec![vec![3, 4, 6]], 2).unwrap();
    let p = params(4, 3, 25);
    let (labels, dists) = analyze(&d, &p, 99);
    assert_eq!(labels.width, 4);
    assert_eq!(labels.height, 3);
    assert_eq!(labels.cells.len(), 12);
    assert_eq!(dists.width, 4);
    assert_eq!(dists.height, 3);
    assert_eq!(dists.cells.len(), 12);
}

#[test]
fn single_row_dataset_labels_one_cell_rest_sentinel() {
    let d = Dataset::new(vec![vec![3, 4, 6]], 2).unwrap();
    let p = params(4, 3, 25);
    let (labels, _) = analyze(&d, &p, 99);
    let sixes = labels.cells.iter().filter(|&&v| v == 6).count();
    let zeros = labels.cells.iter().filter(|&&v| v == 0).count();
    assert_eq!(sixes, 1);
    assert_eq!(zeros, 11);
}

#[test]
fn distance_map_entries_in_unit_range_with_peak() {
    let g = flat_grid(2, 2, vec![vec![0], vec![SCALE], vec![SCALE / 4], vec![SCALE / 2]]);
    let dm = distance_map(&g);
    assert_eq!(dm.cells.len(), 4);
    let mut saw_peak = false;
    for &v in dm.cells.iter() {
        assert!(0 <= v && v <= SCALE);
        if v == SCALE {
            saw_peak = true;
        }
    }
    assert!(saw_peak);
}

#[test]
fn distance_map_degenerate_grid_is_all_zero() {
    let g = flat_grid(3, 3, vec![vec![7]; 9]);
    let dm = distance_map(&g);
    assert!(dm.cells.iter().all(|&v| v == 0));
}

#[test]
fn distance_map_single_cell_grid_is_zero() {
    let g = flat_grid(1, 1, vec![vec![123]]);
    let dm = distance_map(&g);
    assert_eq!(dm.cells, vec![0]);
}

#[test]
fn winner_map_agrees_with_winner_per_sample() {
    let d = Dataset::new(
        vec![vec![10, 20, 1], vec![900, 40, 2], vec![500, 700, 3]],
        2,
    )
    .unwrap();
    let nd = d.normalize();
    let g = flat_grid(
        2,
        2,
        vec![
            vec![0, 0],
            vec![0, SCALE],
            vec![SCALE, 0],
            vec![SCALE, SCALE],
        ],
    );
    let wm = winner_map(&g, &nd);
    assert_eq!(wm.len(), 3);
    for r in 0..3 {
        assert_eq!(wm[r], g.winner(nd.feature_row(r)));
    }
}

#[test]
fn distance_map_exact_values_on_a_line() {
    // 1x3 line of one-dimensional weights 0, 100, 300:
    // raw means are 100, (100+200)/2 = 150, 200; maximum 200
    let g = flat_grid(1, 3, vec![vec![0], vec![100], vec![300]]);
    let dm = distance_map(&g);
    assert_eq!(dm.cells, vec![100 * SCALE / 200, 150 * SCALE / 200, SCALE]);
}

#[test]
fn one_training_step_moves_half_way() {
    // a single cell at 0 trained once on a sample normalized to SCALE with
    // learning rate SCALE/2 ends exactly half-way
    let d = Dataset::new(vec![vec![100, 5]], 1).unwrap();
    let nd = d.normalize();
    let p = SomParams {
        width: 1,
        height: 1,
        alpha0: SCALE / 2,
        sigma0: 0,
        iterations: 1,
    };
    let mut g = SomGrid::from_weights(&p, 1, vec![vec![0]]).unwrap();
    let mut rng = SomRng::new(3);
    g.train_random(&nd, &p, &mut rng);
    assert_eq!(g.cell(0), &vec![SCALE / 2]);
}

#[test]
fn training_is_deterministic_for_a_fixed_seed() {
    let rows: Vec<Vec<i64>> = (0..30)
        .map(|i| vec![(i * 97) % 1000, (i * 31) % 800, 3 + (i % 5)])
        .collect();
    let d = Dataset::new(rows, 2).unwrap();
    let p = params(5, 5, 500);
    let (l1, m1) = analyze(&d, &p, 4242);
    let (l2, m2) = analyze(&d, &p, 4242);
    assert_eq!(l1.cells, l2.cells);
    assert_eq!(m1.cells, m2.cells);
    // a different seed is allowed to differ; the grids still have the shape
    let (l3, _) = analyze(&d, &p, 1);
    assert_eq!(l3.cells.len(), 25);
}

#[test]
fn train_random_matches_between_equal_runs() {
    let d = Dataset::new(
        vec![vec![10, 20, 1], vec![900, 40, 2], vec![500, 700, 3]],
        2,
    )
    .unwrap();
    let nd = d.normalize();
    let p = params(3, 3, 200);
    let mut rng1 = SomRng::new(7);
    let mut g1 = SomGrid::new_random(&p, 2, &mut rng1);
    g1.train_random(&nd, &p, &mut rng1);
    let mut rng2 = SomRng::new(7);
    let mut g2 = SomGrid::new_random(&p, 2, &mut rng2);
    g2.train_random(&nd, &p, &mut rng2);
    for i in 0..9 {
        assert_eq!(g1.cell(i), g2.cell(i));
    }
}

#[test]
fn two_well_separated_clusters_get_separated_labels() {
    // cluster A near the origin with outcome 3; cluster B near the column
    // maxima with outcome 8; 20 samples each
    let mut rows: Vec<Vec<i64>> = Vec::new();
    for i in 0..20i64 {
        rows.push(vec![100 + i, 120 + 2 * i, 3]);
    }
    for i in 0..20i64 {
        rows.push(vec![9900 + i, 9950 + 2 * i, 8]);
    }
    let d = Dataset::new(rows, 2).unwrap();
    let p = params(6, 6, 2000);
    let nd = d.normalize();
    let mut rng = SomRng::new(42);
    let mut grid = SomGrid::new_random(&p, 2, &mut rng);
    grid.train_random(&nd, &p, &mut rng);
    let labels = label_grid(&grid, &nd);
    // both label regions exist and no cell mixes in another value
    let threes = labels.cells.iter().filter(|&&v| v == 3).count();
    let eights = labels.cells.iter().filter(|&&v| v == 8).count();
    assert!(threes > 0);
    assert!(eights > 0);
    assert!(labels
        .cells
        .iter()
        .all(|&v| v == 0 || v == 3 || v == 8));
    // the two cluster centers win spatially separated cells with the
    // matching labels
    let (ax, ay) = grid.winner(nd.feature_row(10));
    let (bx, by) = grid.winner(nd.feature_row(30));
    assert_eq!(labels.at(ax, ay), 3);
    assert_eq!(labels.at(bx, by), 8);
    let dx = if ax >= bx { ax - bx } else { bx - ax };
    let dy = if ay >= by { ay - by } else { by - ay };
    assert!(dx.max(dy) >= 2);
}
