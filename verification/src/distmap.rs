//! The neighbor-distance map: for every cell, the mean Euclidean distance
//! from its weight vector to those of its 4-connected grid neighbors
//! (border and corner cells average over the neighbors they have),
//! normalized by the grid's own maximum into fixed-point `[0, SCALE]`.
//! A degenerate grid — all neighbor distances zero — maps to all zeros.

use vstd::prelude::*;
use vstd::arithmetic::div_mod::{
    lemma_div_is_ordered_by_denominator, lemma_div_pos_is_pos, lemma_fundamental_div_mod,
    lemma_mod_bound,
};
use vstd::arithmetic::mul::lemma_mul_is_commutative;
use crate::dataset::lemma_entry_scaled_in_range;
use crate::fixed::{isqrt, sqrt_floor, SCALE};
use crate::grid::Grid;
use crate::som::{dist2, SomGrid};

verus! {

/// How many 4-connected neighbors cell `i` has on a `w x h` grid.
pub open spec fn nbr_count(w: int, h: int, i: int) -> int {
    let x = i / h;
    let y = i % h;
    (if x > 0 { 1int } else { 0int }) + (if x < w - 1 { 1int } else { 0int })
        + (if y > 0 { 1int } else { 0int }) + (if y < h - 1 { 1int } else { 0int })
}

/// Sum of the rounded Euclidean distances from cell `i` to its neighbors.
pub open spec fn nbr_dist_sum(cells: Seq<Seq<i64>>, w: int, h: int, i: int) -> int {
    let x = i / h;
    let y = i % h;
    (if x > 0 { sqrt_floor(dist2(cells[i], cells[i - h])) } else { 0int })
        + (if x < w - 1 { sqrt_floor(dist2(cells[i], cells[i + h])) } else { 0int })
        + (if y > 0 { sqrt_floor(dist2(cells[i], cells[i - 1])) } else { 0int })
        + (if y < h - 1 { sqrt_floor(dist2(cells[i], cells[i + 1])) } else { 0int })
}

/// The un-normalized distance value of cell `i`: the mean rounded
/// neighbor distance, or `0` for a single-cell grid with no neighbors.
pub open spec fn raw_at(cells: Seq<Seq<i64>>, w: int, h: int, i: int) -> int {
    if nbr_count(w, h, i) == 0 {
        0
    } else {
        nbr_dist_sum(cells, w, h, i) / nbr_count(w, h, i)
    }
}

/// Maximum raw distance value over the first `n` cells, `0` for none.
pub open spec fn raw_max_upto(cells: Seq<Seq<i64>>, w: int, h: int, n: int) -> int
    decreases n,
{
    if n <= 0 {
        0
    } else {
        let prev = raw_max_upto(cells, w, h, n - 1);
        if raw_at(cells, w, h, n - 1) > prev {
            raw_at(cells, w, h, n - 1)
        } else {
            prev
        }
    }
}

/// Maximum raw distance value over the whole grid.
pub open spec fn raw_max(cells: Seq<Seq<i64>>, w: int, h: int) -> int {
    raw_max_upto(cells, w, h, w * h)
}

/// Every raw value among the first `n` is bounded by the running maximum,
/// which itself is `0` or attained.
pub proof fn lemma_raw_max_upto_props(cells: Seq<Seq<i64>>, w: int, h: int, n: int)
    requires
        0 <= n,
    ensures
        forall|i: int| 0 <= i < n ==> #[trigger] raw_at(cells, w, h, i) <= raw_max_upto(cells, w, h, n),
        raw_max_upto(cells, w, h, n) == 0 || exists|i: int|
            0 <= i < n && #[trigger] raw_at(cells, w, h, i) == raw_max_upto(cells, w, h, n),
    decreases n,
{
    if n > 0 {
        lemma_raw_max_upto_props(cells, w, h, n - 1);
    }
}

/// What the normalized distance map holds at cell `i`: the raw value as a
/// fixed-point fraction of the grid maximum, or `0` on a degenerate grid.
pub open spec fn dist_out(cells: Seq<Seq<i64>>, w: int, h: int, i: int) -> int {
    let m = raw_max(cells, w, h);
    if m > 0 {
        raw_at(cells, w, h, i) * SCALE / m
    } else {
        0
    }
}

/// Derives the normalized neighbor-distance grid of a trained map.
/// Every entry lies in `[0, SCALE]`; on a non-degenerate grid (positive
/// maximum raw distance) at least one entry equals `SCALE` exactly.
#[verifier::rlimit(60)]
pub fn distance_map(grid: &SomGrid) -> (g: Grid)
    requires
        grid.wf(),
    ensures
        g.wf(),
        g.width == grid.w_spec(),
        g.height == grid.h_spec(),
        g.cells@.len() == grid.w_spec() * grid.h_spec(),
        forall|i: int| 0 <= i < g.cells@.len()
            ==> #[trigger] g.cells@[i] == dist_out(grid.cells_spec(), grid.w_spec(),
                grid.h_spec(), i),
        forall|i: int| 0 <= i < g.cells@.len() ==> 0 <= #[trigger] g.cells@[i] <= SCALE,
        raw_max(grid.cells_spec(), grid.w_spec(), grid.h_spec()) > 0 ==> exists|i: int|
            0 <= i < g.cells@.len() && #[trigger] g.cells@[i] == SCALE,
{
    let w = grid.width();
    let h = grid.height();
    let dim = grid.dim();
    let n = w * h;
    let ghost cells = grid.cells_spec();
    proof {
        assert((dim as int) * (SCALE as int) * (SCALE as int)
            <= 0x10_0000 * (SCALE as int) * (SCALE as int)) by (nonlinear_arith)
            requires
                1 <= dim as int <= 0x10_0000,
        ;
    }
    // raw values: mean rounded distance to the present neighbors
    let mut raws: Vec<i64> = Vec::new();
    let mut i: usize = 0;
    while i < n
        invariant
            i <= n,
            raws@.len() == i,
            forall|j: int| 0 <= j < i
                ==> #[trigger] raws@[j] == raw_at(cells, w as int, h as int, j)
                    && 0 <= raws@[j] <= 0x2000_0000,
        decreases n - i,
    {
        let x = i / h;
        let y = i % h;
        proof {
            lemma_fundamental_div_mod(i as int, h as int);
            lemma_mod_bound(i as int, h as int);
            lemma_mul_is_commutative(x as int, h as int);
        }
        assert(i as int == (x as int) * (h as int) + (y as int));
        proof {
            assert((x as int) < w as int) by (nonlinear_arith)
                requires
                    i as int == (x as int) * (h as int) + (y as int),
                    0 <= y as int,
                    (i as int) < (w as int) * (h as int),
                    1 <= h as int,
                    0 <= x as int,
            ;
        }
        let mut sum: i64 = 0;
        let mut cnt: i64 = 0;
        if x > 0 {
            proof {
                assert(i >= h) by (nonlinear_arith)
                    requires
                        i as int == (x as int) * (h as int) + (y as int),
                        0 <= y as int,
                        1 <= x as int,
                        1 <= h as int,
                ;
            }
            let d2v = grid.cell_dist2(i, grid.cell(i - h));
            let dv = isqrt(d2v);
            proof {
                lemma_sqrt_small(dv as int, d2v as int);
            }
            sum = sum + dv;
            cnt = cnt + 1;
        }
        if x < w - 1 {
            proof {
                assert(i + h < n) by (nonlinear_arith)
                    requires
                        i as int == (x as int) * (h as int) + (y as int),
                        (y as int) < h as int,
                        (x as int) < w as int - 1,
                        n == (w as int) * (h as int),
                        1 <= h as int,
                        0 <= x as int,
                ;
            }
            let d2v = grid.cell_dist2(i, grid.cell(i + h));
            let dv = isqrt(d2v);
            proof {
                lemma_sqrt_small(dv as int, d2v as int);
            }
            sum = sum + dv;
            cnt = cnt + 1;
        }
        if y > 0 {
            let d2v = grid.cell_dist2(i, grid.cell(i - 1));
            let dv = isqrt(d2v);
            proof {
                lemma_sqrt_small(dv as int, d2v as int);
            }
            sum = sum + dv;
            cnt = cnt + 1;
        }
        if y < h - 1 {
            proof {
                assert(i + 1 < n) by (nonlinear_arith)
                    requires
                        (i as int) == (x as int) * (h as int) + (y as int),
                        (y as int) < h as int - 1,
                        (x as int) <= w as int - 1,
                        n == (w as int) * (h as int),
                        1 <= h as int,
                        0 <= x as int,
                        0 <= y as int,
                ;
            }
            let d2v = grid.cell_dist2(i, grid.cell(i + 1));
            let dv = isqrt(d2v);
            proof {
                lemma_sqrt_small(dv as int, d2v as int);
            }
            sum = sum + dv;
            cnt = cnt + 1;
        }
        assert(sum == nbr_dist_sum(cells, w as int, h as int, i as int));
        assert(cnt == nbr_count(w as int, h as int, i as int));
        let raw: i64 = if cnt == 0 {
            0
        } else {
            proof {
                lemma_div_is_ordered_by_denominator(sum as int, 1, cnt as int);
                lemma_div_pos_is_pos(sum as int, cnt as int);
            }
            sum / cnt
        };
        assert(raw == raw_at(cells, w as int, h as int, i as int));
        raws.push(raw);
        i = i + 1;
    }
    // the grid's own maximum
    let mut m: i64 = 0;
    let mut i: usize = 0;
    while i < n
        invariant
            i <= n,
            m == raw_max_upto(cells, w as int, h as int, i as int),
        decreases n - i,
    {
        let v = raws[i];
        if v > m {
            m = v;
        }
        i = i + 1;
    }
    proof {
        lemma_raw_max_upto_props(cells, w as int, h as int, n as int);
    }
    // normalize by the maximum, or emit zeros when it is zero
    let mut out: Vec<i64> = Vec::new();
    let mut i: usize = 0;
    while i < n
        invariant
            i <= n,
            out@.len() == i,
            m == raw_max(cells, w as int, h as int),
            forall|j: int| 0 <= j < i
                ==> #[trigger] out@[j] == dist_out(cells, w as int, h as int, j)
                    && 0 <= out@[j] <= SCALE,
        decreases n - i,
    {
        let raw = raws[i];
        let v: i64;
        if m > 0 {
            proof {
                lemma_entry_scaled_in_range(raw as int, m as int);
            }
            v = (raw * SCALE) / m;
        } else {
            v = 0;
        }
        out.push(v);
        i = i + 1;
    }
    let g = Grid { width: w, height: h, cells: out };
    proof {
        if raw_max(cells, w as int, h as int) > 0 {
            let i0 = choose|j: int| 0 <= j < n
                && #[trigger] raw_at(cells, w as int, h as int, j)
                    == raw_max_upto(cells, w as int, h as int, n as int);
            lemma_entry_scaled_in_range(raw_at(cells, w as int, h as int, i0), m as int);
            assert(g.cells@[i0] == SCALE);
        }
    }
    g
}

/// A rounded square root of a bounded squared distance is small enough
/// to sum safely: at most `2^26`.
pub proof fn lemma_sqrt_small(r: int, n: int)
    requires
        0 <= r,
        r * r <= n,
        n <= 0x10_0000 * (SCALE as int) * (SCALE as int),
    ensures
        r <= 0x400_0000,
{
    assert(r <= 0x400_0000) by (nonlinear_arith)
        requires
            0 <= r,
            r * r <= n,
            n <= 0x10_0000 * 65536 * 65536,
    ;
}

} // verus!
