//! Counting the resolved cells of a grid.

use crate::board::{Grid, in_bounds, rectangular};
use crate::select::blank;
use crate::tile::TileView;
use vstd::prelude::*;

verus! {

/// The number of resolved cells among the first `n` of a row.
pub open spec fn resolved_in_row(row: Seq<TileView>, n: int) -> nat
    decreases n,
{
    if n <= 0 {
        0
    } else {
        resolved_in_row(row, n - 1) + if row[n - 1].resolved() {
            1nat
        } else {
            0nat
        }
    }
}

/// The number of resolved cells in the first `m` rows of a grid.
pub open spec fn resolved_in_rows(g: Grid, m: int) -> nat
    decreases m,
{
    if m <= 0 {
        0
    } else {
        resolved_in_rows(g, m - 1) + resolved_in_row(g[m - 1], g[m - 1].len() as int)
    }
}

/// The number of resolved cells of a grid.
pub open spec fn resolved_count(g: Grid) -> nat {
    resolved_in_rows(g, g.len() as int)
}

/// Among `n` cells of a row at most `n` are resolved, and `n` are exactly
/// when each one is.
pub proof fn lemma_row_count_bounds(row: Seq<TileView>, n: int)
    requires
        0 <= n <= row.len(),
    ensures
        resolved_in_row(row, n) <= n,
        resolved_in_row(row, n) == n <==> forall|j: int| 0 <= j < n ==> (#[trigger] row[j]).resolved(),
    decreases n,
{
    if n > 0 {
        lemma_row_count_bounds(row, n - 1);
        if resolved_in_row(row, n) == n {
            assert forall|j: int| 0 <= j < n implies (#[trigger] row[j]).resolved() by {
                if j == n - 1 {
                }
            }
        }
    }
}

/// Rows with the same cells resolved have the same number resolved.
pub proof fn lemma_row_count_same(a: Seq<TileView>, b: Seq<TileView>, n: int)
    requires
        0 <= n <= a.len(),
        a.len() == b.len(),
        forall|j: int| 0 <= j < n ==> (#[trigger] a[j]).resolved() == b[j].resolved(),
    ensures
        resolved_in_row(a, n) == resolved_in_row(b, n),
    decreases n,
{
    if n > 0 {
        lemma_row_count_same(a, b, n - 1);
        assert(a[n - 1].resolved() == b[n - 1].resolved());
    }
}

/// A row in which one more cell is resolved has one more resolved.
pub proof fn lemma_row_count_more(a: Seq<TileView>, b: Seq<TileView>, n: int, y: int)
    requires
        0 <= y < n <= a.len(),
        a.len() == b.len(),
        !a[y].resolved(),
        b[y].resolved(),
        forall|j: int| 0 <= j < n && j != y ==> (#[trigger] a[j]).resolved() == b[j].resolved(),
    ensures
        resolved_in_row(b, n) == resolved_in_row(a, n) + 1,
    decreases n,
{
    if y == n - 1 {
        lemma_row_count_same(a, b, n - 1);
    } else {
        lemma_row_count_more(a, b, n - 1, y);
        assert(a[n - 1].resolved() == b[n - 1].resolved());
    }
}

/// The two grids have the same rows and columns.
pub open spec fn same_frame(g: Grid, h: Grid) -> bool {
    &&& g.len() == h.len()
    &&& forall|i: int| 0 <= i < g.len() ==> (#[trigger] g[i]).len() == h[i].len()
}

/// Grids with the same cells resolved have the same number resolved.
pub proof fn lemma_count_same(g: Grid, h: Grid, m: int)
    requires
        0 <= m <= g.len(),
        same_frame(g, h),
        forall|i: int, j: int|
            0 <= i < m && 0 <= j < g[i].len() ==> (#[trigger] g[i][j]).resolved()
                == h[i][j].resolved(),
    ensures
        resolved_in_rows(g, m) == resolved_in_rows(h, m),
    decreases m,
{
    if m > 0 {
        lemma_count_same(g, h, m - 1);
        assert(g[m - 1].len() == h[m - 1].len());
        assert forall|j: int| 0 <= j < g[m - 1].len() implies (#[trigger] g[m - 1][j]).resolved()
            == h[m - 1][j].resolved() by {
            assert(g[m - 1][j].resolved() == h[m - 1][j].resolved());
        }
        lemma_row_count_same(g[m - 1], h[m - 1], g[m - 1].len() as int);
    }
}

/// A grid in which one more cell is resolved has one more resolved.
pub proof fn lemma_count_more(g: Grid, h: Grid, m: int, x: int, y: int)
    requires
        0 <= x < m <= g.len(),
        0 <= y < g[x].len(),
        same_frame(g, h),
        !g[x][y].resolved(),
        h[x][y].resolved(),
        forall|i: int, j: int|
            0 <= i < m && 0 <= j < g[i].len() && !(i == x && j == y) ==> (#[trigger] g[i][j]).resolved()
                == h[i][j].resolved(),
    ensures
        resolved_in_rows(h, m) == resolved_in_rows(g, m) + 1,
    decreases m,
{
    assert(g[m - 1].len() == h[m - 1].len());
    if x == m - 1 {
        lemma_count_same(g, h, m - 1);
        assert forall|j: int| 0 <= j < g[x].len() && j != y implies (#[trigger] g[x][j]).resolved()
            == h[x][j].resolved() by {
            assert(g[x][j].resolved() == h[x][j].resolved());
        }
        lemma_row_count_more(g[x], h[x], g[x].len() as int, y);
    } else {
        lemma_count_more(g, h, m - 1, x, y);
        assert forall|j: int| 0 <= j < g[m - 1].len() implies (#[trigger] g[m - 1][j]).resolved()
            == h[m - 1][j].resolved() by {
            assert(g[m - 1][j].resolved() == h[m - 1][j].resolved());
        }
        lemma_row_count_same(g[m - 1], h[m - 1], g[m - 1].len() as int);
    }
}

/// Of the cells in the first `m` rows of a rectangular grid, at most all
/// are resolved, and all are exactly when each one is.
pub proof fn lemma_count_bounds(g: Grid, m: int)
    requires
        rectangular(g),
        0 <= m <= g.len(),
    ensures
        resolved_in_rows(g, m) <= m * g[0].len(),
        resolved_in_rows(g, m) == m * g[0].len() <==> forall|i: int, j: int|
            0 <= i < m && 0 <= j < g[0].len() ==> (#[trigger] g[i][j]).resolved(),
    decreases m,
{
    let w = g[0].len() as int;
    if m > 0 {
        lemma_count_bounds(g, m - 1);
        assert(g[m - 1].len() == w);
        lemma_row_count_bounds(g[m - 1], w);
        assert((m - 1) * w + w == m * w) by (nonlinear_arith);
        if resolved_in_rows(g, m) == m * w {
            assert forall|i: int, j: int| 0 <= i < m && 0 <= j < w implies (#[trigger] g[i][j]).resolved() by {
                if i == m - 1 {
                    assert(g[m - 1][j].resolved());
                }
            }
        }
        if forall|i: int, j: int| 0 <= i < m && 0 <= j < w ==> (#[trigger] g[i][j]).resolved() {
            assert forall|j: int| 0 <= j < w implies (#[trigger] g[m - 1][j]).resolved() by {
                assert(g[m - 1][j].resolved());
            }
        }
    } else {
        assert(0 * w == 0) by (nonlinear_arith);
    }
}

/// A grid without a resolved cell counts none.
pub proof fn lemma_count_zero(g: Grid, m: int)
    requires
        0 <= m <= g.len(),
        blank(g),
    ensures
        resolved_in_rows(g, m) == 0,
    decreases m,
{
    if m > 0 {
        lemma_count_zero(g, m - 1);
        lemma_row_count_zero(g, m - 1, g[m - 1].len() as int);
    }
}

/// A row of a grid without a resolved cell counts none.
pub proof fn lemma_row_count_zero(g: Grid, i: int, n: int)
    requires
        0 <= i < g.len(),
        0 <= n <= g[i].len(),
        blank(g),
    ensures
        resolved_in_row(g[i], n) == 0,
    decreases n,
{
    if n > 0 {
        lemma_row_count_zero(g, i, n - 1);
        assert(in_bounds(g, i, n - 1));
    }
}

} // verus!
