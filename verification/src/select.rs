//! Which cell is collapsed next: one of the selectable cells of least
//! entropy.

use crate::board::{countable, Grid, grid_of, in_bounds, lemma_grid_of};
use crate::chance::pick_one;
use crate::tile::{Tile, UNDETERMINED};
use vstd::prelude::*;

verus! {

/// No cell of the grid is resolved.
pub open spec fn blank(g: Grid) -> bool {
    forall|i: int, j: int| in_bounds(g, i, j) ==> !(#[trigger] g[i][j]).resolved()
}

/// The cell at row `i`, column `j` may be collapsed next: any cell while the
/// grid is blank, and afterwards the cells on the frontier. A resolved cell
/// is never selectable, whatever its entropy.
pub open spec fn selectable(g: Grid, i: int, j: int) -> bool {
    in_bounds(g, i, j) && (blank(g) || g[i][j].on_frontier())
}

/// The cell at row `i`, column `j` is selectable, and no selectable cell has
/// less entropy.
pub open spec fn lowest(g: Grid, i: int, j: int) -> bool {
    &&& selectable(g, i, j)
    &&& forall|a: int, b: int| #[trigger] selectable(g, a, b) ==> g[i][j].entropy <= g[a][b].entropy
}

/// `e` is the least entropy among the selectable cells.
pub open spec fn least_entropy(g: Grid, e: usize) -> bool {
    &&& exists|i: int, j: int| #[trigger] selectable(g, i, j) && g[i][j].entropy == e
    &&& forall|i: int, j: int| #[trigger] selectable(g, i, j) ==> e <= g[i][j].entropy
}

/// The lowest cells among the first `n` of row `i`, from left to right.
pub open spec fn row_candidates(g: Grid, i: int, n: int) -> Seq<(usize, usize)>
    decreases n,
{
    if n <= 0 {
        Seq::empty()
    } else {
        let before = row_candidates(g, i, n - 1);
        if lowest(g, i, n - 1) {
            before.push((i as usize, (n - 1) as usize))
        } else {
            before
        }
    }
}

/// The lowest cells of the first `m` rows, row by row.
pub open spec fn candidates_upto(g: Grid, m: int) -> Seq<(usize, usize)>
    decreases m,
{
    if m <= 0 {
        Seq::empty()
    } else {
        candidates_upto(g, m - 1) + row_candidates(g, m - 1, g[m - 1].len() as int)
    }
}

/// The cells from which the next collapse is picked: the lowest cells of the
/// grid as (row, column), row by row and from left to right.
pub open spec fn candidates(g: Grid) -> Seq<(usize, usize)> {
    candidates_upto(g, g.len() as int)
}

/// Each of the lowest cells among the first `n` of row `i` is lowest, and
/// each lowest cell there is among them.
pub proof fn lemma_row_candidates(g: Grid, i: int, n: int)
    requires
        0 <= i < g.len(),
        0 <= n <= g[i].len(),
        g.len() <= usize::MAX,
        g[i].len() <= usize::MAX,
    ensures
        forall|k: int|
            0 <= k < row_candidates(g, i, n).len() ==> {
                let c = #[trigger] row_candidates(g, i, n)[k];
                c.0 == i && c.1 < n && lowest(g, c.0 as int, c.1 as int)
            },
        forall|j: int|
            0 <= j < n && lowest(g, i, j) ==> row_candidates(g, i, n).contains(
                (i as usize, j as usize),
            ),
    decreases n,
{
    if n > 0 {
        lemma_row_candidates(g, i, n - 1);
        let before = row_candidates(g, i, n - 1);
        let now = row_candidates(g, i, n);
        assert forall|j: int| 0 <= j < n && lowest(g, i, j) implies now.contains(
            (i as usize, j as usize),
        ) by {
            if j < n - 1 {
                let k = choose|k: int| 0 <= k < before.len() && before[k] == (i as usize, j as usize);
                assert(now[k] == (i as usize, j as usize));
            } else {
                assert(now[now.len() - 1] == (i as usize, j as usize));
            }
        }
    }
}

/// Each of the lowest cells of the first `m` rows is lowest, and each lowest
/// cell there is among them.
pub proof fn lemma_candidates_upto(g: Grid, m: int)
    requires
        0 <= m <= g.len(),
        countable(g),
    ensures
        forall|k: int|
            0 <= k < candidates_upto(g, m).len() ==> {
                let c = #[trigger] candidates_upto(g, m)[k];
                c.0 < m && lowest(g, c.0 as int, c.1 as int)
            },
        forall|i: int, j: int|
            0 <= i < m && lowest(g, i, j) ==> candidates_upto(g, m).contains(
                (i as usize, j as usize),
            ),
    decreases m,
{
    if m > 0 {
        lemma_candidates_upto(g, m - 1);
        lemma_row_candidates(g, m - 1, g[m - 1].len() as int);
        let above = candidates_upto(g, m - 1);
        let row = row_candidates(g, m - 1, g[m - 1].len() as int);
        let now = candidates_upto(g, m);
        assert(now == above + row);
        assert forall|k: int| 0 <= k < now.len() implies {
            let c = #[trigger] now[k];
            c.0 < m && lowest(g, c.0 as int, c.1 as int)
        } by {
            if k < above.len() {
                assert(now[k] == above[k]);
            } else {
                assert(now[k] == row[k - above.len()]);
            }
        }
        assert forall|i: int, j: int| 0 <= i < m && lowest(g, i, j) implies now.contains(
            (i as usize, j as usize),
        ) by {
            if i < m - 1 {
                let k = choose|k: int| 0 <= k < above.len() && above[k] == (i as usize, j as usize);
                assert(now[k] == (i as usize, j as usize));
            } else {
                let k = choose|k: int| 0 <= k < row.len() && row[k] == (i as usize, j as usize);
                assert(now[above.len() + k] == (i as usize, j as usize));
            }
        }
    }
}

/// The candidate at place `k` is a lowest cell of the grid.
pub proof fn lemma_candidates_lowest(g: Grid, k: int)
    requires
        countable(g),
        0 <= k < candidates(g).len(),
    ensures
        lowest(g, candidates(g)[k].0 as int, candidates(g)[k].1 as int),
{
    lemma_candidates_upto(g, g.len() as int);
}

/// Whether no cell of the board is resolved.
pub fn is_blank(board: &Vec<Vec<Tile>>) -> (r: bool)
    ensures
        r == blank(grid_of(board@)),
{
    proof {
        lemma_grid_of(board@);
    }
    let ghost g = grid_of(board@);
    let mut i: usize = 0;
    while i < board.len()
        invariant
            i <= board@.len(),
            g == grid_of(board@),
            forall|a: int, b: int| 0 <= a < i && in_bounds(g, a, b) ==> !(#[trigger] g[a][b]).resolved(),
        decreases board@.len() - i,
    {
        let mut j: usize = 0;
        while j < board[i].len()
            invariant
                i < board@.len(),
                j <= board@[i as int]@.len(),
                g == grid_of(board@),
                forall|a: int, b: int|
                    0 <= a < i && in_bounds(g, a, b) ==> !(#[trigger] g[a][b]).resolved(),
                forall|b: int| 0 <= b < j ==> !(#[trigger] g[i as int][b]).resolved(),
            decreases board@[i as int]@.len() - j,
        {
            proof {
                lemma_grid_of(board@);
            }
            if board[i][j].tile != UNDETERMINED {
                assert(in_bounds(g, i as int, j as int) && g[i as int][j as int].resolved());
                return false;
            }
            j += 1;
        }
        proof {
            lemma_grid_of(board@);
        }
        i += 1;
    }
    true
}

/// Whether the cell at row `i`, column `j` may be collapsed next, given
/// whether the board is blank.
fn is_selectable(board: &Vec<Vec<Tile>>, fresh: bool, i: usize, j: usize) -> (r: bool)
    requires
        in_bounds(grid_of(board@), i as int, j as int),
        fresh == blank(grid_of(board@)),
    ensures
        r == selectable(grid_of(board@), i as int, j as int),
{
    proof {
        lemma_grid_of(board@);
    }
    fresh || (board[i][j].active && board[i][j].tile == UNDETERMINED)
}

/// The least entropy among the selectable cells, if there is such a cell.
pub fn lowest_entropy(board: &Vec<Vec<Tile>>) -> (least: Option<usize>)
    ensures
        match least {
            Some(e) => least_entropy(grid_of(board@), e),
            None => forall|i: int, j: int| !selectable(grid_of(board@), i, j),
        },
{
    proof {
        lemma_grid_of(board@);
    }
    let ghost g = grid_of(board@);
    let fresh = is_blank(board);
    let mut least: Option<usize> = None;
    let mut i: usize = 0;
    while i < board.len()
        invariant
            i <= board@.len(),
            g == grid_of(board@),
            fresh == blank(g),
            match least {
                Some(e) => {
                    &&& exists|a: int, b: int| #[trigger] selectable(g, a, b) && g[a][b].entropy == e
                    &&& forall|a: int, b: int| a < i && #[trigger] selectable(g, a, b) ==> e <= g[a][b].entropy
                },
                None => forall|a: int, b: int| a < i ==> !#[trigger] selectable(g, a, b),
            },
        decreases board@.len() - i,
    {
        let mut j: usize = 0;
        while j < board[i].len()
            invariant
                i < board@.len(),
                j <= board@[i as int]@.len(),
                g == grid_of(board@),
                fresh == blank(g),
                match least {
                    Some(e) => {
                        &&& exists|a: int, b: int| #[trigger] selectable(g, a, b) && g[a][b].entropy == e
                        &&& forall|a: int, b: int|
                            (a < i || (a == i && b < j)) && #[trigger] selectable(g, a, b) ==> e
                                <= g[a][b].entropy
                    },
                    None => forall|a: int, b: int|
                        (a < i || (a == i && b < j)) ==> !#[trigger] selectable(g, a, b),
                },
            decreases board@[i as int]@.len() - j,
        {
            proof {
                lemma_grid_of(board@);
            }
            if is_selectable(board, fresh, i, j) {
                let e = board[i][j].entropy;
                assert(selectable(g, i as int, j as int) && g[i as int][j as int].entropy == e);
                least = match least {
                    Some(m) => if e < m {
                        Some(e)
                    } else {
                        Some(m)
                    },
                    None => Some(e),
                };
            }
            j += 1;
        }
        proof {
            lemma_grid_of(board@);
        }
        i += 1;
    }
    least
}

/// The cells from which the next collapse is picked.
pub fn lowest_entropy_cells(board: &Vec<Vec<Tile>>) -> (cells: Vec<(usize, usize)>)
    ensures
        cells@ == candidates(grid_of(board@)),
{
    proof {
        lemma_grid_of(board@);
    }
    let ghost g = grid_of(board@);
    let fresh = is_blank(board);
    let least = lowest_entropy(board);
    let mut cells: Vec<(usize, usize)> = Vec::new();
    let mut i: usize = 0;
    while i < board.len()
        invariant
            i <= board@.len(),
            g == grid_of(board@),
            fresh == blank(g),
            match least {
                Some(e) => least_entropy(g, e),
                None => forall|a: int, b: int| !selectable(g, a, b),
            },
            cells@ == candidates_upto(g, i as int),
        decreases board@.len() - i,
    {
        let ghost above = cells@;
        let mut j: usize = 0;
        while j < board[i].len()
            invariant
                i < board@.len(),
                j <= board@[i as int]@.len(),
                g == grid_of(board@),
                fresh == blank(g),
                match least {
                    Some(e) => least_entropy(g, e),
                    None => forall|a: int, b: int| !selectable(g, a, b),
                },
                cells@ == above + row_candidates(g, i as int, j as int),
            decreases board@[i as int]@.len() - j,
        {
            proof {
                lemma_grid_of(board@);
            }
            let at_least = match least {
                Some(e) => board[i][j].entropy == e,
                None => false,
            };
            let ghost row_before = row_candidates(g, i as int, j as int);
            if at_least && is_selectable(board, fresh, i, j) {
                cells.push((i, j));
                assert(lowest(g, i as int, j as int));
                assert(cells@ =~= above + row_before.push((i, j)));
            } else {
                assert(!lowest(g, i as int, j as int));
            }
            j += 1;
        }
        proof {
            lemma_grid_of(board@);
        }
        i += 1;
    }
    cells
}

/// One of the cells from which the next collapse is picked, chosen at
/// random; `None` where there is no such cell.
pub fn find_random_lowest_entropy_index(board: &Vec<Vec<Tile>>) -> (cell: Option<(usize, usize)>)
    ensures
        match cell {
            Some(c) => exists|k: usize|
                k < candidates(grid_of(board@)).len() && #[trigger] candidates(grid_of(board@))[k as int]
                    == c,
            None => candidates(grid_of(board@)).len() == 0,
        },
{
    let cells = lowest_entropy_cells(board);
    match pick_one(cells.as_slice()) {
        Some(c) => {
            proof {
                let k = choose|k: int| 0 <= k < cells@.len() && cells@[k] == *c;
                assert(cells@.len() == cells.len());
                assert(cells@[k as usize as int] == *c);
            }
            Some(*c)
        },
        None => None,
    }
}

} // verus!
