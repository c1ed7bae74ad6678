//! The frontier of a grid that grew from a blank one: while resolved and
//! undetermined cells both remain, some cell is on the frontier, and so a
//! next cell can be picked.

use crate::board::{adjacent, countable, Grid, in_bounds, rectangular, resolved_at};
use crate::select::{candidates, lemma_candidates_upto, lowest, selectable};
use vstd::prelude::*;

verus! {

/// Where a cell is selectable, some cell is lowest.
pub proof fn lemma_lowest_exists(g: Grid, i: int, j: int)
    requires
        selectable(g, i, j),
    ensures
        exists|a: int, b: int| lowest(g, a, b),
    decreases g[i][j].entropy,
{
    if !lowest(g, i, j) {
        let (a, b) = choose|a: int, b: int|
            #[trigger] selectable(g, a, b) && g[a][b].entropy < g[i][j].entropy;
        lemma_lowest_exists(g, a, b);
    }
}

/// Where a cell is selectable, there is a candidate.
pub proof fn lemma_candidates_exist(g: Grid, i: int, j: int)
    requires
        countable(g),
        selectable(g, i, j),
    ensures
        candidates(g).len() > 0,
{
    lemma_lowest_exists(g, i, j);
    let (a, b) = choose|a: int, b: int| lowest(g, a, b);
    lemma_candidates_upto(g, g.len() as int);
    assert(candidates(g).contains((a as usize, b as usize)));
}

/// A resolved cell shares an edge with the cell at row `i`, column `j`.
pub open spec fn beside_resolved(g: Grid, i: int, j: int) -> bool {
    resolved_at(g, i - 1, j) || resolved_at(g, i + 1, j) || resolved_at(g, i, j - 1)
        || resolved_at(g, i, j + 1)
}

/// The active cells are the undetermined cells beside a resolved one, or
/// fewer: an active cell is undetermined, and an undetermined cell beside a
/// resolved one is active.
pub open spec fn frontier_sound(g: Grid) -> bool {
    forall|i: int, j: int|
        in_bounds(g, i, j) ==> {
            &&& (#[trigger] g[i][j]).active ==> !g[i][j].resolved()
            &&& !g[i][j].resolved() && beside_resolved(g, i, j) ==> g[i][j].active
        }
}

/// On a sound grid, an undetermined cell beside a resolved one is on the
/// frontier.
pub proof fn lemma_beside_is_frontier(g: Grid, a: int, b: int, na: int, nb: int)
    requires
        frontier_sound(g),
        resolved_at(g, a, b),
        in_bounds(g, na, nb),
        !g[na][nb].resolved(),
        adjacent(na, nb, a, b),
    ensures
        g[na][nb].on_frontier(),
{
    assert(beside_resolved(g, na, nb));
}

/// On a sound grid that holds a resolved cell and an undetermined one, some
/// cell is on the frontier: walking from the one to the other, the first
/// undetermined cell lies beside a resolved one.
pub proof fn lemma_frontier_reached(g: Grid, a: int, b: int, c: int, d: int)
    requires
        rectangular(g),
        frontier_sound(g),
        resolved_at(g, a, b),
        in_bounds(g, c, d),
        !g[c][d].resolved(),
    ensures
        exists|i: int, j: int| in_bounds(g, i, j) && (#[trigger] g[i][j]).on_frontier(),
    decreases (if a < c { c - a } else { a - c }) + (if b < d { d - b } else { b - d }),
{
    let na = if a < c {
        a + 1
    } else if a > c {
        a - 1
    } else {
        a
    };
    let nb = if a != c {
        b
    } else if b < d {
        b + 1
    } else {
        b - 1
    };
    assert(g[a].len() == g[0].len());
    assert(g[c].len() == g[0].len());
    assert(0 <= na < g.len());
    assert(g[na].len() == g[0].len());
    assert(in_bounds(g, na, nb));
    assert(adjacent(na, nb, a, b));
    if g[na][nb].resolved() {
        lemma_frontier_reached(g, na, nb, c, d);
    } else {
        lemma_beside_is_frontier(g, a, b, na, nb);
    }
}

} // verus!
