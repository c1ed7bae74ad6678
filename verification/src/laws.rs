//! What holds of every recomputation, every step and every run.

use crate::board::{
    adjacent, complete, countable, direction_set, edges_match, from_catalog, glyphs_facing, Grid,
    grid_of, in_bounds, lemma_possibilities_depend_on_tiles, possibilities_at, recomputed,
    rectangular, resolved_at, same_tiles, sized, untouched,
};
use crate::catalog::{answered, answers, distinct_glyphs, marker_free};
use crate::collapse::{lemma_step_outcome, options, Outcome, placed, step_grid, step_outcome};
use crate::count::{
    lemma_count_bounds, lemma_count_more, lemma_count_zero, resolved_count, same_frame,
};
use crate::frontier::{
    beside_resolved, frontier_sound, lemma_candidates_exist, lemma_frontier_reached,
};
use crate::run::{Contradiction, Generation, lemma_step_keeps_frame, pick_at, run_result, run_upto};
use crate::select::{blank, candidates, selectable};
use crate::tile::{
    admitted_upto, allowed_tiles, Direction, EXHAUSTED, is_first, lemma_admitted_len,
    lemma_admitted_members, Shape, UNCONSTRAINED, UNDETERMINED,
};
use vstd::prelude::*;

verus! {

/// The candidates of a cell are never more than the catalog holds, and its
/// entropy is their number, but for a cell that nothing constrains
/// (`UNCONSTRAINED`, no candidates) and a cell for which nothing is left
/// (`EXHAUSTED`).
pub proof fn lemma_entropy_counts_candidates(g: Grid, catalog: Seq<Shape>, i: int, j: int)
    requires
        in_bounds(g, i, j),
        g[i][j].on_frontier(),
        catalog.len() <= usize::MAX,
    ensures
        ({
            let t = recomputed(g, catalog)[i][j];
            &&& t.allowed.len() <= catalog.len()
            &&& if t.possibilities.unconstrained() {
                t.entropy == UNCONSTRAINED && t.allowed.len() == 0
            } else if t.allowed.len() == 0 {
                t.entropy == EXHAUSTED
            } else {
                t.entropy == t.allowed.len()
            }
        }),
{
    let p = possibilities_at(g, catalog, i, j);
    lemma_admitted_len(catalog, p, catalog.len() as int);
}

/// Recomputing changes no glyph, no connector code and no frontier.
pub proof fn lemma_recomputed_keeps_tiles(g: Grid, catalog: Seq<Shape>)
    ensures
        same_tiles(recomputed(g, catalog), g),
        forall|i: int, j: int|
            in_bounds(g, i, j) ==> (#[trigger] recomputed(g, catalog)[i][j]).active == g[i][j].active,
{
}

/// Recomputing twice in a row gives what recomputing once gives: the
/// candidates and the entropy of a cell depend on the glyphs and connector
/// codes of its neighbours alone.
pub proof fn lemma_recompute_is_idempotent(g: Grid, catalog: Seq<Shape>)
    ensures
        recomputed(recomputed(g, catalog), catalog) == recomputed(g, catalog),
{
    let once = recomputed(g, catalog);
    let twice = recomputed(once, catalog);
    lemma_recomputed_keeps_tiles(g, catalog);
    assert forall|i: int, j: int| in_bounds(once, i, j) implies #[trigger] twice[i][j]
        == once[i][j] by {
        lemma_possibilities_depend_on_tiles(once, g, catalog, i, j);
        assert(twice[i][j] =~= once[i][j]);
    }
    assert(twice =~~= once);
}

/// Two runs with the same catalog, dimensions and picks hand back the same:
/// both the same board and the same trace, or both the same contradiction.
pub proof fn lemma_same_picks_same_run(
    height: nat,
    width: nat,
    catalog: Seq<Shape>,
    picks: Seq<(usize, usize)>,
    a: Result<Generation, Contradiction>,
    b: Result<Generation, Contradiction>,
)
    requires
        run_result(a, run_upto(height, width, catalog, picks, height * width)),
        run_result(b, run_upto(height, width, catalog, picks, height * width)),
    ensures
        match (a, b) {
            (Ok(x), Ok(y)) => grid_of(x.board@) == grid_of(y.board@) && x.trace@ == y.trace@,
            (Err(x), Err(y)) => x == y,
            _ => false,
        },
{
}

/// A step resolves at most one cell, and never touches a resolved one. A
/// step that collapses a cell takes a cell that was undetermined and gives
/// it the shape of a catalog entry; every other cell keeps its glyph and
/// connector codes. A step that does not collapse changes none.
pub proof fn lemma_step_resolves_one(g: Grid, catalog: Seq<Shape>, cell_pick: usize, tile_pick: usize)
    requires
        countable(g),
    ensures
        ({
            let after = step_grid(g, catalog, cell_pick, tile_pick);
            match step_outcome(g, catalog, cell_pick, tile_pick) {
                Outcome::Collapsed { row, col, shape } => {
                    &&& in_bounds(g, row as int, col as int)
                    &&& !g[row as int][col as int].resolved()
                    &&& catalog.contains(shape)
                    &&& after.len() == g.len()
                    &&& forall|i: int| 0 <= i < g.len() ==> (#[trigger] after[i]).len() == g[i].len()
                    &&& forall|i: int, j: int|
                        in_bounds(g, i, j) ==> (#[trigger] after[i][j]).shape() == if i == row && j
                            == col {
                            shape
                        } else {
                            g[i][j].shape()
                        }
                },
                _ => same_tiles(after, g),
            }
        }),
{
    let r = recomputed(g, catalog);
    lemma_step_outcome(g, catalog, cell_pick, tile_pick);
    lemma_recomputed_keeps_tiles(g, catalog);
    match step_outcome(g, catalog, cell_pick, tile_pick) {
        Outcome::Collapsed { row, col, shape } => {
            lemma_options_in_catalog(r, catalog, row as int, col as int);
        },
        _ => {},
    }
}

/// The options of a cell are entries of the catalog, once the grid has been
/// recomputed.
pub proof fn lemma_options_in_catalog(r: Grid, catalog: Seq<Shape>, i: int, j: int)
    requires
        selectable(r, i, j),
        exists|g: Grid| r == recomputed(g, catalog),
    ensures
        forall|s: Shape| options(r, catalog, i, j).contains(s) ==> catalog.contains(s),
{
    let g = choose|g: Grid| r == recomputed(g, catalog);
    lemma_recomputed_keeps_tiles(g, catalog);
    if !blank(r) {
        let p = possibilities_at(g, catalog, i, j);
        lemma_admitted_members(catalog, p, catalog.len() as int);
        assert forall|s: Shape| r[i][j].allowed.contains(s) implies catalog.contains(s) by {
            let m = choose|m: int| 0 <= m < r[i][j].allowed.len() && r[i][j].allowed[m] == s;
            if !p.unconstrained() {
                let all = admitted_upto(catalog, p, catalog.len() as int);
                assert(all[m] == s);
                let k = choose|k: int|
                    0 <= k < catalog.len() && all[m] == catalog[k] && is_first(catalog, k)
                        && p.admits(catalog[k].tile);
                assert(catalog[k] == s);
            }
        }
    }
}

/// A step keeps the frontier sound, as long as no catalog entry looks like
/// an undetermined cell.
pub proof fn lemma_step_keeps_frontier(
    g: Grid,
    catalog: Seq<Shape>,
    cell_pick: usize,
    tile_pick: usize,
)
    requires
        rectangular(g),
        countable(g),
        frontier_sound(g),
        marker_free(catalog),
    ensures
        frontier_sound(step_grid(g, catalog, cell_pick, tile_pick)),
{
    let r = recomputed(g, catalog);
    let after = step_grid(g, catalog, cell_pick, tile_pick);
    lemma_step_resolves_one(g, catalog, cell_pick, tile_pick);
    lemma_step_outcome(g, catalog, cell_pick, tile_pick);
    lemma_recomputed_keeps_tiles(g, catalog);
    assert(frontier_sound(r)) by {
        assert forall|i: int, j: int| in_bounds(r, i, j) implies {
            &&& (#[trigger] r[i][j]).active ==> !r[i][j].resolved()
            &&& !r[i][j].resolved() && beside_resolved(r, i, j) ==> r[i][j].active
        } by {
            lemma_same_tiles_same_resolved(r, g, i, j);
            assert(g[i][j].active ==> !g[i][j].resolved());
        }
    }
    match step_outcome(g, catalog, cell_pick, tile_pick) {
        Outcome::Collapsed { row, col, shape } => {
            let k = choose|k: int| 0 <= k < catalog.len() && catalog[k] == shape;
            assert(shape.tile != UNDETERMINED);
            let p = placed(r, row as int, col as int, shape);
            assert forall|i: int, j: int| in_bounds(after, i, j) implies {
                &&& (#[trigger] after[i][j]).active ==> !after[i][j].resolved()
                &&& !after[i][j].resolved() && beside_resolved(after, i, j) ==> after[i][j].active
            } by {
                assert(r[i][j].active ==> !r[i][j].resolved());
                if !after[i][j].resolved() && beside_resolved(after, i, j) {
                    assert(!(i == row && j == col));
                    assert(after[i][j].shape() == r[i][j].shape());
                    if !adjacent(i, j, row as int, col as int) {
                        assert(beside_resolved(r, i, j)) by {
                            if resolved_at(after, i - 1, j) {
                                assert(after[i - 1][j].shape() == r[i - 1][j].shape());
                            } else if resolved_at(after, i + 1, j) {
                                assert(after[i + 1][j].shape() == r[i + 1][j].shape());
                            } else if resolved_at(after, i, j - 1) {
                                assert(after[i][j - 1].shape() == r[i][j - 1].shape());
                            } else {
                                assert(after[i][j + 1].shape() == r[i][j + 1].shape());
                            }
                        }
                    }
                }
            }
        },
        _ => {},
    }
}

/// In grids with the same glyphs, the same cells are resolved and lie
/// beside resolved cells.
pub proof fn lemma_same_tiles_same_resolved(g: Grid, h: Grid, i: int, j: int)
    requires
        same_tiles(g, h),
    ensures
        resolved_at(g, i, j) == resolved_at(h, i, j),
        beside_resolved(g, i, j) == beside_resolved(h, i, j),
{
    lemma_resolved_at_same(g, h, i, j);
    lemma_resolved_at_same(g, h, i - 1, j);
    lemma_resolved_at_same(g, h, i + 1, j);
    lemma_resolved_at_same(g, h, i, j - 1);
    lemma_resolved_at_same(g, h, i, j + 1);
}

/// In grids with the same glyphs, the same cells are resolved.
pub proof fn lemma_resolved_at_same(g: Grid, h: Grid, i: int, j: int)
    requires
        same_tiles(g, h),
    ensures
        resolved_at(g, i, j) == resolved_at(h, i, j),
{
    if 0 <= i < g.len() {
        assert(g[i].len() == h[i].len());
        if 0 <= j < g[i].len() {
            assert(g[i][j].shape() == h[i][j].shape());
        }
    }
}

/// While a sound grid holds an undetermined cell, a step is not idle: it
/// collapses a cell or meets a contradiction.
pub proof fn lemma_step_is_not_idle(
    g: Grid,
    catalog: Seq<Shape>,
    cell_pick: usize,
    tile_pick: usize,
    c: int,
    d: int,
)
    requires
        rectangular(g),
        countable(g),
        frontier_sound(g),
        in_bounds(g, c, d),
        !g[c][d].resolved(),
    ensures
        step_outcome(g, catalog, cell_pick, tile_pick) != Outcome::Idle,
{
    let r = recomputed(g, catalog);
    lemma_recomputed_keeps_tiles(g, catalog);
    lemma_step_outcome(g, catalog, cell_pick, tile_pick);
    if blank(g) {
        assert(blank(r)) by {
            assert forall|i: int, j: int| in_bounds(r, i, j) implies !(#[trigger] r[i][j]).resolved() by {
                lemma_resolved_at_same(r, g, i, j);
            }
        }
        assert(selectable(r, c, d));
        lemma_candidates_exist(r, c, d);
    } else {
        let (a, b) = choose|a: int, b: int| in_bounds(g, a, b) && (#[trigger] g[a][b]).resolved();
        lemma_frontier_reached(g, a, b, c, d);
        let (i, j) = choose|i: int, j: int| in_bounds(g, i, j) && (#[trigger] g[i][j]).on_frontier();
        assert(r[i][j].shape() == g[i][j].shape());
        assert(selectable(r, i, j));
        lemma_candidates_exist(r, i, j);
    }
}

/// Every iteration of a run resolves exactly one cell, until a
/// contradiction ends the run: while none has, the grid holds as many
/// resolved cells as iterations have passed, and the trace as many
/// collapses. This asks that no catalog entry looks like an undetermined
/// cell.
pub proof fn lemma_run_resolves_one_each(
    height: nat,
    width: nat,
    catalog: Seq<Shape>,
    picks: Seq<(usize, usize)>,
    n: nat,
)
    requires
        0 < height <= usize::MAX,
        0 < width <= usize::MAX,
        marker_free(catalog),
        n <= height * width,
    ensures
        ({
            let state = run_upto(height, width, catalog, picks, n);
            &&& rectangular(state.grid)
            &&& countable(state.grid)
            &&& state.grid.len() == height
            &&& state.grid[0].len() == width
            &&& frontier_sound(state.grid)
            &&& state.failure is None ==> resolved_count(state.grid) == n && state.trace.len() == n
        }),
    decreases n,
{
    let state = run_upto(height, width, catalog, picks, n);
    if n == 0 {
        let g = untouched(height, width);
        assert(rectangular(g));
        lemma_count_bounds(g, height as int);
        assert(resolved_count(g) == 0) by {
            lemma_count_zero(g, height as int);
        }
    } else {
        lemma_run_resolves_one_each(height, width, catalog, picks, (n - 1) as nat);
        let before = run_upto(height, width, catalog, picks, (n - 1) as nat);
        if before.failure is None {
            let g = before.grid;
            let pick = pick_at(picks, n - 1);
            let after = step_grid(g, catalog, pick.0, pick.1);
            lemma_step_keeps_frame(g, catalog, pick.0, pick.1);
            lemma_step_keeps_frontier(g, catalog, pick.0, pick.1);
            lemma_step_resolves_one(g, catalog, pick.0, pick.1);
            lemma_count_bounds(g, height as int);
            assert(height * width == (height as int) * (g[0].len() as int));
            let (c, d) = choose|c: int, d: int|
                0 <= c < height && 0 <= d < g[0].len() && !(#[trigger] g[c][d]).resolved();
            assert(g[c].len() == g[0].len());
            lemma_step_is_not_idle(g, catalog, pick.0, pick.1, c, d);
            match step_outcome(g, catalog, pick.0, pick.1) {
                Outcome::Collapsed { row, col, shape } => {
                    let k = choose|k: int| 0 <= k < catalog.len() && catalog[k] == shape;
                    assert(shape.tile != UNDETERMINED);
                    assert(same_frame(g, after));
                    lemma_count_more(g, after, height as int, row as int, col as int);
                },
                _ => {},
            }
        }
    }
}

/// A run that went through left no cell undetermined: after one iteration
/// for each cell, every cell is resolved. This asks that no catalog entry
/// looks like an undetermined cell.
pub proof fn lemma_run_resolves_all(
    height: nat,
    width: nat,
    catalog: Seq<Shape>,
    picks: Seq<(usize, usize)>,
)
    requires
        0 < height <= usize::MAX,
        0 < width <= usize::MAX,
        marker_free(catalog),
        run_upto(height, width, catalog, picks, height * width).failure is None,
    ensures
        ({
            let end = run_upto(height, width, catalog, picks, height * width);
            &&& sized(end.grid, height, width)
            &&& complete(end.grid)
            &&& end.trace.len() == height * width
        }),
{
    lemma_run_resolves_one_each(height, width, catalog, picks, height * width);
    let end = run_upto(height, width, catalog, picks, height * width);
    lemma_count_bounds(end.grid, height as int);
    assert(height * width == (height as int) * (end.grid[0].len() as int));
}

/// A candidate of a cell agrees with each resolved neighbour of the cell on
/// the edge that they share. This asks that the glyphs of the catalog are
/// distinct, and that every edge in the catalog has an entry that can lie
/// beside it.
pub proof fn lemma_candidate_fits(
    g: Grid,
    catalog: Seq<Shape>,
    i: int,
    j: int,
    s: Shape,
    dir: Direction,
)
    requires
        distinct_glyphs(catalog),
        answered(catalog),
        from_catalog(g, catalog),
        allowed_tiles(catalog, possibilities_at(g, catalog, i, j)).contains(s),
        resolved_at(g, dir.row(i), dir.col(j)),
    ensures
        s.sides.code(dir) == g[dir.row(i)][dir.col(j)].sides.code(dir.opposite()),
{
    let p = possibilities_at(g, catalog, i, j);
    let neighbour = g[dir.row(i)][dir.col(j)];
    let code = neighbour.sides.code(dir.opposite());
    let all = admitted_upto(catalog, p, catalog.len() as int);
    lemma_admitted_members(catalog, p, catalog.len() as int);
    let m = choose|m: int| 0 <= m < all.len() && all[m] == s;
    let k = choose|k: int|
        0 <= k < catalog.len() && all[m] == catalog[k] && is_first(catalog, k) && p.admits(
            catalog[k].tile,
        );
    let n = choose|n: int| 0 <= n < catalog.len() && catalog[n] == neighbour.shape();
    assert(answers(catalog, n, dir));
    let t = choose|t: int|
        0 <= t < catalog.len() && (#[trigger] catalog[t]).sides.code(dir) == catalog[n].sides.code(
            dir.opposite(),
        );
    let set = direction_set(g, catalog, i, j, dir);
    assert(set == glyphs_facing(catalog, dir, code));
    assert(set.contains(catalog[t].tile));
    assert(set.contains(s.tile)) by {
        match dir {
            Direction::Up => assert(set == p.up),
            Direction::Right => assert(set == p.right),
            Direction::Down => assert(set == p.down),
            Direction::Left => assert(set == p.left),
        }
    }
    let k2 = choose|k2: int|
        0 <= k2 < catalog.len() && #[trigger] catalog[k2].tile == s.tile && catalog[k2].sides.code(
            dir,
        ) == code;
    assert(k2 == k) by {
        if k2 < k {
            assert(catalog[k2].tile != catalog[k].tile);
        } else if k < k2 {
            assert(catalog[k].tile != catalog[k2].tile);
        }
    }
}

/// Giving one cell a shape that agrees with each of its resolved neighbours
/// keeps the edges matching.
pub proof fn lemma_placing_keeps_edges(g: Grid, after: Grid, x: int, y: int, shape: Shape)
    requires
        same_frame(g, after),
        edges_match(g),
        forall|i: int, j: int|
            in_bounds(g, i, j) ==> (#[trigger] after[i][j]).shape() == if i == x && j == y {
                shape
            } else {
                g[i][j].shape()
            },
        resolved_at(g, x - 1, y) ==> shape.sides.up == g[x - 1][y].sides.down,
        resolved_at(g, x + 1, y) ==> shape.sides.down == g[x + 1][y].sides.up,
        resolved_at(g, x, y - 1) ==> shape.sides.left == g[x][y - 1].sides.right,
        resolved_at(g, x, y + 1) ==> shape.sides.right == g[x][y + 1].sides.left,
    ensures
        edges_match(after),
{
    assert forall|i: int, j: int| resolved_at(after, i, j) && !(i == x && j == y) implies resolved_at(
        g,
        i,
        j,
    ) && after[i][j].sides == g[i][j].sides by {
        assert(g[i].len() == after[i].len());
        assert(after[i][j].shape() == g[i][j].shape());
    }
    assert forall|i: int, j: int| resolved_at(after, i, j) && i == x && j == y implies after[i][j].sides
        == shape.sides by {
        assert(g[i].len() == after[i].len());
        assert(after[i][j].shape() == shape);
    }
    assert forall|i: int, j: int|
        resolved_at(after, i, j) && resolved_at(after, i + 1, j) implies (#[trigger] after[i][j]).sides.down
        == after[i + 1][j].sides.up by {
        if i == x && j == y {
            assert(resolved_at(g, x + 1, y));
        } else if i + 1 == x && j == y {
            assert(resolved_at(g, x - 1, y));
        } else {
            assert(resolved_at(g, i, j) && resolved_at(g, i + 1, j));
        }
    }
    assert forall|i: int, j: int|
        resolved_at(after, i, j) && resolved_at(after, i, j + 1) implies (#[trigger] after[i][j]).sides.right
        == after[i][j + 1].sides.left by {
        if i == x && j == y {
            assert(resolved_at(g, x, y + 1));
        } else if i == x && j + 1 == y {
            assert(resolved_at(g, x, y - 1));
        } else {
            assert(resolved_at(g, i, j) && resolved_at(g, i, j + 1));
        }
    }
}

/// The tile that a collapse places agrees with the resolved neighbour in
/// direction `dir` of its cell. This asks that the glyphs of the catalog
/// are distinct, and that every edge in the catalog has an entry that can
/// lie beside it.
pub proof fn lemma_collapse_fits(
    g: Grid,
    catalog: Seq<Shape>,
    cell_pick: usize,
    tile_pick: usize,
    dir: Direction,
)
    requires
        countable(g),
        from_catalog(g, catalog),
        distinct_glyphs(catalog),
        answered(catalog),
        step_outcome(g, catalog, cell_pick, tile_pick) is Collapsed,
    ensures
        ({
            let row = step_outcome(g, catalog, cell_pick, tile_pick)->Collapsed_row as int;
            let col = step_outcome(g, catalog, cell_pick, tile_pick)->Collapsed_col as int;
            let shape = step_outcome(g, catalog, cell_pick, tile_pick)->Collapsed_shape;
            resolved_at(g, dir.row(row), dir.col(col)) ==> shape.sides.code(dir) == g[dir.row(
                row,
            )][dir.col(col)].sides.code(dir.opposite())
        }),
{
    let r = recomputed(g, catalog);
    let x = step_outcome(g, catalog, cell_pick, tile_pick)->Collapsed_row as int;
    let y = step_outcome(g, catalog, cell_pick, tile_pick)->Collapsed_col as int;
    let shape = step_outcome(g, catalog, cell_pick, tile_pick)->Collapsed_shape;
    if resolved_at(g, dir.row(x), dir.col(y)) {
        lemma_step_outcome(g, catalog, cell_pick, tile_pick);
        lemma_recomputed_keeps_tiles(g, catalog);
        lemma_resolved_at_same(r, g, dir.row(x), dir.col(y));
        assert(r[dir.row(x)][dir.col(y)].resolved());
        assert(!blank(r));
        assert(r[x][y].on_frontier());
        assert(g[x][y].on_frontier());
        assert(r[x][y].allowed == allowed_tiles(catalog, possibilities_at(g, catalog, x, y)));
        lemma_candidate_fits(g, catalog, x, y, shape, dir);
    }
}

/// A step keeps the edges matching: the tile that a collapse places agrees
/// with every resolved neighbour of its cell. This asks that the glyphs of
/// the catalog are distinct, and that every edge in the catalog has an
/// entry that can lie beside it.
pub proof fn lemma_step_keeps_edges(
    g: Grid,
    catalog: Seq<Shape>,
    cell_pick: usize,
    tile_pick: usize,
)
    requires
        countable(g),
        edges_match(g),
        from_catalog(g, catalog),
        distinct_glyphs(catalog),
        answered(catalog),
    ensures
        edges_match(step_grid(g, catalog, cell_pick, tile_pick)),
        from_catalog(step_grid(g, catalog, cell_pick, tile_pick), catalog),
{
    let after = step_grid(g, catalog, cell_pick, tile_pick);
    lemma_step_resolves_one(g, catalog, cell_pick, tile_pick);
    match step_outcome(g, catalog, cell_pick, tile_pick) {
        Outcome::Collapsed { row, col, shape } => {
            let x = row as int;
            let y = col as int;
            lemma_collapse_fits(g, catalog, cell_pick, tile_pick, Direction::Up);
            lemma_collapse_fits(g, catalog, cell_pick, tile_pick, Direction::Right);
            lemma_collapse_fits(g, catalog, cell_pick, tile_pick, Direction::Down);
            lemma_collapse_fits(g, catalog, cell_pick, tile_pick, Direction::Left);
            assert(same_frame(g, after));
            lemma_placing_keeps_edges(g, after, x, y, shape);
            assert forall|i: int, j: int|
                in_bounds(after, i, j) && (#[trigger] after[i][j]).resolved() implies catalog.contains(
                after[i][j].shape(),
            ) by {
                assert(g[i].len() == after[i].len());
                if !(i == x && j == y) {
                    assert(after[i][j].shape() == g[i][j].shape());
                    assert(g[i][j].resolved());
                }
            }
        },
        _ => {
            lemma_same_tiles_keep_edges(after, g, catalog);
        },
    }
}

/// Grids with the same glyphs and connector codes have the same edges
/// matching and the same cells from the catalog.
pub proof fn lemma_same_tiles_keep_edges(after: Grid, g: Grid, catalog: Seq<Shape>)
    requires
        same_tiles(after, g),
        edges_match(g),
        from_catalog(g, catalog),
    ensures
        edges_match(after),
        from_catalog(after, catalog),
{
    assert forall|i: int, j: int| resolved_at(after, i, j) implies resolved_at(g, i, j)
        && after[i][j].sides == g[i][j].sides by {
        lemma_resolved_at_same(after, g, i, j);
        assert(after[i][j].shape() == g[i][j].shape());
    }
    assert forall|i: int, j: int|
        in_bounds(after, i, j) && (#[trigger] after[i][j]).resolved() implies catalog.contains(
        after[i][j].shape(),
    ) by {
        assert(resolved_at(after, i, j));
        assert(after[i][j].shape() == g[i][j].shape());
        assert(g[i][j].resolved());
    }
}

/// A run keeps the rows and columns of its grid.
pub proof fn lemma_run_keeps_frame(
    height: nat,
    width: nat,
    catalog: Seq<Shape>,
    picks: Seq<(usize, usize)>,
    n: nat,
)
    requires
        0 < height <= usize::MAX,
        0 < width <= usize::MAX,
    ensures
        ({
            let state = run_upto(height, width, catalog, picks, n);
            &&& rectangular(state.grid)
            &&& countable(state.grid)
            &&& state.grid.len() == height
            &&& state.grid[0].len() == width
        }),
    decreases n,
{
    if n > 0 {
        lemma_run_keeps_frame(height, width, catalog, picks, (n - 1) as nat);
        let before = run_upto(height, width, catalog, picks, (n - 1) as nat);
        if before.failure is None {
            let pick = pick_at(picks, n - 1);
            lemma_step_keeps_frame(before.grid, catalog, pick.0, pick.1);
        }
    }
}

/// At every point of a run, resolved cells that share an edge agree on it,
/// and every resolved cell holds an entry of the catalog. This asks that the
/// glyphs of the catalog are distinct, and that every edge in the catalog
/// has an entry that can lie beside it.
pub proof fn lemma_run_edges_match(
    height: nat,
    width: nat,
    catalog: Seq<Shape>,
    picks: Seq<(usize, usize)>,
    n: nat,
)
    requires
        0 < height <= usize::MAX,
        0 < width <= usize::MAX,
        distinct_glyphs(catalog),
        answered(catalog),
    ensures
        edges_match(run_upto(height, width, catalog, picks, n).grid),
        from_catalog(run_upto(height, width, catalog, picks, n).grid, catalog),
    decreases n,
{
    if n > 0 {
        lemma_run_edges_match(height, width, catalog, picks, (n - 1) as nat);
        lemma_run_keeps_frame(height, width, catalog, picks, (n - 1) as nat);
        let before = run_upto(height, width, catalog, picks, (n - 1) as nat);
        if before.failure is None {
            let pick = pick_at(picks, n - 1);
            lemma_step_keeps_edges(before.grid, catalog, pick.0, pick.1);
        }
    }
}

} // verus!
