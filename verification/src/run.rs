//! A whole run: one collapse for each cell of a blank board.

use crate::board::{
    complete, countable, edges_match, Grid, grid_of, lemma_board_countable, lemma_grid_of,
    new_board, recomputed, rectangular, sized, untouched,
};
use crate::catalog::{answered, distinct_glyphs, marker_free};
use crate::collapse::{
    collapse_next, collapse_random, lemma_step_outcome, Outcome, step_grid, step_outcome,
};
use crate::laws::{lemma_run_edges_match, lemma_run_keeps_frame, lemma_run_resolves_all};
use crate::tile::{catalog_of, Shape, Tile};
use vstd::prelude::*;

verus! {

/// One collapse of a run: in which iteration, to which glyph, and where.
#[derive(Clone, Copy, Debug, PartialEq, Eq, Structural)]
pub struct Event {
    pub iteration: usize,
    pub glyph: char,
    pub row: usize,
    pub col: usize,
}

/// The run stopped in `iteration`: no tile was left for the cell at
/// (`row`, `col`).
#[derive(Clone, Copy, Debug, PartialEq, Eq, Structural)]
pub struct Contradiction {
    pub iteration: usize,
    pub row: usize,
    pub col: usize,
}

/// What a run that went through hands back: the board, and its collapses in
/// order.
#[derive(Clone, Debug)]
pub struct Generation {
    pub board: Vec<Vec<Tile>>,
    pub trace: Vec<Event>,
}

/// A run after some of its iterations.
pub struct RunState {
    pub grid: Grid,
    pub trace: Seq<Event>,
    pub failure: Option<Contradiction>,
}

/// The picks for iteration `k`: the pair at place `k`, and (0, 0) where
/// `picks` has run out.
pub open spec fn pick_at(picks: Seq<(usize, usize)>, k: int) -> (usize, usize) {
    if 0 <= k < picks.len() {
        picks[k]
    } else {
        (0, 0)
    }
}

/// The run on a blank grid of `height` rows and `width` columns after `n`
/// iterations, where iteration `k` picks its cell by the first and its tile
/// by the second number of `pick_at(picks, k)`. A contradiction ends the
/// run: the later iterations change nothing.
pub open spec fn run_upto(
    height: nat,
    width: nat,
    catalog: Seq<Shape>,
    picks: Seq<(usize, usize)>,
    n: nat,
) -> RunState
    decreases n,
{
    if n == 0 {
        RunState { grid: untouched(height, width), trace: Seq::empty(), failure: None }
    } else {
        let before = run_upto(height, width, catalog, picks, (n - 1) as nat);
        if before.failure is Some {
            before
        } else {
            let pick = pick_at(picks, n - 1);
            let grid = step_grid(before.grid, catalog, pick.0, pick.1);
            match step_outcome(before.grid, catalog, pick.0, pick.1) {
                Outcome::Collapsed { row, col, shape } => RunState {
                    grid,
                    trace: before.trace.push(
                        Event { iteration: (n - 1) as usize, glyph: shape.tile, row, col },
                    ),
                    failure: None,
                },
                Outcome::Contradiction { row, col } => RunState {
                    grid,
                    trace: before.trace,
                    failure: Some(Contradiction { iteration: (n - 1) as usize, row, col }),
                },
                Outcome::Idle => RunState { grid, trace: before.trace, failure: None },
            }
        }
    }
}

/// `r` is what a run hands back that ended in the state `end`.
pub open spec fn run_result(r: Result<Generation, Contradiction>, end: RunState) -> bool {
    match r {
        Ok(generation) => {
            &&& end.failure is None
            &&& grid_of(generation.board@) == end.grid
            &&& generation.trace@ == end.trace
        },
        Err(e) => end.failure == Some(e),
    }
}

/// What holds of the board of a run that went through: it has the size
/// asked for; every cell is resolved and the trace holds one collapse for
/// each, where no catalog entry looks like an undetermined cell; and
/// resolved cells that share an edge agree on it, where the glyphs of the
/// catalog are distinct and every edge in it has an entry that can lie
/// beside it.
pub open spec fn sound_result(
    r: Result<Generation, Contradiction>,
    height: nat,
    width: nat,
    catalog: Seq<Shape>,
) -> bool {
    r matches Ok(generation) ==> {
        let grid = grid_of(generation.board@);
        &&& sized(grid, height, width)
        &&& marker_free(catalog) ==> complete(grid) && generation.trace@.len() == height * width
        &&& distinct_glyphs(catalog) && answered(catalog) ==> edges_match(grid)
    }
}

/// The result of a run is sound.
pub proof fn lemma_result_is_sound(
    r: Result<Generation, Contradiction>,
    height: nat,
    width: nat,
    catalog: Seq<Shape>,
    picks: Seq<(usize, usize)>,
)
    requires
        0 < height <= usize::MAX,
        0 < width <= usize::MAX,
        run_result(r, run_upto(height, width, catalog, picks, height * width)),
    ensures
        sound_result(r, height, width, catalog),
{
    if r is Ok {
        let end = run_upto(height, width, catalog, picks, height * width);
        lemma_run_keeps_frame(height, width, catalog, picks, height * width);
        assert(sized(end.grid, height, width));
        if marker_free(catalog) {
            lemma_run_resolves_all(height, width, catalog, picks);
        }
        if distinct_glyphs(catalog) && answered(catalog) {
            lemma_run_edges_match(height, width, catalog, picks, height * width);
        }
    }
}

/// A run that met a contradiction stays as it is.
pub proof fn lemma_failure_stays(
    height: nat,
    width: nat,
    catalog: Seq<Shape>,
    picks: Seq<(usize, usize)>,
    n: nat,
    m: nat,
)
    requires
        n <= m,
        run_upto(height, width, catalog, picks, n).failure is Some,
    ensures
        run_upto(height, width, catalog, picks, m) == run_upto(height, width, catalog, picks, n),
    decreases m,
{
    if n < m {
        lemma_failure_stays(height, width, catalog, picks, n, (m - 1) as nat);
    }
}

/// The first `n` iterations of a run depend on the first `n` picks alone.
pub proof fn lemma_run_prefix(
    height: nat,
    width: nat,
    catalog: Seq<Shape>,
    p: Seq<(usize, usize)>,
    q: Seq<(usize, usize)>,
    n: nat,
)
    requires
        forall|k: int| 0 <= k < n ==> pick_at(p, k) == pick_at(q, k),
    ensures
        run_upto(height, width, catalog, p, n) == run_upto(height, width, catalog, q, n),
    decreases n,
{
    if n > 0 {
        lemma_run_prefix(height, width, catalog, p, q, (n - 1) as nat);
        assert(pick_at(p, n - 1) == pick_at(q, n - 1));
    }
}

/// A step leaves the rows and columns of the grid as they are.
pub proof fn lemma_step_keeps_frame(g: Grid, catalog: Seq<Shape>, cell_pick: usize, tile_pick: usize)
    requires
        rectangular(g),
        countable(g),
    ensures
        rectangular(step_grid(g, catalog, cell_pick, tile_pick)),
        countable(step_grid(g, catalog, cell_pick, tile_pick)),
        step_grid(g, catalog, cell_pick, tile_pick).len() == g.len(),
        step_grid(g, catalog, cell_pick, tile_pick)[0].len() == g[0].len(),
{
    let r = recomputed(g, catalog);
    assert(rectangular(r));
    let after = step_grid(g, catalog, cell_pick, tile_pick);
    lemma_step_outcome(g, catalog, cell_pick, tile_pick);
    match step_outcome(g, catalog, cell_pick, tile_pick) {
        Outcome::Collapsed { row, col, shape } => {
            assert(after.len() == r.len());
            assert forall|i: int| 0 <= i < after.len() implies #[trigger] after[i].len()
                == r[0].len() by {
                assert(r[i].len() == r[0].len());
            }
        },
        _ => {},
    }
}

/// Runs the collapse on a blank board of `height` rows and `width` columns,
/// once for each cell, with the picks given: iteration `k` picks its cell by
/// the first and its tile by the second number of the pair at place `k` of
/// `picks`, and by 0 where `picks` has run out.
///
/// The result is fixed by the arguments: the state of `run_upto` after
/// `height * width` iterations. A run that meets a contradiction stops there
/// and hands back where it stood.
pub fn generate_with(height: usize, width: usize, tiles: &[Tile], picks: &[(usize, usize)]) -> (r:
    Result<Generation, Contradiction>)
    requires
        height > 0,
        width > 0,
        height * width <= usize::MAX,
    ensures
        run_result(
            r,
            run_upto(
                height as nat,
                width as nat,
                catalog_of(tiles@),
                picks@,
                (height * width) as nat,
            ),
        ),
        sound_result(r, height as nat, width as nat, catalog_of(tiles@)),
{
    let ghost catalog = catalog_of(tiles@);
    let total = height * width;
    let mut board = new_board(height, width);
    let mut trace: Vec<Event> = Vec::new();
    let mut it: usize = 0;
    proof {
        lemma_grid_of(board@);
        assert(trace@ =~= Seq::<Event>::empty());
    }
    while it < total
        invariant
            it <= total,
            total == height * width,
            catalog == catalog_of(tiles@),
            rectangular(grid_of(board@)),
            ({
                let state = run_upto(height as nat, width as nat, catalog, picks@, it as nat);
                &&& state.failure is None
                &&& state.grid == grid_of(board@)
                &&& state.trace == trace@
            }),
        decreases total - it,
    {
        let pick = if it < picks.len() {
            picks[it]
        } else {
            (0, 0)
        };
        assert(pick == pick_at(picks@, it as int));
        proof {
            lemma_board_countable(&board);
            lemma_step_keeps_frame(grid_of(board@), catalog, pick.0, pick.1);
        }
        match collapse_next(&mut board, tiles, pick.0, pick.1) {
            Outcome::Collapsed { row, col, shape } => {
                trace.push(Event { iteration: it, glyph: shape.tile, row, col });
            },
            Outcome::Contradiction { row, col } => {
                proof {
                    lemma_failure_stays(
                        height as nat,
                        width as nat,
                        catalog,
                        picks@,
                        (it + 1) as nat,
                        total as nat,
                    );
                }
                return Err(Contradiction { iteration: it, row, col });
            },
            Outcome::Idle => {},
        }
        it += 1;
    }
    let generation = Generation { board, trace };
    proof {
        lemma_result_is_sound(Ok(generation), height as nat, width as nat, catalog, picks@);
    }
    Ok(generation)
}

/// Runs the collapse on a blank board of `height` rows and `width` columns,
/// once for each cell, with chance picking each cell and each tile.
///
/// Whatever chance picks, the result is one that `generate_with` hands back
/// for some picks.
pub fn generate(height: usize, width: usize, tiles: &[Tile]) -> (r: Result<
    Generation,
    Contradiction,
>)
    requires
        height > 0,
        width > 0,
        height * width <= usize::MAX,
    ensures
        exists|picks: Seq<(usize, usize)>|
            run_result(
                r,
                #[trigger] run_upto(
                    height as nat,
                    width as nat,
                    catalog_of(tiles@),
                    picks,
                    (height * width) as nat,
                ),
            ),
        sound_result(r, height as nat, width as nat, catalog_of(tiles@)),
{
    let ghost catalog = catalog_of(tiles@);
    let total = height * width;
    let mut board = new_board(height, width);
    let mut trace: Vec<Event> = Vec::new();
    let mut it: usize = 0;
    let ghost mut picks: Seq<(usize, usize)> = Seq::empty();
    proof {
        lemma_grid_of(board@);
        assert(trace@ =~= Seq::<Event>::empty());
    }
    while it < total
        invariant
            it <= total,
            total == height * width,
            catalog == catalog_of(tiles@),
            rectangular(grid_of(board@)),
            picks.len() == it,
            ({
                let state = run_upto(height as nat, width as nat, catalog, picks, it as nat);
                &&& state.failure is None
                &&& state.grid == grid_of(board@)
                &&& state.trace == trace@
            }),
        decreases total - it,
    {
        let ghost before = grid_of(board@);
        proof {
            lemma_board_countable(&board);
        }
        let outcome = collapse_random(&mut board, tiles);
        proof {
            let (cp, tp) = choose|cp: usize, tp: usize|
                outcome == #[trigger] step_outcome(before, catalog, cp, tp) && grid_of(board@)
                    == step_grid(before, catalog, cp, tp);
            let longer = picks.push((cp, tp));
            assert forall|k: int| 0 <= k < it implies pick_at(picks, k) == pick_at(longer, k) by {}
            lemma_run_prefix(height as nat, width as nat, catalog, picks, longer, it as nat);
            assert(pick_at(longer, it as int) == (cp, tp));
            lemma_step_keeps_frame(before, catalog, cp, tp);
            picks = longer;
        }
        match outcome {
            Outcome::Collapsed { row, col, shape } => {
                trace.push(Event { iteration: it, glyph: shape.tile, row, col });
            },
            Outcome::Contradiction { row, col } => {
                proof {
                    lemma_failure_stays(
                        height as nat,
                        width as nat,
                        catalog,
                        picks,
                        (it + 1) as nat,
                        total as nat,
                    );
                    assert(run_result(
                        Err(Contradiction { iteration: it, row, col }),
                        run_upto(
                            height as nat,
                            width as nat,
                            catalog_of(tiles@),
                            picks,
                            (height * width) as nat,
                        ),
                    ));
                }
                return Err(Contradiction { iteration: it, row, col });
            },
            Outcome::Idle => {},
        }
        it += 1;
    }
    let generation = Generation { board, trace };
    proof {
        lemma_result_is_sound(Ok(generation), height as nat, width as nat, catalog, picks);
    }
    assert(run_result(
        Ok(generation),
        run_upto(
            height as nat,
            width as nat,
            catalog_of(tiles@),
            picks,
            (height * width) as nat,
        ),
    ));
    Ok(generation)
}

} // verus!
