//! The collapse itself: one step that resolves a cell, and the run that
//! resolves a whole board.

use crate::board::{
    activated, countable, Grid, grid_of, in_bounds, lemma_board_countable, lemma_grid_of,
    recomputed, rectangular, update_adjacent_tiles, update_entropies,
};
use crate::chance::pick_one;
use crate::select::{
    blank, candidates, find_random_lowest_entropy_index, is_blank, lemma_candidates_lowest, lowest,
    lowest_entropy_cells,
};
use crate::tile::{catalog_of, Shape, Tile, TileView};
use vstd::prelude::*;

verus! {

/// What a step came to.
#[derive(Clone, Copy, Debug, PartialEq, Eq, Structural)]
pub enum Outcome {
    /// The cell at (`row`, `col`) was collapsed to `shape`.
    Collapsed { row: usize, col: usize, shape: Shape },
    /// The cell at (`row`, `col`) was picked and no tile is left for it.
    Contradiction { row: usize, col: usize },
    /// No cell is selectable: on a board that grew from a blank one, every
    /// cell is resolved.
    Idle,
}

/// The grid with the glyph and connector codes of `s` in the cell at row
/// `x`, column `y`.
pub open spec fn placed(g: Grid, x: int, y: int, s: Shape) -> Grid {
    g.update(x, g[x].update(y, TileView { tile: s.tile, sides: s.sides, ..g[x][y] }))
}

/// The grid after the cell at row `x`, column `y` was collapsed to `s`: the
/// shape is placed and the frontier has moved on.
pub open spec fn collapsed(g: Grid, x: int, y: int, s: Shape) -> Grid {
    activated(placed(g, x, y, s), x, y)
}

/// The tiles among which the one for the cell at row `x`, column `y` is
/// picked: the whole catalog for the first collapse of a blank grid, and the
/// candidates of the cell afterwards.
pub open spec fn options(g: Grid, catalog: Seq<Shape>, x: int, y: int) -> Seq<Shape> {
    if blank(g) {
        catalog
    } else {
        g[x][y].allowed
    }
}

/// The index that the pick `pick` selects among `n` items.
pub open spec fn wrap(pick: usize, n: nat) -> int {
    (pick as int) % (n as int)
}

/// What the step on `g` comes to when `cell_pick` selects the cell and
/// `tile_pick` the tile.
pub open spec fn step_outcome(
    g: Grid,
    catalog: Seq<Shape>,
    cell_pick: usize,
    tile_pick: usize,
) -> Outcome {
    let r = recomputed(g, catalog);
    let cells = candidates(r);
    if cells.len() == 0 {
        Outcome::Idle
    } else {
        let cell = cells[wrap(cell_pick, cells.len())];
        let tiles = options(r, catalog, cell.0 as int, cell.1 as int);
        if tiles.len() == 0 {
            Outcome::Contradiction { row: cell.0, col: cell.1 }
        } else {
            Outcome::Collapsed { row: cell.0, col: cell.1, shape: tiles[wrap(tile_pick, tiles.len())] }
        }
    }
}

/// The recomputed grid `r` after a step that came to `outcome`.
pub open spec fn settled(r: Grid, outcome: Outcome) -> Grid {
    match outcome {
        Outcome::Collapsed { row, col, shape } => collapsed(r, row as int, col as int, shape),
        _ => r,
    }
}

/// The grid after the step on `g` in which `cell_pick` selects the cell and
/// `tile_pick` the tile.
pub open spec fn step_grid(g: Grid, catalog: Seq<Shape>, cell_pick: usize, tile_pick: usize) -> Grid {
    settled(recomputed(g, catalog), step_outcome(g, catalog, cell_pick, tile_pick))
}

/// What the outcome of a step says of the recomputed grid: a cell that was
/// collapsed, or for which no tile was left, is a lowest cell of it; a
/// collapse takes one of the options of its cell, a contradiction finds
/// none; and a step is idle only where there is no candidate.
pub proof fn lemma_step_outcome(g: Grid, catalog: Seq<Shape>, cell_pick: usize, tile_pick: usize)
    requires
        countable(g),
    ensures
        match step_outcome(g, catalog, cell_pick, tile_pick) {
            Outcome::Collapsed { row, col, shape } => {
                &&& lowest(recomputed(g, catalog), row as int, col as int)
                &&& options(recomputed(g, catalog), catalog, row as int, col as int).contains(shape)
            },
            Outcome::Contradiction { row, col } => {
                &&& lowest(recomputed(g, catalog), row as int, col as int)
                &&& options(recomputed(g, catalog), catalog, row as int, col as int).len() == 0
            },
            Outcome::Idle => candidates(recomputed(g, catalog)).len() == 0,
        },
{
    let r = recomputed(g, catalog);
    let cells = candidates(r);
    assert(countable(r));
    if cells.len() > 0 {
        let k = wrap(cell_pick, cells.len());
        lemma_candidates_lowest(r, k);
        let tiles = options(r, catalog, cells[k].0 as int, cells[k].1 as int);
        if tiles.len() > 0 {
            assert(tiles[wrap(tile_pick, tiles.len())] == tiles[wrap(tile_pick, tiles.len())]);
        }
    }
}

/// Collapses the cell at row `x`, column `y` to `shape`, and moves the
/// frontier on.
pub fn collapse_cell(board: &mut Vec<Vec<Tile>>, x: usize, y: usize, shape: Shape)
    requires
        rectangular(grid_of(old(board)@)),
        in_bounds(grid_of(old(board)@), x as int, y as int),
    ensures
        grid_of(final(board)@) == collapsed(grid_of(old(board)@), x as int, y as int, shape),
{
    proof {
        lemma_grid_of(board@);
    }
    let ghost g0 = grid_of(board@);
    board[x][y].tile = shape.tile;
    board[x][y].sides = shape.sides;
    proof {
        lemma_grid_of(board@);
        assert(grid_of(board@) =~~= placed(g0, x as int, y as int, shape));
    }
    update_adjacent_tiles(board, x, y);
}

/// One step with the picks given: recomputes the board, takes the candidate
/// cell that `cell_pick` selects and collapses it to the tile that
/// `tile_pick` selects among its options. A pick counts modulo the number of
/// items to pick from.
pub fn collapse_next(
    board: &mut Vec<Vec<Tile>>,
    tiles: &[Tile],
    cell_pick: usize,
    tile_pick: usize,
) -> (outcome: Outcome)
    requires
        rectangular(grid_of(old(board)@)),
    ensures
        outcome == step_outcome(grid_of(old(board)@), catalog_of(tiles@), cell_pick, tile_pick),
        grid_of(final(board)@) == step_grid(
            grid_of(old(board)@),
            catalog_of(tiles@),
            cell_pick,
            tile_pick,
        ),
{
    let ghost catalog = catalog_of(tiles@);
    update_entropies(board, tiles);
    let ghost r = grid_of(board@);
    proof {
        lemma_grid_of(board@);
    }
    let cells = lowest_entropy_cells(board);
    if cells.len() == 0 {
        return Outcome::Idle;
    }
    let cell = cells[cell_pick % cells.len()];
    let x = cell.0;
    let y = cell.1;
    proof {
        lemma_board_countable(board);
        lemma_candidates_lowest(r, wrap(cell_pick, cells@.len()));
    }
    let shape = if is_blank(board) {
        if tiles.len() == 0 {
            return Outcome::Contradiction { row: x, col: y };
        }
        tiles[tile_pick % tiles.len()].shape()
    } else {
        if board[x][y].allowed.len() == 0 {
            return Outcome::Contradiction { row: x, col: y };
        }
        board[x][y].allowed[tile_pick % board[x][y].allowed.len()]
    };
    collapse_cell(board, x, y, shape);
    Outcome::Collapsed { row: x, col: y, shape }
}

/// `outcome` and `after` are what some step on `g` comes to: there are picks
/// with which the step has this outcome and leaves this grid.
pub open spec fn step_of(g: Grid, catalog: Seq<Shape>, outcome: Outcome, after: Grid) -> bool {
    exists|cell_pick: usize, tile_pick: usize|
        outcome == #[trigger] step_outcome(g, catalog, cell_pick, tile_pick) && after == step_grid(
            g,
            catalog,
            cell_pick,
            tile_pick,
        )
}

/// One item of `options` picked at random, with its place; `None` where
/// there is none to pick.
fn pick_shape(options: &[Shape]) -> (picked: Option<Shape>)
    ensures
        match picked {
            Some(s) => exists|k: usize| k < options@.len() && #[trigger] options@[k as int] == s,
            None => options@.len() == 0,
        },
{
    match pick_one(options) {
        Some(s) => {
            proof {
                let k = choose|k: int| 0 <= k < options@.len() && options@[k] == *s;
                assert(options@.len() == options.len());
                assert(options@[k as usize as int] == *s);
            }
            Some(*s)
        },
        None => None,
    }
}

/// The shape of one entry of `tiles` picked at random; `None` where `tiles`
/// is empty.
fn pick_entry(tiles: &[Tile]) -> (picked: Option<Shape>)
    ensures
        match picked {
            Some(s) => exists|k: usize|
                k < catalog_of(tiles@).len() && #[trigger] catalog_of(tiles@)[k as int] == s,
            None => catalog_of(tiles@).len() == 0,
        },
{
    match pick_one(tiles) {
        Some(t) => {
            proof {
                let k = choose|k: int| 0 <= k < tiles@.len() && tiles@[k] == *t;
                assert(tiles@.len() == tiles.len());
                assert(catalog_of(tiles@)[k as usize as int] == t@.shape());
            }
            Some(t.shape())
        },
        None => None,
    }
}

/// One step in which chance picks the cell and the tile: recomputes the
/// board, takes one of the candidate cells and collapses it to one of its
/// options.
///
/// Whatever chance picks, the step is one that `collapse_next` makes with
/// some picks.
pub fn collapse_random(board: &mut Vec<Vec<Tile>>, tiles: &[Tile]) -> (outcome: Outcome)
    requires
        rectangular(grid_of(old(board)@)),
    ensures
        step_of(grid_of(old(board)@), catalog_of(tiles@), outcome, grid_of(final(board)@)),
{
    let ghost g0 = grid_of(board@);
    let ghost catalog = catalog_of(tiles@);
    update_entropies(board, tiles);
    let ghost r = grid_of(board@);
    proof {
        lemma_grid_of(board@);
        lemma_board_countable(board);
    }
    match find_random_lowest_entropy_index(board) {
        None => {
            assert(Outcome::Idle == step_outcome(g0, catalog, 0, 0) && r == step_grid(
                g0,
                catalog,
                0,
                0,
            ));
            Outcome::Idle
        },
        Some(cell) => {
            let x = cell.0;
            let y = cell.1;
            let ghost cp = choose|k: usize| k < candidates(r).len() && candidates(r)[k as int] == cell;
            proof {
                vstd::arithmetic::div_mod::lemma_small_mod(cp as nat, candidates(r).len());
                lemma_candidates_lowest(r, cp as int);
            }
            let picked = if is_blank(board) {
                pick_entry(tiles)
            } else {
                pick_shape(board[x][y].allowed.as_slice())
            };
            let ghost among = options(r, catalog, x as int, y as int);
            match picked {
                None => {
                    let outcome = Outcome::Contradiction { row: x, col: y };
                    assert(outcome == step_outcome(g0, catalog, cp, 0) && r == step_grid(
                        g0,
                        catalog,
                        cp,
                        0,
                    ));
                    outcome
                },
                Some(shape) => {
                    let ghost tp = choose|k: usize| k < among.len() && among[k as int] == shape;
                    proof {
                        vstd::arithmetic::div_mod::lemma_small_mod(tp as nat, among.len());
                    }
                    collapse_cell(board, x, y, shape);
                    let outcome = Outcome::Collapsed { row: x, col: y, shape };
                    assert(outcome == step_outcome(g0, catalog, cp, tp) && grid_of(board@)
                        == step_grid(g0, catalog, cp, tp));
                    outcome
                },
            }
        },
    }
}

} // verus!
