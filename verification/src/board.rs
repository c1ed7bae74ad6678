//! The board: a rectangle of cells, the possibility sets that the resolved
//! neighbours of a cell leave to it, and the frontier of active cells.

use crate::tile::{
    allowed_tiles, catalog_of, Direction, entropy_of, insert_glyph, Possibilities,
    PossibilitiesView, Shape, Sides, Tile, TileView, UNDETERMINED,
};
use vstd::prelude::*;

verus! {

/// A board in contracts: rows of cells, each cell by its view.
pub type Grid = Seq<Seq<TileView>>;

/// The grid that the rows of a board stand for.
pub open spec fn grid_of(board: Seq<Vec<Tile>>) -> Grid {
    Seq::new(board.len(), |i: int| Seq::new(board[i]@.len(), |j: int| board[i]@[j]@))
}

/// The grid of a board has the rows and columns of the board, and holds at
/// each place the view of the cell there.
pub proof fn lemma_grid_of(board: Seq<Vec<Tile>>)
    ensures
        grid_of(board).len() == board.len(),
        forall|i: int| 0 <= i < board.len() ==> (#[trigger] grid_of(board)[i]).len() == board[i]@.len(),
        forall|i: int| 0 <= i < board.len() ==> grid_of(board)[i].len() == (#[trigger] board[i])@.len(),
        forall|i: int, j: int|
            0 <= i < board.len() && 0 <= j < board[i]@.len() ==> #[trigger] grid_of(board)[i][j]
                == board[i]@[j]@,
        forall|i: int, j: int|
            0 <= i < board.len() && 0 <= j < board[i]@.len() ==> grid_of(board)[i][j] == (
            #[trigger] board[i]@[j])@,
{
}

/// The rows and the columns of the grid can be counted in `usize`, as those
/// of every board can.
pub open spec fn countable(g: Grid) -> bool {
    &&& g.len() <= usize::MAX
    &&& forall|i: int| 0 <= i < g.len() ==> (#[trigger] g[i]).len() <= usize::MAX
}

/// The grid of a board is countable.
pub proof fn lemma_board_countable(board: &Vec<Vec<Tile>>)
    ensures
        countable(grid_of(board@)),
{
    lemma_grid_of(board@);
    assert(board@.len() == board.len());
    assert forall|i: int| 0 <= i < board@.len() implies (#[trigger] grid_of(board@)[i]).len()
        <= usize::MAX by {
        assert(board@[i]@.len() == board@[i].len());
    }
}

/// Row `i`, column `j` is a cell of the grid.
pub open spec fn in_bounds(g: Grid, i: int, j: int) -> bool {
    0 <= i < g.len() && 0 <= j < g[i].len()
}

/// The grid has at least one cell, and all its rows have one length.
pub open spec fn rectangular(g: Grid) -> bool {
    &&& g.len() > 0
    &&& g[0].len() > 0
    &&& forall|i: int| 0 <= i < g.len() ==> #[trigger] g[i].len() == g[0].len()
}

/// A grid of `height` rows and `width` columns in which nothing has happened
/// yet: every cell undetermined and inactive.
pub open spec fn untouched(height: nat, width: nat) -> Grid {
    Seq::new(
        height,
        |i: int|
            Seq::new(
                width,
                |j: int| TileView::fresh(UNDETERMINED, Sides { up: 0, right: 0, down: 0, left: 0 }),
            ),
    )
}

/// The glyphs of the first `n` catalog entries whose code on the edge `dir`
/// is `code`.
pub open spec fn glyphs_facing_upto(catalog: Seq<Shape>, dir: Direction, code: u8, n: int) -> Set<
    char,
> {
    Set::new(
        |g: char|
            exists|k: int|
                0 <= k < n && k < catalog.len() && #[trigger] catalog[k].tile == g
                    && catalog[k].sides.code(dir) == code,
    )
}

/// The glyphs of the catalog entries whose code on the edge `dir` is `code`.
pub open spec fn glyphs_facing(catalog: Seq<Shape>, dir: Direction, code: u8) -> Set<char> {
    glyphs_facing_upto(catalog, dir, code, catalog.len() as int)
}

/// The glyphs of the first `n` catalog entries.
pub open spec fn all_glyphs_upto(catalog: Seq<Shape>, n: int) -> Set<char> {
    Set::new(|g: char| exists|k: int| 0 <= k < n && k < catalog.len() && #[trigger] catalog[k].tile == g)
}

/// Every glyph of the catalog.
pub open spec fn all_glyphs(catalog: Seq<Shape>) -> Set<char> {
    all_glyphs_upto(catalog, catalog.len() as int)
}

/// What the neighbour in direction `dir` leaves open to the cell at row `i`,
/// column `j`: nothing to say where the board ends there, the glyphs whose
/// code on that edge equals the code on the neighbour's facing edge where the
/// neighbour is resolved, and every glyph where it is not.
pub open spec fn direction_set(g: Grid, catalog: Seq<Shape>, i: int, j: int, dir: Direction) -> Set<
    char,
> {
    let ni = dir.row(i);
    let nj = dir.col(j);
    if !in_bounds(g, ni, nj) {
        Set::empty()
    } else if g[ni][nj].resolved() {
        glyphs_facing(catalog, dir, g[ni][nj].sides.code(dir.opposite()))
    } else {
        all_glyphs(catalog)
    }
}

/// The four possibility sets of the cell at row `i`, column `j`.
pub open spec fn possibilities_at(g: Grid, catalog: Seq<Shape>, i: int, j: int) -> PossibilitiesView {
    PossibilitiesView {
        up: direction_set(g, catalog, i, j, Direction::Up),
        right: direction_set(g, catalog, i, j, Direction::Right),
        down: direction_set(g, catalog, i, j, Direction::Down),
        left: direction_set(g, catalog, i, j, Direction::Left),
    }
}

/// The cell at row `i`, column `j` after a recomputation. A cell on the
/// frontier gets its possibility sets from its neighbours, and from them its
/// candidates and entropy. Any other cell loses its possibility sets and
/// keeps the rest.
pub open spec fn recomputed_cell(g: Grid, catalog: Seq<Shape>, i: int, j: int) -> TileView {
    let t = g[i][j];
    if t.on_frontier() {
        let p = possibilities_at(g, catalog, i, j);
        TileView {
            possibilities: p,
            allowed: allowed_tiles(catalog, p),
            entropy: entropy_of(catalog, p),
            ..t
        }
    } else {
        TileView { possibilities: PossibilitiesView::none(), ..t }
    }
}

/// The grid after a recomputation of every cell.
pub open spec fn recomputed(g: Grid, catalog: Seq<Shape>) -> Grid {
    Seq::new(g.len(), |i: int| Seq::new(g[i].len(), |j: int| recomputed_cell(g, catalog, i, j)))
}

/// A board of `height` rows and `width` columns of undetermined, inactive
/// cells.
pub fn new_board(height: usize, width: usize) -> (board: Vec<Vec<Tile>>)
    ensures
        grid_of(board@) == untouched(height as nat, width as nat),
{
    let ghost blank = TileView::fresh(UNDETERMINED, Sides { up: 0, right: 0, down: 0, left: 0 });
    let mut board: Vec<Vec<Tile>> = Vec::new();
    let mut i: usize = 0;
    while i < height
        invariant
            i <= height,
            board@.len() == i,
            blank == TileView::fresh(UNDETERMINED, Sides { up: 0, right: 0, down: 0, left: 0 }),
            forall|a: int| 0 <= a < i ==> (#[trigger] board@[a])@.len() == width,
            forall|a: int, b: int|
                0 <= a < i && 0 <= b < width ==> (#[trigger] board@[a]@[b])@ == blank,
        decreases height - i,
    {
        let mut row: Vec<Tile> = Vec::new();
        let mut j: usize = 0;
        while j < width
            invariant
                j <= width,
                row@.len() == j,
                blank == TileView::fresh(UNDETERMINED, Sides { up: 0, right: 0, down: 0, left: 0 }),
                forall|b: int| 0 <= b < j ==> (#[trigger] row@[b])@ == blank,
            decreases width - j,
        {
            row.push(Tile::new(UNDETERMINED, (0, 0, 0, 0)));
            j += 1;
        }
        board.push(row);
        i += 1;
    }
    assert(grid_of(board@) =~~= untouched(height as nat, width as nat));
    board
}

/// The glyphs of the entries of `tiles` whose code on the edge `dir` is
/// `code`, each once.
pub fn glyphs_with_code(tiles: &[Tile], dir: Direction, code: u8) -> (set: Vec<char>)
    ensures
        set@.to_set() == glyphs_facing(catalog_of(tiles@), dir, code),
{
    let ghost catalog = catalog_of(tiles@);
    let mut set: Vec<char> = Vec::new();
    let mut k: usize = 0;
    assert(set@.to_set() =~= glyphs_facing_upto(catalog, dir, code, 0));
    while k < tiles.len()
        invariant
            k <= tiles@.len(),
            catalog == catalog_of(tiles@),
            set@.to_set() == glyphs_facing_upto(catalog, dir, code, k as int),
        decreases tiles@.len() - k,
    {
        let ghost before = set@.to_set();
        if tiles[k].sides.code(dir) == code {
            insert_glyph(&mut set, tiles[k].tile);
            assert(catalog[k as int].tile == tiles@[k as int].tile);
        }
        k += 1;
        assert(set@.to_set() =~= glyphs_facing_upto(catalog, dir, code, k as int)) by {
            assert forall|g: char|
                glyphs_facing_upto(catalog, dir, code, k as int).contains(g) implies set@.to_set().contains(
                g,
            ) by {
                let m = choose|m: int|
                    0 <= m < k && m < catalog.len() && #[trigger] catalog[m].tile == g
                        && catalog[m].sides.code(dir) == code;
                if m < k - 1 {
                    assert(before.contains(g));
                }
            }
        }
    }
    set
}

/// The glyphs of all entries of `tiles`, each once.
pub fn every_glyph(tiles: &[Tile]) -> (set: Vec<char>)
    ensures
        set@.to_set() == all_glyphs(catalog_of(tiles@)),
{
    let ghost catalog = catalog_of(tiles@);
    let mut set: Vec<char> = Vec::new();
    let mut k: usize = 0;
    assert(set@.to_set() =~= all_glyphs_upto(catalog, 0));
    while k < tiles.len()
        invariant
            k <= tiles@.len(),
            catalog == catalog_of(tiles@),
            set@.to_set() == all_glyphs_upto(catalog, k as int),
        decreases tiles@.len() - k,
    {
        let ghost before = set@.to_set();
        insert_glyph(&mut set, tiles[k].tile);
        assert(catalog[k as int].tile == tiles@[k as int].tile);
        k += 1;
        assert(set@.to_set() =~= all_glyphs_upto(catalog, k as int)) by {
            assert forall|g: char| all_glyphs_upto(catalog, k as int).contains(g) implies set@.to_set().contains(
                g,
            ) by {
                let m = choose|m: int| 0 <= m < k && m < catalog.len() && #[trigger] catalog[m].tile == g;
                if m < k - 1 {
                    assert(before.contains(g));
                }
            }
        }
    }
    set
}

/// The two grids have the same rows and columns, and each cell has the same
/// glyph and connector codes in both.
pub open spec fn same_tiles(g: Grid, h: Grid) -> bool {
    &&& g.len() == h.len()
    &&& forall|i: int| 0 <= i < g.len() ==> #[trigger] g[i].len() == h[i].len()
    &&& forall|i: int, j: int|
        0 <= i < g.len() && 0 <= j < g[i].len() ==> (#[trigger] g[i][j]).shape() == h[i][j].shape()
}

/// The possibility sets of a cell depend on the glyphs and connector codes of
/// the grid alone.
pub proof fn lemma_possibilities_depend_on_tiles(
    g: Grid,
    h: Grid,
    catalog: Seq<Shape>,
    i: int,
    j: int,
)
    requires
        same_tiles(g, h),
    ensures
        possibilities_at(g, catalog, i, j) == possibilities_at(h, catalog, i, j),
{
    assert forall|dir: Direction|
        direction_set(g, catalog, i, j, dir) == direction_set(h, catalog, i, j, dir) by {
        let ni = dir.row(i);
        let nj = dir.col(j);
        if 0 <= ni < g.len() {
            assert(g[ni].len() == h[ni].len());
            if 0 <= nj < g[ni].len() {
                assert(g[ni][nj].shape() == h[ni][nj].shape());
            }
        }
    }
}

/// What the neighbour in direction `dir` leaves open to the cell at row `i`,
/// column `j`. `every` holds every glyph of `tiles`.
pub fn direction_glyphs(
    board: &Vec<Vec<Tile>>,
    tiles: &[Tile],
    every: &Vec<char>,
    i: usize,
    j: usize,
    dir: Direction,
) -> (set: Vec<char>)
    requires
        in_bounds(grid_of(board@), i as int, j as int),
        every@.to_set() == all_glyphs(catalog_of(tiles@)),
    ensures
        set@.to_set() == direction_set(
            grid_of(board@),
            catalog_of(tiles@),
            i as int,
            j as int,
            dir,
        ),
{
    proof {
        lemma_grid_of(board@);
    }
    let h = board.len();
    let w = board[i].len();
    let at: Option<(usize, usize)> = match dir {
        Direction::Up => if i > 0 {
            Some((i - 1, j))
        } else {
            None
        },
        Direction::Right => if j + 1 < w {
            Some((i, j + 1))
        } else {
            None
        },
        Direction::Down => if i + 1 < h {
            Some((i + 1, j))
        } else {
            None
        },
        Direction::Left => if j > 0 {
            Some((i, j - 1))
        } else {
            None
        },
    };
    match at {
        Some((ni, nj)) => {
            if nj < board[ni].len() {
                let neighbour = &board[ni][nj];
                if neighbour.tile != UNDETERMINED {
                    glyphs_with_code(tiles, dir, neighbour.sides.code(dir.opposite()))
                } else {
                    every.clone()
                }
            } else {
                let set: Vec<char> = Vec::new();
                assert(set@.to_set() =~= Set::<char>::empty());
                set
            }
        },
        None => {
            let set: Vec<char> = Vec::new();
            assert(set@.to_set() =~= Set::<char>::empty());
            set
        },
    }
}

/// The four possibility sets of the cell at row `i`, column `j`.
pub fn possibilities_of(
    board: &Vec<Vec<Tile>>,
    tiles: &[Tile],
    every: &Vec<char>,
    i: usize,
    j: usize,
) -> (p: Possibilities)
    requires
        in_bounds(grid_of(board@), i as int, j as int),
        every@.to_set() == all_glyphs(catalog_of(tiles@)),
    ensures
        p@ == possibilities_at(grid_of(board@), catalog_of(tiles@), i as int, j as int),
{
    Possibilities {
        up: direction_glyphs(board, tiles, every, i, j, Direction::Up),
        right: direction_glyphs(board, tiles, every, i, j, Direction::Right),
        down: direction_glyphs(board, tiles, every, i, j, Direction::Down),
        left: direction_glyphs(board, tiles, every, i, j, Direction::Left),
    }
}

/// Recomputes the board from the neighbours that are resolved.
///
/// Each cell on the frontier gets its four possibility sets, and from them
/// its candidates and entropy. Every other cell has its possibility sets
/// emptied and is otherwise left as it is.
pub fn update_entropies(board: &mut Vec<Vec<Tile>>, tiles: &[Tile])
    requires
        rectangular(grid_of(old(board)@)),
    ensures
        grid_of(final(board)@) == recomputed(grid_of(old(board)@), catalog_of(tiles@)),
{
    proof {
        lemma_grid_of(board@);
    }
    let h = board.len();
    let w = board[0].len();
    let every = every_glyph(tiles);
    let ghost g0 = grid_of(board@);
    let ghost catalog = catalog_of(tiles@);
    let mut i: usize = 0;
    while i < h
        invariant
            i <= h,
            h == g0.len(),
            w == g0[0].len(),
            rectangular(g0),
            catalog == catalog_of(tiles@),
            every@.to_set() == all_glyphs(catalog),
            board@.len() == h,
            forall|a: int| 0 <= a < h ==> (#[trigger] board@[a])@.len() == w,
            forall|a: int, b: int|
                0 <= a < h && 0 <= b < w ==> (#[trigger] board@[a]@[b])@ == if a < i {
                    recomputed_cell(g0, catalog, a, b)
                } else {
                    g0[a][b]
                },
        decreases h - i,
    {
        let mut j: usize = 0;
        while j < w
            invariant
                i < h,
                j <= w,
                h == g0.len(),
                w == g0[0].len(),
                rectangular(g0),
                catalog == catalog_of(tiles@),
                every@.to_set() == all_glyphs(catalog),
                board@.len() == h,
                forall|a: int| 0 <= a < h ==> (#[trigger] board@[a])@.len() == w,
                forall|a: int, b: int|
                    0 <= a < h && 0 <= b < w ==> (#[trigger] board@[a]@[b])@ == if a < i || (a == i
                        && b < j) {
                        recomputed_cell(g0, catalog, a, b)
                    } else {
                        g0[a][b]
                    },
            decreases w - j,
        {
            let ghost before = board@;
            proof {
                lemma_grid_of(board@);
            }
            assert(before[i as int]@[j as int]@ == g0[i as int][j as int]);
            if board[i][j].active && board[i][j].tile == UNDETERMINED {
                let p = possibilities_of(board, tiles, &every, i, j);
                proof {
                    assert(same_tiles(grid_of(board@), g0)) by {
                        assert forall|a: int, b: int|
                            0 <= a < h && 0 <= b < w implies (#[trigger] grid_of(
                            board@,
                        )[a][b]).shape() == g0[a][b].shape() by {
                            assert(grid_of(board@)[a][b] == board@[a]@[b]@);
                        }
                    }
                    lemma_possibilities_depend_on_tiles(
                        grid_of(board@),
                        g0,
                        catalog,
                        i as int,
                        j as int,
                    );
                }
                board[i][j].possibilities = p;
                board[i][j].update_entropy(tiles);
            } else {
                board[i][j].possibilities = Tile::init_possibilities();
            }
            assert(board@[i as int]@[j as int]@ == recomputed_cell(g0, catalog, i as int, j as int));
            assert forall|a: int, b: int| 0 <= a < h && 0 <= b < w && !(a == i && b == j) implies (
            #[trigger] board@[a]@[b])@ == before[a]@[b]@ by {}
            j += 1;
        }
        i += 1;
    }
    proof {
        lemma_grid_of(board@);
    }
    assert(grid_of(board@) =~~= recomputed(g0, catalog));
}

/// The cells at (`i`, `j`) and (`x`, `y`) share an edge.
pub open spec fn adjacent(i: int, j: int, x: int, y: int) -> bool {
    (i == x && (j == y - 1 || j == y + 1)) || (j == y && (i == x - 1 || i == x + 1))
}

/// The cell at row `i`, column `j` once the frontier has moved on from a
/// collapse at (`x`, `y`): the collapsed cell is inactive, an undetermined
/// cell beside it is active, every other cell is as before.
pub open spec fn activated_cell(g: Grid, x: int, y: int, i: int, j: int) -> TileView {
    let t = g[i][j];
    if i == x && j == y {
        TileView { active: false, ..t }
    } else if adjacent(i, j, x, y) && !t.resolved() {
        TileView { active: true, ..t }
    } else {
        t
    }
}

/// The grid once the frontier has moved on from a collapse at (`x`, `y`).
pub open spec fn activated(g: Grid, x: int, y: int) -> Grid {
    Seq::new(g.len(), |i: int| Seq::new(g[i].len(), |j: int| activated_cell(g, x, y, i, j)))
}

/// Moves the frontier on after a collapse at row `x`, column `y`: that cell
/// leaves the frontier, and each cell beside it that is still undetermined
/// joins it. Cells that are resolved stay untouched.
pub fn update_adjacent_tiles(board: &mut Vec<Vec<Tile>>, x: usize, y: usize)
    requires
        rectangular(grid_of(old(board)@)),
        in_bounds(grid_of(old(board)@), x as int, y as int),
    ensures
        grid_of(final(board)@) == activated(grid_of(old(board)@), x as int, y as int),
{
    proof {
        lemma_grid_of(board@);
    }
    let ghost g0 = grid_of(board@);
    let rows = board.len();
    let cols = board[0].len();
    assert(board@[x as int]@.len() == cols);
    board[x][y].active = false;

    if x > 0 {
        assert(board@[x - 1]@.len() == cols);
        if board[x - 1][y].tile == UNDETERMINED {
            board[x - 1][y].active = true;
        }
    }
    if y < cols - 1 {
        if board[x][y + 1].tile == UNDETERMINED {
            board[x][y + 1].active = true;
        }
    }
    if x < rows - 1 {
        assert(board@[x + 1]@.len() == cols);
        if board[x + 1][y].tile == UNDETERMINED {
            board[x + 1][y].active = true;
        }
    }
    if y > 0 {
        if board[x][y - 1].tile == UNDETERMINED {
            board[x][y - 1].active = true;
        }
    }
    proof {
        lemma_grid_of(board@);
    }
    assert(grid_of(board@) =~~= activated(g0, x as int, y as int));
}

/// Mark shown for a cell on the frontier.
pub const ACTIVE_MARK: char = '#';

/// Mark shown for an undetermined cell off the frontier.
pub const PENDING_MARK: char = '*';

/// How a cell is shown: an active cell by `ACTIVE_MARK`, an inactive
/// undetermined cell by `PENDING_MARK`, any other cell by its glyph.
pub open spec fn symbol_of(t: TileView) -> char {
    if t.active {
        ACTIVE_MARK
    } else if t.tile == UNDETERMINED {
        PENDING_MARK
    } else {
        t.tile
    }
}

/// How the cell is shown.
pub fn symbol(tile: &Tile) -> (c: char)
    ensures
        c == symbol_of(tile@),
{
    if tile.active {
        ACTIVE_MARK
    } else if tile.tile == UNDETERMINED {
        PENDING_MARK
    } else {
        tile.tile
    }
}

/// The board as it is shown: row by row, the symbol of each cell.
pub fn render(board: &Vec<Vec<Tile>>) -> (rows: Vec<Vec<char>>)
    ensures
        rows@.len() == board@.len(),
        forall|i: int| 0 <= i < board@.len() ==> (#[trigger] rows@[i])@.len() == board@[i]@.len(),
        forall|i: int, j: int|
            0 <= i < board@.len() && 0 <= j < board@[i]@.len() ==> #[trigger] rows@[i]@[j]
                == symbol_of(board@[i]@[j]@),
{
    let mut rows: Vec<Vec<char>> = Vec::new();
    let mut i: usize = 0;
    while i < board.len()
        invariant
            i <= board@.len(),
            rows@.len() == i,
            forall|a: int| 0 <= a < i ==> (#[trigger] rows@[a])@.len() == board@[a]@.len(),
            forall|a: int, b: int|
                0 <= a < i && 0 <= b < board@[a]@.len() ==> #[trigger] rows@[a]@[b] == symbol_of(
                    board@[a]@[b]@,
                ),
        decreases board@.len() - i,
    {
        let mut row: Vec<char> = Vec::new();
        let mut j: usize = 0;
        while j < board[i].len()
            invariant
                i < board@.len(),
                j <= board@[i as int]@.len(),
                row@.len() == j,
                forall|b: int| 0 <= b < j ==> #[trigger] row@[b] == symbol_of(board@[i as int]@[b]@),
            decreases board@[i as int]@.len() - j,
        {
            row.push(symbol(&board[i][j]));
            j += 1;
        }
        rows.push(row);
        i += 1;
    }
    rows
}

/// The cell at row `i`, column `j` is a resolved cell of the grid.
pub open spec fn resolved_at(g: Grid, i: int, j: int) -> bool {
    in_bounds(g, i, j) && g[i][j].resolved()
}

/// Every cell of the grid is resolved.
pub open spec fn complete(g: Grid) -> bool {
    forall|i: int, j: int| in_bounds(g, i, j) ==> (#[trigger] g[i][j]).resolved()
}

/// The grid has `height` rows of `width` columns.
pub open spec fn sized(g: Grid, height: nat, width: nat) -> bool {
    g.len() == height && forall|i: int| 0 <= i < g.len() ==> (#[trigger] g[i]).len() == width
}

/// Every resolved cell of the grid has the glyph and the connector codes of
/// an entry of the catalog.
pub open spec fn from_catalog(g: Grid, catalog: Seq<Shape>) -> bool {
    forall|i: int, j: int|
        in_bounds(g, i, j) && (#[trigger] g[i][j]).resolved() ==> catalog.contains(g[i][j].shape())
}

/// Resolved cells that share an edge agree on it: of two cells one above the
/// other, the `down` code of the upper is the `up` code of the lower, and of
/// two cells side by side, the `right` code of the left one is the `left`
/// code of the right one.
pub open spec fn edges_match(g: Grid) -> bool {
    &&& forall|i: int, j: int|
        resolved_at(g, i, j) && resolved_at(g, i + 1, j) ==> (#[trigger] g[i][j]).sides.down == g[i
            + 1][j].sides.up
    &&& forall|i: int, j: int|
        resolved_at(g, i, j) && resolved_at(g, i, j + 1) ==> (#[trigger] g[i][j]).sides.right
            == g[i][j + 1].sides.left
}

} // verus!
