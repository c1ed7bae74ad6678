use uwfc::board::{
    direction_glyphs, every_glyph, glyphs_with_code, new_board, possibilities_of, render, symbol,
    update_adjacent_tiles, update_entropies,
};
use uwfc::select::{find_random_lowest_entropy_index, is_blank, lowest_entropy, lowest_entropy_cells};
use uwfc::tile::{Direction, Shape, Sides, Tile};

fn pipes() -> Vec<Tile> {
    vec![
        Tile::new(' ', (0, 0, 0, 0)),
        Tile::new('|', (1, 0, 1, 0)),
        Tile::new('=', (0, 1, 0, 1)),
        Tile::new('+', (1, 1, 1, 1)),
    ]
}

fn place(board: &mut Vec<Vec<Tile>>, i: usize, j: usize, t: &Tile) {
    board[i][j].tile = t.tile;
    board[i][j].sides = t.sides;
    update_adjacent_tiles(board, i, j);
}

fn sorted(mut v: Vec<char>) -> Vec<char> {
    v.sort();
    v
}

#[test]
fn new_board_is_blank() {
    let board = new_board(2, 3);
    assert_eq!(board.len(), 2);
    for row in &board {
        assert_eq!(row.len(), 3);
        for cell in row {
            assert_eq!(cell.tile, '-');
            assert!(!cell.active);
            assert_eq!(cell.entropy, 13);
            assert!(cell.allowed.is_empty());
        }
    }
    assert!(is_blank(&board));
    assert!(new_board(0, 3).is_empty());
}

#[test]
fn glyph_sets_of_the_catalog() {
    let tiles = pipes();
    assert_eq!(sorted(every_glyph(&tiles)), sorted(vec![' ', '|', '=', '+']));
    assert_eq!(sorted(glyphs_with_code(&tiles, Direction::Up, 1)), sorted(vec!['|', '+']));
    assert_eq!(sorted(glyphs_with_code(&tiles, Direction::Left, 0)), sorted(vec![' ', '|']));
    assert!(glyphs_with_code(&tiles, Direction::Down, 7).is_empty());
}

#[test]
fn update_adjacent_tiles_in_the_middle() {
    let mut board = new_board(3, 3);
    board[1][1].active = true;
    board[0][1].tile = '|';
    update_adjacent_tiles(&mut board, 1, 1);
    assert!(!board[1][1].active);
    assert!(!board[0][1].active);
    assert!(board[1][0].active);
    assert!(board[1][2].active);
    assert!(board[2][1].active);
    assert!(!board[0][0].active && !board[0][2].active);
    assert!(!board[2][0].active && !board[2][2].active);
}

#[test]
fn update_adjacent_tiles_in_a_corner_and_twice() {
    let mut board = new_board(2, 2);
    update_adjacent_tiles(&mut board, 0, 0);
    assert!(!board[0][0].active);
    assert!(board[0][1].active && board[1][0].active);
    assert!(!board[1][1].active);
    update_adjacent_tiles(&mut board, 0, 0);
    assert!(board[0][1].active && board[1][0].active);
    assert!(!board[0][0].active && !board[1][1].active);

    let mut single = new_board(1, 1);
    single[0][0].active = true;
    update_adjacent_tiles(&mut single, 0, 0);
    assert!(!single[0][0].active);
}

#[test]
fn direction_sets_follow_the_neighbours() {
    let tiles = pipes();
    let every = every_glyph(&tiles);
    let mut board = new_board(2, 2);
    place(&mut board, 0, 0, &tiles[1]);
    // The cell below '|' must carry code 1 on its upper edge.
    let up = direction_glyphs(&board, &tiles, &every, 1, 0, Direction::Up);
    assert_eq!(sorted(up), sorted(vec!['|', '+']));
    // Its right neighbour is undetermined: every glyph.
    let right = direction_glyphs(&board, &tiles, &every, 1, 0, Direction::Right);
    assert_eq!(sorted(right), sorted(vec![' ', '|', '=', '+']));
    // The board ends below and to the left.
    assert!(direction_glyphs(&board, &tiles, &every, 1, 0, Direction::Down).is_empty());
    assert!(direction_glyphs(&board, &tiles, &every, 1, 0, Direction::Left).is_empty());
    // The cell right of '|' must carry code 0 on its left edge.
    let left = direction_glyphs(&board, &tiles, &every, 0, 1, Direction::Left);
    assert_eq!(sorted(left), sorted(vec![' ', '|']));
    let p = possibilities_of(&board, &tiles, &every, 0, 1);
    assert!(p.up.is_empty() && p.right.is_empty());
    assert_eq!(sorted(p.left), sorted(vec![' ', '|']));
    assert_eq!(sorted(p.down), sorted(vec![' ', '|', '=', '+']));
}

#[test]
fn update_entropies_recomputes_the_frontier_only() {
    let tiles = pipes();
    let mut board = new_board(2, 2);
    place(&mut board, 0, 0, &tiles[1]);
    // The far corner is inactive: give it sets and an entropy to keep.
    board[1][1].possibilities.up = vec!['x'];
    board[1][1].entropy = 42;
    board[1][1].allowed = vec![Shape { tile: 'q', sides: Sides { up: 9, right: 9, down: 9, left: 9 } }];
    board[0][0].entropy = 7;
    update_entropies(&mut board, &tiles);

    let below: Vec<char> = board[1][0].allowed.iter().map(|s| s.tile).collect();
    assert_eq!(below, vec!['|', '+']);
    assert_eq!(board[1][0].entropy, 2);
    let beside: Vec<char> = board[0][1].allowed.iter().map(|s| s.tile).collect();
    assert_eq!(beside, vec![' ', '|']);
    assert_eq!(board[0][1].entropy, 2);

    assert!(board[1][1].possibilities.up.is_empty());
    assert_eq!(board[1][1].entropy, 42);
    assert_eq!(board[1][1].allowed.len(), 1);
    assert_eq!(board[0][0].entropy, 7);
    assert_eq!(board[0][0].tile, '|');
}

#[test]
fn update_entropies_marks_an_exhausted_cell() {
    let tiles = vec![Tile::new('a', (1, 0, 0, 0)), Tile::new('b', (0, 0, 0, 2))];
    let mut board = new_board(2, 2);
    // Above: down code 0 wants up == 0, so 'b'. Left: right code 0 wants left == 0, so 'a'.
    place(&mut board, 0, 1, &tiles[0]);
    place(&mut board, 1, 0, &tiles[0]);
    update_entropies(&mut board, &tiles);
    assert!(board[1][1].active);
    assert!(board[1][1].allowed.is_empty());
    assert_eq!(board[1][1].entropy, 99);
}

#[test]
fn entropy_is_the_number_of_candidates_but_for_the_sentinels() {
    let tiles = pipes();
    let mut board = new_board(3, 3);
    place(&mut board, 1, 1, &tiles[3]);
    place(&mut board, 0, 0, &tiles[0]);
    update_entropies(&mut board, &tiles);
    for row in &board {
        for cell in row {
            assert!(cell.allowed.len() <= tiles.len());
            if cell.active {
                if cell.possibilities.unconstrained() {
                    assert_eq!(cell.entropy, 13);
                    assert!(cell.allowed.is_empty());
                } else if cell.allowed.is_empty() {
                    assert_eq!(cell.entropy, 99);
                } else {
                    assert_eq!(cell.entropy, cell.allowed.len());
                }
            }
        }
    }
    // Between ' ' on the left and '+' below, only '|' fits both.
    assert_eq!(board[0][1].entropy, 1);
    assert_eq!(board[0][1].allowed.len(), 1);
    assert_eq!(board[0][1].allowed[0].tile, '|');
}

#[test]
fn recomputing_twice_changes_nothing() {
    let tiles = pipes();
    let mut board = new_board(3, 3);
    place(&mut board, 1, 1, &tiles[3]);
    place(&mut board, 0, 1, &tiles[1]);
    update_entropies(&mut board, &tiles);
    let once: Vec<Vec<(usize, Vec<Shape>, Vec<char>)>> = board
        .iter()
        .map(|row| {
            row.iter()
                .map(|c| (c.entropy, c.allowed.clone(), sorted(c.possibilities.up.clone())))
                .collect()
        })
        .collect();
    update_entropies(&mut board, &tiles);
    let twice: Vec<Vec<(usize, Vec<Shape>, Vec<char>)>> = board
        .iter()
        .map(|row| {
            row.iter()
                .map(|c| (c.entropy, c.allowed.clone(), sorted(c.possibilities.up.clone())))
                .collect()
        })
        .collect();
    assert_eq!(once, twice);
}

#[test]
fn a_blank_board_offers_every_cell() {
    let board = new_board(2, 2);
    assert_eq!(lowest_entropy(&board), Some(13));
    assert_eq!(lowest_entropy_cells(&board), vec![(0, 0), (0, 1), (1, 0), (1, 1)]);
    let cell = find_random_lowest_entropy_index(&board).unwrap();
    assert!(cell.0 < 2 && cell.1 < 2);
}

#[test]
fn the_lowest_frontier_cells_are_offered_in_reading_order() {
    let tiles = pipes();
    let mut board = new_board(3, 3);
    place(&mut board, 1, 1, &tiles[3]);
    update_entropies(&mut board, &tiles);
    assert!(!is_blank(&board));
    assert_eq!(lowest_entropy(&board), Some(2));
    assert_eq!(lowest_entropy_cells(&board), vec![(0, 1), (1, 0), (1, 2), (2, 1)]);
    board[1][0].entropy = 1;
    assert_eq!(lowest_entropy(&board), Some(1));
    assert_eq!(lowest_entropy_cells(&board), vec![(1, 0)]);
    for _ in 0..20 {
        assert_eq!(find_random_lowest_entropy_index(&board), Some((1, 0)));
    }
}

#[test]
fn a_resolved_cell_is_never_offered() {
    let tiles = pipes();
    let mut board = new_board(1, 3);
    place(&mut board, 0, 0, &tiles[2]);
    update_entropies(&mut board, &tiles);
    // The resolved cell has the entropy of the frontier cell, and less than it.
    board[0][0].entropy = board[0][1].entropy;
    assert_eq!(lowest_entropy_cells(&board), vec![(0, 1)]);
    board[0][0].entropy = 0;
    assert_eq!(lowest_entropy(&board), Some(board[0][1].entropy));
    assert_eq!(lowest_entropy_cells(&board), vec![(0, 1)]);
    // Nor is an undetermined cell off the frontier, once the board is no longer blank.
    board[0][2].entropy = 0;
    assert_eq!(lowest_entropy_cells(&board), vec![(0, 1)]);
    for _ in 0..20 {
        assert_eq!(find_random_lowest_entropy_index(&board), Some((0, 1)));
    }
}

#[test]
fn a_finished_board_offers_nothing() {
    let tiles = pipes();
    let mut board = new_board(1, 2);
    place(&mut board, 0, 0, &tiles[0]);
    place(&mut board, 0, 1, &tiles[0]);
    assert_eq!(lowest_entropy(&board), None);
    assert!(lowest_entropy_cells(&board).is_empty());
    assert_eq!(find_random_lowest_entropy_index(&board), None);
}

#[test]
fn render_shows_marks_and_glyphs() {
    let tiles = pipes();
    let mut board = new_board(2, 2);
    place(&mut board, 0, 0, &tiles[3]);
    assert_eq!(render(&board), vec![vec!['+', '#'], vec!['#', '*']]);
    assert_eq!(symbol(&board[0][0]), '+');
    assert_eq!(symbol(&board[0][1]), '#');
    assert_eq!(symbol(&board[1][1]), '*');
}
