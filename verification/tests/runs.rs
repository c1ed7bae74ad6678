use uwfc::board::{new_board, update_adjacent_tiles};
use uwfc::catalog::{
    box_drawing_tiles, has_answer, has_distinct_glyphs, is_answered, is_marker_free,
};
use uwfc::collapse::{collapse_cell, collapse_next, collapse_random, Outcome};
use uwfc::run::{generate, generate_with, Contradiction, Event, Generation};
use uwfc::tile::{Direction, Shape, Sides, Tile};

fn glyphs(board: &Vec<Vec<Tile>>) -> Vec<Vec<char>> {
    board.iter().map(|row| row.iter().map(|c| c.tile).collect()).collect()
}

fn assert_edges_match(board: &Vec<Vec<Tile>>) {
    for i in 0..board.len() {
        for j in 0..board[i].len() {
            if board[i][j].tile == '-' {
                continue;
            }
            if i + 1 < board.len() && board[i + 1][j].tile != '-' {
                assert_eq!(board[i][j].sides.down, board[i + 1][j].sides.up);
            }
            if j + 1 < board[i].len() && board[i][j + 1].tile != '-' {
                assert_eq!(board[i][j].sides.right, board[i][j + 1].sides.left);
            }
        }
    }
}

fn assert_complete(generation: &Generation, height: usize, width: usize, tiles: &[Tile]) {
    assert_eq!(generation.board.len(), height);
    assert_eq!(generation.trace.len(), height * width);
    let mut seen = vec![vec![false; width]; height];
    for (k, event) in generation.trace.iter().enumerate() {
        assert_eq!(event.iteration, k);
        assert!(!seen[event.row][event.col]);
        seen[event.row][event.col] = true;
        assert_eq!(generation.board[event.row][event.col].tile, event.glyph);
    }
    for row in &generation.board {
        assert_eq!(row.len(), width);
        for cell in row {
            assert_ne!(cell.tile, '-');
            assert!(!cell.active);
            assert!(tiles.iter().any(|t| t.tile == cell.tile && t.sides == cell.sides));
        }
    }
}

fn clashing() -> Vec<Tile> {
    // No right code is a left code, and no down code is an up code.
    vec![Tile::new('x', (1, 2, 3, 4)), Tile::new('y', (5, 6, 7, 8))]
}

#[test]
fn single_cell_single_blank_tile() {
    let tiles = vec![Tile::new(' ', (0, 0, 0, 0))];
    let generation = generate_with(1, 1, &tiles, &[]).unwrap();
    assert_eq!(glyphs(&generation.board), vec![vec![' ']]);
    assert_eq!(generation.trace, vec![Event { iteration: 0, glyph: ' ', row: 0, col: 0 }]);
    for pick in 0..5 {
        let again = generate_with(1, 1, &tiles, &[(pick, pick + 1)]).unwrap();
        assert_eq!(glyphs(&again.board), vec![vec![' ']]);
    }
    for _ in 0..10 {
        let random = generate(1, 1, &tiles).unwrap();
        assert_eq!(glyphs(&random.board), vec![vec![' ']]);
        assert_eq!(random.trace.len(), 1);
    }
}

#[test]
fn two_cells_one_horizontal_tile() {
    let tiles = vec![Tile::new('\u{2550}', (0, 0, 0, 0))];
    for first in 0..2 {
        let generation = generate_with(1, 2, &tiles, &[(first, 0), (0, 0)]).unwrap();
        assert_eq!(generation.trace.len(), 2);
        assert_eq!(generation.trace[0].col, first);
        assert_eq!(generation.trace[1].col, 1 - first);
        assert_eq!(glyphs(&generation.board), vec![vec!['\u{2550}', '\u{2550}']]);
        assert_eq!(generation.board[0][0].sides.right, generation.board[0][1].sides.left);
    }
    let random = generate(1, 2, &tiles).unwrap();
    assert_complete(&random, 1, 2, &tiles);
    assert_edges_match(&random.board);
}

#[test]
fn two_compatible_horizontal_tiles() {
    let tiles = vec![Tile::new('a', (0, 1, 0, 1)), Tile::new('b', (0, 1, 0, 1))];
    for cp in 0..2 {
        for tp in 0..2 {
            for tq in 0..2 {
                let generation = generate_with(1, 2, &tiles, &[(cp, tp), (0, tq)]).unwrap();
                assert_complete(&generation, 1, 2, &tiles);
                assert_edges_match(&generation.board);
            }
        }
    }
}

#[test]
fn clashing_tiles_end_in_a_contradiction() {
    let tiles = clashing();
    assert!(!is_answered(&tiles));
    for a in 0..4 {
        for b in 0..2 {
            for c in 0..3 {
                let picks = [(a, b), (c, a), (b, c), (a, a)];
                match generate_with(2, 2, &tiles, &picks) {
                    Ok(_) => panic!("a board of clashing tiles went through"),
                    Err(e) => assert!(e.iteration <= 3),
                }
            }
        }
    }
    for _ in 0..20 {
        match generate(2, 2, &tiles) {
            Ok(_) => panic!("a board of clashing tiles went through"),
            Err(e) => assert!(e.iteration <= 3),
        }
    }
}

#[test]
fn clashing_tiles_fail_at_once_on_a_row_of_two() {
    let tiles = clashing();
    let failure = generate_with(1, 2, &tiles, &[(0, 0)]).unwrap_err();
    assert_eq!(failure, Contradiction { iteration: 1, row: 0, col: 1 });
}

#[test]
fn an_empty_catalog_is_a_contradiction() {
    let failure = generate_with(2, 2, &[], &[(3, 0)]).unwrap_err();
    assert_eq!(failure, Contradiction { iteration: 0, row: 1, col: 1 });
    assert!(generate(1, 1, &[]).is_err());
}

#[test]
fn same_picks_same_board() {
    let tiles = box_drawing_tiles();
    let picks: Vec<(usize, usize)> = (0..30).map(|k| (k * 7 + 3, k * 11 + 5)).collect();
    let a = generate_with(4, 5, &tiles, &picks);
    let b = generate_with(4, 5, &tiles, &picks);
    match (a, b) {
        (Ok(x), Ok(y)) => {
            assert_eq!(glyphs(&x.board), glyphs(&y.board));
            assert_eq!(x.trace, y.trace);
        }
        (Err(x), Err(y)) => assert_eq!(x, y),
        _ => panic!("the same picks gave two results"),
    }
}

#[test]
fn picks_count_modulo_and_run_out_to_zero() {
    let tiles = vec![Tile::new(' ', (0, 0, 0, 0)), Tile::new('o', (0, 0, 0, 0))];
    // Four candidates, two tiles: pick 6 is cell 2, pick 3 is tile 1.
    let generation = generate_with(2, 2, &tiles, &[(6, 3)]).unwrap();
    assert_eq!(generation.trace[0], Event { iteration: 0, glyph: 'o', row: 1, col: 0 });
    // Afterwards the picks are (0, 0): the first candidate, the first tile.
    assert_eq!(generation.trace[1], Event { iteration: 1, glyph: ' ', row: 0, col: 0 });
    assert_eq!(generation.trace.len(), 4);
    assert_eq!(glyphs(&generation.board), vec![vec![' ', ' '], vec!['o', ' ']]);
}

#[test]
fn runs_with_the_box_drawing_tiles_resolve_every_cell() {
    let tiles = box_drawing_tiles();
    let mut went_through = 0;
    for seed in 0..40usize {
        let picks: Vec<(usize, usize)> =
            (0..20).map(|k| (seed * 13 + k * 5, seed * 17 + k * 3 + 1)).collect();
        match generate_with(4, 5, &tiles, &picks) {
            Ok(generation) => {
                went_through += 1;
                assert_complete(&generation, 4, 5, &tiles);
                assert_edges_match(&generation.board);
            }
            Err(e) => {
                assert!(e.iteration > 0 && e.iteration < 20);
                assert!(e.row < 4 && e.col < 5);
            }
        }
    }
    assert!(went_through > 0);
}

#[test]
fn random_runs_resolve_every_cell_or_stop() {
    let tiles = box_drawing_tiles();
    let mut went_through = 0;
    for _ in 0..40 {
        match generate(5, 4, &tiles) {
            Ok(generation) => {
                went_through += 1;
                assert_complete(&generation, 5, 4, &tiles);
                assert_edges_match(&generation.board);
            }
            Err(e) => assert!(e.iteration > 0 && e.iteration < 20),
        }
    }
    assert!(went_through > 0);
}

#[test]
fn random_runs_differ() {
    let tiles = box_drawing_tiles();
    let mut boards = Vec::new();
    for _ in 0..30 {
        if let Ok(generation) = generate(3, 3, &tiles) {
            boards.push(glyphs(&generation.board));
        }
    }
    assert!(boards.len() > 1);
    assert!(boards.iter().any(|b| *b != boards[0]));
}

#[test]
fn each_step_resolves_one_cell() {
    let tiles = box_drawing_tiles();
    let mut board = new_board(3, 3);
    let mut resolved = 0;
    for k in 0..9usize {
        let before = glyphs(&board);
        match collapse_next(&mut board, &tiles, k * 5 + 2, k * 7 + 1) {
            Outcome::Collapsed { row, col, shape } => {
                resolved += 1;
                assert_eq!(before[row][col], '-');
                assert_eq!(board[row][col].tile, shape.tile);
                assert_eq!(board[row][col].sides, shape.sides);
                assert!(!board[row][col].active);
                let after = glyphs(&board);
                for i in 0..3 {
                    for j in 0..3 {
                        if (i, j) != (row, col) {
                            assert_eq!(after[i][j], before[i][j]);
                        }
                    }
                }
                let count = after.iter().flatten().filter(|g| **g != '-').count();
                assert_eq!(count, resolved);
            }
            Outcome::Contradiction { .. } => {
                assert_eq!(glyphs(&board), before);
                return;
            }
            Outcome::Idle => panic!("idle before the board was full"),
        }
    }
    assert_eq!(collapse_next(&mut board, &tiles, 0, 0), Outcome::Idle);
    assert_eq!(collapse_random(&mut board, &tiles), Outcome::Idle);
}

#[test]
fn a_random_step_takes_a_candidate_and_one_of_its_options() {
    let tiles = box_drawing_tiles();
    for _ in 0..20 {
        let mut board = new_board(2, 3);
        match collapse_random(&mut board, &tiles) {
            Outcome::Collapsed { row, col, shape } => {
                assert!(row < 2 && col < 3);
                assert!(tiles.iter().any(|t| t.shape() == shape));
                assert_eq!(board[row][col].tile, shape.tile);
            }
            other => panic!("the first step came to {:?}", other),
        }
        match collapse_random(&mut board, &tiles) {
            Outcome::Collapsed { row, col, shape } => {
                assert_eq!(board[row][col].tile, shape.tile);
                let count = glyphs(&board).iter().flatten().filter(|g| **g != '-').count();
                assert_eq!(count, 2);
                let mut probe = board.clone();
                probe[row][col].tile = '-';
                assert!(board[row][col].allowed.contains(&shape));
                assert_eq!(probe[row][col].sides, shape.sides);
            }
            other => panic!("the second step came to {:?}", other),
        }
    }
}

#[test]
fn collapse_cell_places_and_moves_the_frontier() {
    let mut board = new_board(2, 2);
    board[0][0].entropy = 4;
    let shape = Shape { tile: 'k', sides: Sides { up: 1, right: 2, down: 3, left: 4 } };
    collapse_cell(&mut board, 0, 0, shape);
    assert_eq!(board[0][0].tile, 'k');
    assert_eq!(board[0][0].sides, shape.sides);
    assert_eq!(board[0][0].entropy, 4);
    assert!(!board[0][0].active);
    assert!(board[0][1].active && board[1][0].active && !board[1][1].active);
}

#[test]
fn a_contradiction_leaves_the_board_recomputed() {
    let tiles = clashing();
    let mut board = new_board(1, 2);
    assert!(matches!(collapse_next(&mut board, &tiles, 0, 0), Outcome::Collapsed { .. }));
    assert_eq!(
        collapse_next(&mut board, &tiles, 0, 0),
        Outcome::Contradiction { row: 0, col: 1 }
    );
    assert_eq!(board[0][1].tile, '-');
    assert!(board[0][1].active);
    assert_eq!(board[0][1].entropy, 13);
}

#[test]
fn an_unanswered_edge_lets_a_mismatch_through() {
    // Nothing in the catalog has the upper code 5 that lies under 'a'.
    let tiles = vec![Tile::new('a', (0, 0, 5, 0)), Tile::new('b', (0, 0, 0, 0))];
    assert!(!is_answered(&tiles));
    assert!(!has_answer(&tiles, 0, Direction::Up));
    let generation = generate_with(2, 2, &tiles, &[(0, 0), (1, 1), (0, 1), (0, 1)]).unwrap();
    assert_eq!(glyphs(&generation.board), vec![vec!['a', 'b'], vec!['b', 'b']]);
    assert_ne!(generation.board[0][0].sides.down, generation.board[1][0].sides.up);
}

#[test]
fn the_box_drawing_tiles_are_sound() {
    let tiles = box_drawing_tiles();
    assert_eq!(tiles.len(), 27);
    assert!(is_marker_free(&tiles));
    assert!(has_distinct_glyphs(&tiles));
    assert!(is_answered(&tiles));
    assert_eq!(tiles[0].tile, ' ');
    assert_eq!(tiles[1].tile, '\u{2560}');
    assert_eq!(tiles[1].sides, Sides { up: 1, right: 1, down: 1, left: 0 });
    assert_eq!(tiles[26].tile, '\u{255e}');
    assert_eq!(tiles[26].sides, Sides { up: 2, right: 1, down: 2, left: 0 });
    for t in &tiles {
        assert_eq!(t.entropy, 13);
        assert!(!t.active);
    }
}

#[test]
fn catalog_checks_tell_sound_from_unsound() {
    let marked = vec![Tile::new('-', (0, 0, 0, 0))];
    assert!(!is_marker_free(&marked));
    assert!(has_distinct_glyphs(&marked));
    assert!(is_answered(&marked));
    let twice = vec![Tile::new('a', (0, 0, 0, 0)), Tile::new('a', (1, 1, 1, 1))];
    assert!(is_marker_free(&twice));
    assert!(!has_distinct_glyphs(&twice));
    assert!(is_answered(&twice));
    let one_way = vec![Tile::new('a', (1, 0, 0, 0))];
    assert!(!is_answered(&one_way));
    assert!(!has_answer(&one_way, 0, Direction::Down));
    assert!(!has_answer(&one_way, 0, Direction::Up));
    assert!(has_answer(&one_way, 0, Direction::Left));
    assert!(has_answer(&one_way, 0, Direction::Right));
    assert!(is_marker_free(&[]) && has_distinct_glyphs(&[]) && is_answered(&[]));
}

#[test]
fn a_marker_in_the_catalog_leaves_cells_undetermined() {
    let tiles = vec![Tile::new('-', (0, 0, 0, 0))];
    let mut board = new_board(1, 2);
    assert!(matches!(collapse_next(&mut board, &tiles, 0, 0), Outcome::Collapsed { .. }));
    assert_eq!(board[0][0].tile, '-');
    update_adjacent_tiles(&mut board, 0, 0);
    assert!(board[0][1].active);
}
