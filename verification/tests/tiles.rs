use uwfc::tile::{
    has_glyph, insert_glyph, occurs_before, Direction, Possibilities, Shape, Sides, Tile, EXHAUSTED,
    UNCONSTRAINED, UNDETERMINED,
};

fn abc() -> Vec<Tile> {
    vec![
        Tile::new('a', (1, 0, 0, 0)),
        Tile::new('b', (0, 1, 0, 0)),
        Tile::new('c', (0, 0, 1, 0)),
    ]
}

fn shape(tile: char, sides: (u8, u8, u8, u8)) -> Shape {
    Shape { tile, sides: Sides { up: sides.0, right: sides.1, down: sides.2, left: sides.3 } }
}

#[test]
fn new_tile_is_idle() {
    let t = Tile::new('x', (1, 2, 3, 4));
    assert_eq!(t.tile, 'x');
    assert_eq!(t.sides, Sides { up: 1, right: 2, down: 3, left: 4 });
    assert_eq!(t.entropy, 13);
    assert_eq!(t.entropy, UNCONSTRAINED);
    assert!(t.allowed.is_empty());
    assert!(!t.active);
    assert!(t.possibilities.up.is_empty());
    assert!(t.possibilities.right.is_empty());
    assert!(t.possibilities.down.is_empty());
    assert!(t.possibilities.left.is_empty());
    assert_eq!(t.shape(), shape('x', (1, 2, 3, 4)));
}

#[test]
fn init_possibilities_is_four_empty_sets() {
    let p = Tile::init_possibilities();
    assert!(p.up.is_empty() && p.right.is_empty() && p.down.is_empty() && p.left.is_empty());
    assert!(p.unconstrained());
}

#[test]
fn sentinels_and_marker() {
    assert_eq!(UNDETERMINED, '-');
    assert_eq!(UNCONSTRAINED, 13);
    assert_eq!(EXHAUSTED, 99);
}

#[test]
fn direction_opposites_and_codes() {
    assert_eq!(Direction::Up.opposite(), Direction::Down);
    assert_eq!(Direction::Down.opposite(), Direction::Up);
    assert_eq!(Direction::Left.opposite(), Direction::Right);
    assert_eq!(Direction::Right.opposite(), Direction::Left);
    let s = Sides { up: 1, right: 2, down: 3, left: 4 };
    assert_eq!(s.code(Direction::Up), 1);
    assert_eq!(s.code(Direction::Right), 2);
    assert_eq!(s.code(Direction::Down), 3);
    assert_eq!(s.code(Direction::Left), 4);
}

#[test]
fn glyph_sets_hold_each_glyph_once() {
    let mut set: Vec<char> = Vec::new();
    assert!(!has_glyph(&set, 'a'));
    insert_glyph(&mut set, 'a');
    insert_glyph(&mut set, 'b');
    insert_glyph(&mut set, 'a');
    assert_eq!(set, vec!['a', 'b']);
    assert!(has_glyph(&set, 'a'));
    assert!(has_glyph(&set, 'b'));
    assert!(!has_glyph(&set, 'c'));
}

#[test]
fn get_tile_from_char_finds_the_first() {
    let tiles = vec![
        Tile::new('a', (1, 1, 1, 1)),
        Tile::new('b', (2, 2, 2, 2)),
        Tile::new('a', (3, 3, 3, 3)),
    ];
    let found = Tile::get_tile_from_char(&tiles, 'a').unwrap();
    assert_eq!(found.sides.up, 1);
    let found = Tile::get_tile_from_char(&tiles, 'b').unwrap();
    assert_eq!(found.sides.up, 2);
    assert!(Tile::get_tile_from_char(&tiles, 'z').is_none());
    assert!(Tile::get_tile_from_char(&[], 'a').is_none());
    assert!(!occurs_before(&tiles, 0));
    assert!(!occurs_before(&tiles, 1));
    assert!(occurs_before(&tiles, 2));
}

#[test]
fn update_entropy_unconstrained_gives_13_and_no_candidates() {
    let mut cell = Tile::new('-', (0, 0, 0, 0));
    cell.allowed = vec![shape('a', (1, 0, 0, 0))];
    cell.entropy = 5;
    cell.update_entropy(&abc());
    assert_eq!(cell.entropy, 13);
    assert!(cell.allowed.is_empty());
}

#[test]
fn update_entropy_counts_the_intersection() {
    let mut cell = Tile::new('-', (0, 0, 0, 0));
    cell.possibilities.up = vec!['a', 'b'];
    cell.possibilities.left = vec!['b', 'c'];
    cell.update_entropy(&abc());
    assert_eq!(cell.allowed, vec![shape('b', (0, 1, 0, 0))]);
    assert_eq!(cell.entropy, 1);
}

#[test]
fn update_entropy_skips_empty_sets_and_keeps_catalog_order() {
    let mut cell = Tile::new('-', (0, 0, 0, 0));
    cell.possibilities.down = vec!['c', 'a'];
    cell.update_entropy(&abc());
    assert_eq!(cell.allowed, vec![shape('a', (1, 0, 0, 0)), shape('c', (0, 0, 1, 0))]);
    assert_eq!(cell.entropy, 2);
}

#[test]
fn update_entropy_conflict_gives_99() {
    let mut cell = Tile::new('-', (0, 0, 0, 0));
    cell.possibilities.up = vec!['a'];
    cell.possibilities.right = vec!['b'];
    cell.update_entropy(&abc());
    assert!(cell.allowed.is_empty());
    assert_eq!(cell.entropy, 99);
}

#[test]
fn update_entropy_drops_glyphs_unknown_to_the_catalog() {
    let mut cell = Tile::new('-', (0, 0, 0, 0));
    cell.possibilities.up = vec!['z', 'a'];
    cell.update_entropy(&abc());
    assert_eq!(cell.allowed, vec![shape('a', (1, 0, 0, 0))]);
    assert_eq!(cell.entropy, 1);

    let mut lost = Tile::new('-', (0, 0, 0, 0));
    lost.possibilities.up = vec!['z'];
    lost.update_entropy(&abc());
    assert!(lost.allowed.is_empty());
    assert_eq!(lost.entropy, 99);
}

#[test]
fn update_entropy_takes_each_glyph_once() {
    let tiles = vec![
        Tile::new('a', (1, 1, 1, 1)),
        Tile::new('a', (2, 2, 2, 2)),
        Tile::new('b', (3, 3, 3, 3)),
    ];
    let mut cell = Tile::new('-', (0, 0, 0, 0));
    cell.possibilities.left = vec!['a', 'b'];
    cell.update_entropy(&tiles);
    assert_eq!(cell.allowed, vec![shape('a', (1, 1, 1, 1)), shape('b', (3, 3, 3, 3))]);
    assert_eq!(cell.entropy, 2);
}

#[test]
fn update_entropy_leaves_the_rest_alone() {
    let mut cell = Tile::new('-', (0, 0, 0, 0));
    cell.active = true;
    cell.possibilities.up = vec!['a'];
    cell.update_entropy(&abc());
    assert_eq!(cell.tile, '-');
    assert!(cell.active);
    assert_eq!(cell.possibilities.up, vec!['a']);
    assert!(cell.allowed.len() <= abc().len());
}

#[test]
fn possibilities_admit_what_every_filled_set_holds() {
    let p = Possibilities { up: vec!['a', 'b'], right: vec![], down: vec!['b'], left: vec![] };
    assert!(!p.unconstrained());
    assert!(p.admits('b'));
    assert!(!p.admits('a'));
    assert!(!p.admits('c'));
    assert_eq!(p.admitted(&abc()), vec![shape('b', (0, 1, 0, 0))]);
}
