//! What a catalog has to offer for the collapse to keep its promises, and
//! the catalog of box-drawing tiles.

use crate::tile::{catalog_of, Direction, Shape, Sides, Tile, TileView, UNDETERMINED};
use vstd::prelude::*;

verus! {

/// No entry of the catalog has the glyph of an undetermined cell.
pub open spec fn marker_free(catalog: Seq<Shape>) -> bool {
    forall|k: int| 0 <= k < catalog.len() ==> (#[trigger] catalog[k]).tile != UNDETERMINED
}

/// No two entries of the catalog have the same glyph.
pub open spec fn distinct_glyphs(catalog: Seq<Shape>) -> bool {
    forall|a: int, b: int|
        0 <= a < b < catalog.len() ==> (#[trigger] catalog[a]).tile != (#[trigger] catalog[b]).tile
}

/// Some entry of the catalog can lie beside entry `k` on its edge
/// `dir.opposite()`: its code on the edge `dir` is the code of entry `k` on
/// the facing edge.
pub open spec fn answers(catalog: Seq<Shape>, k: int, dir: Direction) -> bool {
    exists|m: int|
        0 <= m < catalog.len() && (#[trigger] catalog[m]).sides.code(dir) == catalog[k].sides.code(
            dir.opposite(),
        )
}

/// Every edge of every entry of the catalog has an entry that can lie
/// beside it.
pub open spec fn answered(catalog: Seq<Shape>) -> bool {
    forall|k: int, dir: Direction| 0 <= k < catalog.len() ==> #[trigger] answers(catalog, k, dir)
}

/// Whether no entry of `tiles` has the glyph of an undetermined cell.
pub fn is_marker_free(tiles: &[Tile]) -> (r: bool)
    ensures
        r == marker_free(catalog_of(tiles@)),
{
    let mut k: usize = 0;
    while k < tiles.len()
        invariant
            k <= tiles@.len(),
            forall|j: int| 0 <= j < k ==> (#[trigger] catalog_of(tiles@)[j]).tile != UNDETERMINED,
        decreases tiles@.len() - k,
    {
        if tiles[k].tile == UNDETERMINED {
            assert(catalog_of(tiles@)[k as int].tile == UNDETERMINED);
            return false;
        }
        k += 1;
    }
    true
}

/// Whether no two entries of `tiles` have the same glyph.
pub fn has_distinct_glyphs(tiles: &[Tile]) -> (r: bool)
    ensures
        r == distinct_glyphs(catalog_of(tiles@)),
{
    let ghost catalog = catalog_of(tiles@);
    let mut b: usize = 0;
    while b < tiles.len()
        invariant
            b <= tiles@.len(),
            catalog == catalog_of(tiles@),
            forall|i: int, j: int|
                0 <= i < j < b ==> (#[trigger] catalog[i]).tile != (#[trigger] catalog[j]).tile,
        decreases tiles@.len() - b,
    {
        let mut a: usize = 0;
        while a < b
            invariant
                a <= b < tiles@.len(),
                catalog == catalog_of(tiles@),
                forall|i: int| 0 <= i < a ==> (#[trigger] catalog[i]).tile != catalog[b as int].tile,
            decreases b - a,
        {
            if tiles[a].tile == tiles[b].tile {
                assert(catalog[a as int].tile == catalog[b as int].tile);
                return false;
            }
            a += 1;
        }
        b += 1;
    }
    true
}

/// Whether some entry of `tiles` can lie beside entry `k` on its edge
/// `dir.opposite()`.
pub fn has_answer(tiles: &[Tile], k: usize, dir: Direction) -> (r: bool)
    requires
        k < tiles@.len(),
    ensures
        r == answers(catalog_of(tiles@), k as int, dir),
{
    let ghost catalog = catalog_of(tiles@);
    let code = tiles[k].sides.code(dir.opposite());
    let mut m: usize = 0;
    while m < tiles.len()
        invariant
            m <= tiles@.len(),
            k < tiles@.len(),
            catalog == catalog_of(tiles@),
            code == catalog[k as int].sides.code(dir.opposite()),
            forall|i: int| 0 <= i < m ==> (#[trigger] catalog[i]).sides.code(dir) != code,
        decreases tiles@.len() - m,
    {
        if tiles[m].sides.code(dir) == code {
            assert(catalog[m as int].sides.code(dir) == code);
            return true;
        }
        m += 1;
    }
    false
}

/// Whether every edge of every entry of `tiles` has an entry that can lie
/// beside it.
pub fn is_answered(tiles: &[Tile]) -> (r: bool)
    ensures
        r == answered(catalog_of(tiles@)),
{
    let ghost catalog = catalog_of(tiles@);
    let mut k: usize = 0;
    while k < tiles.len()
        invariant
            k <= tiles@.len(),
            catalog == catalog_of(tiles@),
            forall|i: int, dir: Direction| 0 <= i < k ==> #[trigger] answers(catalog, i, dir),
        decreases tiles@.len() - k,
    {
        let all = has_answer(tiles, k, Direction::Up) && has_answer(tiles, k, Direction::Right)
            && has_answer(tiles, k, Direction::Down) && has_answer(tiles, k, Direction::Left);
        if !all {
            return false;
        }
        assert forall|dir: Direction| #[trigger] answers(catalog, k as int, dir) by {
            match dir {
                Direction::Up => {},
                Direction::Right => {},
                Direction::Down => {},
                Direction::Left => {},
            }
        }
        k += 1;
    }
    true
}

/// The shape with the glyph `tile` and the given connector codes.
pub open spec fn entry(tile: char, up: u8, right: u8, down: u8, left: u8) -> Shape {
    Shape { tile, sides: Sides { up, right, down, left } }
}

/// The shapes of the box-drawing tiles, in the order of the catalog.
pub open spec fn box_drawing_shapes() -> Seq<Shape> {
    seq![
        entry(' ', 0, 0, 0, 0),
        entry('\u{2560}', 1, 1, 1, 0),
        entry('\u{2566}', 0, 1, 1, 1),
        entry('\u{2563}', 1, 0, 1, 1),
        entry('\u{2569}', 1, 1, 0, 1),
        entry('\u{2554}', 0, 1, 1, 0),
        entry('\u{2557}', 0, 0, 1, 1),
        entry('\u{255a}', 1, 1, 0, 0),
        entry('\u{255d}', 1, 0, 0, 1),
        entry('\u{256c}', 1, 1, 1, 1),
        entry('\u{2551}', 1, 0, 1, 0),
        entry('\u{2550}', 0, 1, 0, 1),
        entry('\u{251c}', 2, 2, 2, 0),
        entry('\u{252c}', 0, 2, 2, 2),
        entry('\u{2524}', 2, 0, 2, 2),
        entry('\u{2534}', 2, 2, 0, 2),
        entry('\u{250c}', 0, 2, 2, 0),
        entry('\u{2510}', 0, 0, 2, 2),
        entry('\u{2514}', 2, 2, 0, 0),
        entry('\u{2518}', 2, 0, 0, 2),
        entry('\u{253c}', 2, 2, 2, 2),
        entry('\u{2502}', 2, 0, 2, 0),
        entry('\u{2500}', 0, 2, 0, 2),
        entry('\u{2568}', 1, 2, 0, 2),
        entry('\u{2561}', 2, 0, 2, 1),
        entry('\u{2565}', 0, 2, 1, 2),
        entry('\u{255e}', 2, 1, 2, 0),
    ]
}

/// The catalog of box-drawing tiles: the blank, the double-line and the
/// single-line pieces, and four pieces that join a double line to a single
/// one. The connector codes are 0 for an open edge, 1 for a double line and
/// 2 for a single line.
///
/// The catalog meets what the laws of the collapse ask for: no glyph is that
/// of an undetermined cell, no glyph occurs twice, and every edge has an
/// entry that can lie beside it.
pub fn box_drawing_tiles() -> (tiles: Vec<Tile>)
    ensures
        tiles@.len() == 27,
        catalog_of(tiles@) == box_drawing_shapes(),
        forall|k: int|
            0 <= k < tiles@.len() ==> (#[trigger] tiles@[k])@ == TileView::fresh(
                tiles@[k].tile,
                tiles@[k].sides,
            ),
        marker_free(catalog_of(tiles@)),
        distinct_glyphs(catalog_of(tiles@)),
        answered(catalog_of(tiles@)),
{
    let tiles = vec![
        // space
        Tile::new(' ', (0, 0, 0, 0)),
        // box drawings double vertical and right
        Tile::new('\u{2560}', (1, 1, 1, 0)),
        // box drawings double down and horizontal
        Tile::new('\u{2566}', (0, 1, 1, 1)),
        // box drawings double vertical and left
        Tile::new('\u{2563}', (1, 0, 1, 1)),
        // box drawings double up and horizontal
        Tile::new('\u{2569}', (1, 1, 0, 1)),
        // box drawings double down and right
        Tile::new('\u{2554}', (0, 1, 1, 0)),
        // box drawings double down and left
        Tile::new('\u{2557}', (0, 0, 1, 1)),
        // box drawings double up and right
        Tile::new('\u{255a}', (1, 1, 0, 0)),
        // box drawings double up and left
        Tile::new('\u{255d}', (1, 0, 0, 1)),
        // box drawings double vertical and horizontal
        Tile::new('\u{256c}', (1, 1, 1, 1)),
        // box drawings double vertical
        Tile::new('\u{2551}', (1, 0, 1, 0)),
        // box drawings double horizontal
        Tile::new('\u{2550}', (0, 1, 0, 1)),
        // box drawings light vertical and right
        Tile::new('\u{251c}', (2, 2, 2, 0)),
        // box drawings light down and horizontal
        Tile::new('\u{252c}', (0, 2, 2, 2)),
        // box drawings light vertical and left
        Tile::new('\u{2524}', (2, 0, 2, 2)),
        // box drawings light up and horizontal
        Tile::new('\u{2534}', (2, 2, 0, 2)),
        // box drawings light down and right
        Tile::new('\u{250c}', (0, 2, 2, 0)),
        // box drawings light down and left
        Tile::new('\u{2510}', (0, 0, 2, 2)),
        // box drawings light up and right
        Tile::new('\u{2514}', (2, 2, 0, 0)),
        // box drawings light up and left
        Tile::new('\u{2518}', (2, 0, 0, 2)),
        // box drawings light vertical and horizontal
        Tile::new('\u{253c}', (2, 2, 2, 2)),
        // box drawings light vertical
        Tile::new('\u{2502}', (2, 0, 2, 0)),
        // box drawings light horizontal
        Tile::new('\u{2500}', (0, 2, 0, 2)),
        // box drawings up double and horizontal single
        Tile::new('\u{2568}', (1, 2, 0, 2)),
        // box drawings vertical single and left double
        Tile::new('\u{2561}', (2, 0, 2, 1)),
        // box drawings down double and horizontal single
        Tile::new('\u{2565}', (0, 2, 1, 2)),
        // box drawings vertical single and right double
        Tile::new('\u{255e}', (2, 1, 2, 0)),
    ];
    proof {
        let catalog = catalog_of(tiles@);
        assert(catalog =~= box_drawing_shapes());
        assert forall|k: int, dir: Direction| 0 <= k < catalog.len() implies #[trigger] answers(
            catalog,
            k,
            dir,
        ) by {
            let code = catalog[k].sides.code(dir.opposite());
            assert(code <= 2);
            let m: int = if code == 0 {
                0
            } else if code == 1 {
                9
            } else {
                20
            };
            assert(catalog[m].sides.code(dir) == code);
        }
    }
    tiles
}

} // verus!
