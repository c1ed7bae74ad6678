//! Tiles, their connector codes, and the candidate set of a single cell.

use vstd::prelude::*;

verus! {

/// Glyph of a cell that has not been collapsed yet.
pub const UNDETERMINED: char = '-';

/// Entropy of a cell on which no neighbour puts a constraint.
pub const UNCONSTRAINED: usize = 13;

/// Entropy of a cell whose constraints leave no tile.
pub const EXHAUSTED: usize = 99;

/// One of the four edges of a cell.
#[derive(Clone, Copy, Debug, PartialEq, Eq, Structural)]
pub enum Direction {
    Up,
    Right,
    Down,
    Left,
}

impl Direction {
    /// The edge that faces this one across a shared border.
    pub open spec fn spec_opposite(self) -> Direction {
        match self {
            Direction::Up => Direction::Down,
            Direction::Right => Direction::Left,
            Direction::Down => Direction::Up,
            Direction::Left => Direction::Right,
        }
    }

    #[verifier::when_used_as_spec(spec_opposite)]
    pub fn opposite(self) -> (r: Direction)
        ensures
            r == self.spec_opposite(),
    {
        match self {
            Direction::Up => Direction::Down,
            Direction::Right => Direction::Left,
            Direction::Down => Direction::Up,
            Direction::Left => Direction::Right,
        }
    }

    /// Row of the cell that lies next to row `i` in this direction.
    pub open spec fn row(self, i: int) -> int {
        match self {
            Direction::Up => i - 1,
            Direction::Down => i + 1,
            _ => i,
        }
    }

    /// Column of the cell that lies next to column `j` in this direction.
    pub open spec fn col(self, j: int) -> int {
        match self {
            Direction::Left => j - 1,
            Direction::Right => j + 1,
            _ => j,
        }
    }
}

/// The connector codes on the four edges of a tile.
#[derive(Clone, Copy, Debug, PartialEq, Eq, Structural)]
pub struct Sides {
    pub up: u8,
    pub right: u8,
    pub down: u8,
    pub left: u8,
}

impl Sides {
    /// The connector code on the edge `dir`.
    pub open spec fn spec_code(self, dir: Direction) -> u8 {
        match dir {
            Direction::Up => self.up,
            Direction::Right => self.right,
            Direction::Down => self.down,
            Direction::Left => self.left,
        }
    }

    #[verifier::when_used_as_spec(spec_code)]
    pub fn code(self, dir: Direction) -> (c: u8)
        ensures
            c == self.spec_code(dir),
    {
        match dir {
            Direction::Up => self.up,
            Direction::Right => self.right,
            Direction::Down => self.down,
            Direction::Left => self.left,
        }
    }
}

/// A glyph together with its connector codes: what a catalog entry
/// contributes to the board.
#[derive(Clone, Copy, Debug, PartialEq, Eq, Structural)]
pub struct Shape {
    pub tile: char,
    pub sides: Sides,
}

/// The glyphs that each neighbour leaves open to a cell, one set per
/// direction. A set is kept as a vector of its glyphs; what counts is which
/// glyphs the vector holds, not where or how often.
#[derive(Clone, Debug)]
pub struct Possibilities {
    pub up: Vec<char>,
    pub right: Vec<char>,
    pub down: Vec<char>,
    pub left: Vec<char>,
}

/// The four possibility sets as mathematical sets.
#[verifier::ext_equal]
pub struct PossibilitiesView {
    pub up: Set<char>,
    pub right: Set<char>,
    pub down: Set<char>,
    pub left: Set<char>,
}

/// A set without elements.
pub open spec fn vacant(s: Set<char>) -> bool {
    forall|g: char| !s.contains(g)
}

impl PossibilitiesView {
    /// Four empty sets.
    pub open spec fn none() -> PossibilitiesView {
        PossibilitiesView {
            up: Set::empty(),
            right: Set::empty(),
            down: Set::empty(),
            left: Set::empty(),
        }
    }

    /// No direction holds a glyph, so nothing constrains the cell.
    pub open spec fn unconstrained(self) -> bool {
        vacant(self.up) && vacant(self.right) && vacant(self.down) && vacant(self.left)
    }

    /// `g` lies in every direction set that is not empty.
    pub open spec fn admits(self, g: char) -> bool {
        &&& vacant(self.up) || self.up.contains(g)
        &&& vacant(self.right) || self.right.contains(g)
        &&& vacant(self.down) || self.down.contains(g)
        &&& vacant(self.left) || self.left.contains(g)
    }
}

impl View for Possibilities {
    type V = PossibilitiesView;

    open spec fn view(&self) -> PossibilitiesView {
        PossibilitiesView {
            up: self.up@.to_set(),
            right: self.right@.to_set(),
            down: self.down@.to_set(),
            left: self.left@.to_set(),
        }
    }
}

/// A cell of the board, or an entry of the catalog.
///
/// An entry of the catalog carries a glyph and its connector codes; the other
/// fields are the working state of a cell and are idle in the catalog.
#[derive(Clone, Debug)]
pub struct Tile {
    /// The glyph, or `UNDETERMINED` while the cell is not collapsed.
    pub tile: char,
    pub sides: Sides,
    /// Priority by which the next cell to collapse is chosen.
    pub entropy: usize,
    pub possibilities: Possibilities,
    /// The catalog entries that the cell may still become.
    pub allowed: Vec<Shape>,
    /// Whether the cell belongs to the frontier.
    pub active: bool,
}

/// What a `Tile` stands for in contracts.
#[verifier::ext_equal]
pub struct TileView {
    pub tile: char,
    pub sides: Sides,
    pub entropy: usize,
    pub possibilities: PossibilitiesView,
    pub allowed: Seq<Shape>,
    pub active: bool,
}

impl TileView {
    /// The cell has been collapsed.
    pub open spec fn resolved(self) -> bool {
        self.tile != UNDETERMINED
    }

    /// The cell is on the frontier: active and not yet collapsed.
    pub open spec fn on_frontier(self) -> bool {
        self.active && !self.resolved()
    }

    pub open spec fn shape(self) -> Shape {
        Shape { tile: self.tile, sides: self.sides }
    }

    /// A tile as `Tile::new` makes it.
    pub open spec fn fresh(tile: char, sides: Sides) -> TileView {
        TileView {
            tile,
            sides,
            entropy: UNCONSTRAINED,
            possibilities: PossibilitiesView::none(),
            allowed: Seq::empty(),
            active: false,
        }
    }
}

impl View for Tile {
    type V = TileView;

    open spec fn view(&self) -> TileView {
        TileView {
            tile: self.tile,
            sides: self.sides,
            entropy: self.entropy,
            possibilities: self.possibilities@,
            allowed: self.allowed@,
            active: self.active,
        }
    }
}

/// The catalog that a slice of tiles stands for: the shape of each entry.
pub open spec fn catalog_of(tiles: Seq<Tile>) -> Seq<Shape> {
    Seq::new(tiles.len(), |k: int| tiles[k]@.shape())
}

/// Entry `k` is the first of the catalog with its glyph.
pub open spec fn is_first(catalog: Seq<Shape>, k: int) -> bool {
    forall|j: int| 0 <= j < k ==> catalog[j].tile != catalog[k].tile
}

/// Entry `k` is the entry that the glyph `g` stands for.
pub open spec fn names(catalog: Seq<Shape>, g: char, k: int) -> bool {
    0 <= k < catalog.len() && catalog[k].tile == g && is_first(catalog, k)
}

/// The entries among the first `n` of the catalog that `p` admits, in
/// catalog order, each glyph once.
pub open spec fn admitted_upto(catalog: Seq<Shape>, p: PossibilitiesView, n: int) -> Seq<Shape>
    decreases n,
{
    if n <= 0 {
        Seq::empty()
    } else {
        let before = admitted_upto(catalog, p, n - 1);
        if p.admits(catalog[n - 1].tile) && is_first(catalog, n - 1) {
            before.push(catalog[n - 1])
        } else {
            before
        }
    }
}

/// The candidate tiles of a cell with the possibility sets `p`: none while
/// nothing constrains the cell, else the entries that every non-empty set
/// holds.
pub open spec fn allowed_tiles(catalog: Seq<Shape>, p: PossibilitiesView) -> Seq<Shape> {
    if p.unconstrained() {
        Seq::empty()
    } else {
        admitted_upto(catalog, p, catalog.len() as int)
    }
}

/// The entropy of a cell with the possibility sets `p`.
pub open spec fn entropy_of(catalog: Seq<Shape>, p: PossibilitiesView) -> usize {
    if p.unconstrained() {
        UNCONSTRAINED
    } else if allowed_tiles(catalog, p).len() == 0 {
        EXHAUSTED
    } else {
        allowed_tiles(catalog, p).len() as usize
    }
}

/// The cell `t` after its candidates and entropy were derived anew from its
/// possibility sets.
pub open spec fn reassessed(t: TileView, catalog: Seq<Shape>) -> TileView {
    TileView {
        allowed: allowed_tiles(catalog, t.possibilities),
        entropy: entropy_of(catalog, t.possibilities),
        ..t
    }
}

/// The admitted entries are never more than those looked at.
pub proof fn lemma_admitted_len(catalog: Seq<Shape>, p: PossibilitiesView, n: int)
    requires
        0 <= n <= catalog.len(),
    ensures
        admitted_upto(catalog, p, n).len() <= n,
    decreases n,
{
    if n > 0 {
        lemma_admitted_len(catalog, p, n - 1);
    }
}

/// Each admitted entry is a first entry of the catalog that `p` admits, and
/// each such entry among the first `n` is admitted.
pub proof fn lemma_admitted_members(catalog: Seq<Shape>, p: PossibilitiesView, n: int)
    requires
        0 <= n <= catalog.len(),
    ensures
        forall|m: int|
            0 <= m < admitted_upto(catalog, p, n).len() ==> exists|k: int|
                0 <= k < n && #[trigger] admitted_upto(catalog, p, n)[m] == catalog[k]
                    && is_first(catalog, k) && p.admits(catalog[k].tile),
        forall|k: int|
            0 <= k < n && is_first(catalog, k) && p.admits(catalog[k].tile)
                ==> admitted_upto(catalog, p, n).contains(#[trigger] catalog[k]),
    decreases n,
{
    if n > 0 {
        lemma_admitted_members(catalog, p, n - 1);
        let before = admitted_upto(catalog, p, n - 1);
        let now = admitted_upto(catalog, p, n);
        assert forall|m: int| 0 <= m < now.len() implies exists|k: int|
            0 <= k < n && #[trigger] now[m] == catalog[k] && is_first(catalog, k) && p.admits(
                catalog[k].tile,
            ) by {
            if m < before.len() {
                let k = choose|k: int|
                    0 <= k < n - 1 && before[m] == catalog[k] && is_first(catalog, k) && p.admits(
                        catalog[k].tile,
                    );
                assert(now[m] == catalog[k]);
            } else {
                assert(now[m] == catalog[n - 1]);
            }
        }
        assert forall|k: int|
            0 <= k < n && is_first(catalog, k) && p.admits(
                catalog[k].tile,
            ) implies now.contains(#[trigger] catalog[k]) by {
            if k < n - 1 {
                let m = choose|m: int| 0 <= m < before.len() && before[m] == catalog[k];
                assert(now[m] == catalog[k]);
            } else {
                assert(now[now.len() - 1] == catalog[k]);
            }
        }
    }
}

/// Whether the glyph `g` lies in the set.
pub fn has_glyph(set: &Vec<char>, g: char) -> (found: bool)
    ensures
        found == set@.contains(g),
{
    let mut k: usize = 0;
    while k < set.len()
        invariant
            k <= set@.len(),
            forall|j: int| 0 <= j < k ==> set@[j] != g,
        decreases set@.len() - k,
    {
        if set[k] == g {
            return true;
        }
        k += 1;
    }
    false
}

/// Adds the glyph `g` to the set, unless the set holds it already.
pub fn insert_glyph(set: &mut Vec<char>, g: char)
    ensures
        final(set)@ == if old(set)@.contains(g) {
            old(set)@
        } else {
            old(set)@.push(g)
        },
        final(set)@.to_set() == old(set)@.to_set().insert(g),
{
    if !has_glyph(set, g) {
        set.push(g);
        assert forall|c: char| #[trigger] set@.contains(c) <==> old(set)@.contains(c) || c == g by {
            if old(set)@.contains(c) {
                let j = choose|j: int| 0 <= j < old(set)@.len() && old(set)@[j] == c;
                assert(set@[j] == c);
            }
            if c == g {
                assert(set@[set@.len() - 1] == g);
            }
        }
    }
    assert(set@.to_set() =~= old(set)@.to_set().insert(g));
}

/// A set kept as a vector is without elements exactly when the vector is
/// empty.
pub proof fn lemma_vacant(s: Seq<char>)
    ensures
        vacant(s.to_set()) <==> s.len() == 0,
{
    if s.len() > 0 {
        assert(s.contains(s[0]));
        assert(s.to_set().contains(s[0]));
    }
}

impl Possibilities {
    /// Whether all four sets are empty.
    pub fn unconstrained(&self) -> (r: bool)
        ensures
            r == self@.unconstrained(),
    {
        proof {
            lemma_vacant(self.up@);
            lemma_vacant(self.right@);
            lemma_vacant(self.down@);
            lemma_vacant(self.left@);
        }
        self.up.len() == 0 && self.right.len() == 0 && self.down.len() == 0 && self.left.len()
            == 0
    }

    /// Whether every set that is not empty holds the glyph `g`.
    pub fn admits(&self, g: char) -> (r: bool)
        ensures
            r == self@.admits(g),
    {
        proof {
            lemma_vacant(self.up@);
            lemma_vacant(self.right@);
            lemma_vacant(self.down@);
            lemma_vacant(self.left@);
        }
        (self.up.len() == 0 || has_glyph(&self.up, g)) && (self.right.len() == 0 || has_glyph(
            &self.right,
            g,
        )) && (self.down.len() == 0 || has_glyph(&self.down, g)) && (self.left.len() == 0
            || has_glyph(&self.left, g))
    }

    /// The entries of `tiles` that these sets admit, in the order of `tiles`,
    /// each glyph once.
    pub fn admitted(&self, tiles: &[Tile]) -> (found: Vec<Shape>)
        ensures
            found@ == admitted_upto(catalog_of(tiles@), self@, tiles@.len() as int),
            found@.len() <= tiles@.len(),
    {
        let ghost catalog = catalog_of(tiles@);
        let mut found: Vec<Shape> = Vec::new();
        let mut k: usize = 0;
        while k < tiles.len()
            invariant
                k <= tiles@.len(),
                catalog == catalog_of(tiles@),
                found@ == admitted_upto(catalog, self@, k as int),
            decreases tiles@.len() - k,
        {
            if self.admits(tiles[k].tile) && !occurs_before(tiles, k) {
                found.push(tiles[k].shape());
            }
            k += 1;
        }
        proof {
            lemma_admitted_len(catalog, self@, tiles@.len() as int);
        }
        found
    }
}

/// Whether an entry before `k` has the glyph of entry `k`.
pub fn occurs_before(tiles: &[Tile], k: usize) -> (r: bool)
    requires
        k < tiles@.len(),
    ensures
        r == !is_first(catalog_of(tiles@), k as int),
{
    let mut j: usize = 0;
    while j < k
        invariant
            j <= k < tiles@.len(),
            forall|i: int| 0 <= i < j ==> catalog_of(tiles@)[i].tile != catalog_of(tiles@)[k as int].tile,
        decreases k - j,
    {
        if tiles[j].tile == tiles[k].tile {
            assert(catalog_of(tiles@)[j as int].tile == catalog_of(tiles@)[k as int].tile);
            return true;
        }
        j += 1;
    }
    false
}

impl Tile {
    /// A tile with the glyph `tile` and the connector codes `sides`, given as
    /// (up, right, down, left). It is inactive, has no candidates, and its
    /// entropy is `UNCONSTRAINED`.
    pub fn new(tile: char, sides: (u8, u8, u8, u8)) -> (t: Tile)
        ensures
            t@ == TileView::fresh(
                tile,
                Sides { up: sides.0, right: sides.1, down: sides.2, left: sides.3 },
            ),
    {
        Tile {
            tile,
            sides: Sides { up: sides.0, right: sides.1, down: sides.2, left: sides.3 },
            entropy: UNCONSTRAINED,
            possibilities: Tile::init_possibilities(),
            allowed: Vec::new(),
            active: false,
        }
    }

    /// Four empty possibility sets.
    pub fn init_possibilities() -> (p: Possibilities)
        ensures
            p.up@.len() == 0,
            p.right@.len() == 0,
            p.down@.len() == 0,
            p.left@.len() == 0,
            p@ == PossibilitiesView::none(),
    {
        let p = Possibilities {
            up: Vec::new(),
            right: Vec::new(),
            down: Vec::new(),
            left: Vec::new(),
        };
        assert(p@ =~= PossibilitiesView::none());
        p
    }

    /// Derives the candidates and the entropy of this cell from its
    /// possibility sets. Nothing else changes.
    ///
    /// With four empty sets the cell has no candidates and the entropy
    /// `UNCONSTRAINED`. Otherwise the candidates are the entries of `tiles`
    /// whose glyph lies in every set that is not empty, and the entropy is
    /// their number, or `EXHAUSTED` where there is none.
    pub fn update_entropy(&mut self, tiles: &[Tile])
        ensures
            final(self)@ == reassessed(old(self)@, catalog_of(tiles@)),
            final(self)@.allowed.len() <= tiles@.len(),
    {
        if self.possibilities.unconstrained() {
            self.allowed = Vec::new();
            self.entropy = UNCONSTRAINED;
        } else {
            let found = self.possibilities.admitted(tiles);
            self.entropy = if found.len() == 0 {
                EXHAUSTED
            } else {
                found.len()
            };
            self.allowed = found;
        }
    }

    /// The glyph and connector codes of this tile.
    pub fn shape(&self) -> (s: Shape)
        ensures
            s == self@.shape(),
    {
        Shape { tile: self.tile, sides: self.sides }
    }

    /// The first tile of `tiles` with the glyph `tile_char`, if there is one.
    pub fn get_tile_from_char(tiles: &[Tile], tile_char: char) -> (found: Option<&Tile>)
        ensures
            match found {
                Some(t) => exists|k: int|
                    names(catalog_of(tiles@), tile_char, k) && *t == tiles@[k],
                None => forall|k: int| 0 <= k < tiles@.len() ==> tiles@[k].tile != tile_char,
            },
    {
        let mut k: usize = 0;
        while k < tiles.len()
            invariant
                k <= tiles@.len(),
                forall|j: int| 0 <= j < k ==> tiles@[j].tile != tile_char,
            decreases tiles@.len() - k,
        {
            if tiles[k].tile == tile_char {
                assert(names(catalog_of(tiles@), tile_char, k as int));
                return Some(&tiles[k]);
            }
            k += 1;
        }
        None
    }
}

} // verus!
