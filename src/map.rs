use crate::tile::{resource_of_index, Resource, Tile, TileContent};
use crate::chance::{draw_below, draw_ratio, seeded};
use vstd::prelude::*;

verus! {

/// Odds that an open interior tile receives a resource at generation.
pub const RESOURCE_NUMERATOR: u32 = 3;
pub const RESOURCE_DENOMINATOR: u32 = 10;

/// The rectangular world, addressed `tiles[y][x]`.
#[derive(Debug)]
pub struct Grid {
    pub width: usize,
    pub height: usize,
    pub tiles: Vec<Vec<Tile>>,
}

/// Whether `(x, y)` lies on the outer ring of a `width` by `height` grid.
pub open spec fn is_border(width: int, height: int, x: int, y: int) -> bool {
    x == 0 || y == 0 || x == width - 1 || y == height - 1
}

/// Whether `relief` holds one flag per cell of a `width` by `height` grid.
pub open spec fn relief_fits(relief: Seq<Vec<bool>>, width: int, height: int) -> bool {
    &&& relief.len() == height
    &&& forall|y: int| 0 <= y < height ==> #[trigger] relief[y]@.len() == width
}

/// What generation may put at `(x, y)`: an obstacle on the border and where the
/// relief rises, and elsewhere nothing or a resource.
pub open spec fn generated_content(
    width: int,
    height: int,
    relief: Seq<Vec<bool>>,
    x: int,
    y: int,
    c: TileContent,
) -> bool {
    if is_border(width, height, x, y) || relief[y]@[x] {
        c == TileContent::Obstacle
    } else {
        c is Empty || c is Resource
    }
}

/// What generation puts on one tile: an obstacle where the tile is
/// `blocked`, else a resource of kind `kind` when the resource draw `hit`,
/// else nothing.
pub open spec fn cell_content(blocked: bool, hit: bool, kind: int) -> TileContent {
    if blocked {
        TileContent::Obstacle
    } else if hit {
        TileContent::Resource(resource_of_index(kind))
    } else {
        TileContent::Empty
    }
}

/// Content `c` at `(x, y)` is what [`cell_content`] gives for the draws
/// `hits[y][x]` and `kinds[y][x]`, the kind index lying in `0..3`.
pub open spec fn drawn_tile(
    width: int,
    height: int,
    relief: Seq<Vec<bool>>,
    hits: Seq<Seq<bool>>,
    kinds: Seq<Seq<int>>,
    x: int,
    y: int,
    c: TileContent,
) -> bool {
    &&& 0 <= kinds[y][x] < Resource::KINDS
    &&& c == cell_content(is_border(width, height, x, y) || relief[y]@[x], hits[y][x], kinds[y][x])
}

/// Every tile of the `width` by `height` rows `tiles` is as drawn by `hits`
/// and `kinds`; see [`drawn_tile`].
pub open spec fn drawn_grid(
    tiles: Seq<Vec<Tile>>,
    width: int,
    height: int,
    relief: Seq<Vec<bool>>,
    hits: Seq<Seq<bool>>,
    kinds: Seq<Seq<int>>,
) -> bool {
    forall|x: int, y: int|
        0 <= x < width && 0 <= y < height ==> drawn_tile(
            width,
            height,
            relief,
            hits,
            kinds,
            x,
            y,
            (#[trigger] tiles[y]@[x]).content,
        )
}

/// The content of one generated tile; see [`cell_content`].
pub fn tile_content(blocked: bool, hit: bool, kind: u32) -> (c: TileContent)
    ensures
        c == cell_content(blocked, hit, kind as int),
{
    if blocked {
        TileContent::Obstacle
    } else if hit {
        TileContent::Resource(Resource::from_index(kind))
    } else {
        TileContent::Empty
    }
}

/// A tile after an observation at time `at`: explored, and stamped with `at`
/// unless it already carries a later time.
pub open spec fn observed(t: Tile, at: u64) -> Tile {
    Tile {
        explored: true,
        timestamp: if t.explored && t.timestamp >= at { t.timestamp } else { at },
        ..t
    }
}

impl Grid {
    /// Every row exists and has `width` tiles.
    pub open spec fn wf(&self) -> bool {
        &&& self.grid().len() == self.height
        &&& forall|y: int| 0 <= y < self.height ==> #[trigger] self.grid()[y].len() == self.width
        &&& forall|y: int| 0 <= y < self.height ==> #[trigger] self.tiles@[y]@.len() == self.width
    }

    pub open spec fn in_bounds(&self, x: int, y: int) -> bool {
        0 <= x < self.width && 0 <= y < self.height
    }

    /// The tiles as rows of values.
    pub open spec fn grid(&self) -> Seq<Seq<Tile>> {
        self.tiles@.map_values(|r: Vec<Tile>| r@)
    }

    pub open spec fn tile(&self, x: int, y: int) -> Tile {
        self.grid()[y][x]
    }

    /// A cell that a robot may stand on or cross.
    pub open spec fn passable(&self, x: int, y: int) -> bool {
        self.in_bounds(x, y) && !(self.tile(x, y).content is Obstacle)
    }

    /// `self` equals `prev` but for the tile at `(x, y)`, which is `t`.
    pub open spec fn with_tile(&self, prev: &Grid, x: int, y: int, t: Tile) -> bool {
        &&& prev.wf()
        &&& self.wf()
        &&& self.width == prev.width
        &&& self.height == prev.height
        &&& self.grid() =~~= prev.grid().update(y, prev.grid()[y].update(x, t))
    }

    /// Whether every border tile is an obstacle.
    pub open spec fn walled(&self) -> bool {
        forall|x: int, y: int|
            self.in_bounds(x, y) && is_border(self.width as int, self.height as int, x, y)
                ==> (#[trigger] self.tile(x, y)).content == TileContent::Obstacle
    }
}

impl Grid {
    /// Generates a `width` by `height` world from `seed`. Border tiles and the
    /// tiles that `relief` raises are obstacles; every other tile is left empty
    /// or, with the odds above, given a resource kind drawn uniformly, as
    /// [`tile_content`] says for each tile's draws. The
    /// generator seeded with `seed` is drawn from for those tiles only, in
    /// row-major order, so the same arguments give the same world.
    pub fn new(width: usize, height: usize, seed: u64, relief: &Vec<Vec<bool>>) -> (m: Grid)
        requires
            3 <= width,
            3 <= height,
            relief_fits(relief@, width as int, height as int),
        ensures
            m.wf(),
            m.width == width,
            m.height == height,
            m.walled(),
            forall|x: int, y: int|
                m.in_bounds(x, y) ==> generated_content(
                    width as int,
                    height as int,
                    relief@,
                    x,
                    y,
                    (#[trigger] m.tile(x, y)).content,
                ) && !m.tile(x, y).explored && m.tile(x, y).timestamp == 0,
            exists|hits: Seq<Seq<bool>>, kinds: Seq<Seq<int>>|
                drawn_grid(m.tiles@, width as int, height as int, relief@, hits, kinds),
    {
        let tiles = Self::generate_tiles(width, height, seed, relief);
        Grid { width, height, tiles }
    }

    /// The tiles of [`Grid::new`], row by row.
    pub fn generate_tiles(width: usize, height: usize, seed: u64, relief: &Vec<Vec<bool>>) -> (tiles: Vec<Vec<Tile>>)
        requires
            3 <= width,
            3 <= height,
            relief_fits(relief@, width as int, height as int),
        ensures
            tiles@.len() == height,
            forall|y: int| 0 <= y < height ==> #[trigger] tiles@[y]@.len() == width,
            forall|x: int, y: int|
                0 <= x < width && 0 <= y < height ==> generated_content(
                    width as int,
                    height as int,
                    relief@,
                    x,
                    y,
                    (#[trigger] tiles@[y]@[x]).content,
                ) && !tiles@[y]@[x].explored && tiles@[y]@[x].timestamp == 0,
            exists|hits: Seq<Seq<bool>>, kinds: Seq<Seq<int>>|
                drawn_grid(tiles@, width as int, height as int, relief@, hits, kinds),
    {
        let mut rng = seeded(seed);
        let mut tiles: Vec<Vec<Tile>> = Vec::new();
        let ghost mut hits: Seq<Seq<bool>> = Seq::empty();
        let ghost mut kinds: Seq<Seq<int>> = Seq::empty();
        let mut y: usize = 0;
        while y < height
            invariant
                y <= height,
                relief_fits(relief@, width as int, height as int),
                tiles@.len() == y,
                hits.len() == y,
                kinds.len() == y,
                forall|j: int| 0 <= j < y ==> #[trigger] hits[j].len() == width && kinds[j].len() == width,
                forall|i: int, j: int|
                    0 <= i < width && 0 <= j < y ==> drawn_tile(
                        width as int,
                        height as int,
                        relief@,
                        hits,
                        kinds,
                        i,
                        j,
                        (#[trigger] tiles@[j]@[i]).content,
                    ),
                forall|j: int| 0 <= j < y ==> #[trigger] tiles@[j]@.len() == width,
                forall|i: int, j: int|
                    0 <= i < width && 0 <= j < y ==> generated_content(
                        width as int,
                        height as int,
                        relief@,
                        i,
                        j,
                        (#[trigger] tiles@[j]@[i]).content,
                    ) && !tiles@[j]@[i].explored && tiles@[j]@[i].timestamp == 0,
            decreases height - y,
        {
            let mut row: Vec<Tile> = Vec::new();
            let ghost mut row_hits: Seq<bool> = Seq::empty();
            let ghost mut row_kinds: Seq<int> = Seq::empty();
            let mut x: usize = 0;
            while x < width
                invariant
                    x <= width,
                    y < height,
                    relief_fits(relief@, width as int, height as int),
                    row@.len() == x,
                    row_hits.len() == x,
                    row_kinds.len() == x,
                    forall|i: int|
                        0 <= i < x ==> 0 <= #[trigger] row_kinds[i] < Resource::KINDS && row@[i].content == cell_content(
                            is_border(width as int, height as int, i, y as int) || relief@[y as int]@[i],
                            row_hits[i],
                            row_kinds[i],
                        ),
                    forall|i: int|
                        0 <= i < x ==> generated_content(
                            width as int,
                            height as int,
                            relief@,
                            i,
                            y as int,
                            (#[trigger] row@[i]).content,
                        ) && !row@[i].explored && row@[i].timestamp == 0,
                decreases width - x,
            {
                let blocked = y == 0 || x == 0 || y == height - 1 || x == width - 1 || relief[y][x];
                let mut hit = false;
                let mut kind: u32 = 0;
                if !blocked {
                    hit = draw_ratio(&mut rng, RESOURCE_NUMERATOR, RESOURCE_DENOMINATOR);
                    if hit {
                        kind = draw_below(&mut rng, Resource::KINDS);
                    }
                }
                let content = tile_content(blocked, hit, kind);
                row.push(Tile::new(false, content));
                proof {
                    row_hits = row_hits.push(hit);
                    row_kinds = row_kinds.push(kind as int);
                }
                x = x + 1;
            }
            let ghost before = tiles@;
            tiles.push(row);
            proof {
                hits = hits.push(row_hits);
                kinds = kinds.push(row_kinds);
                assert forall|i: int, j: int|
                    0 <= i < width && 0 <= j < y + 1 implies drawn_tile(
                        width as int,
                        height as int,
                        relief@,
                        hits,
                        kinds,
                        i,
                        j,
                        (#[trigger] tiles@[j]@[i]).content,
                    ) by {
                    if j < y {
                        assert(tiles@[j] == before[j]);
                    } else {
                        assert(row_kinds[i] == kinds[j][i]);
                    }
                }
            }
            y = y + 1;
        }
        assert(drawn_grid(tiles@, width as int, height as int, relief@, hits, kinds));
        tiles
    }

    pub fn check_bounds(&self, x: usize, y: usize) -> (r: bool)
        ensures
            r == self.in_bounds(x as int, y as int),
    {
        x < self.width && y < self.height
    }

    /// Whether `(x, y)` is inside the grid and not an obstacle.
    pub fn is_passable(&self, x: usize, y: usize) -> (r: bool)
        requires
            self.wf(),
        ensures
            r == self.passable(x as int, y as int),
    {
        if !self.check_bounds(x, y) {
            return false;
        }
        match self.tiles[y][x].content {
            TileContent::Obstacle => false,
            _ => true,
        }
    }

    /// Whether `(x, y)` is inside the grid and holds nothing.
    pub fn is_empty(&self, x: usize, y: usize) -> (r: bool)
        requires
            self.wf(),
        ensures
            r == (self.in_bounds(x as int, y as int) && self.tile(x as int, y as int).content
                == TileContent::Empty),
    {
        if !self.check_bounds(x, y) {
            return false;
        }
        match self.tiles[y][x].content {
            TileContent::Empty => true,
            _ => false,
        }
    }

    pub fn tile_at(&self, x: usize, y: usize) -> (r: Option<&Tile>)
        requires
            self.wf(),
        ensures
            r is Some <==> self.in_bounds(x as int, y as int),
            r is Some ==> *r->0 == self.tile(x as int, y as int),
    {
        if self.check_bounds(x, y) {
            Some(&self.tiles[y][x])
        } else {
            None
        }
    }

    pub fn tile_at_mut(&mut self, x: usize, y: usize) -> (r: Option<&mut Tile>)
        requires
            old(self).wf(),
        ensures
            r is Some <==> old(self).in_bounds(x as int, y as int),
            r is Some ==> *r->0 == old(self).tile(x as int, y as int),
            r is Some ==> final(self).width == old(self).width,
            r is Some ==> final(self).height == old(self).height,
            r is Some ==> final(self).tiles@ == old(self).tiles@.update(y as int, final(self).tiles@[y as int]),
            r is Some ==> final(self).tiles@[y as int]@ == old(self).tiles@[y as int]@.update(x as int, *final(r->0)),
            r is None ==> *final(self) == *old(self),
    {
        if self.check_bounds(x, y) {
            Some(&mut self.tiles[y][x])
        } else {
            None
        }
    }

    /// Takes the resource at `(x, y)`, leaving the tile empty; a tile without a
    /// resource, or a place outside the grid, gives nothing and stays as it is.
    pub fn retrieve_resource_at(&mut self, x: usize, y: usize) -> (r: Option<Resource>)
        requires
            old(self).wf(),
        ensures
            final(self).wf(),
            match (if old(self).in_bounds(x as int, y as int) {
                old(self).tile(x as int, y as int).content
            } else {
                TileContent::Empty
            }) {
                TileContent::Resource(k) => r == Some(k) && final(self).with_tile(
                    old(self),
                    x as int,
                    y as int,
                    Tile { content: TileContent::Empty, ..old(self).tile(x as int, y as int) },
                ),
                _ => r is None && *final(self) == *old(self),
            },
    {
        if self.check_bounds(x, y) {
            match self.tiles[y][x].content {
                TileContent::Resource(k) => {
                    self.tiles[y][x].content = TileContent::Empty;
                    proof {
                        let t = Tile { content: TileContent::Empty, ..old(self).tile(x as int, y as int) };
                        assert(self.grid() =~= old(self).grid().update(y as int, old(self).grid()[y as int].update(x as int, t)));
                    }
                    Some(k)
                },
                _ => None,
            }
        } else {
            None
        }
    }

    /// Records an observation of `(x, y)` at time `at`: the tile becomes
    /// explored and is stamped with `at`, unless it was already explored at a
    /// later time, which it then keeps. An unexplored tile's time carries no
    /// meaning and is replaced. Nothing happens outside the grid.
    pub fn mark_explored(&mut self, x: usize, y: usize, at: u64)
        requires
            old(self).wf(),
        ensures
            final(self).wf(),
            old(self).in_bounds(x as int, y as int) ==> final(self).with_tile(
                old(self),
                x as int,
                y as int,
                observed(old(self).tile(x as int, y as int), at),
            ),
            !old(self).in_bounds(x as int, y as int) ==> *final(self) == *old(self),
    {
        if self.check_bounds(x, y) {
            let t = self.tiles[y][x];
            let stamp = if !t.explored || t.timestamp < at { at } else { t.timestamp };
            self.tiles[y][x] = Tile { explored: true, content: t.content, timestamp: stamp };
            proof {
                let t = observed(old(self).tile(x as int, y as int), at);
                assert(self.grid() =~= old(self).grid().update(y as int, old(self).grid()[y as int].update(x as int, t)));
            }
        }
    }

    /// Overwrites the content of the tile at `(x, y)` with `resource`; does
    /// nothing outside the grid.
    pub fn throw_resource_at(&mut self, x: usize, y: usize, resource: Resource)
        requires
            old(self).wf(),
        ensures
            final(self).wf(),
            old(self).in_bounds(x as int, y as int) ==> final(self).with_tile(
                old(self),
                x as int,
                y as int,
                Tile { content: TileContent::Resource(resource), ..old(self).tile(x as int, y as int) },
            ),
            !old(self).in_bounds(x as int, y as int) ==> *final(self) == *old(self),
    {
        if self.check_bounds(x, y) {
            self.tiles[y][x].content = TileContent::Resource(resource);
            proof {
                let t = Tile { content: TileContent::Resource(resource), ..old(self).tile(x as int, y as int) };
                assert(self.grid() =~= old(self).grid().update(y as int, old(self).grid()[y as int].update(x as int, t)));
            }
        }
    }
}

/// The passable cells of row `y` left of column `x`, left to right.
pub open spec fn open_row(g: &Grid, y: int, x: int) -> Seq<(usize, usize)>
    decreases x,
{
    if x <= 0 {
        Seq::empty()
    } else if g.passable(x - 1, y) {
        open_row(g, y, x - 1).push(((x - 1) as usize, y as usize))
    } else {
        open_row(g, y, x - 1)
    }
}

/// The passable cells of the rows above row `y`, in row-major order.
pub open spec fn open_rows(g: &Grid, y: int) -> Seq<(usize, usize)>
    decreases y,
{
    if y <= 0 {
        Seq::empty()
    } else {
        open_rows(g, y - 1) + open_row(g, y - 1, g.width as int)
    }
}

proof fn lemma_open_row_members(g: &Grid, y: int, x: int)
    requires
        0 <= y < g.height,
        0 <= x <= g.width,
    ensures
        forall|k: int|
            0 <= k < open_row(g, y, x).len() ==> g.passable(
                (#[trigger] open_row(g, y, x)[k]).0 as int,
                open_row(g, y, x)[k].1 as int,
            ),
        forall|c: (usize, usize)|
            c.1 == y && c.0 < x && g.passable(c.0 as int, c.1 as int) ==> open_row(g, y, x).contains(c),
    decreases x,
{
    if x > 0 {
        lemma_open_row_members(g, y, x - 1);
        let p = open_row(g, y, x - 1);
        assert forall|c: (usize, usize)|
            c.1 == y && c.0 < x && g.passable(c.0 as int, c.1 as int) implies open_row(g, y, x).contains(c) by {
            if c.0 < x - 1 {
                assert(p.contains(c));
                let k = choose|k: int| 0 <= k < p.len() && p[k] == c;
                if g.passable(x - 1, y) {
                    assert(open_row(g, y, x)[k] == c);
                }
            } else {
                assert(c == ((x - 1) as usize, y as usize));
                assert(open_row(g, y, x)[p.len() as int] == c);
            }
        }
        assert forall|k: int| 0 <= k < open_row(g, y, x).len() implies g.passable(
            (#[trigger] open_row(g, y, x)[k]).0 as int,
            open_row(g, y, x)[k].1 as int,
        ) by {
            if k < p.len() {
                assert(open_row(g, y, x)[k] == p[k]);
            }
        }
    }
}

proof fn lemma_open_rows_members(g: &Grid, y: int)
    requires
        0 <= y <= g.height,
    ensures
        forall|k: int|
            0 <= k < open_rows(g, y).len() ==> g.passable(
                (#[trigger] open_rows(g, y)[k]).0 as int,
                open_rows(g, y)[k].1 as int,
            ),
        forall|c: (usize, usize)| c.1 < y && g.passable(c.0 as int, c.1 as int) ==> open_rows(g, y).contains(c),
    decreases y,
{
    if y > 0 {
        lemma_open_rows_members(g, y - 1);
        lemma_open_row_members(g, y - 1, g.width as int);
        let a = open_rows(g, y - 1);
        let b = open_row(g, y - 1, g.width as int);
        assert forall|c: (usize, usize)| c.1 < y && g.passable(c.0 as int, c.1 as int) implies open_rows(
            g,
            y,
        ).contains(c) by {
            if c.1 < y - 1 {
                assert(a.contains(c));
                let k = choose|k: int| 0 <= k < a.len() && a[k] == c;
                assert(open_rows(g, y)[k] == c);
            } else {
                assert(b.contains(c));
                let k = choose|k: int| 0 <= k < b.len() && b[k] == c;
                assert(open_rows(g, y)[a.len() + k] == c);
            }
        }
        assert forall|k: int| 0 <= k < open_rows(g, y).len() implies g.passable(
            (#[trigger] open_rows(g, y)[k]).0 as int,
            open_rows(g, y)[k].1 as int,
        ) by {
            if k < a.len() {
                assert(open_rows(g, y)[k] == a[k]);
            } else {
                assert(open_rows(g, y)[k] == b[k - a.len()]);
            }
        }
    }
}

impl Grid {
    /// The passable cells in row-major order.
    pub fn open_cells(&self) -> (r: Vec<(usize, usize)>)
        requires
            self.wf(),
        ensures
            r@ == open_rows(self, self.height as int),
            forall|k: int| 0 <= k < r@.len() ==> self.passable((#[trigger] r@[k]).0 as int, r@[k].1 as int),
            forall|c: (usize, usize)| self.passable(c.0 as int, c.1 as int) ==> r@.contains(c),
    {
        let mut r: Vec<(usize, usize)> = Vec::new();
        let mut y: usize = 0;
        while y < self.height
            invariant
                self.wf(),
                y <= self.height,
                r@ == open_rows(self, y as int),
            decreases self.height - y,
        {
            let mut x: usize = 0;
            while x < self.width
                invariant
                    self.wf(),
                    y < self.height,
                    x <= self.width,
                    r@ == open_rows(self, y as int) + open_row(self, y as int, x as int),
                decreases self.width - x,
            {
                if self.is_passable(x, y) {
                    r.push((x, y));
                }
                proof {
                    assert(r@ =~= open_rows(self, y as int) + open_row(self, y as int, x + 1));
                }
                x = x + 1;
            }
            y = y + 1;
        }
        proof {
            lemma_open_rows_members(self, self.height as int);
        }
        r
    }

    /// The passable cell with index `i` in row-major order, if there is one.
    pub fn nth_open_cell(&self, i: usize) -> (r: Option<(usize, usize)>)
        requires
            self.wf(),
        ensures
            i < open_rows(self, self.height as int).len() ==> r == Some(
                open_rows(self, self.height as int)[i as int],
            ),
            i >= open_rows(self, self.height as int).len() ==> r is None,
    {
        let cells = self.open_cells();
        if i < cells.len() {
            Some(cells[i])
        } else {
            None
        }
    }
}

} // verus!
