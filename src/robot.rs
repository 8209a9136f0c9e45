use crate::chance::random_below;
use crate::map::{observed, open_rows, Grid};
use crate::path::{adjacent, move_using_bfs};
use crate::tile::{Resource, Tile, TileContent};
use vstd::prelude::*;

verus! {

/// Energy a robot holds after a recharge at the station.
pub const RECHARGE: u32 = 80;

/// What a robot is equipped with; only `Mining` extracts resources.
#[derive(Clone, Copy, Debug, PartialEq, Eq, Structural)]
pub enum Module {
    Analysis,
    Mining,
    Imaging,
}

/// The fixed strategy a robot follows on each turn.
#[derive(Clone, Copy, Debug, PartialEq, Eq, Structural)]
pub enum Behavior {
    Exploration,
    ResourceCollection,
    ScientificInterest,
}

#[derive(Debug)]
pub struct Robot {
    pub id: usize,
    /// Column and row of the robot.
    pub position: (usize, usize),
    pub energy: u32,
    pub module: Module,
    pub behavior: Behavior,
    /// Cells this robot has recorded, each once, in the order recorded.
    pub known_tiles: Vec<(usize, usize)>,
}

/// `v` clamped into `0..=hi`.
pub open spec fn clamp(v: int, hi: int) -> int {
    if v < 0 {
        0
    } else if v > hi {
        hi
    } else {
        v
    }
}

/// The cell one step from `pos` in direction `d` (down, right, up, left for
/// `d` = 0, 1, 2 and anything else), both coordinates clamped into the grid.
pub open spec fn clamped_step(g: &Grid, pos: (usize, usize), d: int) -> (usize, usize) {
    let dx: int = if d == 1 { 1 } else if d == 0 || d == 2 { 0 } else { -1 };
    let dy: int = if d == 0 { 1 } else if d == 2 { -1 } else { 0 };
    (
        clamp(pos.0 + dx, g.width - 1) as usize,
        clamp(pos.1 + dy, g.height - 1) as usize,
    )
}

/// Where a random step lands: the first direction of `order` whose clamped
/// step is not an obstacle, or `pos` itself when none is.
pub open spec fn wander(g: &Grid, pos: (usize, usize), order: Seq<usize>) -> (usize, usize)
    decreases order.len(),
{
    if order.len() == 0 {
        pos
    } else if g.open_cell(clamped_step(g, pos, order[0] as int)) {
        clamped_step(g, pos, order[0] as int)
    } else {
        wander(g, pos, order.drop_first())
    }
}

/// `next` is where one move from `pos` toward `goal` may lead: the second cell
/// of a shortest route when one exists (staying put at the goal), else a
/// random step.
pub open spec fn stepped_towards(
    g: &Grid,
    pos: (usize, usize),
    goal: (usize, usize),
    order: Seq<usize>,
    next: (usize, usize),
) -> bool {
    if g.reachable(pos, goal) {
        &&& pos == goal ==> next == pos
        &&& pos != goal ==> adjacent(pos, next) && g.open_cell(next) && exists|r: Seq<(usize, usize)>|
            g.is_route(r, next, goal) && forall|q: Seq<(usize, usize)>|
                #[trigger] g.is_route(q, pos, goal) ==> r.len() + 1 <= q.len()
    } else {
        next == wander(g, pos, order)
    }
}

/// `order` tries the four directions in cyclic order from a chosen one.
pub open spec fn is_rotation(order: Seq<usize>) -> bool {
    &&& order.len() == 4
    &&& order[0] < 4
    &&& forall|i: int| 0 < i < 4 ==> #[trigger] order[i] == (order[0] + i) % 4
}

/// Whether `c` comes before `d` in row-major order.
pub open spec fn before(c: (usize, usize), d: (usize, usize)) -> bool {
    c.1 < d.1 || (c.1 == d.1 && c.0 < d.0)
}

pub open spec fn is_poi(g: &Grid, c: (usize, usize)) -> bool {
    g.has_cell(c) && g.tile(c.0 as int, c.1 as int).content == TileContent::Resource(
        Resource::PlaceOfInterest,
    )
}

/// `known` with `c` appended unless already there.
pub open spec fn remember(known: Seq<(usize, usize)>, c: (usize, usize)) -> Seq<(usize, usize)> {
    if known.contains(c) {
        known
    } else {
        known.push(c)
    }
}

/// `after` is `g` once the tile at `(x, y)` was observed at time `at`.
pub open spec fn explored_at(g: &Grid, after: &Grid, x: int, y: int, at: u64) -> bool {
    &&& after.wf()
    &&& g.in_bounds(x, y) ==> after.with_tile(g, x, y, observed(g.tile(x, y), at))
    &&& !g.in_bounds(x, y) ==> *after == *g
}

/// `after` is `g` once any resource at `(x, y)` was taken.
pub open spec fn mined_at(g: &Grid, after: &Grid, x: int, y: int) -> bool {
    &&& after.wf()
    &&& if g.in_bounds(x, y) && g.tile(x, y).content is Resource {
        after.with_tile(g, x, y, Tile { content: TileContent::Empty, ..g.tile(x, y) })
    } else {
        *after == *g
    }
}

/// `c` is the first place of interest of `g` in row-major order.
pub open spec fn first_poi(g: &Grid, c: (usize, usize)) -> bool {
    &&& is_poi(g, c)
    &&& forall|d: (usize, usize)| before(d, c) ==> !is_poi(g, d)
}

/// `c` holds a resource that is not among `known`.
pub open spec fn unknown_resource(g: &Grid, known: Seq<(usize, usize)>, c: (usize, usize)) -> bool {
    &&& g.has_cell(c)
    &&& g.tile(c.0 as int, c.1 as int).content is Resource
    &&& !known.contains(c)
}

/// Where an investigating robot at `pos` heads: the first place of interest,
/// or `pos` when the grid has none.
pub open spec fn poi_target(g: &Grid, pos: (usize, usize)) -> (usize, usize) {
    if exists|c: (usize, usize)| is_poi(g, c) {
        choose|c: (usize, usize)| first_poi(g, c)
    } else {
        pos
    }
}

/// The cells a robot records after exploring `c`.
pub open spec fn known_after_explore(g: &Grid, known: Seq<(usize, usize)>, c: (usize, usize)) -> Seq<(usize, usize)> {
    if g.has_cell(c) {
        remember(known, c)
    } else {
        known
    }
}

/// One turn of robot `r0` on grid `m0` ends as `r1` on `m1`, given the time
/// `at`, the exploration goal `goal` and the direction order `order` of any
/// random step. Without energy the robot only heads for `station` and is
/// recharged on arrival; otherwise it follows its behavior and spends one unit.
pub open spec fn acted(
    r0: &Robot,
    r1: &Robot,
    m0: &Grid,
    m1: &Grid,
    station: (usize, usize),
    at: u64,
    goal: (usize, usize),
    order: Seq<usize>,
) -> bool {
    &&& r1.id == r0.id
    &&& r1.module == r0.module
    &&& r1.behavior == r0.behavior
    &&& if r0.energy == 0 {
        &&& stepped_towards(m0, r0.position, station, order, r1.position)
        &&& r1.energy == (if r1.position == station { RECHARGE } else { 0 })
        &&& *m1 == *m0
        &&& r1.known_tiles@ == r0.known_tiles@
    } else {
        &&& r1.energy == r0.energy - 1
        &&& match r0.behavior {
            Behavior::Exploration => {
                &&& stepped_towards(m0, r0.position, goal, order, r1.position)
                &&& explored_at(m0, m1, r1.position.0 as int, r1.position.1 as int, at)
                &&& r1.known_tiles@ == known_after_explore(m0, r0.known_tiles@, r1.position)
            },
            Behavior::ResourceCollection => {
                &&& if !r0.known_tiles@.contains(r0.position) && r0.module == Module::Mining {
                    mined_at(m0, m1, r0.position.0 as int, r0.position.1 as int)
                } else {
                    *m1 == *m0
                }
                &&& r1.position == wander(m1, r0.position, order)
                &&& r1.known_tiles@ == r0.known_tiles@
            },
            Behavior::ScientificInterest => {
                &&& stepped_towards(m0, r0.position, poi_target(m0, r0.position), order, r1.position)
                &&& *m1 == *m0
                &&& r1.known_tiles@ == r0.known_tiles@
            },
        }
    }
}

proof fn lemma_first_poi_unique(g: &Grid, c: (usize, usize), d: (usize, usize))
    requires
        first_poi(g, c),
        first_poi(g, d),
    ensures
        c == d,
{
    if c != d {
        assert(before(c, d) || before(d, c));
    }
}

/// `v + delta` clamped into `0..=hi`, for `delta` in -1, 0, 1.
fn clamp_move(v: usize, delta: i8, hi: usize) -> (r: usize)
    requires
        -1 <= delta <= 1,
    ensures
        r == clamp(v + delta, hi as int),
{
    if delta > 0 {
        if v >= hi { hi } else { v + 1 }
    } else if delta < 0 {
        if v == 0 { 0 } else if v - 1 > hi { hi } else { v - 1 }
    } else {
        if v > hi { hi } else { v }
    }
}

/// The clamped step of `pos` in direction `d`.
fn clamped_step_of(g: &Grid, pos: (usize, usize), d: usize) -> (r: (usize, usize))
    requires
        0 < g.width,
        0 < g.height,
    ensures
        r == clamped_step(g, pos, d as int),
{
    let dx: i8 = if d == 1 { 1 } else if d == 0 || d == 2 { 0 } else { -1 };
    let dy: i8 = if d == 0 { 1 } else if d == 2 { -1 } else { 0 };
    (clamp_move(pos.0, dx, g.width - 1), clamp_move(pos.1, dy, g.height - 1))
}

/// The four directions in cyclic order from a random one.
fn random_order() -> (r: Vec<usize>)
    ensures
        is_rotation(r@),
{
    let s = random_below(4);
    let mut r: Vec<usize> = Vec::new();
    let mut i: usize = 0;
    while i < 4
        invariant
            s < 4,
            i <= 4,
            r@.len() == i,
            forall|j: int| 0 <= j < i ==> #[trigger] r@[j] == (s + j) % 4,
        decreases 4 - i,
    {
        r.push((s + i) % 4);
        i = i + 1;
    }
    r
}

impl Robot {
    pub fn new(id: usize, position: (usize, usize), energy: u32, module: Module, behavior: Behavior) -> (r: Robot)
        ensures
            r.id == id,
            r.position == position,
            r.energy == energy,
            r.module == module,
            r.behavior == behavior,
            r.known_tiles@.len() == 0,
    {
        Robot { id, position, energy, module, behavior, known_tiles: Vec::new() }
    }

    /// Whether this robot has recorded `c`.
    pub fn knows(&self, c: (usize, usize)) -> (r: bool)
        ensures
            r == self.known_tiles@.contains(c),
    {
        let mut i: usize = 0;
        while i < self.known_tiles.len()
            invariant
                i <= self.known_tiles@.len(),
                forall|j: int| 0 <= j < i ==> self.known_tiles@[j] != c,
            decreases self.known_tiles@.len() - i,
        {
            let k = self.known_tiles[i];
            if k.0 == c.0 && k.1 == c.1 {
                assert(self.known_tiles@[i as int] == c);
                return true;
            }
            i = i + 1;
        }
        false
    }

    /// Records `(x, y)` as known, once.
    pub fn mark_tile_as_known(&mut self, x: usize, y: usize)
        ensures
            final(self).known_tiles@ == remember(old(self).known_tiles@, (x, y)),
            final(self).id == old(self).id,
            final(self).position == old(self).position,
            final(self).energy == old(self).energy,
            final(self).module == old(self).module,
            final(self).behavior == old(self).behavior,
    {
        if !self.knows((x, y)) {
            self.known_tiles.push((x, y));
        }
    }

    /// Takes the first direction of `order` whose clamped step is not an
    /// obstacle; stays put when there is none.
    pub fn move_randomly(&mut self, map: &Grid, order: &Vec<usize>)
        requires
            map.wf(),
            0 < map.width,
            0 < map.height,
        ensures
            final(self).position == wander(map, old(self).position, order@),
            final(self).known_tiles@ == old(self).known_tiles@,
            final(self).id == old(self).id,
            final(self).energy == old(self).energy,
            final(self).module == old(self).module,
            final(self).behavior == old(self).behavior,
    {
        let pos = self.position;
        let mut next = pos;
        let mut i: usize = 0;
        proof {
            assert(order@.subrange(0, order@.len() as int) =~= order@);
        }
        let mut found = false;
        while i < order.len() && !found
            invariant
                map.wf(),
                0 < map.width,
                0 < map.height,
                i <= order@.len(),
                found ==> next == wander(map, pos, order@),
                !found ==> next == pos && wander(map, pos, order@) == wander(
                    map,
                    pos,
                    order@.subrange(i as int, order@.len() as int),
                ),
            decreases order@.len() - i,
        {
            let c = clamped_step_of(map, pos, order[i]);
            let ghost rest = order@.subrange(i as int, order@.len() as int);
            assert(rest.drop_first() =~= order@.subrange(i + 1, order@.len() as int));
            if map.is_passable(c.0, c.1) {
                next = c;
                found = true;
            }
            i = i + 1;
        }
        proof {
            if !found {
                assert(order@.subrange(i as int, order@.len() as int).len() == 0);
            }
        }
        self.position = next;
    }

    /// One move toward `goal`: the first step of the shortest route that
    /// [`move_using_bfs`] finds, none at the goal, and a random step by
    /// `order` when no route exists.
    pub fn step_towards(&mut self, map: &Grid, goal: (usize, usize), order: &Vec<usize>)
        requires
            map.wf(),
            0 < map.width,
            0 < map.height,
        ensures
            stepped_towards(map, old(self).position, goal, order@, final(self).position),
            final(self).known_tiles@ == old(self).known_tiles@,
            final(self).id == old(self).id,
            final(self).energy == old(self).energy,
            final(self).module == old(self).module,
            final(self).behavior == old(self).behavior,
    {
        let pos = self.position;
        if pos.0 == goal.0 && pos.1 == goal.1 {
            proof {
                let p = seq![pos];
                if map.has_cell(pos) {
                    assert(map.is_route(p, pos, goal));
                }
            }
            if map.check_bounds(pos.0, pos.1) {
                return;
            }
        }
        match move_using_bfs(map, pos, goal) {
            Some(path) => {
                proof {
                    assert(map.reachable(pos, goal));
                }
                if path.len() > 1 {
                    let next = path[1];
                    proof {
                        let p = path@;
                        let rest = p.subrange(1, p.len() as int);
                        assert(adjacent(p[0], p[1]));
                        assert(map.is_route(rest, next, goal)) by {
                            assert forall|j: int| 0 <= j < rest.len() - 1 implies adjacent(
                                #[trigger] rest[j],
                                rest[j + 1],
                            ) by {
                                assert(adjacent(p[j + 1], p[j + 2]));
                            }
                            assert forall|j: int| 1 <= j < rest.len() implies map.open_cell(
                                #[trigger] rest[j],
                            ) by {
                                assert(map.open_cell(p[j + 1]));
                            }
                            assert(map.open_cell(p[1]));
                        }
                    }
                    self.position = next;
                }
            },
            None => {
                self.move_randomly(map, order);
            },
        }
    }

    /// One move toward `goal`, trying directions in a random cyclic order when
    /// no route exists.
    pub fn move_towards_goal(&mut self, map: &Grid, goal: (usize, usize))
        requires
            map.wf(),
            0 < map.width,
            0 < map.height,
        ensures
            exists|order: Seq<usize>|
                is_rotation(order) && stepped_towards(map, old(self).position, goal, order, final(self).position),
            final(self).known_tiles@ == old(self).known_tiles@,
            final(self).id == old(self).id,
            final(self).energy == old(self).energy,
            final(self).module == old(self).module,
            final(self).behavior == old(self).behavior,
    {
        let order = random_order();
        self.step_towards(map, goal, &order);
    }

    /// The first place of interest on the grid in row-major order, or the
    /// robot's own position when there is none.
    pub fn find_point_of_interest(&self, map: &Grid) -> (r: (usize, usize))
        requires
            map.wf(),
        ensures
            (exists|c: (usize, usize)| is_poi(map, c)) ==> first_poi(map, r),
            !(exists|c: (usize, usize)| is_poi(map, c)) ==> r == self.position,
    {
        let mut y: usize = 0;
        while y < map.height
            invariant
                map.wf(),
                y <= map.height,
                forall|d: (usize, usize)| d.1 < y ==> !is_poi(map, d),
            decreases map.height - y,
        {
            let mut x: usize = 0;
            while x < map.width
                invariant
                    map.wf(),
                    y < map.height,
                    x <= map.width,
                    forall|d: (usize, usize)| before(d, (x, y)) ==> !is_poi(map, d),
                decreases map.width - x,
            {
                match map.tiles[y][x].content {
                    TileContent::Resource(Resource::PlaceOfInterest) => {
                        assert(is_poi(map, (x, y)));
                        return (x, y);
                    },
                    _ => {},
                }
                proof {
                    assert forall|d: (usize, usize)| before(d, ((x + 1) as usize, y)) implies !is_poi(map, d) by {
                        if d != (x, y) {
                            assert(before(d, (x, y)));
                        }
                    }
                }
                x = x + 1;
            }
            proof {
                assert forall|d: (usize, usize)| d.1 < y + 1 implies !is_poi(map, d) by {
                    if d.1 == y && d.0 < map.width {
                        assert(before(d, (x, y)));
                    }
                }
            }
            y = y + 1;
        }
        self.position
    }

    /// The first tile in row-major order that holds a resource this robot has
    /// not recorded.
    pub fn find_resource(&self, map: &Grid) -> (r: Option<(usize, usize)>)
        requires
            map.wf(),
        ensures
            match r {
                Some(c) => unknown_resource(map, self.known_tiles@, c) && forall|d: (usize, usize)|
                    before(d, c) ==> !unknown_resource(map, self.known_tiles@, d),
                None => forall|d: (usize, usize)| !unknown_resource(map, self.known_tiles@, d),
            },
    {
        let mut y: usize = 0;
        while y < map.height
            invariant
                map.wf(),
                y <= map.height,
                forall|d: (usize, usize)| d.1 < y ==> !unknown_resource(map, self.known_tiles@, d),
            decreases map.height - y,
        {
            let mut x: usize = 0;
            while x < map.width
                invariant
                    map.wf(),
                    y < map.height,
                    x <= map.width,
                    forall|d: (usize, usize)|
                        before(d, (x, y)) ==> !unknown_resource(map, self.known_tiles@, d),
                decreases map.width - x,
            {
                let is_resource = match map.tiles[y][x].content {
                    TileContent::Resource(_) => true,
                    _ => false,
                };
                if is_resource && !self.knows((x, y)) {
                    return Some((x, y));
                }
                proof {
                    assert forall|d: (usize, usize)| before(d, ((x + 1) as usize, y)) implies !unknown_resource(
                        map,
                        self.known_tiles@,
                        d,
                    ) by {
                        if d != (x, y) {
                            assert(before(d, (x, y)));
                        }
                    }
                }
                x = x + 1;
            }
            proof {
                assert forall|d: (usize, usize)| d.1 < y + 1 implies !unknown_resource(
                    map,
                    self.known_tiles@,
                    d,
                ) by {
                    if d.1 == y && d.0 < map.width {
                        assert(before(d, (x, y)));
                    }
                }
            }
            y = y + 1;
        }
        None
    }

    /// Marks the tile under the robot explored at time `at` and records it as
    /// known; nothing happens when the robot stands outside the grid.
    pub fn mark_explored(&mut self, map: &mut Grid, at: u64)
        requires
            old(map).wf(),
        ensures
            explored_at(old(map), final(map), old(self).position.0 as int, old(self).position.1 as int, at),
            final(self).known_tiles@ == known_after_explore(old(map), old(self).known_tiles@, old(self).position),
            final(self).id == old(self).id,
            final(self).position == old(self).position,
            final(self).energy == old(self).energy,
            final(self).module == old(self).module,
            final(self).behavior == old(self).behavior,
    {
        let (x, y) = self.position;
        let inside = map.check_bounds(x, y);
        map.mark_explored(x, y, at);
        if inside {
            self.mark_tile_as_known(x, y);
        }
    }

    /// A mining robot takes the resource under it, if any.
    pub fn mine(&self, map: &mut Grid)
        requires
            old(map).wf(),
        ensures
            self.module == Module::Mining ==> mined_at(old(map), final(map), self.position.0 as int, self.position.1 as int),
            self.module != Module::Mining ==> *final(map) == *old(map),
    {
        if let Module::Mining = self.module {
            let _ = map.retrieve_resource_at(self.position.0, self.position.1);
        }
    }

    /// A passable cell chosen uniformly at random: the one with a random index
    /// among [`Grid::open_cells`], or the robot's own position when the grid
    /// has none.
    pub fn find_random_goal(&self, map: &Grid) -> (r: (usize, usize))
        requires
            map.wf(),
        ensures
            open_rows(map, map.height as int).len() > 0 ==> exists|i: int|
                0 <= i < open_rows(map, map.height as int).len() && r == #[trigger] open_rows(
                    map,
                    map.height as int,
                )[i],
            open_rows(map, map.height as int).len() == 0 ==> r == self.position,
            (exists|c: (usize, usize)| map.open_cell(c)) ==> map.open_cell(r),
            !(exists|c: (usize, usize)| map.open_cell(c)) ==> r == self.position,
    {
        let open = map.open_cells();
        if open.len() == 0 {
            proof {
                if exists|c: (usize, usize)| map.open_cell(c) {
                    let c = choose|c: (usize, usize)| map.open_cell(c);
                    assert(open@.contains(c));
                }
            }
            return self.position;
        }
        let i = random_below(open.len());
        proof {
            assert(map.passable(open@[i as int].0 as int, open@[i as int].1 as int));
            assert(map.open_cell(open@[i as int]));
        }
        open[i]
    }

    /// One turn with the random choices given: `goal` is where an exploring
    /// robot heads and `order` the directions a random step tries. See
    /// [`acted`].
    pub fn act(
        &mut self,
        map: &mut Grid,
        station_position: (usize, usize),
        at: u64,
        goal: (usize, usize),
        order: &Vec<usize>,
    )
        requires
            old(map).wf(),
            0 < old(map).width,
            0 < old(map).height,
        ensures
            final(map).wf(),
            final(map).width == old(map).width,
            final(map).height == old(map).height,
            acted(old(self), final(self), old(map), final(map), station_position, at, goal, order@),
    {
        if self.energy == 0 {
            self.step_towards(map, station_position, order);
            if self.position.0 == station_position.0 && self.position.1 == station_position.1 {
                self.refill_energy();
            }
            return;
        }
        match self.behavior {
            Behavior::Exploration => {
                self.step_towards(map, goal, order);
                self.mark_explored(map, at);
            },
            Behavior::ResourceCollection => {
                if !self.knows(self.position) {
                    self.mine(map);
                }
                self.move_randomly(map, order);
            },
            Behavior::ScientificInterest => {
                let target = self.find_point_of_interest(map);
                proof {
                    if exists|c: (usize, usize)| is_poi(map, c) {
                        let c = choose|c: (usize, usize)| first_poi(map, c);
                        lemma_first_poi_unique(map, c, target);
                    }
                }
                self.step_towards(map, target, order);
            },
        }
        self.energy = self.energy - 1;
    }

    /// One turn: the robot draws its exploration goal and the direction order
    /// of any random step, then acts as [`Robot::act`] says with time `at`.
    pub fn perform_action(&mut self, map: &mut Grid, station_position: (usize, usize), at: u64)
        requires
            old(map).wf(),
            0 < old(map).width,
            0 < old(map).height,
        ensures
            final(map).wf(),
            final(map).width == old(map).width,
            final(map).height == old(map).height,
            exists|goal: (usize, usize), order: Seq<usize>|
                {
                    &&& is_rotation(order)
                    &&& (exists|c: (usize, usize)| old(map).open_cell(c)) ==> old(map).open_cell(goal)
                    &&& acted(old(self), final(self), old(map), final(map), station_position, at, goal, order)
                },
    {
        let order = random_order();
        let goal = self.find_random_goal(map);
        self.act(map, station_position, at, goal, &order);
    }

    pub fn refill_energy(&mut self)
        ensures
            final(self).energy == RECHARGE,
            final(self).known_tiles@ == old(self).known_tiles@,
            final(self).id == old(self).id,
            final(self).position == old(self).position,
            final(self).module == old(self).module,
            final(self).behavior == old(self).behavior,
    {
        self.energy = RECHARGE;
    }
}

} // verus!
