//! One simulation: the world, the station with its roster, and a logical clock.
use crate::map::{generated_content, relief_fits, Grid};
use crate::robot::{acted, before, is_rotation, Behavior, Module, Robot, RECHARGE};
use crate::station::{has_id, lemma_merge_concat, lemma_same_ids, max_id, merge_all, report, reports_from, Station, INITIAL_ROBOT_ENERGY, SPAWN_COST};
use crate::tile::TileContent;
use vstd::prelude::*;

verus! {

pub open spec fn is_free(g: &Grid, c: (usize, usize)) -> bool {
    g.has_cell(c) && g.tile(c.0 as int, c.1 as int).content == TileContent::Empty
}

/// `c` is the first empty tile of `g` in row-major order.
pub open spec fn first_free(g: &Grid, c: (usize, usize)) -> bool {
    &&& is_free(g, c)
    &&& forall|d: (usize, usize)| before(d, c) ==> !is_free(g, d)
}

/// The first empty tile of `map` in row-major order, if any.
pub fn find_free_tile(map: &Grid) -> (r: Option<(usize, usize)>)
    requires
        map.wf(),
    ensures
        match r {
            Some(c) => first_free(map, c),
            None => forall|d: (usize, usize)| !is_free(map, d),
        },
{
    let mut y: usize = 0;
    while y < map.height
        invariant
            map.wf(),
            y <= map.height,
            forall|d: (usize, usize)| d.1 < y ==> !is_free(map, d),
        decreases map.height - y,
    {
        let mut x: usize = 0;
        while x < map.width
            invariant
                map.wf(),
                y < map.height,
                x <= map.width,
                forall|d: (usize, usize)| before(d, (x, y)) ==> !is_free(map, d),
            decreases map.width - x,
        {
            if map.is_empty(x, y) {
                return Some((x, y));
            }
            proof {
                assert forall|d: (usize, usize)| before(d, ((x + 1) as usize, y)) implies !is_free(map, d) by {
                    if d != (x, y) {
                        assert(before(d, (x, y)));
                    }
                }
            }
            x = x + 1;
        }
        proof {
            assert forall|d: (usize, usize)| d.1 < y + 1 implies !is_free(map, d) by {
                if d.1 == y && d.0 < map.width {
                    assert(before(d, (x, y)));
                }
            }
        }
        y = y + 1;
    }
    None
}

/// The reports of the robots of `robots` that stand on `pos`, robot after
/// robot.
pub open spec fn station_reports(g: &Grid, robots: Seq<Robot>, pos: (usize, usize)) -> Seq<(usize, usize, u64)>
    decreases robots.len(),
{
    if robots.len() == 0 {
        Seq::empty()
    } else {
        let r = robots.last();
        let rest = station_reports(g, robots.drop_last(), pos);
        if r.position == pos {
            rest + reports_from(g, r.known_tiles@)
        } else {
            rest
        }
    }
}

/// `r` after the station phase: recharged when it stands on `pos`.
pub open spec fn settled(r: Robot, pos: (usize, usize)) -> Robot {
    if r.position == pos {
        Robot { energy: RECHARGE, ..r }
    } else {
        r
    }
}

/// Position and energy of each robot of `robots`.
pub open spec fn states_of(robots: Seq<Robot>) -> Seq<((usize, usize), u32)> {
    robots.map_values(|r: Robot| (r.position, r.energy))
}

/// The ids, in roster order, of the first `n` robots of `after` that are new
/// (beyond `before`) or whose position or energy differs from `before`.
pub open spec fn changed_ids(before: Seq<((usize, usize), u32)>, after: Seq<Robot>, n: int) -> Seq<usize>
    decreases n,
{
    if n <= 0 {
        Seq::empty()
    } else {
        let rest = changed_ids(before, after, n - 1);
        let r = after[n - 1];
        if n - 1 >= before.len() || r.position != before[n - 1].0 || r.energy != before[n - 1].1 {
            rest.push(r.id)
        } else {
            rest
        }
    }
}

/// The position and energy of each robot.
fn robot_states(robots: &Vec<Robot>) -> (r: Vec<((usize, usize), u32)>)
    ensures
        r@ == states_of(robots@),
{
    let mut r: Vec<((usize, usize), u32)> = Vec::new();
    let mut i: usize = 0;
    while i < robots.len()
        invariant
            i <= robots@.len(),
            r@ == states_of(robots@.subrange(0, i as int)),
        decreases robots@.len() - i,
    {
        r.push((robots[i].position, robots[i].energy));
        proof {
            assert(r@ =~= states_of(robots@.subrange(0, i + 1)));
        }
        i = i + 1;
    }
    proof {
        assert(robots@.subrange(0, i as int) =~= robots@);
    }
    r
}

/// The ids of the robots of `after` that are new or moved or whose energy
/// changed since `before`; see [`changed_ids`].
pub fn changed_robots(before: &Vec<((usize, usize), u32)>, after: &Vec<Robot>) -> (r: Vec<usize>)
    ensures
        r@ == changed_ids(before@, after@, after@.len() as int),
{
    let mut r: Vec<usize> = Vec::new();
    let mut i: usize = 0;
    while i < after.len()
        invariant
            i <= after@.len(),
            r@ == changed_ids(before@, after@, i as int),
        decreases after@.len() - i,
    {
        let a = &after[i];
        let differs = if i >= before.len() {
            true
        } else {
            let (p, e) = before[i];
            a.position.0 != p.0 || a.position.1 != p.1 || a.energy != e
        };
        if differs {
            r.push(a.id);
        }
        i = i + 1;
    }
    r
}

pub struct Simulation {
    pub map: Grid,
    pub station: Station,
    /// Logical time, advanced once per tick and used to stamp observations.
    pub clock: u64,
}

impl Simulation {
    pub open spec fn wf(&self) -> bool {
        &&& self.map.wf()
        &&& 0 < self.map.width
        &&& 0 < self.map.height
        &&& self.station.wf()
    }

    /// A world generated from `seed` and `relief`, with the station on its
    /// first empty tile (the origin when there is none) and one robot per
    /// entry of `initial`, numbered from 1, on the station.
    pub fn new(width: usize, height: usize, seed: u64, relief: &Vec<Vec<bool>>, initial: &Vec<(Module, Behavior)>) -> (s: Simulation)
        requires
            3 <= width,
            3 <= height,
            relief_fits(relief@, width as int, height as int),
            initial@.len() < usize::MAX,
        ensures
            s.wf(),
            s.map.width == width,
            s.map.height == height,
            s.clock == 0,
            s.station.energy == 0,
            s.station.knowledge() == Map::<(usize, usize), u64>::empty(),
            s.station.robots@.len() == initial@.len(),
            forall|i: int|
                0 <= i < initial@.len() ==> {
                    let r = #[trigger] s.station.robots@[i];
                    &&& r.id == i + 1
                    &&& r.position == s.station.position
                    &&& r.energy == INITIAL_ROBOT_ENERGY
                    &&& r.module == initial@[i].0
                    &&& r.behavior == initial@[i].1
                    &&& r.known_tiles@.len() == 0
                },
            s.map.walled(),
            forall|x: int, y: int|
                s.map.in_bounds(x, y) ==> generated_content(
                    width as int,
                    height as int,
                    relief@,
                    x,
                    y,
                    (#[trigger] s.map.tile(x, y)).content,
                ) && !s.map.tile(x, y).explored && s.map.tile(x, y).timestamp == 0,
            (exists|c: (usize, usize)| is_free(&s.map, c)) ==> first_free(&s.map, s.station.position),
            !(exists|c: (usize, usize)| is_free(&s.map, c)) ==> s.station.position == (0usize, 0usize),
    {
        let map = Grid::new(width, height, seed, relief);
        let position = match find_free_tile(&map) {
            Some(c) => c,
            None => (0, 0),
        };
        let mut station = Station::new(position);
        let mut i: usize = 0;
        while i < initial.len()
            invariant
                i <= initial@.len(),
                initial@.len() < usize::MAX,
                station.wf(),
                station.position == position,
                station.energy == 0,
                station.knowledge() == Map::<(usize, usize), u64>::empty(),
                station.robots@.len() == i,
                forall|j: int|
                    0 <= j < i ==> {
                        let r = #[trigger] station.robots@[j];
                        &&& r.id == j + 1
                        &&& r.position == position
                        &&& r.energy == INITIAL_ROBOT_ENERGY
                        &&& r.module == initial@[j].0
                        &&& r.behavior == initial@[j].1
                        &&& r.known_tiles@.len() == 0
                    },
            decreases initial@.len() - i,
        {
            let (module, behavior) = initial[i];
            let ghost before = station.robots@;
            let _ = station.create_robot(i + 1, position, module, behavior);
            proof {
                assert forall|j: int| 0 <= j < i + 1 implies {
                    let r = #[trigger] station.robots@[j];
                    &&& r.id == j + 1
                    &&& r.position == position
                    &&& r.energy == INITIAL_ROBOT_ENERGY
                    &&& r.module == initial@[j].0
                    &&& r.behavior == initial@[j].1
                    &&& r.known_tiles@.len() == 0
                } by {
                    if j < i {
                        assert(station.robots@.subrange(0, i as int)[j] == station.robots@[j]);
                        assert(before[j] == station.robots@[j]);
                    } else {
                        assert(station.robots@[i as int] == station.robots@.last());
                    }
                }
            }
            i = i + 1;
        }
        Simulation { map, station, clock: 0 }
    }
}

impl Simulation {
    /// The station phase for robots on the station: their reports are merged,
    /// robot after robot, and each is recharged.
    pub fn collect_and_refill_robots(&mut self)
        requires
            old(self).wf(),
        ensures
            final(self).wf(),
            final(self).map == old(self).map,
            final(self).clock == old(self).clock,
            final(self).station.position == old(self).station.position,
            final(self).station.energy == old(self).station.energy,
            final(self).station.knowledge() == merge_all(
                old(self).station.knowledge(),
                station_reports(&old(self).map, old(self).station.robots@, old(self).station.position),
            ),
            final(self).station.robots@.len() == old(self).station.robots@.len(),
            forall|j: int|
                0 <= j < old(self).station.robots@.len() ==> #[trigger] final(self).station.robots@[j] == settled(
                    old(self).station.robots@[j],
                    old(self).station.position,
                ),
    {
        let pos = self.station.position;
        let n = self.station.robots.len();
        let ghost old_robots = self.station.robots@;
        let mut i: usize = 0;
        while i < n
            invariant
                self.wf(),
                self.map == old(self).map,
                self.clock == old(self).clock,
                old_robots == old(self).station.robots@,
                n == old_robots.len(),
                pos == old(self).station.position,
                self.station.position == pos,
                self.station.energy == old(self).station.energy,
                i <= n,
                self.station.robots@.len() == n,
                self.station.knowledge() == merge_all(
                    old(self).station.knowledge(),
                    station_reports(&self.map, old_robots.subrange(0, i as int), pos),
                ),
                forall|j: int| 0 <= j < i ==> #[trigger] self.station.robots@[j] == settled(old_robots[j], pos),
                forall|j: int| i <= j < n ==> #[trigger] self.station.robots@[j] == old_robots[j],
            decreases n - i,
        {
            let p = self.station.robots[i].position;
            let ghost kb0 = self.station.knowledge();
            proof {
                let pre = old_robots.subrange(0, i + 1);
                assert(pre.drop_last() =~= old_robots.subrange(0, i as int));
                assert(pre.last() == old_robots[i as int]);
            }
            if p.0 == pos.0 && p.1 == pos.1 {
                let reports = report(&self.station.robots[i], &self.map);
                self.station.merge_knowledge(&reports);
                proof {
                    lemma_merge_concat(
                        old(self).station.knowledge(),
                        station_reports(&self.map, old_robots.subrange(0, i as int), pos),
                        reports@,
                    );
                }
                let ghost before = self.station.robots@;
                self.station.robots[i].energy = RECHARGE;
                proof {
                    assert forall|j: int| 0 <= j < n && j != i implies #[trigger] self.station.robots@[j] == before[j] by {}
                }
            }
            i = i + 1;
        }
        proof {
            assert(old_robots.subrange(0, n as int) =~= old_robots);
        }
    }
}

/// Each robot of `r0` acted once in turn, robot `j` taking the grid from
/// `maps[j]` to `maps[j + 1]`, and became robot `j` of `r1`.
pub open spec fn all_acted(
    r0: Seq<Robot>,
    r1: Seq<Robot>,
    maps: Seq<Grid>,
    upto: int,
    station: (usize, usize),
    at: u64,
) -> bool {
    forall|j: int|
        0 <= j < upto ==> robot_acted(&r0[j], &#[trigger] r1[j], &maps[j], &maps[j + 1], station, at)
}

/// Robot `r0` on `m0` performed one action ending as `r1` on `m1`, for some
/// draw of its random choices.
pub open spec fn robot_acted(r0: &Robot, r1: &Robot, m0: &Grid, m1: &Grid, station: (usize, usize), at: u64) -> bool {
    exists|goal: (usize, usize), order: Seq<usize>|
        {
            &&& is_rotation(order)
            &&& (exists|c: (usize, usize)| m0.open_cell(c)) ==> m0.open_cell(goal)
            &&& acted(r0, r1, m0, m1, station, at, goal, order)
        }
}

impl Simulation {
    /// The action phase at time `at`: every robot of the roster performs one
    /// action, in roster order, on the shared grid.
    pub fn act_all(&mut self, at: u64) -> (maps: Ghost<Seq<Grid>>)
        requires
            old(self).wf(),
        ensures
            final(self).wf(),
            final(self).clock == old(self).clock,
            final(self).station.position == old(self).station.position,
            final(self).station.energy == old(self).station.energy,
            final(self).station.known_tiles@ == old(self).station.known_tiles@,
            final(self).station.robots@.len() == old(self).station.robots@.len(),
            forall|j: int|
                0 <= j < old(self).station.robots@.len() ==> #[trigger] final(self).station.robots@[j].id
                    == old(self).station.robots@[j].id,
            final(self).map.width == old(self).map.width,
            final(self).map.height == old(self).map.height,
            maps@.len() == old(self).station.robots@.len() + 1,
            maps@[0] == old(self).map,
            maps@.last() == final(self).map,
            all_acted(
                old(self).station.robots@,
                final(self).station.robots@,
                maps@,
                old(self).station.robots@.len() as int,
                old(self).station.position,
                at,
            ),
    {
        let pos = self.station.position;
        let n = self.station.robots.len();
        let ghost old_robots = self.station.robots@;
        let ghost mut maps: Seq<Grid> = seq![self.map];
        let mut i: usize = 0;
        while i < n
            invariant
                self.wf(),
                self.map.width == old(self).map.width,
                self.map.height == old(self).map.height,
                self.clock == old(self).clock,
                self.station.position == pos,
                pos == old(self).station.position,
                self.station.energy == old(self).station.energy,
                self.station.known_tiles@ == old(self).station.known_tiles@,
                old_robots == old(self).station.robots@,
                n == old_robots.len(),
                i <= n,
                self.station.robots@.len() == n,
                maps.len() == i + 1,
                maps[0] == old(self).map,
                maps[i as int] == self.map,
                all_acted(old_robots, self.station.robots@, maps, i as int, pos, at),
                forall|j: int| i <= j < n ==> #[trigger] self.station.robots@[j] == old_robots[j],
                forall|j: int| 0 <= j < n ==> #[trigger] self.station.robots@[j].id == old_robots[j].id,
            decreases n - i,
        {
            let ghost before = self.station.robots@;
            self.station.robots[i].perform_action(&mut self.map, pos, at);
            proof {
                maps = maps.push(self.map);
                assert forall|j: int| 0 <= j < n && j != i implies #[trigger] self.station.robots@[j] == before[j] by {}
                assert forall|j: int| 0 <= j < i + 1 implies robot_acted(
                    &old_robots[j],
                    &#[trigger] self.station.robots@[j],
                    &maps[j],
                    &maps[j + 1],
                    pos,
                    at,
                ) by {
                    if j < i {
                        assert(self.station.robots@[j] == before[j]);
                        assert(maps[j] == maps.drop_last()[j]);
                        assert(maps[j + 1] == maps.drop_last()[j + 1]);
                    }
                }
            }
            i = i + 1;
        }
        Ghost(maps)
    }

    /// Advances the simulation by one tick: the clock moves on, every robot
    /// acts once ([`Simulation::act_all`]), then the robots on the station are
    /// debriefed and recharged ([`Simulation::collect_and_refill_robots`]),
    /// and the station builds a robot if it can afford one
    /// ([`Station::spawn_if_affordable`]). Returns the ids of the robots that
    /// moved, changed energy or joined during the tick.
    pub fn tick(&mut self) -> (changed: Vec<usize>)
        requires
            old(self).wf(),
            old(self).clock < u64::MAX,
            forall|i: int|
                0 <= i < old(self).station.robots@.len() ==> #[trigger] old(self).station.robots@[i].id < usize::MAX,
        ensures
            final(self).wf(),
            final(self).clock == old(self).clock + 1,
            final(self).map.width == old(self).map.width,
            final(self).map.height == old(self).map.height,
            final(self).station.position == old(self).station.position,
            changed@ == changed_ids(
                states_of(old(self).station.robots@),
                final(self).station.robots@,
                final(self).station.robots@.len() as int,
            ),
            exists|maps: Seq<Grid>, acted_robots: Seq<Robot>|
                {
                    &&& maps.len() == old(self).station.robots@.len() + 1
                    &&& maps[0] == old(self).map
                    &&& maps.last() == final(self).map
                    &&& acted_robots.len() == old(self).station.robots@.len()
                    &&& all_acted(
                        old(self).station.robots@,
                        acted_robots,
                        maps,
                        acted_robots.len() as int,
                        old(self).station.position,
                        final(self).clock,
                    )
                    &&& final(self).station.knowledge() == merge_all(
                        old(self).station.knowledge(),
                        station_reports(&final(self).map, acted_robots, old(self).station.position),
                    )
                    &&& forall|j: int|
                        0 <= j < acted_robots.len() ==> #[trigger] final(self).station.robots@[j] == settled(
                            acted_robots[j],
                            old(self).station.position,
                        )
                },
            old(self).station.energy >= SPAWN_COST ==> {
                &&& final(self).station.energy == old(self).station.energy - SPAWN_COST
                &&& final(self).station.robots@.len() == old(self).station.robots@.len() + 1
                &&& final(self).station.robots@.last().id == max_id(old(self).station.robots@) + 1
                &&& !has_id(old(self).station.robots@, final(self).station.robots@.last().id)
                &&& final(self).station.robots@.last().position == old(self).station.position
                &&& final(self).station.robots@.last().module == Module::Imaging
                &&& final(self).station.robots@.last().behavior == Behavior::Exploration
            },
            old(self).station.energy < SPAWN_COST ==> {
                &&& final(self).station.energy == old(self).station.energy
                &&& final(self).station.robots@.len() == old(self).station.robots@.len()
            },
    {
        let before = robot_states(&self.station.robots);
        self.clock = self.clock + 1;
        let at = self.clock;
        let maps = self.act_all(at);
        let ghost acted_robots = self.station.robots@;
        let ghost acted_map = self.map;
        self.collect_and_refill_robots();
        let ghost kb = self.station.knowledge();
        proof {
            assert forall|j: int| 0 <= j < self.station.robots@.len() implies #[trigger] self.station.robots@[j].id
                == old(self).station.robots@[j].id by {
                assert(self.station.robots@[j] == settled(acted_robots[j], old(self).station.position));
            }
            lemma_same_ids(old(self).station.robots@, self.station.robots@);
        }
        let ghost settled_robots = self.station.robots@;
        let _ = self.station.spawn_if_affordable();
        proof {
            assert forall|j: int| 0 <= j < acted_robots.len() implies #[trigger] self.station.robots@[j] == settled(
                acted_robots[j],
                old(self).station.position,
            ) by {
                assert(self.station.robots@[j] == settled_robots[j]) by {
                    if old(self).station.energy >= SPAWN_COST {
                        assert(self.station.robots@.subrange(0, settled_robots.len() as int)[j] == self.station.robots@[j]);
                    }
                }
            }
            assert(maps@.last() == self.map);
            assert(self.station.knowledge() == kb);
            assert(kb == merge_all(
                old(self).station.knowledge(),
                station_reports(&acted_map, acted_robots, old(self).station.position),
            ));
            assert(self.map == acted_map);
            assert(all_acted(
                old(self).station.robots@,
                acted_robots,
                maps@,
                acted_robots.len() as int,
                old(self).station.position,
                self.clock,
            ));
        }
        changed_robots(&before, &self.station.robots)
    }
}

} // verus!
