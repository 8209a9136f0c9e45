use crate::map::Grid;
use crate::robot::{remember, Behavior, Module, Robot, RECHARGE};
use vstd::prelude::*;

verus! {

/// Energy a robot starts with.
pub const INITIAL_ROBOT_ENERGY: u32 = 100;

/// Station energy spent to build one robot.
pub const SPAWN_COST: u32 = 100;

/// One entry of the station's knowledge: when the tile was last observed.
#[derive(Clone, Copy, Debug, PartialEq, Eq, Structural)]
pub struct KnownTile {
    pub x: usize,
    pub y: usize,
    pub timestamp: u64,
}

/// Why the station turned an operation down.
#[derive(Clone, Copy, Debug, PartialEq, Eq, Structural)]
pub enum StationError {
    /// The robot is not standing on the station.
    InvalidRefill,
    /// No robot of the roster has that id.
    UnknownRobot,
}

pub struct Station {
    pub position: (usize, usize),
    pub energy: u32,
    pub robots: Vec<Robot>,
    /// At most one entry per tile.
    pub known_tiles: Vec<KnownTile>,
}

/// The knowledge a list of entries stands for: tile to time, later entries
/// overriding earlier ones.
pub open spec fn kb_of(s: Seq<KnownTile>) -> Map<(usize, usize), u64>
    decreases s.len(),
{
    if s.len() == 0 {
        Map::empty()
    } else {
        kb_of(s.drop_last()).insert((s.last().x, s.last().y), s.last().timestamp)
    }
}

/// No two entries name the same tile.
pub open spec fn keys_unique(s: Seq<KnownTile>) -> bool {
    forall|i: int, j: int|
        0 <= i < s.len() && 0 <= j < s.len() && i != j ==> (#[trigger] s[i].x, s[i].y) != (
            #[trigger] s[j].x,
            s[j].y,
        )
}

/// No two robots of `robots` share an id.
pub open spec fn ids_distinct(robots: Seq<Robot>) -> bool {
    forall|i: int, j: int| 0 <= i < robots.len() && 0 <= j < robots.len() && i != j ==> #[trigger] robots[i].id
        != #[trigger] robots[j].id
}

/// Some robot of `robots` has id `id`.
pub open spec fn has_id(robots: Seq<Robot>, id: usize) -> bool {
    exists|i: int| 0 <= i < robots.len() && #[trigger] robots[i].id == id
}

/// The largest id of `robots`, or 0 for an empty roster.
pub open spec fn max_id(robots: Seq<Robot>) -> nat
    decreases robots.len(),
{
    if robots.len() == 0 {
        0
    } else {
        let m = max_id(robots.drop_last());
        if robots.last().id > m {
            robots.last().id as nat
        } else {
            m
        }
    }
}

proof fn lemma_max_id_bounds(robots: Seq<Robot>)
    ensures
        forall|i: int| 0 <= i < robots.len() ==> #[trigger] robots[i].id <= max_id(robots),
        robots.len() > 0 ==> has_id(robots, max_id(robots) as usize),
        robots.len() == 0 ==> max_id(robots) == 0,
    decreases robots.len(),
{
    if robots.len() > 0 {
        let p = robots.drop_last();
        lemma_max_id_bounds(p);
        assert forall|i: int| 0 <= i < robots.len() implies #[trigger] robots[i].id <= max_id(robots) by {
            if i < p.len() {
                assert(robots[i] == p[i]);
            }
        }
        if robots.last().id > max_id(p) || p.len() == 0 {
            assert(robots[robots.len() - 1].id == robots.last().id);
        } else {
            let i = choose|i: int| 0 <= i < p.len() && #[trigger] p[i].id == max_id(p) as usize;
            assert(robots[i] == p[i]);
        }
    }
}

/// Rosters with the same ids, in the same order, have the same largest id
/// and hold the same ids.
pub proof fn lemma_same_ids(a: Seq<Robot>, b: Seq<Robot>)
    requires
        a.len() == b.len(),
        forall|j: int| 0 <= j < a.len() ==> #[trigger] a[j].id == b[j].id,
    ensures
        max_id(a) == max_id(b),
        forall|id: usize| has_id(a, id) == has_id(b, id),
    decreases a.len(),
{
    if a.len() > 0 {
        lemma_same_ids(a.drop_last(), b.drop_last());
        assert(a[a.len() - 1].id == b[b.len() - 1].id);
    }
    assert forall|id: usize| has_id(a, id) implies has_id(b, id) by {
        let i = choose|i: int| 0 <= i < a.len() && #[trigger] a[i].id == id;
        assert(b[i].id == id);
    }
    assert forall|id: usize| has_id(b, id) implies has_id(a, id) by {
        let i = choose|i: int| 0 <= i < b.len() && #[trigger] b[i].id == id;
        assert(a[i].id == id);
    }
}

/// `kb` after a report that tile `k` was observed at `t`: the later time wins.
pub open spec fn merge_one(kb: Map<(usize, usize), u64>, k: (usize, usize), t: u64) -> Map<(usize, usize), u64> {
    if kb.contains_key(k) && kb[k] >= t {
        kb
    } else {
        kb.insert(k, t)
    }
}

/// `kb` after the reports of `r`, in order.
pub open spec fn merge_all(kb: Map<(usize, usize), u64>, r: Seq<(usize, usize, u64)>) -> Map<(usize, usize), u64>
    decreases r.len(),
{
    if r.len() == 0 {
        kb
    } else {
        merge_one(merge_all(kb, r.drop_last()), (r.last().0, r.last().1), r.last().2)
    }
}

/// What a robot that recorded `known` reports from `g`: each recorded tile
/// inside the grid that is explored, with its time, in the order recorded.
pub open spec fn reports_from(g: &Grid, known: Seq<(usize, usize)>) -> Seq<(usize, usize, u64)>
    decreases known.len(),
{
    if known.len() == 0 {
        Seq::empty()
    } else {
        let c = known.last();
        let rest = reports_from(g, known.drop_last());
        if g.has_cell(c) && g.tile(c.0 as int, c.1 as int).explored {
            rest.push((c.0, c.1, g.tile(c.0 as int, c.1 as int).timestamp))
        } else {
            rest
        }
    }
}

/// `known` after remembering each tile of `s`, in order.
pub open spec fn remember_all(known: Seq<(usize, usize)>, s: Seq<KnownTile>) -> Seq<(usize, usize)>
    decreases s.len(),
{
    if s.len() == 0 {
        known
    } else {
        remember(remember_all(known, s.drop_last()), (s.last().x, s.last().y))
    }
}

proof fn lemma_kb_of_dom(s: Seq<KnownTile>, k: (usize, usize))
    requires
        keys_unique(s),
    ensures
        kb_of(s).contains_key(k) <==> exists|i: int| 0 <= i < s.len() && (s[i].x, s[i].y) == k,
        forall|i: int| 0 <= i < s.len() && (s[i].x, s[i].y) == k ==> kb_of(s)[k] == s[i].timestamp,
    decreases s.len(),
{
    if s.len() > 0 {
        let p = s.drop_last();
        let n = s.len() - 1;
        assert(keys_unique(p));
        lemma_kb_of_dom(p, k);
        assert(s[n] == s.last());
        if (s[n].x, s[n].y) != k {
            if exists|i: int| 0 <= i < s.len() && (s[i].x, s[i].y) == k {
                let i = choose|i: int| 0 <= i < s.len() && (s[i].x, s[i].y) == k;
                assert(p[i] == s[i]);
            }
            if kb_of(s).contains_key(k) {
                let i = choose|i: int| 0 <= i < p.len() && (p[i].x, p[i].y) == k;
                assert(s[i] == p[i]);
            }
            assert forall|i: int| 0 <= i < s.len() && (s[i].x, s[i].y) == k implies kb_of(s)[k] == s[i].timestamp by {
                assert(s[i] == p[i]);
            }
        } else {
            assert forall|i: int| 0 <= i < s.len() && (s[i].x, s[i].y) == k implies kb_of(s)[k] == s[i].timestamp by {
                if i != n {
                    assert((s[i].x, s[i].y) != (s[n].x, s[n].y));
                }
            }
        }
    }
}

proof fn lemma_kb_of_update(s: Seq<KnownTile>, i: int, t: u64)
    requires
        keys_unique(s),
        0 <= i < s.len(),
    ensures
        kb_of(s.update(i, KnownTile { timestamp: t, ..s[i] })) == kb_of(s).insert((s[i].x, s[i].y), t),
        keys_unique(s.update(i, KnownTile { timestamp: t, ..s[i] })),
    decreases s.len(),
{
    let e = KnownTile { timestamp: t, ..s[i] };
    let u = s.update(i, e);
    let k = (s[i].x, s[i].y);
    assert forall|a: int, b: int|
        0 <= a < u.len() && 0 <= b < u.len() && a != b implies (#[trigger] u[a].x, u[a].y) != (
        #[trigger] u[b].x,
        u[b].y,
    ) by {
        assert((s[a].x, s[a].y) != (s[b].x, s[b].y));
    }
    if i == s.len() - 1 {
        assert(u.drop_last() =~= s.drop_last());
        assert(kb_of(u) =~= kb_of(s).insert(k, t));
    } else {
        let p = s.drop_last();
        assert(keys_unique(p));
        assert(u.drop_last() =~= p.update(i, e));
        lemma_kb_of_update(p, i, t);
        let l = (s.last().x, s.last().y);
        assert(s[s.len() - 1] == s.last());
        assert(l != k);
        assert(kb_of(u) =~= kb_of(s).insert(k, t));
    }
}

impl Station {
    /// The station's knowledge as a map from tile to last observation time.
    pub open spec fn knowledge(&self) -> Map<(usize, usize), u64> {
        kb_of(self.known_tiles@)
    }

    /// One entry per tile, and no two robots of the roster share an id.
    pub open spec fn wf(&self) -> bool {
        &&& keys_unique(self.known_tiles@)
        &&& ids_distinct(self.robots@)
    }

    pub fn new(position: (usize, usize)) -> (s: Station)
        ensures
            s.wf(),
            s.position == position,
            s.energy == 0,
            s.robots@.len() == 0,
            s.known_tiles@.len() == 0,
            s.knowledge() == Map::<(usize, usize), u64>::empty(),
    {
        Station { position, energy: 0, robots: Vec::new(), known_tiles: Vec::new() }
    }

    /// Merges one report: tile `(x, y)` observed at `timestamp`. An unknown
    /// tile is added; a known one takes the time only if it is later.
    pub fn merge_report(&mut self, x: usize, y: usize, timestamp: u64)
        requires
            old(self).wf(),
        ensures
            final(self).wf(),
            final(self).knowledge() == merge_one(old(self).knowledge(), (x, y), timestamp),
            final(self).position == old(self).position,
            final(self).energy == old(self).energy,
            final(self).robots@ == old(self).robots@,
    {
        let mut i: usize = 0;
        while i < self.known_tiles.len()
            invariant
                *self == *old(self),
                old(self).wf(),
                i <= self.known_tiles@.len(),
                forall|j: int| 0 <= j < i ==> (#[trigger] self.known_tiles@[j].x, self.known_tiles@[j].y) != (x, y),
            decreases self.known_tiles@.len() - i,
        {
            let e = self.known_tiles[i];
            if e.x == x && e.y == y {
                proof {
                    lemma_kb_of_dom(self.known_tiles@, (x, y));
                    lemma_kb_of_update(self.known_tiles@, i as int, timestamp);
                }
                if timestamp > e.timestamp {
                    self.known_tiles.set(i, KnownTile { x, y, timestamp });
                    proof {
                        assert(self.known_tiles@ == old(self).known_tiles@.update(
                            i as int,
                            KnownTile { timestamp: timestamp, ..old(self).known_tiles@[i as int] },
                        ));
                    }
                }
                return;
            }
            i = i + 1;
        }
        proof {
            lemma_kb_of_dom(self.known_tiles@, (x, y));
        }
        let ghost before = self.known_tiles@;
        self.known_tiles.push(KnownTile { x, y, timestamp });
        proof {
            let s = self.known_tiles@;
            assert(s.drop_last() =~= before);
            assert forall|a: int, b: int|
                0 <= a < s.len() && 0 <= b < s.len() && a != b implies (#[trigger] s[a].x, s[a].y) != (
                #[trigger] s[b].x,
                s[b].y,
            ) by {
                if a != s.len() - 1 && b != s.len() - 1 {
                    assert(s[a] == before[a] && s[b] == before[b]);
                } else if a == s.len() - 1 {
                    assert(s[b] == before[b]);
                    assert((before[b].x, before[b].y) != (x, y));
                } else {
                    assert(s[a] == before[a]);
                    assert((before[a].x, before[a].y) != (x, y));
                }
            }
        }
    }
}

/// Tile `k` carries time `t` in `kb` or in some report of `r`.
pub open spec fn sourced(kb: Map<(usize, usize), u64>, r: Seq<(usize, usize, u64)>, k: (usize, usize), t: u64) -> bool {
    (kb.contains_key(k) && kb[k] == t) || exists|i: int| 0 <= i < r.len() && r[i] == (k.0, k.1, t)
}

/// No time for tile `k` in `kb` or in the reports of `r` exceeds `t`.
pub open spec fn covers(kb: Map<(usize, usize), u64>, r: Seq<(usize, usize, u64)>, k: (usize, usize), t: u64) -> bool {
    &&& kb.contains_key(k) ==> kb[k] <= t
    &&& forall|i: int| 0 <= i < r.len() && r[i].0 == k.0 && r[i].1 == k.1 ==> #[trigger] r[i].2 <= t
}

/// Tile `k` appears in `kb` or in some report of `r`.
pub open spec fn mentioned(kb: Map<(usize, usize), u64>, r: Seq<(usize, usize, u64)>, k: (usize, usize)) -> bool {
    kb.contains_key(k) || exists|i: int| 0 <= i < r.len() && r[i].0 == k.0 && r[i].1 == k.1
}

/// After merging `r` into `kb`, exactly the mentioned tiles are known, each
/// with the greatest time seen for it.
pub proof fn lemma_merge_keeps_latest(kb: Map<(usize, usize), u64>, r: Seq<(usize, usize, u64)>, k: (usize, usize))
    ensures
        merge_all(kb, r).contains_key(k) <==> mentioned(kb, r, k),
        merge_all(kb, r).contains_key(k) ==> sourced(kb, r, k, merge_all(kb, r)[k]) && covers(
            kb,
            r,
            k,
            merge_all(kb, r)[k],
        ),
    decreases r.len(),
{
    if r.len() > 0 {
        let p = r.drop_last();
        let n = r.len() - 1;
        lemma_merge_keeps_latest(kb, p, k);
        let m0 = merge_all(kb, p);
        let m = merge_all(kb, r);
        assert(r[n] == r.last());
        if mentioned(kb, p, k) && !mentioned(kb, r, k) {
            let i = choose|i: int| 0 <= i < p.len() && p[i].0 == k.0 && p[i].1 == k.1;
            assert(r[i] == p[i]);
        }
        if mentioned(kb, r, k) && !mentioned(kb, p, k) && !kb.contains_key(k) {
            let i = choose|i: int| 0 <= i < r.len() && r[i].0 == k.0 && r[i].1 == k.1;
            if i < n {
                assert(p[i] == r[i]);
            }
        }
        if m.contains_key(k) {
            let v = m[k];
            if m0.contains_key(k) && m0[k] == v {
                if !(kb.contains_key(k) && kb[k] == v) {
                    let i = choose|i: int| 0 <= i < p.len() && p[i] == (k.0, k.1, v);
                    assert(r[i] == p[i]);
                }
            } else {
                assert(r[n] == (k.0, k.1, v));
            }
            assert forall|i: int| 0 <= i < r.len() && r[i].0 == k.0 && r[i].1 == k.1 implies #[trigger] r[i].2 <= v by {
                if i < n {
                    assert(p[i] == r[i]);
                }
            }
        }
    }
}

/// Merging `a` and then `b` is merging `a + b`.
pub proof fn lemma_merge_concat(kb: Map<(usize, usize), u64>, a: Seq<(usize, usize, u64)>, b: Seq<(usize, usize, u64)>)
    ensures
        merge_all(merge_all(kb, a), b) == merge_all(kb, a + b),
    decreases b.len(),
{
    if b.len() == 0 {
        assert(a + b =~= a);
    } else {
        lemma_merge_concat(kb, a, b.drop_last());
        assert((a + b).drop_last() =~= a + b.drop_last());
        assert((a + b).last() == b.last());
    }
}

/// A report merged a second time changes nothing.
pub proof fn lemma_merge_report_idempotent(kb: Map<(usize, usize), u64>, k: (usize, usize), t: u64)
    ensures
        merge_one(merge_one(kb, k, t), k, t) == merge_one(kb, k, t),
{
}

/// Merging the same reports twice leaves the knowledge as the first merge left it.
pub proof fn lemma_merge_idempotent(kb: Map<(usize, usize), u64>, r: Seq<(usize, usize, u64)>)
    ensures
        merge_all(merge_all(kb, r), r) == merge_all(kb, r),
{
    let m = merge_all(kb, r);
    let m2 = merge_all(m, r);
    assert forall|k: (usize, usize)| m2.contains_key(k) <==> m.contains_key(k) by {
        lemma_merge_keeps_latest(kb, r, k);
        lemma_merge_keeps_latest(m, r, k);
    }
    assert forall|k: (usize, usize)| m2.contains_key(k) implies m2[k] == m[k] by {
        lemma_merge_keeps_latest(kb, r, k);
        lemma_merge_keeps_latest(m, r, k);
        if !(m.contains_key(k) && m[k] == m2[k]) {
            let i = choose|i: int| 0 <= i < r.len() && r[i] == (k.0, k.1, m2[k]);
            assert(r[i].2 <= m[k]);
        }
    }
    assert(m2 =~= m);
}

/// Two robots' reports merged in either order give the same knowledge.
pub proof fn lemma_merge_order_irrelevant(
    kb: Map<(usize, usize), u64>,
    r1: Seq<(usize, usize, u64)>,
    r2: Seq<(usize, usize, u64)>,
)
    ensures
        merge_all(merge_all(kb, r1), r2) == merge_all(merge_all(kb, r2), r1),
{
    let a1 = merge_all(kb, r1);
    let a = merge_all(a1, r2);
    let b1 = merge_all(kb, r2);
    let b = merge_all(b1, r1);
    assert forall|k: (usize, usize)| a.contains_key(k) <==> b.contains_key(k) by {
        lemma_merge_keeps_latest(kb, r1, k);
        lemma_merge_keeps_latest(a1, r2, k);
        lemma_merge_keeps_latest(kb, r2, k);
        lemma_merge_keeps_latest(b1, r1, k);
    }
    assert forall|k: (usize, usize)| a.contains_key(k) implies a[k] == b[k] by {
        lemma_merge_keeps_latest(kb, r1, k);
        lemma_merge_keeps_latest(a1, r2, k);
        lemma_merge_keeps_latest(kb, r2, k);
        lemma_merge_keeps_latest(b1, r1, k);
        // a[k] comes from kb, r1 or r2, and b[k] covers all three; and back.
        lemma_sourced_below(kb, r1, r2, k, a[k], b[k]);
        lemma_sourced_below(kb, r2, r1, k, b[k], a[k]);
    }
    assert(a =~= b);
}

/// A time that comes from `kb`, `r1` or `r2` is at most any time that covers
/// all three, the first two as merged into `merge_all(kb, r1)`.
proof fn lemma_sourced_below(
    kb: Map<(usize, usize), u64>,
    r1: Seq<(usize, usize, u64)>,
    r2: Seq<(usize, usize, u64)>,
    k: (usize, usize),
    v: u64,
    w: u64,
)
    requires
        merge_all(merge_all(kb, r1), r2).contains_key(k),
        v == merge_all(merge_all(kb, r1), r2)[k],
        merge_all(merge_all(kb, r2), r1).contains_key(k),
        w == merge_all(merge_all(kb, r2), r1)[k],
    ensures
        v <= w,
{
    let a1 = merge_all(kb, r1);
    let b1 = merge_all(kb, r2);
    lemma_merge_keeps_latest(kb, r1, k);
    lemma_merge_keeps_latest(a1, r2, k);
    lemma_merge_keeps_latest(kb, r2, k);
    lemma_merge_keeps_latest(b1, r1, k);
    if a1.contains_key(k) && a1[k] == v {
        if kb.contains_key(k) && kb[k] == v {
            assert(b1.contains_key(k));
        } else {
            let i = choose|i: int| 0 <= i < r1.len() && r1[i] == (k.0, k.1, v);
            assert(r1[i].2 <= w);
        }
    } else {
        let i = choose|i: int| 0 <= i < r2.len() && r2[i] == (k.0, k.1, v);
        assert(r2[i].0 == k.0 && r2[i].1 == k.1);
        assert(b1.contains_key(k));
        assert(r2[i].2 <= b1[k]);
    }
}

/// The reports of `robot` from `map`; see [`reports_from`].
pub fn report(robot: &Robot, map: &Grid) -> (r: Vec<(usize, usize, u64)>)
    requires
        map.wf(),
    ensures
        r@ == reports_from(map, robot.known_tiles@),
{
    let mut r: Vec<(usize, usize, u64)> = Vec::new();
    let mut i: usize = 0;
    while i < robot.known_tiles.len()
        invariant
            map.wf(),
            i <= robot.known_tiles@.len(),
            r@ == reports_from(map, robot.known_tiles@.subrange(0, i as int)),
        decreases robot.known_tiles@.len() - i,
    {
        let (x, y) = robot.known_tiles[i];
        proof {
            let k = robot.known_tiles@.subrange(0, i + 1);
            assert(k.drop_last() =~= robot.known_tiles@.subrange(0, i as int));
        }
        if let Some(t) = map.tile_at(x, y) {
            if t.explored {
                r.push((x, y, t.timestamp));
            }
        }
        i = i + 1;
    }
    proof {
        assert(robot.known_tiles@.subrange(0, i as int) =~= robot.known_tiles@);
    }
    r
}

impl Station {
    /// Merges the reports in order; see [`Station::merge_report`].
    pub fn merge_knowledge(&mut self, reports: &Vec<(usize, usize, u64)>)
        requires
            old(self).wf(),
        ensures
            final(self).wf(),
            final(self).knowledge() == merge_all(old(self).knowledge(), reports@),
            final(self).position == old(self).position,
            final(self).energy == old(self).energy,
            final(self).robots@ == old(self).robots@,
    {
        let mut i: usize = 0;
        while i < reports.len()
            invariant
                self.wf(),
                i <= reports@.len(),
                self.knowledge() == merge_all(old(self).knowledge(), reports@.subrange(0, i as int)),
                self.position == old(self).position,
                self.energy == old(self).energy,
                self.robots@ == old(self).robots@,
            decreases reports@.len() - i,
        {
            let (x, y, t) = reports[i];
            proof {
                let k = reports@.subrange(0, i + 1);
                assert(k.drop_last() =~= reports@.subrange(0, i as int));
            }
            self.merge_report(x, y, t);
            i = i + 1;
        }
        proof {
            assert(reports@.subrange(0, i as int) =~= reports@);
        }
    }

    /// Merges what `robot` observed: each tile it recorded that `map` shows
    /// explored, with the tile's time.
    pub fn collect_data(&mut self, robot: &Robot, map: &Grid)
        requires
            old(self).wf(),
            map.wf(),
        ensures
            final(self).wf(),
            final(self).knowledge() == merge_all(old(self).knowledge(), reports_from(map, robot.known_tiles@)),
            final(self).position == old(self).position,
            final(self).energy == old(self).energy,
            final(self).robots@ == old(self).robots@,
    {
        let reports = report(robot, map);
        self.merge_knowledge(&reports);
    }

    /// Builds a robot with full energy and adds it to the roster; returns an
    /// equal robot.
    pub fn create_robot(&mut self, id: usize, position: (usize, usize), module: Module, behavior: Behavior) -> (r: Robot)
        ensures
            final(self).robots@.len() == old(self).robots@.len() + 1,
            final(self).robots@.subrange(0, old(self).robots@.len() as int) == old(self).robots@,
            final(self).robots@.last().id == id,
            final(self).robots@.last().position == position,
            final(self).robots@.last().energy == INITIAL_ROBOT_ENERGY,
            final(self).robots@.last().module == module,
            final(self).robots@.last().behavior == behavior,
            final(self).robots@.last().known_tiles@.len() == 0,
            r.id == id,
            r.position == position,
            r.energy == INITIAL_ROBOT_ENERGY,
            r.module == module,
            r.behavior == behavior,
            r.known_tiles@.len() == 0,
            final(self).position == old(self).position,
            final(self).energy == old(self).energy,
            final(self).known_tiles@ == old(self).known_tiles@,
            old(self).wf() && !has_id(old(self).robots@, id) ==> final(self).wf(),
    {
        self.robots.push(Robot::new(id, position, INITIAL_ROBOT_ENERGY, module, behavior));
        proof {
            let q = self.robots@;
            let o = old(self).robots@;
            assert(q.subrange(0, o.len() as int) =~= o);
            if old(self).wf() && !has_id(o, id) {
                assert forall|i: int, j: int| 0 <= i < q.len() && 0 <= j < q.len() && i != j implies #[trigger] q[i].id
                    != #[trigger] q[j].id by {
                    if i < o.len() && j < o.len() {
                        assert(q[i] == o[i] && q[j] == o[j]);
                    } else if i < o.len() {
                        assert(q[i] == o[i]);
                    } else {
                        assert(q[j] == o[j]);
                    }
                }
            }
        }
        Robot::new(id, position, INITIAL_ROBOT_ENERGY, module, behavior)
    }

    /// Records every tile the station knows in `robot`'s list, in the
    /// station's order.
    pub fn share_data(&self, robot: &mut Robot)
        ensures
            final(robot).known_tiles@ == remember_all(old(robot).known_tiles@, self.known_tiles@),
            final(robot).id == old(robot).id,
            final(robot).position == old(robot).position,
            final(robot).energy == old(robot).energy,
            final(robot).module == old(robot).module,
            final(robot).behavior == old(robot).behavior,
    {
        let mut i: usize = 0;
        while i < self.known_tiles.len()
            invariant
                i <= self.known_tiles@.len(),
                robot.known_tiles@ == remember_all(old(robot).known_tiles@, self.known_tiles@.subrange(0, i as int)),
                robot.id == old(robot).id,
                robot.position == old(robot).position,
                robot.energy == old(robot).energy,
                robot.module == old(robot).module,
                robot.behavior == old(robot).behavior,
            decreases self.known_tiles@.len() - i,
        {
            let e = self.known_tiles[i];
            proof {
                let k = self.known_tiles@.subrange(0, i + 1);
                assert(k.drop_last() =~= self.known_tiles@.subrange(0, i as int));
            }
            robot.mark_tile_as_known(e.x, e.y);
            i = i + 1;
        }
        proof {
            assert(self.known_tiles@.subrange(0, i as int) =~= self.known_tiles@);
        }
    }

    pub fn add_energy(&mut self, amount: u32)
        requires
            old(self).energy + amount <= u32::MAX,
        ensures
            final(self).energy == old(self).energy + amount,
            final(self).position == old(self).position,
            final(self).robots@ == old(self).robots@,
            final(self).known_tiles@ == old(self).known_tiles@,
    {
        self.energy = self.energy + amount;
    }

    /// The id one above the largest of the roster (1 for an empty roster).
    pub fn next_robot_id(&self) -> (id: usize)
        requires
            forall|i: int| 0 <= i < self.robots@.len() ==> #[trigger] self.robots@[i].id < usize::MAX,
        ensures
            id == max_id(self.robots@) + 1,
            !has_id(self.robots@, id),
    {
        let mut m: usize = 0;
        let mut i: usize = 0;
        proof {
            assert(self.robots@.subrange(0, 0) =~= Seq::<Robot>::empty());
        }
        while i < self.robots.len()
            invariant
                i <= self.robots@.len(),
                forall|k: int| 0 <= k < self.robots@.len() ==> #[trigger] self.robots@[k].id < usize::MAX,
                m == max_id(self.robots@.subrange(0, i as int)),
                m < usize::MAX,
            decreases self.robots@.len() - i,
        {
            proof {
                let pre = self.robots@.subrange(0, i + 1);
                assert(pre.drop_last() =~= self.robots@.subrange(0, i as int));
            }
            let k = self.robots[i].id;
            if k > m {
                m = k;
            }
            i = i + 1;
        }
        proof {
            assert(self.robots@.subrange(0, i as int) =~= self.robots@);
            lemma_max_id_bounds(self.robots@);
        }
        m + 1
    }

    /// When the station holds at least [`SPAWN_COST`], spends it on a new
    /// exploring robot with imaging, placed on the station, whose id is one
    /// above the largest id of the roster, so that it is taken by no other
    /// robot. Returns whether a robot was built.
    pub fn spawn_if_affordable(&mut self) -> (built: bool)
        requires
            forall|i: int| 0 <= i < old(self).robots@.len() ==> #[trigger] old(self).robots@[i].id < usize::MAX,
        ensures
            built == (old(self).energy >= SPAWN_COST),
            built ==> {
                &&& final(self).energy == old(self).energy - SPAWN_COST
                &&& final(self).robots@.len() == old(self).robots@.len() + 1
                &&& final(self).robots@.subrange(0, old(self).robots@.len() as int) == old(self).robots@
                &&& final(self).robots@.last().id == max_id(old(self).robots@) + 1
                &&& !has_id(old(self).robots@, final(self).robots@.last().id)
                &&& final(self).robots@.last().position == old(self).position
                &&& final(self).robots@.last().energy == INITIAL_ROBOT_ENERGY
                &&& final(self).robots@.last().module == Module::Imaging
                &&& final(self).robots@.last().behavior == Behavior::Exploration
                &&& final(self).robots@.last().known_tiles@.len() == 0
            },
            !built ==> final(self).energy == old(self).energy && final(self).robots@ == old(self).robots@,
            final(self).position == old(self).position,
            final(self).known_tiles@ == old(self).known_tiles@,
            old(self).wf() ==> final(self).wf(),
    {
        if self.energy < SPAWN_COST {
            return false;
        }
        let id = self.next_robot_id();
        let position = self.position;
        let _ = self.create_robot(id, position, Module::Imaging, Behavior::Exploration);
        self.energy = self.energy - SPAWN_COST;
        true
    }

    /// Recharges the robot `id` if it stands on the station.
    pub fn refill(&mut self, id: usize) -> (r: Result<(), StationError>)
        ensures
            match r {
                Ok(()) => exists|i: int| {
                    &&& 0 <= i < old(self).robots@.len()
                    &&& old(self).robots@[i].id == id
                    &&& old(self).robots@[i].position == old(self).position
                    &&& (forall|j: int| 0 <= j < i ==> old(self).robots@[j].id != id)
                    &&& final(self).robots@ == old(self).robots@.update(i, Robot {
                        energy: RECHARGE,
                        ..old(self).robots@[i]
                    })
                },
                Err(e) => *final(self) == *old(self) && match e {
                    StationError::UnknownRobot => forall|j: int|
                        0 <= j < old(self).robots@.len() ==> old(self).robots@[j].id != id,
                    StationError::InvalidRefill => exists|i: int| {
                        &&& 0 <= i < old(self).robots@.len()
                        &&& old(self).robots@[i].id == id
                        &&& old(self).robots@[i].position != old(self).position
                        &&& forall|j: int| 0 <= j < i ==> old(self).robots@[j].id != id
                    },
                },
            },
            final(self).position == old(self).position,
            final(self).energy == old(self).energy,
            final(self).known_tiles@ == old(self).known_tiles@,
    {
        let mut i: usize = 0;
        while i < self.robots.len()
            invariant
                *self == *old(self),
                i <= self.robots@.len(),
                forall|j: int| 0 <= j < i ==> self.robots@[j].id != id,
            decreases self.robots@.len() - i,
        {
            if self.robots[i].id == id {
                let p = self.robots[i].position;
                if p.0 == self.position.0 && p.1 == self.position.1 {
                    self.robots[i].energy = RECHARGE;
                    proof {
                        assert(self.robots@ =~= old(self).robots@.update(i as int, Robot {
                            energy: RECHARGE,
                            ..old(self).robots@[i as int]
                        }));
                    }
                    return Ok(());
                }
                return Err(StationError::InvalidRefill);
            }
            i = i + 1;
        }
        Err(StationError::UnknownRobot)
    }
}

} // verus!
