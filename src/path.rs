//! Breadth-first search over the four-connected grid.
use crate::map::Grid;
use crate::tile::TileContent;
use vstd::prelude::*;

verus! {

/// Whether `a` and `b` are one step apart along a row or a column.
pub open spec fn adjacent(a: (usize, usize), b: (usize, usize)) -> bool {
    let dx = b.0 as int - a.0 as int;
    let dy = b.1 as int - a.1 as int;
    (dx == 0 && (dy == 1 || dy == -1)) || (dy == 0 && (dx == 1 || dx == -1))
}

/// The entry of `rows` at cell `c`, rows indexed by `c.1`.
pub open spec fn cell<T>(rows: Seq<Vec<T>>, c: (usize, usize)) -> T {
    rows[c.1 as int]@[c.0 as int]
}

/// Whether `rows` has `height` rows of `width` entries.
pub open spec fn shaped<T>(rows: Seq<Vec<T>>, width: int, height: int) -> bool {
    &&& rows.len() == height
    &&& forall|y: int| 0 <= y < height ==> #[trigger] rows[y]@.len() == width
}

/// Number of `false` entries of a row.
pub open spec fn row_unseen(r: Seq<bool>) -> nat
    decreases r.len(),
{
    if r.len() == 0 {
        0
    } else {
        row_unseen(r.drop_last()) + if r.last() {
            0nat
        } else {
            1nat
        }
    }
}

/// Number of `false` entries over all rows.
pub open spec fn rows_unseen(rows: Seq<Vec<bool>>) -> nat
    decreases rows.len(),
{
    if rows.len() == 0 {
        0
    } else {
        rows_unseen(rows.drop_last()) + row_unseen(rows.last()@)
    }
}

proof fn lemma_row_unseen_mark(r: Seq<bool>, i: int)
    requires
        0 <= i < r.len(),
        !r[i],
    ensures
        row_unseen(r.update(i, true)) + 1 == row_unseen(r),
    decreases r.len(),
{
    let u = r.update(i, true);
    if i == r.len() - 1 {
        assert(u.drop_last() =~= r.drop_last());
    } else {
        assert(u.drop_last() =~= r.drop_last().update(i, true));
        lemma_row_unseen_mark(r.drop_last(), i);
    }
}

proof fn lemma_rows_unseen_mark(rows: Seq<Vec<bool>>, after: Seq<Vec<bool>>, x: int, y: int)
    requires
        0 <= y < rows.len(),
        0 <= x < rows[y]@.len(),
        !rows[y]@[x],
        after.len() == rows.len(),
        after[y]@ == rows[y]@.update(x, true),
        forall|j: int| 0 <= j < rows.len() && j != y ==> after[j]@ == rows[j]@,
    ensures
        rows_unseen(after) + 1 == rows_unseen(rows),
    decreases rows.len(),
{
    if y == rows.len() - 1 {
        lemma_row_unseen_mark(rows[y]@, x);
        lemma_rows_unseen_same(rows.drop_last(), after.drop_last());
    } else {
        lemma_rows_unseen_mark(rows.drop_last(), after.drop_last(), x, y);
    }
}

proof fn lemma_rows_unseen_same(a: Seq<Vec<bool>>, b: Seq<Vec<bool>>)
    requires
        a.len() == b.len(),
        forall|j: int| 0 <= j < a.len() ==> #[trigger] a[j]@ == b[j]@,
    ensures
        rows_unseen(a) == rows_unseen(b),
    decreases a.len(),
{
    if a.len() > 0 {
        lemma_rows_unseen_same(a.drop_last(), b.drop_last());
    }
}

impl Grid {
    pub open spec fn has_cell(&self, c: (usize, usize)) -> bool {
        self.in_bounds(c.0 as int, c.1 as int)
    }

    pub open spec fn open_cell(&self, c: (usize, usize)) -> bool {
        self.passable(c.0 as int, c.1 as int)
    }

    /// `p` leads from `start` to `goal` in single steps, each onto a passable
    /// cell, with `start` inside the grid.
    pub open spec fn is_route(&self, p: Seq<(usize, usize)>, start: (usize, usize), goal: (usize, usize)) -> bool {
        &&& p.len() >= 1
        &&& p[0] == start
        &&& p.last() == goal
        &&& self.has_cell(start)
        &&& forall|j: int| 1 <= j < p.len() ==> self.open_cell(#[trigger] p[j])
        &&& forall|j: int| 0 <= j < p.len() - 1 ==> adjacent(#[trigger] p[j], p[j + 1])
    }

    /// Some route leads from `start` to `goal`.
    pub open spec fn reachable(&self, start: (usize, usize), goal: (usize, usize)) -> bool {
        exists|p: Seq<(usize, usize)>| self.is_route(p, start, goal)
    }
}


/// The cell one step from `c` in direction `d` (down, right, up, left for
/// `d` = 0, 1, 2, 3), if it lies inside a `width` by `height` grid.
pub open spec fn step_spec(c: (usize, usize), d: int, width: int, height: int) -> Option<(usize, usize)> {
    if d == 0 {
        if c.1 + 1 < height { Some((c.0, (c.1 + 1) as usize)) } else { None }
    } else if d == 1 {
        if c.0 + 1 < width { Some(((c.0 + 1) as usize, c.1)) } else { None }
    } else if d == 2 {
        if c.1 > 0 { Some((c.0, (c.1 - 1) as usize)) } else { None }
    } else {
        if c.0 > 0 { Some(((c.0 - 1) as usize, c.1)) } else { None }
    }
}

/// The neighbour of `c` in direction `d`, in the fixed visiting order down,
/// right, up, left.
pub fn step(c: (usize, usize), d: usize, width: usize, height: usize) -> (r: Option<(usize, usize)>)
    requires
        c.0 < width,
        c.1 < height,
    ensures
        r == step_spec(c, d as int, width as int, height as int),
{
    if d == 0 {
        if c.1 + 1 < height { Some((c.0, c.1 + 1)) } else { None }
    } else if d == 1 {
        if c.0 + 1 < width { Some((c.0 + 1, c.1)) } else { None }
    } else if d == 2 {
        if c.1 > 0 { Some((c.0, c.1 - 1)) } else { None }
    } else {
        if c.0 > 0 { Some((c.0 - 1, c.1)) } else { None }
    }
}

proof fn lemma_steps_cover(c: (usize, usize), n: (usize, usize), width: int, height: int)
    requires
        adjacent(c, n),
        n.0 < width,
        n.1 < height,
    ensures
        step_spec(c, 0, width, height) == Some(n) || step_spec(c, 1, width, height) == Some(n)
            || step_spec(c, 2, width, height) == Some(n) || step_spec(c, 3, width, height) == Some(n),
{
}

proof fn lemma_route_prefix(g: &Grid, r: Seq<(usize, usize)>, start: (usize, usize), goal: (usize, usize), k: int)
    requires
        g.is_route(r, start, goal),
        0 <= k < r.len(),
    ensures
        g.is_route(r.subrange(0, k + 1), start, r[k]),
{
    let p = r.subrange(0, k + 1);
    assert forall|j: int| 0 <= j < p.len() - 1 implies adjacent(#[trigger] p[j], p[j + 1]) by {
        assert(adjacent(r[j], r[j + 1]));
    }
    assert forall|j: int| 1 <= j < p.len() implies g.open_cell(#[trigger] p[j]) by {
        assert(g.open_cell(r[j]));
    }
}

/// The state of one search: which cells were reached, from where, at what
/// distance, and the queue of reached cells in the order they were reached.
struct Search {
    seen: Vec<Vec<bool>>,
    from: Vec<Vec<(usize, usize)>>,
    dist: Vec<Vec<usize>>,
    queue: Vec<(usize, usize)>,
}

/// A `width` by `height` array holding `v` everywhere.
fn filled<T: Copy>(width: usize, height: usize, v: T) -> (r: Vec<Vec<T>>)
    ensures
        shaped(r@, width as int, height as int),
        forall|x: int, y: int| 0 <= x < width && 0 <= y < height ==> #[trigger] r@[y]@[x] == v,
{
    let mut r: Vec<Vec<T>> = Vec::new();
    let mut y: usize = 0;
    while y < height
        invariant
            y <= height,
            r@.len() == y,
            forall|j: int| 0 <= j < y ==> #[trigger] r@[j]@.len() == width,
            forall|x: int, j: int| 0 <= x < width && 0 <= j < y ==> #[trigger] r@[j]@[x] == v,
        decreases height - y,
    {
        let mut row: Vec<T> = Vec::new();
        let mut x: usize = 0;
        while x < width
            invariant
                x <= width,
                row@.len() == x,
                forall|i: int| 0 <= i < x ==> #[trigger] row@[i] == v,
            decreases width - x,
        {
            row.push(v);
            x = x + 1;
        }
        r.push(row);
        y = y + 1;
    }
    r
}

impl Search {
    spec fn parent_ok(&self, g: &Grid, c: (usize, usize)) -> bool {
        let p = cell(self.from@, c);
        &&& g.has_cell(p)
        &&& cell(self.seen@, p)
        &&& cell(self.dist@, p) + 1 == cell(self.dist@, c)
        &&& adjacent(p, c)
        &&& g.open_cell(c)
    }

    /// The search started at `start`, and the first `done` queued cells have
    /// had all their passable neighbours reached.
    #[verifier::opaque]
    spec fn inv(&self, g: &Grid, start: (usize, usize), done: int) -> bool {
        let q = self.queue@;
        &&& g.wf()
        &&& shaped(self.seen@, g.width as int, g.height as int)
        &&& shaped(self.from@, g.width as int, g.height as int)
        &&& shaped(self.dist@, g.width as int, g.height as int)
        &&& g.has_cell(start)
        &&& q.len() >= 1
        &&& q[0] == start
        &&& 0 <= done <= q.len()
        &&& cell(self.seen@, start)
        &&& cell(self.dist@, start) == 0
        &&& forall|i: int|
            0 <= i < q.len() ==> g.has_cell(#[trigger] q[i]) && cell(self.seen@, q[i]) && cell(
                self.dist@,
                q[i],
            ) <= i
        &&& forall|c: (usize, usize)|
            g.has_cell(c) && #[trigger] cell(self.seen@, c) ==> exists|i: int|
                0 <= i < q.len() && q[i] == c
        &&& forall|c: (usize, usize)|
            g.has_cell(c) && #[trigger] cell(self.seen@, c) && c != start ==> self.parent_ok(g, c)
        &&& forall|i: int, n: (usize, usize)|
            0 <= i < done && #[trigger] adjacent(q[i], n) && g.open_cell(n) ==> cell(self.seen@, n)
    }

    /// Distances never decrease along the queue, and none exceeds the
    /// distance of the cell at index `done` by more than one.
    #[verifier::opaque]
    spec fn sorted(&self, done: int) -> bool {
        let q = self.queue@;
        &&& forall|i: int, j: int|
            0 <= i <= j < q.len() ==> cell(self.dist@, #[trigger] q[i]) <= cell(self.dist@, #[trigger] q[j])
        &&& done < q.len() ==> forall|j: int|
            0 <= j < q.len() ==> cell(self.dist@, #[trigger] q[j]) <= cell(self.dist@, q[done]) + 1
    }

    /// No route to a reached cell is shorter than its recorded distance.
    #[verifier::opaque]
    spec fn minimal(&self, g: &Grid, start: (usize, usize)) -> bool {
        forall|c: (usize, usize), r: Seq<(usize, usize)>|
            g.has_cell(c) && cell(self.seen@, c) && #[trigger] g.is_route(r, start, c) ==> cell(self.dist@, c)
                <= r.len() - 1
    }

    /// Reaches `next` from the queued cell at index `done`, unless it is
    /// blocked or already reached.
    fn visit(&mut self, g: &Grid, start: Ghost<(usize, usize)>, done: usize, next: (usize, usize))
        requires
            old(self).inv(g, start@, done as int),
            old(self).sorted(done as int),
            old(self).minimal(g, start@),
            done < old(self).queue@.len(),
            g.has_cell(next),
            adjacent(old(self).queue@[done as int], next),
        ensures
            final(self).inv(g, start@, done as int),
            final(self).sorted(done as int),
            final(self).minimal(g, start@),
            final(self).queue@.len() >= old(self).queue@.len(),
            final(self).queue@.subrange(0, old(self).queue@.len() as int) == old(self).queue@,
            rows_unseen(final(self).seen@) + final(self).queue@.len() - old(self).queue@.len()
                == rows_unseen(old(self).seen@),
            g.open_cell(next) ==> cell(final(self).seen@, next),
            forall|c: (usize, usize)|
                g.has_cell(c) && cell(old(self).seen@, c) ==> #[trigger] cell(final(self).seen@, c),
    {
        proof {
            reveal(Search::inv);
        }
        let cur = self.queue[done];
        let (nx, ny) = next;
        proof {
            assert(g.grid()[ny as int].len() == g.width);
            assert(cell(self.dist@, cur) <= done);
        }
        let qlen = self.queue.len();
        let blocked = match g.tiles[ny][nx].content {
            TileContent::Obstacle => true,
            _ => false,
        };
        if blocked || self.seen[ny][nx] {
            return;
        }
        let dc = self.dist[cur.1][cur.0];
        assert(dc <= done);
        assert(done < qlen);
        let d = dc + 1;
        let ghost prev = *self;
        self.seen[ny][nx] = true;
        self.from[ny][nx] = cur;
        self.dist[ny][nx] = d;
        self.queue.push(next);
        proof {
            lemma_rows_unseen_mark(prev.seen@, self.seen@, nx as int, ny as int);
            assert(self.queue@.subrange(0, prev.queue@.len() as int) =~= prev.queue@);
            assert forall|c: (usize, usize)| g.has_cell(c) && c != next implies cell(self.seen@, c)
                == cell(prev.seen@, c) && cell(self.from@, c) == cell(prev.from@, c) && #[trigger] cell(self.dist@, c)
                == cell(prev.dist@, c) by {
                if c.1 == ny {
                    assert(c.0 != nx);
                }
            }
            lemma_push_keeps_inv(&prev, self, g, start@, done as int, next);
            lemma_push_keeps_order(&prev, self, g, start@, done as int, next);
        }
    }
}

/// Reaching the unseen passable cell `next` from the cell at index `done`
/// keeps the search invariant.
proof fn lemma_push_keeps_inv(a: &Search, b: &Search, g: &Grid, start: (usize, usize), done: int, next: (usize, usize))
    requires
        a.inv(g, start, done),
        0 <= done < a.queue@.len(),
        g.has_cell(next),
        g.open_cell(next),
        !cell(a.seen@, next),
        adjacent(a.queue@[done], next),
        shaped(b.seen@, g.width as int, g.height as int),
        shaped(b.from@, g.width as int, g.height as int),
        shaped(b.dist@, g.width as int, g.height as int),
        cell(b.seen@, next),
        cell(b.from@, next) == a.queue@[done],
        cell(b.dist@, next) == cell(a.dist@, a.queue@[done]) + 1,
        forall|c: (usize, usize)| g.has_cell(c) && c != next ==> #[trigger] cell(b.seen@, c) == cell(a.seen@, c),
        forall|c: (usize, usize)| g.has_cell(c) && c != next ==> #[trigger] cell(b.from@, c) == cell(a.from@, c),
        forall|c: (usize, usize)| g.has_cell(c) && c != next ==> #[trigger] cell(b.dist@, c) == cell(a.dist@, c),
        b.queue@ == a.queue@.push(next),
    ensures
        b.inv(g, start, done),
{
    reveal(Search::inv);
    let q = b.queue@;
    let qa = a.queue@;
    let cur = qa[done];
    let dn = cell(a.dist@, cur) + 1;
    assert(g.has_cell(cur) && cell(a.seen@, cur));
    assert(next != start);
    assert forall|i: int| 0 <= i < q.len() implies g.has_cell(#[trigger] q[i]) && cell(b.seen@, q[i]) && cell(
        b.dist@,
        q[i],
    ) <= i by {
        if i < qa.len() {
            assert(q[i] == qa[i]);
            assert(qa[i] != next);
        }
    }
    assert forall|c: (usize, usize)| g.has_cell(c) && #[trigger] cell(b.seen@, c) implies exists|i: int|
        0 <= i < q.len() && q[i] == c by {
        if c == next {
            assert(q[q.len() - 1] == c);
        } else {
            let i = choose|i: int| 0 <= i < qa.len() && qa[i] == c;
            assert(q[i] == c);
        }
    }
    assert forall|c: (usize, usize)| g.has_cell(c) && #[trigger] cell(b.seen@, c) && c != start implies b.parent_ok(
        g,
        c,
    ) by {
        if c != next {
            assert(a.parent_ok(g, c));
            let p = cell(a.from@, c);
            assert(p != next);
        }
    }
    assert forall|i: int, n: (usize, usize)|
        0 <= i < done && #[trigger] adjacent(q[i], n) && g.open_cell(n) implies cell(b.seen@, n) by {
        assert(q[i] == qa[i]);
    }
}

/// The same step keeps distances ordered along the queue and minimal.
proof fn lemma_push_keeps_order(a: &Search, b: &Search, g: &Grid, start: (usize, usize), done: int, next: (usize, usize))
    requires
        a.inv(g, start, done),
        a.sorted(done),
        a.minimal(g, start),
        0 <= done < a.queue@.len(),
        g.has_cell(next),
        !cell(a.seen@, next),
        cell(b.seen@, next),
        cell(b.dist@, next) == cell(a.dist@, a.queue@[done]) + 1,
        forall|c: (usize, usize)| g.has_cell(c) && c != next ==> #[trigger] cell(b.seen@, c) == cell(a.seen@, c),
        forall|c: (usize, usize)| g.has_cell(c) && c != next ==> #[trigger] cell(b.from@, c) == cell(a.from@, c),
        forall|c: (usize, usize)| g.has_cell(c) && c != next ==> #[trigger] cell(b.dist@, c) == cell(a.dist@, c),
        b.queue@ == a.queue@.push(next),
    ensures
        b.sorted(done),
        b.minimal(g, start),
{
    reveal(Search::sorted);
    reveal(Search::minimal);
    let q = b.queue@;
    let qa = a.queue@;
    assert forall|i: int| 0 <= i < qa.len() implies g.has_cell(#[trigger] qa[i]) && qa[i] != next by {
        reveal(Search::inv);
    }
    assert forall|i: int, j: int| 0 <= i <= j < q.len() implies cell(b.dist@, #[trigger] q[i]) <= cell(
        b.dist@,
        #[trigger] q[j],
    ) by {
        if j < qa.len() {
            assert(q[i] == qa[i] && q[j] == qa[j]);
            assert(qa[i] != next && qa[j] != next);
        } else if i < qa.len() {
            assert(q[i] == qa[i]);
            assert(qa[i] != next);
            assert(cell(a.dist@, qa[i]) <= cell(a.dist@, qa[done]) + 1);
        }
    }
    assert forall|j: int| 0 <= j < q.len() implies cell(b.dist@, #[trigger] q[j]) <= cell(b.dist@, q[done]) + 1 by {
        assert(q[done] == qa[done]);
        if j < qa.len() {
            assert(q[j] == qa[j]);
            assert(qa[j] != next);
        }
    }
    assert forall|c: (usize, usize), r: Seq<(usize, usize)>|
        g.has_cell(c) && cell(b.seen@, c) && #[trigger] g.is_route(r, start, c) implies cell(b.dist@, c) <= r.len()
        - 1 by {
        if c == next {
            if r.len() - 1 <= cell(a.dist@, qa[done]) {
                lemma_near_cells_seen(a, g, start, done, c, r);
            }
        } else {
            assert(cell(a.seen@, c));
        }
    }
}

impl Search {
    /// The route to a reached `goal`, read back along the recorded parents.
    fn route(&self, g: &Grid, start: Ghost<(usize, usize)>, done: Ghost<int>, goal: (usize, usize)) -> (r: Vec<(usize, usize)>)
        requires
            self.inv(g, start@, done@),
            self.minimal(g, start@),
            0 <= done@ < self.queue@.len(),
            self.queue@[done@] == goal,
        ensures
            g.is_route(r@, start@, goal),
            forall|q: Seq<(usize, usize)>| g.is_route(q, start@, goal) ==> r@.len() <= q.len(),
    {
        proof {
            reveal(Search::inv);
            assert(g.has_cell(self.queue@[done@]));
        }
        let d = self.dist[goal.1][goal.0];
        proof {
            let i = choose|i: int| 0 <= i < self.queue@.len() && self.queue@[i] == goal;
            assert(cell(self.dist@, self.queue@[i]) <= i);
        }
        let qlen = self.queue.len();
        let mut path: Vec<(usize, usize)> = Vec::new();
        let mut k: usize = 0;
        while k <= d
            invariant
                d < qlen,
                k <= d + 1,
                path@.len() == k,
                forall|j: int| 0 <= j < k ==> path@[j] == goal,
            decreases d + 1 - k,
        {
            path.push(goal);
            k = k + 1;
        }
        let mut cur = goal;
        let mut i = d;
        while i > 0
            invariant
                self.inv(g, start@, done@),
                i <= d,
                path@.len() == d + 1,
                path@[d as int] == goal,
                path@[i as int] == cur,
                g.has_cell(cur),
                cell(self.seen@, cur),
                cell(self.dist@, cur) == i,
                forall|j: int| i <= j < d ==> adjacent(#[trigger] path@[j], path@[j + 1]),
                forall|j: int| i < j <= d ==> g.open_cell(#[trigger] path@[j]),
            decreases i,
        {
            proof {
                reveal(Search::inv);
            }
            assert(self.parent_ok(g, cur));
            let p = self.from[cur.1][cur.0];
            path.set(i - 1, p);
            proof {
                assert(g.open_cell(path@[i as int]));
                assert(adjacent(path@[i - 1], path@[i as int]));
            }
            cur = p;
            i = i - 1;
        }
        proof {
            if cur != start@ {
                assert(self.parent_ok(g, cur));
            }
            reveal(Search::minimal);
            assert(cell(self.seen@, goal));
        }
        path
    }
}

/// While the cell at index `done` is being expanded, every cell with a route
/// no longer than that cell's distance has already been reached.
proof fn lemma_near_cells_seen(
    s: &Search,
    g: &Grid,
    start: (usize, usize),
    done: int,
    c: (usize, usize),
    r: Seq<(usize, usize)>,
)
    requires
        s.inv(g, start, done),
        s.sorted(done),
        s.minimal(g, start),
        done < s.queue@.len(),
        g.is_route(r, start, c),
        r.len() - 1 <= cell(s.dist@, s.queue@[done]),
    ensures
        g.has_cell(c),
        cell(s.seen@, c),
    decreases r.len(),
{
    reveal(Search::inv);
    reveal(Search::sorted);
    reveal(Search::minimal);
    if r.len() > 1 {
        let k = r.len() - 1;
        let pr = r.subrange(0, k);
        lemma_route_prefix(g, r, start, c, k - 1);
        assert(pr =~= r.subrange(0, k - 1 + 1));
        let p = r[k - 1];
        lemma_near_cells_seen(s, g, start, done, p, pr);
        assert(g.is_route(pr, start, p));
        assert(cell(s.dist@, p) <= pr.len() - 1);
        let i = choose|i: int| 0 <= i < s.queue@.len() && s.queue@[i] == p;
        if i >= done {
            assert(cell(s.dist@, s.queue@[done]) <= cell(s.dist@, s.queue@[i]));
        }
        assert(adjacent(r[k - 1], r[k]));
        assert(adjacent(s.queue@[i], c));
        assert(g.open_cell(r[k]));
    }
}

proof fn lemma_route_stays_seen(
    s: &Search,
    g: &Grid,
    start: (usize, usize),
    goal: (usize, usize),
    p: Seq<(usize, usize)>,
    j: int,
)
    requires
        s.inv(g, start, s.queue@.len() as int),
        g.is_route(p, start, goal),
        0 <= j < p.len(),
    ensures
        g.has_cell(p[j]),
        cell(s.seen@, p[j]),
    decreases j,
{
    reveal(Search::inv);
    if j > 0 {
        lemma_route_stays_seen(s, g, start, goal, p, j - 1);
        let c = p[j - 1];
        let i = choose|i: int| 0 <= i < s.queue@.len() && s.queue@[i] == c;
        assert(adjacent(p[j - 1], p[j]));
        assert(adjacent(s.queue@[i], p[j]));
        assert(g.open_cell(p[j]));
    }
}

proof fn lemma_closed_search_unreachable(s: &Search, g: &Grid, start: (usize, usize), goal: (usize, usize))
    requires
        s.inv(g, start, s.queue@.len() as int),
        forall|i: int| 0 <= i < s.queue@.len() ==> s.queue@[i] != goal,
    ensures
        !g.reachable(start, goal),
{
    reveal(Search::inv);
    if g.has_cell(goal) && cell(s.seen@, goal) {
        let i = choose|i: int| 0 <= i < s.queue@.len() && s.queue@[i] == goal;
    }
    assert forall|p: Seq<(usize, usize)>| !g.is_route(p, start, goal) by {
        if g.is_route(p, start, goal) {
            lemma_route_stays_seen(s, g, start, goal, p, p.len() - 1);
        }
    }
}

impl Search {
    /// Reaches every passable neighbour of the queued cell at index `done`.
    fn expand(&mut self, g: &Grid, start: Ghost<(usize, usize)>, done: usize)
        requires
            old(self).inv(g, start@, done as int),
            old(self).sorted(done as int),
            old(self).minimal(g, start@),
            done < old(self).queue@.len(),
        ensures
            final(self).inv(g, start@, done + 1),
            final(self).sorted(done + 1),
            final(self).minimal(g, start@),
            final(self).queue@.len() >= old(self).queue@.len(),
            final(self).queue@.subrange(0, old(self).queue@.len() as int) == old(self).queue@,
            rows_unseen(final(self).seen@) + final(self).queue@.len() - old(self).queue@.len()
                == rows_unseen(old(self).seen@),
    {
        proof {
            reveal(Search::inv);
        }
        let head = done;
        let w = g.width;
        let h = g.height;
        let cur = self.queue[head];
        let ghost q0 = self.queue@;
        let ghost u0 = rows_unseen(self.seen@);
        let mut d: usize = 0;
        while d < 4
            invariant
                self.inv(g, start@, head as int),
                self.sorted(head as int),
                self.minimal(g, start@),
                head < q0.len(),
                cur == q0[head as int],
                w == g.width,
                h == g.height,
                g.has_cell(cur),
                d <= 4,
                self.queue@.len() >= q0.len(),
                self.queue@.subrange(0, q0.len() as int) == q0,
                rows_unseen(self.seen@) + self.queue@.len() - q0.len() == u0,
                forall|e: int|
                    0 <= e < d && (#[trigger] step_spec(cur, e, w as int, h as int)) is Some && g.open_cell(
                        step_spec(cur, e, w as int, h as int)->0,
                    ) ==> cell(self.seen@, step_spec(cur, e, w as int, h as int)->0),
            decreases 4 - d,
        {
            if let Some(n) = step(cur, d, w, h) {
                self.visit(g, start, head, n);
            }
            d = d + 1;
        }
        proof {
            let q = self.queue@;
            assert(q[head as int] == cur);
            reveal(Search::sorted);
            if head + 1 < q.len() {
                assert(cell(self.dist@, q[head as int]) <= cell(self.dist@, q[head + 1]));
            }
            assert forall|i: int, n: (usize, usize)|
                0 <= i < head + 1 && #[trigger] adjacent(q[i], n) && g.open_cell(n) implies cell(self.seen@, n) by {
                if i == head {
                    lemma_steps_cover(cur, n, w as int, h as int);
                } else {
                    assert(q[i] == q0[i]);
                }
            }
        }
    }
}

/// A shortest route from `start` to `goal` by breadth-first search, never
/// entering obstacles or leaving the grid; neighbours are tried down, right,
/// up, left. The route includes both ends. `None` when no route exists.
pub fn move_using_bfs(g: &Grid, start: (usize, usize), goal: (usize, usize)) -> (r: Option<Vec<(usize, usize)>>)
    requires
        g.wf(),
    ensures
        r is Some ==> g.is_route(r->0@, start, goal),
        r is Some ==> forall|q: Seq<(usize, usize)>| g.is_route(q, start, goal) ==> r->0@.len() <= q.len(),
        r is None ==> !g.reachable(start, goal),
{
    if !g.check_bounds(start.0, start.1) {
        return None;
    }
    let w = g.width;
    let h = g.height;
    let mut seen = filled(w, h, false);
    seen[start.1][start.0] = true;
    let mut queue: Vec<(usize, usize)> = Vec::new();
    queue.push(start);
    let mut s = Search { seen, from: filled(w, h, start), dist: filled(w, h, 0usize), queue };
    proof {
        reveal(Search::inv);
        reveal(Search::sorted);
        reveal(Search::minimal);
        assert forall|c: (usize, usize)| g.has_cell(c) && #[trigger] cell(s.seen@, c) implies c == start by {
            if c != start {
                if c.1 == start.1 {
                    assert(s.seen@[c.1 as int]@[c.0 as int] == false);
                }
            }
        }
        assert(s.queue@[0] == start);
    }
    let mut head: usize = 0;
    while head < s.queue.len()
        invariant
            s.inv(g, start, head as int),
            s.sorted(head as int),
            s.minimal(g, start),
            w == g.width,
            h == g.height,
            forall|i: int| 0 <= i < head ==> s.queue@[i] != goal,
        decreases rows_unseen(s.seen@), s.queue@.len() - head,
    {
        let ghost q0 = s.queue@;
        let cur = s.queue[head];
        if cur.0 == goal.0 && cur.1 == goal.1 {
            return Some(s.route(g, Ghost(start), Ghost(head as int), goal));
        }
        s.expand(g, Ghost(start), head);
        proof {
            assert forall|i: int| 0 <= i < head + 1 implies s.queue@[i] != goal by {
                assert(s.queue@[i] == q0[i]);
            }
        }
        head = head + 1;
    }
    proof {
        lemma_closed_search_unreachable(&s, g, start, goal);
    }
    None
}

} // verus!
