use vstd::prelude::*;

use crate::constdefs::MAX_DISTANCE;
use crate::playfield::{adjacent, cell_index, cell_point, in_grid, lemma_index_point, GridModel, Node, Point2d};

verus! {

/// The four neighbour directions, in the order the search tries them.
pub open spec fn unit_offset(k: int) -> (int, int) {
    if k == 0 {
        (-1, 0)
    } else if k == 1 {
        (1, 0)
    } else if k == 2 {
        (0, -1)
    } else {
        (0, 1)
    }
}

/// How many cells are still unvisited.
pub open spec fn count_unvisited(cells: Seq<Node>) -> nat
    decreases cells.len(),
{
    if cells.len() == 0 {
        0
    } else {
        count_unvisited(cells.drop_last()) + if cells.last().visited { 0nat } else { 1nat }
    }
}

impl GridModel {
    pub open spec fn with_cell(&self, i: int, n: Node) -> GridModel {
        GridModel { cells: self.cells.update(i, n), ..*self }
    }

    /// Cell `i` marked as visited.
    pub open spec fn settle(&self, i: int) -> GridModel {
        self.with_cell(i, Node { visited: true, ..self.cells[i] })
    }

    /// The cell at `p`, if unvisited, takes the path through `from`, whatever it held before.
    pub open spec fn relax(&self, from: Node, p: Point2d) -> GridModel {
        let n = self.at(p);
        if n.visited {
            *self
        } else {
            self.with_cell(
                self.index(p),
                Node { distance: (from.distance + n.penalty) as u64, predecessor: Some(from.my_pos), ..n },
            )
        }
    }

    /// Relaxes the neighbours of cell `i` in the directions `k` onwards, skipping those off the grid,
    /// and stops at the destination; the flag tells whether the destination was reached.
    pub open spec fn expand(&self, i: int, k: int) -> (GridModel, bool)
        decreases 4 - k,
    {
        if k >= 4 {
            (*self, false)
        } else {
            let c = self.cells[i];
            let nx = c.my_pos.x + unit_offset(k).0;
            let ny = c.my_pos.y + unit_offset(k).1;
            if !in_grid(self.width, self.height, nx, ny) {
                self.expand(i, k + 1)
            } else {
                let p = Point2d { x: nx as i64, y: ny as i64 };
                let next = self.relax(c, p);
                if p == self.destination {
                    (next, true)
                } else {
                    next.expand(i, k + 1)
                }
            }
        }
    }

    /// The index of the next cell to settle.
    pub open spec fn frontier(&self) -> int {
        choose|i: int| self.is_frontier(i)
    }

    /// One round of the search: settle the frontier cell and relax its neighbours.
    pub open spec fn step(&self) -> (GridModel, bool) {
        let i = self.frontier();
        self.settle(i).expand(i, 0)
    }

    /// Rounds of the search until the destination is reached, at most `fuel` of them.
    pub open spec fn run(&self, fuel: nat) -> GridModel
        decreases fuel,
    {
        if fuel == 0 {
            *self
        } else {
            let (next, done) = self.step();
            if done {
                next
            } else {
                next.run((fuel - 1) as nat)
            }
        }
    }

    /// The grid as the search leaves it: each round settles one cell, so the rounds
    /// are bounded by the unvisited cells.
    pub open spec fn searched(&self) -> GridModel {
        self.run(count_unvisited(self.cells))
    }
}

pub proof fn lemma_count_bound(cells: Seq<Node>)
    ensures
        count_unvisited(cells) <= cells.len(),
    decreases cells.len(),
{
    if cells.len() > 0 {
        lemma_count_bound(cells.drop_last());
    }
}

/// Replacing a cell changes the count only by the change of its visited flag.
pub proof fn lemma_count_update(cells: Seq<Node>, i: int, n: Node)
    requires
        0 <= i < cells.len(),
    ensures
        count_unvisited(cells.update(i, n)) + (if cells[i].visited { 0int } else { 1int })
            == count_unvisited(cells) + (if n.visited { 0int } else { 1int }),
    decreases cells.len(),
{
    let u = cells.update(i, n);
    if i == cells.len() - 1 {
        assert(u.drop_last() =~= cells.drop_last());
    } else {
        assert(u.drop_last() =~= cells.drop_last().update(i, n));
        lemma_count_update(cells.drop_last(), i, n);
    }
}

/// When nothing is visited, every cell counts.
pub proof fn lemma_count_all(cells: Seq<Node>)
    requires
        forall|i: int| 0 <= i < cells.len() ==> !(#[trigger] cells[i]).visited,
    ensures
        count_unvisited(cells) == cells.len(),
    decreases cells.len(),
{
    if cells.len() > 0 {
        lemma_count_all(cells.drop_last());
    }
}

/// An unvisited cell keeps the count above zero.
pub proof fn lemma_count_positive(cells: Seq<Node>, i: int)
    requires
        0 <= i < cells.len(),
        !cells[i].visited,
    ensures
        count_unvisited(cells) >= 1,
    decreases cells.len(),
{
    if i < cells.len() - 1 {
        lemma_count_positive(cells.drop_last(), i);
    }
}

/// At most one cell is the frontier.
pub proof fn lemma_frontier_unique(m: GridModel, i: int, j: int)
    requires
        m.is_frontier(i),
        m.is_frontier(j),
    ensures
        i == j,
{
    if i < j {
        assert(m.cells[j].distance < m.cells[i].distance);
    } else if j < i {
        assert(m.cells[i].distance < m.cells[j].distance);
    }
}

/// `steps` walks over the grid from `a` to `b`, one step left, right, up or down at a time.
pub open spec fn is_walk(width: int, height: int, steps: Seq<Point2d>, a: Point2d, b: Point2d) -> bool {
    &&& steps.len() >= 1
    &&& steps[0] == a
    &&& steps.last() == b
    &&& forall|j: int| 0 <= j < steps.len() ==> in_grid(width, height, (#[trigger] steps[j]).x as int, steps[j].y as int)
    &&& forall|j: int| 0 <= j < steps.len() - 1 ==> adjacent(#[trigger] steps[j], steps[j + 1])
}

/// What a walk costs: the penalty of every step but the first.
pub open spec fn path_cost(width: int, map: Seq<u32>, steps: Seq<Point2d>) -> int
    decreases steps.len(),
{
    if steps.len() <= 1 {
        0
    } else {
        path_cost(width, map, steps.drop_last()) + map[cell_index(width, steps.last())]
    }
}

/// The penalties of the cells, in row-major order.
pub open spec fn penalties(cells: Seq<Node>) -> Seq<u32> {
    Seq::new(cells.len(), |i: int| cells[i].penalty)
}

/// The start has distance zero and no predecessor; every other cell either has not been reached,
/// or has a visited neighbour as predecessor and costs that neighbour's distance plus its own penalty.
pub open spec fn links_consistent(m: GridModel) -> bool {
    &&& m.at(m.start).predecessor is None
    &&& m.at(m.start).distance == 0
    &&& forall|i: int| 0 <= i < m.cells.len() ==> match #[trigger] m.cells[i].predecessor {
        Some(q) => {
            &&& m.in_bounds(q)
            &&& adjacent(q, m.cells[i].my_pos)
            &&& m.at(q).visited
            &&& m.cells[i].distance == m.at(q).distance + m.cells[i].penalty
        },
        None => i == m.index(m.start) || m.cells[i].distance == MAX_DISTANCE,
    }
}

/// The chain of links back from a reached cell is a walk from the start to that cell,
/// and it costs the cell's distance.
pub proof fn lemma_trace_walk(m: GridModel, rank: spec_fn(int) -> nat, p: Point2d, fuel: nat)
    requires
        m.wf(),
        m.links_ranked(rank),
        links_consistent(m),
        m.in_bounds(p),
        m.at(p).distance < MAX_DISTANCE,
        fuel > rank(m.index(p)),
    ensures
        is_walk(m.width, m.height, m.trace(p, fuel), m.start, p),
        path_cost(m.width, penalties(m.cells), m.trace(p, fuel)) == m.at(p).distance,
    decreases fuel,
{
    lemma_index_point(m.width, m.height, p);
    lemma_index_point(m.width, m.height, m.start);
    let i = m.index(p);
    let t = m.trace(p, fuel);
    assert(m.cells[i].my_pos == p);
    match m.cells[i].predecessor {
        None => {
            assert(i == m.index(m.start));
            assert(p == m.start);
            assert(t =~= seq![p]);
        },
        Some(q) => {
            lemma_trace_walk(m, rank, q, (fuel - 1) as nat);
            let tq = m.trace(q, (fuel - 1) as nat);
            assert(t == tq.push(p));
            assert(t.drop_last() =~= tq);
            assert forall|j: int| 0 <= j < t.len() - 1 implies adjacent(#[trigger] t[j], t[j + 1]) by {
                if j < t.len() - 2 {
                    assert(t[j] == tq[j] && t[j + 1] == tq[j + 1]);
                } else {
                    assert(t[j] == tq.last());
                }
            }
            assert forall|j: int| 0 <= j < t.len() implies in_grid(m.width, m.height, (#[trigger] t[j]).x as int, t[j].y as int) by {
                if j < t.len() - 1 {
                    assert(t[j] == tq[j]);
                }
            }
        },
    }
}

/// The order in which cells were settled: each visited cell was reached and settled before
/// `clock`, and after its predecessor.
pub open spec fn settle_order(m: GridModel, time: spec_fn(int) -> nat, clock: int) -> bool {
    forall|i: int| 0 <= i < m.cells.len() && (#[trigger] m.cells[i]).visited ==> {
        &&& time(i) < clock
        &&& m.cells[i].distance < MAX_DISTANCE
        &&& (m.cells[i].predecessor matches Some(q) ==> time(m.index(q)) < time(i))
    }
}

/// A reached cell's distance is at most one largest penalty per settled cell.
pub open spec fn distances_bounded(m: GridModel, clock: int) -> bool {
    forall|i: int| 0 <= i < m.cells.len() && (#[trigger] m.cells[i]).distance < MAX_DISTANCE
        ==> m.cells[i].distance <= clock * 0xffff_ffff
}

/// Every neighbour of a visited cell other than `c` has been reached.
pub open spec fn neighbours_reached_except(m: GridModel, c: Point2d) -> bool {
    forall|p: Point2d, q: Point2d|
        #![trigger m.at(p), m.at(q)]
        m.in_bounds(p) && m.in_bounds(q) && m.at(p).visited && p != c && adjacent(p, q)
            ==> m.at(q).visited || m.at(q).distance < MAX_DISTANCE
}

/// The neighbours of `c` in the first `k` directions have been reached.
pub open spec fn directions_reached(m: GridModel, c: Point2d, k: int) -> bool {
    forall|j: int| 0 <= j < k && in_grid(m.width, m.height, c.x + #[trigger] unit_offset(j).0, c.y + unit_offset(j).1)
        ==> m.at(Point2d { x: (c.x + unit_offset(j).0) as i64, y: (c.y + unit_offset(j).1) as i64 }).visited
            || m.at(Point2d { x: (c.x + unit_offset(j).0) as i64, y: (c.y + unit_offset(j).1) as i64 }).distance < MAX_DISTANCE
}

/// What holds between rounds of the search.
pub open spec fn search_invariant(m: GridModel, time: spec_fn(int) -> nat) -> bool {
    let clock = m.cells.len() - count_unvisited(m.cells);
    &&& m.wf()
    &&& links_consistent(m)
    &&& settle_order(m, time, clock)
    &&& distances_bounded(m, clock)
    &&& neighbours_reached(m)
    &&& !m.at(m.destination).visited
    &&& m.at(m.destination).predecessor is None
    &&& (!m.at(m.start).visited ==> forall|i: int| 0 <= i < m.cells.len() ==> !(#[trigger] m.cells[i]).visited)
}

/// Two in-bounds points with one index are one point.
pub proof fn lemma_index_injective(m: GridModel, p: Point2d, q: Point2d)
    requires
        m.wf(),
        m.in_bounds(p),
        m.in_bounds(q),
        m.index(p) == m.index(q),
    ensures
        p == q,
{
    lemma_index_point(m.width, m.height, p);
    lemma_index_point(m.width, m.height, q);
}

/// Settling the frontier cell keeps what holds between rounds, with the clock one tick on and the
/// cell given the old clock as its settling time; only its own neighbours wait to be reached.
pub proof fn lemma_settle(m: GridModel, time: spec_fn(int) -> nat, time2: spec_fn(int) -> nat, ci: int)
    requires
        search_invariant(m, time),
        m.is_frontier(ci),
        time2(ci) == m.cells.len() - count_unvisited(m.cells),
        forall|j: int| j != ci ==> #[trigger] time2(j) == time(j),
    ensures
        ({
            let ms = m.settle(ci);
            let clock = m.cells.len() - count_unvisited(m.cells) + 1;
            &&& ms.wf()
            &&& count_unvisited(ms.cells) + 1 == count_unvisited(m.cells)
            &&& penalties(ms.cells) == penalties(m.cells)
            &&& links_consistent(ms)
            &&& settle_order(ms, time2, clock)
            &&& distances_bounded(ms, clock)
            &&& neighbours_reached_except(ms, m.cells[ci].my_pos)
            &&& !ms.at(ms.destination).visited
            &&& ms.at(ms.destination).predecessor is None
            &&& ms.at(ms.start).visited
        }),
{
    let ms = m.settle(ci);
    let n = m.cells.len();
    let u = count_unvisited(m.cells);
    let clock = n - u + 1;
    let c = m.cells[ci].my_pos;
    lemma_count_update(m.cells, ci, ms.cells[ci]);
    lemma_count_bound(m.cells);
    lemma_index_point(m.width, m.height, m.start);
    lemma_index_point(m.width, m.height, m.destination);
    crate::playfield::lemma_point_index(m.width, m.height, ci);
    assert(penalties(ms.cells) =~= penalties(m.cells));
    let si = m.index(m.start);
    let di = m.index(m.destination);
    // the destination has not been reached, so it is not the frontier
    assert(m.cells[di].predecessor is None);
    assert(ci != di);
    // in the first round the frontier is the start
    if !m.at(m.start).visited {
        if ci != si {
            if let Some(q) = m.cells[ci].predecessor {
                lemma_index_point(m.width, m.height, q);
                assert(!m.cells[m.index(q)].visited);
            }
        }
        assert(ci == si);
    }
    assert forall|i: int| 0 <= i < ms.cells.len() implies match #[trigger] ms.cells[i].predecessor {
        Some(q) => {
            &&& ms.in_bounds(q)
            &&& adjacent(q, ms.cells[i].my_pos)
            &&& ms.at(q).visited
            &&& ms.cells[i].distance == ms.at(q).distance + ms.cells[i].penalty
        },
        None => i == ms.index(ms.start) || ms.cells[i].distance == MAX_DISTANCE,
    } by {
        assert(m.cells[i].predecessor == ms.cells[i].predecessor);
        if let Some(q) = m.cells[i].predecessor {
            lemma_index_point(m.width, m.height, q);
        }
    }
    assert forall|i: int| 0 <= i < ms.cells.len() && (#[trigger] ms.cells[i]).visited implies {
        &&& time2(i) < clock
        &&& ms.cells[i].distance < MAX_DISTANCE
        &&& (ms.cells[i].predecessor matches Some(q) ==> time2(ms.index(q)) < time2(i))
    } by {
        if i != ci {
            assert(m.cells[i].visited);
        }
        if let Some(q) = m.cells[i].predecessor {
            lemma_index_point(m.width, m.height, q);
            assert(m.cells[m.index(q)].visited);
            assert(m.index(q) != ci);
        }
    }
    assert(forall|i: int| 0 <= i < m.cells.len() ==> #[trigger] ms.cells[i].distance == m.cells[i].distance);
    assert((n - u) * 0xffff_ffff <= clock * 0xffff_ffff) by (nonlinear_arith)
        requires clock == n - u + 1;
    assert forall|i: int| 0 <= i < ms.cells.len() && (#[trigger] ms.cells[i]).distance < MAX_DISTANCE
        implies ms.cells[i].distance <= clock * 0xffff_ffff by {
        assert(m.cells[i].distance < MAX_DISTANCE);
    }
    assert forall|p: Point2d, q: Point2d|
        #![trigger ms.at(p), ms.at(q)]
        ms.in_bounds(p) && ms.in_bounds(q) && ms.at(p).visited && p != c && adjacent(p, q)
            implies ms.at(q).visited || ms.at(q).distance < MAX_DISTANCE by {
        lemma_index_point(m.width, m.height, p);
        lemma_index_point(m.width, m.height, q);
        assert(m.index(p) != ci);
        assert(ms.at(p) == m.at(p));
        assert(m.at(q).visited || m.at(q).distance < MAX_DISTANCE);
        if m.index(q) != ci {
            assert(ms.at(q) == m.at(q));
        }
    }
}

/// Relaxing the neighbour of the settling cell `c` in direction `k` keeps what holds inside a round,
/// and that neighbour is reached afterwards.
pub proof fn lemma_relax(m: GridModel, time: spec_fn(int) -> nat, clock: int, c: Point2d, from: Node, k: int)
    requires
        m.wf(),
        links_consistent(m),
        settle_order(m, time, clock),
        distances_bounded(m, clock),
        neighbours_reached_except(m, c),
        directions_reached(m, c, k),
        0 <= k < 4,
        clock <= 1000 * 1000,
        m.in_bounds(c),
        m.at(c).visited,
        m.at(m.start).visited,
        from.my_pos == c,
        from.distance == m.at(c).distance,
        from.distance + 0xffff_ffff <= clock * 0xffff_ffff,
        in_grid(m.width, m.height, c.x + unit_offset(k).0, c.y + unit_offset(k).1),
    ensures
        ({
            let p = Point2d { x: (c.x + unit_offset(k).0) as i64, y: (c.y + unit_offset(k).1) as i64 };
            let m2 = m.relax(from, p);
            &&& m2.wf()
            &&& m2.width == m.width && m2.height == m.height
            &&& m2.start == m.start && m2.destination == m.destination
            &&& count_unvisited(m2.cells) == count_unvisited(m.cells)
            &&& penalties(m2.cells) == penalties(m.cells)
            &&& links_consistent(m2)
            &&& settle_order(m2, time, clock)
            &&& distances_bounded(m2, clock)
            &&& neighbours_reached_except(m2, c)
            &&& directions_reached(m2, c, k + 1)
            &&& m2.at(c) == m.at(c)
            &&& m2.at(m.start).visited
            &&& m2.at(p).distance < MAX_DISTANCE
            &&& (p != m.destination ==> m2.at(m.destination) == m.at(m.destination))
        }),
{
    let p = Point2d { x: (c.x + unit_offset(k).0) as i64, y: (c.y + unit_offset(k).1) as i64 };
    let m2 = m.relax(from, p);
    lemma_index_point(m.width, m.height, p);
    lemma_index_point(m.width, m.height, c);
    lemma_index_point(m.width, m.height, m.start);
    lemma_index_point(m.width, m.height, m.destination);
    let pi = m.index(p);
    assert(clock * 0xffff_ffff < MAX_DISTANCE) by (nonlinear_arith)
        requires clock <= 1000 * 1000;
    if m.at(p).visited {
        assert(m2 == m);
        assert forall|j: int| 0 <= j < k + 1 && in_grid(m.width, m.height, c.x + #[trigger] unit_offset(j).0, c.y + unit_offset(j).1)
            implies m.at(Point2d { x: (c.x + unit_offset(j).0) as i64, y: (c.y + unit_offset(j).1) as i64 }).visited
                || m.at(Point2d { x: (c.x + unit_offset(j).0) as i64, y: (c.y + unit_offset(j).1) as i64 }).distance < MAX_DISTANCE by {
        }
        assert(m.cells[pi].distance < MAX_DISTANCE);
    } else {
        let np = m2.cells[pi];
        assert(np.distance == from.distance + m.cells[pi].penalty);
        lemma_count_update(m.cells, pi, np);
        assert(penalties(m2.cells) =~= penalties(m.cells));
        assert(pi != m.index(c));
        assert(pi != m.index(m.start));
        assert forall|i: int| 0 <= i < m2.cells.len() implies #[trigger] m2.cells[i].my_pos == cell_point(m2.width, i) by {
            assert(m.cells[i].my_pos == cell_point(m.width, i));
        }
        assert forall|i: int| 0 <= i < m2.cells.len() implies match #[trigger] m2.cells[i].predecessor {
            Some(q) => {
                &&& m2.in_bounds(q)
                &&& adjacent(q, m2.cells[i].my_pos)
                &&& m2.at(q).visited
                &&& m2.cells[i].distance == m2.at(q).distance + m2.cells[i].penalty
            },
            None => i == m2.index(m2.start) || m2.cells[i].distance == MAX_DISTANCE,
        } by {
            if i != pi {
                assert(m2.cells[i] == m.cells[i]);
                if let Some(q) = m.cells[i].predecessor {
                    lemma_index_point(m.width, m.height, q);
                    assert(m.cells[m.index(q)].visited);
                    assert(m.index(q) != pi);
                }
            } else {
                assert(m.cells[pi].my_pos == p);
            }
        }
        assert forall|i: int| 0 <= i < m2.cells.len() && (#[trigger] m2.cells[i]).visited implies {
            &&& time(i) < clock
            &&& m2.cells[i].distance < MAX_DISTANCE
            &&& (m2.cells[i].predecessor matches Some(q) ==> time(m2.index(q)) < time(i))
        } by {
            assert(i != pi);
            assert(m2.cells[i] == m.cells[i]);
        }
        assert forall|i: int| 0 <= i < m2.cells.len() && (#[trigger] m2.cells[i]).distance < MAX_DISTANCE
            implies m2.cells[i].distance <= clock * 0xffff_ffff by {
            if i != pi {
                assert(m2.cells[i] == m.cells[i]);
            }
        }
        assert forall|a: Point2d, b: Point2d|
            #![trigger m2.at(a), m2.at(b)]
            m2.in_bounds(a) && m2.in_bounds(b) && m2.at(a).visited && a != c && adjacent(a, b)
                implies m2.at(b).visited || m2.at(b).distance < MAX_DISTANCE by {
            lemma_index_point(m.width, m.height, a);
            lemma_index_point(m.width, m.height, b);
            assert(m.index(a) != pi);
            assert(m2.at(a) == m.at(a));
            assert(m.at(b).visited || m.at(b).distance < MAX_DISTANCE);
            if m.index(b) != pi {
                assert(m2.at(b) == m.at(b));
            }
        }
        assert forall|j: int| 0 <= j < k + 1 && in_grid(m.width, m.height, c.x + #[trigger] unit_offset(j).0, c.y + unit_offset(j).1)
            implies m2.at(Point2d { x: (c.x + unit_offset(j).0) as i64, y: (c.y + unit_offset(j).1) as i64 }).visited
                || m2.at(Point2d { x: (c.x + unit_offset(j).0) as i64, y: (c.y + unit_offset(j).1) as i64 }).distance < MAX_DISTANCE by {
            let b = Point2d { x: (c.x + unit_offset(j).0) as i64, y: (c.y + unit_offset(j).1) as i64 };
            lemma_index_point(m.width, m.height, b);
            if j < k {
                assert(m.at(b).visited || m.at(b).distance < MAX_DISTANCE);
                if m.index(b) != pi {
                    assert(m2.at(b) == m.at(b));
                }
            }
        }
        if p != m.destination {
            assert(m.index(m.destination) != pi) by {
                if m.index(m.destination) == pi {
                    lemma_index_injective(m, p, m.destination);
                }
            }
        }
    }
}

/// Once the neighbours of `c` in all four directions are reached, every visited cell has its
/// neighbours reached.
pub proof fn lemma_round_complete(m: GridModel, c: Point2d)
    requires
        m.wf(),
        m.in_bounds(c),
        neighbours_reached_except(m, c),
        directions_reached(m, c, 4),
    ensures
        neighbours_reached(m),
{
    assert forall|p: Point2d, q: Point2d|
        #![trigger m.at(p), m.at(q)]
        m.in_bounds(p) && m.in_bounds(q) && m.at(p).visited && adjacent(p, q)
            implies m.at(q).visited || m.at(q).distance < MAX_DISTANCE by {
        if p == c {
            let j = if q.x == c.x - 1 { 0int } else if q.x == c.x + 1 { 1int } else if q.y == c.y - 1 { 2int } else { 3int };
            assert(q == Point2d { x: (c.x + unit_offset(j).0) as i64, y: (c.y + unit_offset(j).1) as i64 });
            assert(in_grid(m.width, m.height, c.x + unit_offset(j).0, c.y + unit_offset(j).1));
        }
    }
}

/// When the search stops, the settling times rank the predecessor links.
pub proof fn lemma_links_ranked(m: GridModel, time: spec_fn(int) -> nat, clock: int)
    requires
        m.wf(),
        links_consistent(m),
        settle_order(m, time, clock),
        clock == m.cells.len() - count_unvisited(m.cells),
        count_unvisited(m.cells) >= 1,
    ensures
        m.links_ranked(|j: int| if m.cells[j].visited { time(j) } else { clock as nat }),
{
    let rank = |j: int| if m.cells[j].visited { time(j) } else { clock as nat };
    lemma_count_bound(m.cells);
    assert forall|i: int| 0 <= i < m.cells.len() implies {
        &&& rank(i) < m.cells.len()
        &&& (#[trigger] m.cells[i].predecessor matches Some(q) ==> {
            &&& m.in_bounds(q)
            &&& rank(m.index(q)) < rank(i)
        })
    } by {
        if m.cells[i].visited {
            assert(time(i) < clock);
        }
        if let Some(q) = m.cells[i].predecessor {
            lemma_index_point(m.width, m.height, q);
            let qi = m.index(q);
            assert(m.cells[qi].visited);
            assert(time(qi) < clock);
            assert(rank(qi) == time(qi));
            if m.cells[i].visited {
                assert(time(qi) < time(i));
            }
        }
    }
}

/// Every neighbour of a visited cell has been reached.
pub open spec fn neighbours_reached(m: GridModel) -> bool {
    forall|p: Point2d, q: Point2d|
        #![trigger m.at(p), m.at(q)]
        m.in_bounds(p) && m.in_bounds(q) && m.at(p).visited && adjacent(p, q)
            ==> m.at(q).visited || m.at(q).distance < MAX_DISTANCE
}

pub open spec fn manhattan(p: Point2d, q: Point2d) -> int {
    (if p.x <= q.x { q.x - p.x } else { p.x - q.x }) + (if p.y <= q.y { q.y - p.y } else { p.y - q.y })
}

/// On a grid whose visited cells have all their neighbours reached, a walk from a visited cell
/// towards an unvisited one crosses into a reached, unvisited cell: the search never runs dry.
pub proof fn lemma_open_cell_exists(m: GridModel, p: Point2d)
    requires
        m.wf(),
        neighbours_reached(m),
        m.in_bounds(p),
        m.at(p).visited,
        !m.at(m.destination).visited,
    ensures
        m.has_open_cell(),
    decreases manhattan(p, m.destination),
{
    let d = m.destination;
    let q = if p.x < d.x {
        Point2d { x: (p.x + 1) as i64, y: p.y }
    } else if p.x > d.x {
        Point2d { x: (p.x - 1) as i64, y: p.y }
    } else if p.y < d.y {
        Point2d { x: p.x, y: (p.y + 1) as i64 }
    } else {
        Point2d { x: p.x, y: (p.y - 1) as i64 }
    };
    assert(p != d);
    assert(m.in_bounds(q));
    assert(adjacent(p, q));
    assert(m.at(p) == m.at(p) && m.at(q) == m.at(q));
    if m.at(q).visited {
        lemma_open_cell_exists(m, q);
    } else {
        lemma_index_point(m.width, m.height, q);
        let i = m.index(q);
        assert(!m.cells[i].visited && m.cells[i].distance < MAX_DISTANCE);
    }
}

} // verus!
