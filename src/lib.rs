use vstd::prelude::*;

pub mod constdefs;
pub mod errors;
pub mod model;
pub mod playfield;

use crate::constdefs::{MAX_DISTANCE, OFFSETS};
use crate::model::{
    count_unvisited, directions_reached, distances_bounded, is_walk, lemma_count_all,
    lemma_count_positive, lemma_frontier_unique, lemma_open_cell_exists,
    lemma_links_ranked, lemma_relax, lemma_round_complete, lemma_settle, lemma_trace_walk,
    links_consistent, neighbours_reached_except, path_cost,
    penalties, search_invariant, settle_order, unit_offset,
};
use crate::errors::MapError;
use crate::playfield::{
    adjacent, initial_grid, lemma_index_point, validation_error, GridModel, Node, Path,
    Playfield, Point2d,
};

verus! {

#[derive(PartialEq, Eq, Structural)]
enum CandidateStatus {
    StillLooking,
    AtDestination,
}

/// The grid of a valid query once the search has run.
pub open spec fn searched_grid(width: int, height: int, map: Seq<u32>, start: Point2d, destination: Point2d) -> GridModel {
    initial_grid(width, height, map, start, destination).searched()
}

/// The path that the search finds for a valid query.
pub open spec fn search_route(width: int, height: int, map: Seq<u32>, start: Point2d, destination: Point2d) -> Seq<Point2d> {
    searched_grid(width, height, map, start, destination).route_to(destination)
}

/// What a query answers: the first rule its parameters break, or else the path the search finds.
pub open spec fn query_outcome(width: int, height: int, map: Seq<u32>, start: Point2d, destination: Point2d) -> Result<Seq<Point2d>, MapError> {
    match validation_error(width, height, map.len() as int, start, destination) {
        Some(e) => Err(e),
        None => Ok(search_route(width, height, map, start, destination)),
    }
}

/// The answer of a query seen as a value: the steps of its path, or its error.
pub open spec fn answer_view(r: Result<Path, MapError>) -> Result<Seq<Point2d>, MapError> {
    match r {
        Ok(p) => Ok(p.steps@),
        Err(e) => Err(e),
    }
}

/// Searches a `width` by `height` grid, whose cells cost `map` (row-major) to enter, for a path from
/// `start` to `destination`; or reports the first rule that the parameters break.
pub fn calculate_shortest_path(width: i64, height: i64, map: Vec<u32>, start: (i64, i64), destination: (i64, i64)) -> (r: Result<Path, MapError>)
    ensures
        ({
            let s = Point2d { x: start.0, y: start.1 };
            let d = Point2d { x: destination.0, y: destination.1 };
            &&& answer_view(r) == query_outcome(width as int, height as int, map@, s, d)
            &&& (r matches Ok(path) ==> {
                &&& is_walk(width as int, height as int, path.steps@, s, d)
                &&& path_cost(width as int, map@, path.steps@)
                    == searched_grid(width as int, height as int, map@, s, d).at(d).distance
            })
        }),
{
    let start_point = Point2d { x: start.0, y: start.1 };
    let destination_point = Point2d { x: destination.0, y: destination.1 };
    let ghost cells = map@;
    match Playfield::new(width, height, start_point, destination_point, map) {
        Ok(playfield) => {
            proof {
                let m = playfield@;
                assert(penalties(m.cells) =~= cells);
                assert(is_fresh(m));
            }
            let mut pf = Pathfinder::new(playfield);
            pf.calculate();
            Ok(pf.path)
        },
        Err(e) => Err(e),
    }
}

/// A query has one answer: two answers of `calculate_shortest_path` to the same parameters hold the
/// same path, or the same error.
pub proof fn lemma_query_deterministic(
    width: int,
    height: int,
    map: Seq<u32>,
    start: Point2d,
    destination: Point2d,
    r1: Result<Path, MapError>,
    r2: Result<Path, MapError>,
)
    requires
        answer_view(r1) == query_outcome(width, height, map, start, destination),
        answer_view(r2) == query_outcome(width, height, map, start, destination),
    ensures
        answer_view(r1) == answer_view(r2),
{
}

/// The next cell to settle is fixed by the grid alone: no two cells are both the frontier,
/// since ties go to the lowest row-major index.
pub proof fn lemma_frontier_determined(m: GridModel, i: int, j: int)
    requires
        m.is_frontier(i),
        m.is_frontier(j),
    ensures
        i == j,
{
    lemma_frontier_unique(m, i, j);
}

/// Searching a freshly built grid again gives the same path: two grids that `Playfield::new`
/// builds from the same parameters are searched alike.
pub proof fn lemma_fresh_search_repeats(g1: GridModel, g2: GridModel, width: int, height: int, map: Seq<u32>, start: Point2d, destination: Point2d)
    requires
        g1 == initial_grid(width, height, map, start, destination),
        g2 == initial_grid(width, height, map, start, destination),
    ensures
        g1.searched().route_to(destination) == g2.searched().route_to(destination),
        g1.searched().route_to(destination) == search_route(width, height, map, start, destination),
{
}

/// Runs the search on one grid and keeps the path that it finds.
pub struct Pathfinder {
    current_pos: Point2d,
    current_node: Node,
    candidate: Node,
    path: Path,
    playfield: Playfield,
}

/// A grid as built: nothing visited or linked, and only the start reached, at distance zero.
pub open spec fn is_fresh(m: GridModel) -> bool {
    &&& m.wf()
    &&& forall|i: int| 0 <= i < m.cells.len() ==> {
        &&& !(#[trigger] m.cells[i]).visited
        &&& m.cells[i].predecessor is None
        &&& m.cells[i].distance == if i == m.index(m.start) { 0 } else { MAX_DISTANCE }
    }
}

impl Pathfinder {
    /// The grid, with its search state.
    pub closed spec fn grid(&self) -> GridModel {
        self.playfield@
    }

    /// The path found so far.
    pub closed spec fn steps(&self) -> Seq<Point2d> {
        self.path.steps@
    }

    /// A search over `playfield` that has not run yet.
    pub fn new(playfield: Playfield) -> (r: Pathfinder)
        requires
            playfield.wf(),
        ensures
            r.grid() == playfield@,
            r.steps() == Seq::<Point2d>::empty(),
    {
        let start = playfield.start;
        let node = playfield.field_at(&start);
        Pathfinder { current_pos: start, current_node: node, candidate: node, path: Path { steps: Vec::new() }, playfield }
    }

    /// Settles cells in order of distance until the destination is reached, then keeps the
    /// chain of predecessor links that leads there.
    #[verifier::rlimit(100)]
    pub fn calculate(&mut self)
        requires
            is_fresh(old(self).grid()),
            old(self).steps() == Seq::<Point2d>::empty(),
        ensures
            final(self).grid() == old(self).grid().searched(),
            final(self).steps() == final(self).grid().route_to(old(self).grid().destination),
            is_walk(
                old(self).grid().width,
                old(self).grid().height,
                final(self).steps(),
                old(self).grid().start,
                old(self).grid().destination,
            ),
            path_cost(old(self).grid().width, penalties(old(self).grid().cells), final(self).steps())
                == final(self).grid().at(old(self).grid().destination).distance,
    {
        let ghost init = self.playfield@;
        let ghost n = init.cells.len();
        let ghost mut time: spec_fn(int) -> nat = |j: int| 0nat;
        proof {
            lemma_count_all(init.cells);
            lemma_index_point(init.width, init.height, init.start);
            lemma_index_point(init.width, init.height, init.destination);
            assert forall|p: Point2d, q: Point2d|
                #![trigger init.at(p), init.at(q)]
                init.in_bounds(p) && init.in_bounds(q) && init.at(p).visited && adjacent(p, q)
                    implies init.at(q).visited || init.at(q).distance < MAX_DISTANCE by {
                lemma_index_point(init.width, init.height, p);
            }
            assert(init.cells.len() - count_unvisited(init.cells) == 0);
            assert(search_invariant(init, time));
        }
        loop
            invariant
                self.playfield.wf(),
                old(self).playfield@ == init,
                self.playfield@.width == init.width,
                self.playfield@.height == init.height,
                self.playfield@.start == init.start,
                self.playfield@.destination == init.destination,
                self.playfield@.cells.len() == n,
                penalties(self.playfield@.cells) == penalties(init.cells),
                self.path.steps@ == Seq::<Point2d>::empty(),
                init.searched() == self.playfield@.run(count_unvisited(self.playfield@.cells)),
                search_invariant(self.playfield@, time),
            decreases count_unvisited(self.playfield@.cells),
        {
            let ghost m = self.playfield@;
            let ghost u = count_unvisited(m.cells);
            proof {
                lemma_index_point(m.width, m.height, m.start);
                if m.at(m.start).visited {
                    lemma_open_cell_exists(m, m.start);
                } else {
                    let si = m.index(m.start);
                    assert(!m.cells[si].visited && m.cells[si].distance < MAX_DISTANCE);
                }
            }
            self.current_pos = self.playfield.find_shortest_distance();
            let ghost ci = m.index(self.current_pos);
            proof {
                lemma_index_point(m.width, m.height, self.current_pos);
                assert(m.is_frontier(ci));
                lemma_frontier_unique(m, m.frontier(), ci);
                lemma_count_positive(m.cells, ci);
                let t0 = time;
                time = |j: int| if j == ci { (n - u) as nat } else { t0(j) };
                lemma_settle(m, t0, time, ci);
                assert(n <= 1000 * 1000) by (nonlinear_arith)
                    requires n == m.width * m.height, 1 <= m.width <= 1000, 1 <= m.height <= 1000;
            }
            self.current_node = self.playfield.field_at(&self.current_pos);
            self.playfield.set_visited(&self.current_pos);
            let ghost ms = self.playfield@;
            let ghost clock = n - (u - 1);
            proof {
                assert(ms == m.settle(ci));
                assert(distances_bounded(m, n - u));
                assert(m.cells[ci].distance <= (n - u) * 0xffff_ffff);
                assert((n - u) * 0xffff_ffff + 0xffff_ffff == clock * 0xffff_ffff) by (nonlinear_arith)
                    requires clock == n - u + 1;
            }
            let ghost res = ms.expand(ci, 0);
            let mut k: usize = 0;
            while k < 4
                invariant
                    self.playfield.wf(),
                    old(self).playfield@ == init,
                self.playfield@.width == init.width,
                    self.playfield@.height == init.height,
                    self.playfield@.start == init.start,
                    self.playfield@.destination == init.destination,
                    self.playfield@.cells.len() == n,
                    penalties(self.playfield@.cells) == penalties(init.cells),
                    self.path.steps@ == Seq::<Point2d>::empty(),
                    n <= 1000 * 1000,
                    1 <= u <= n,
                    clock == n - (u - 1),
                    0 <= ci < n,
                    ms.cells.len() == n,
                    ms.width == init.width,
                    ms.height == init.height,
                    ci == ms.index(self.current_pos),
                    ms.in_bounds(self.current_pos),
                    ms.cells[ci].my_pos == self.current_pos,
                    ms.cells[ci].visited,
                    ms.cells[ci].distance + 0xffff_ffff <= clock * 0xffff_ffff,
                    self.current_node.distance == ms.cells[ci].distance,
                    self.current_node.my_pos == self.current_pos,
                    self.playfield@.cells[ci] == ms.cells[ci],
                    k <= 4,
                    res == self.playfield@.expand(ci, k as int),
                    init.searched() == (if res.1 { res.0 } else { res.0.run((u - 1) as nat) }),
                    count_unvisited(self.playfield@.cells) == u - 1,
                    links_consistent(self.playfield@),
                    settle_order(self.playfield@, time, clock),
                    distances_bounded(self.playfield@, clock),
                    neighbours_reached_except(self.playfield@, self.current_pos),
                    directions_reached(self.playfield@, self.current_pos, k as int),
                    !self.playfield@.at(init.destination).visited,
                    self.playfield@.at(init.destination).predecessor is None,
                    self.playfield@.at(init.start).visited,
                decreases 4 - k,
            {
                let ghost mk = self.playfield@;
                let offset: (i64, i64) = OFFSETS[k];
                let new_pos = self.playfield.apply_offset(&self.current_pos, &offset);
                match new_pos {
                    Err(_) => {
                        assert(directions_reached(mk, self.current_pos, k as int + 1));
                    },
                    Ok(position) => {
                        proof {
                            lemma_relax(mk, time, clock, self.current_pos, self.current_node, k as int);
                            assert(mk.relax(self.current_node, position) == mk.relax(mk.cells[ci], position));
                        }
                        if self.apply_candidate(position) == CandidateStatus::AtDestination {
                            let ghost mf = self.playfield@;
                            let ghost rank = |j: int| if mf.cells[j].visited { time(j) } else { clock as nat };
                            proof {
                                assert(position == init.destination);
                                assert(offset.0 == unit_offset(k as int).0 && offset.1 == unit_offset(k as int).1);
                                assert(mk.expand(ci, k as int) == (mk.relax(mk.cells[ci], position), true));
                                assert(res.0 == mf && res.1);
                                lemma_index_point(mf.width, mf.height, position);
                                lemma_count_positive(mf.cells, mf.index(position));
                                lemma_links_ranked(mf, time, clock);
                                assert(mf.links_ranked(rank));
                                assert(mf.links_acyclic());
                            }
                            self.playfield.glue_path_to_destination(&self.candidate, &mut self.path);
                            proof {
                                assert(self.path.steps@ =~= mf.route_to(position));
                                lemma_trace_walk(mf, rank, position, n);
                            }
                            return;
                        }
                    },
                }
                k = k + 1;
            }
            proof {
                lemma_round_complete(self.playfield@, self.current_pos);
            }
        }
    }

    /// The path that the search found.
    pub fn into_path(self) -> (r: Path)
        ensures
            r.steps@ == self.steps(),
    {
        self.path
    }

    /// The distance that the search computed for the destination.
    pub fn destination_distance(&self) -> (r: u64)
        requires
            self.grid().wf(),
        ensures
            r == self.grid().at(self.grid().destination).distance,
    {
        self.playfield.field_at(&self.playfield.destination).distance
    }

    /// Relaxes the cell at `point` from the cell being settled, and tells whether it is the destination.
    fn apply_candidate(&mut self, point: Point2d) -> (r: CandidateStatus)
        requires
            old(self).playfield.wf(),
            old(self).playfield@.in_bounds(point),
            old(self).current_node.distance + 0xffff_ffff < MAX_DISTANCE,
        ensures
            final(self).playfield.wf(),
            final(self).playfield@ == old(self).playfield@.relax(old(self).current_node, point),
            final(self).current_node == old(self).current_node,
            final(self).current_pos == old(self).current_pos,
            final(self).path == old(self).path,
            final(self).candidate == final(self).playfield@.at(point),
            (r == CandidateStatus::AtDestination) == (point == old(self).playfield.destination),
    {
        proof {
            lemma_index_point(self.playfield.width as int, self.playfield.height as int, point);
        }
        self.candidate = self.playfield.field_at(&point);
        if !self.candidate.visited {
            self.candidate.distance = self.current_node.distance + self.candidate.penalty as u64;
            self.candidate.predecessor = Some(self.current_node.my_pos);
            self.playfield.set_field_at(&point, &self.candidate);
        }
        if point == self.playfield.destination {
            CandidateStatus::AtDestination
        } else {
            CandidateStatus::StillLooking
        }
    }
}

} // verus!
