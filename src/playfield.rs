use vstd::prelude::*;
use vstd::arithmetic::div_mod::{lemma_fundamental_div_mod, lemma_fundamental_div_mod_converse};

use crate::constdefs::{MAX_DISTANCE, MAX_HEIGHT, MAX_WIDTH};
use crate::errors::{MapError, PathfindingError};

verus! {

/// A position on the grid: `x` counts columns, `y` counts rows.
#[derive(Clone, Copy, Debug, PartialEq, Eq, Structural)]
pub struct Point2d {
    pub x: i64,
    pub y: i64,
}

/// A walk over the grid, from its first step to its last.
#[derive(Debug)]
pub struct Path {
    pub steps: Vec<Point2d>,
}

/// The search state of one grid cell. `penalty` is what it costs to enter the cell;
/// `distance` is `MAX_DISTANCE` while no path has reached the cell.
#[derive(Clone, Copy, Debug, PartialEq, Eq, Structural)]
pub struct Node {
    pub my_pos: Point2d,
    pub penalty: u32,
    pub visited: bool,
    pub distance: u64,
    pub predecessor: Option<Point2d>,
}

/// The grid of one query: its dimensions, its cells in row-major order, and the two end points.
pub struct Playfield {
    pub width: i64,
    pub height: i64,
    pub field: Vec<Node>,
    pub start: Point2d,
    pub destination: Point2d,
}

/// The mathematical picture of a grid.
pub struct GridModel {
    pub width: int,
    pub height: int,
    pub start: Point2d,
    pub destination: Point2d,
    pub cells: Seq<Node>,
}

pub open spec fn in_grid(width: int, height: int, x: int, y: int) -> bool {
    0 <= x < width && 0 <= y < height
}

/// Row-major index of a point.
pub open spec fn cell_index(width: int, p: Point2d) -> int {
    p.y * width + p.x
}

/// The point stored at a row-major index.
pub open spec fn cell_point(width: int, i: int) -> Point2d {
    Point2d { x: (i % width) as i64, y: (i / width) as i64 }
}

/// `b` lies one step left, right, up or down from `a`.
pub open spec fn adjacent(a: Point2d, b: Point2d) -> bool {
    (a.y == b.y && (b.x == a.x - 1 || b.x == a.x + 1))
    || (a.x == b.x && (b.y == a.y - 1 || b.y == a.y + 1))
}

/// The first rule that a query's parameters break, in the order the rules are checked;
/// `None` when they describe a valid grid.
pub open spec fn validation_error(width: int, height: int, len: int, start: Point2d, destination: Point2d) -> Option<MapError> {
    if width > MAX_WIDTH || height > MAX_HEIGHT {
        Some(MapError::TooBig)
    } else if width * height != len {
        Some(MapError::SizeMismatch)
    } else if start == destination {
        Some(MapError::StartEqEnd)
    } else if !in_grid(width, height, start.x as int, start.y as int) {
        Some(MapError::StartOutOfBounds)
    } else if !in_grid(width, height, destination.x as int, destination.y as int) {
        Some(MapError::DestinationOutOfBounds)
    } else {
        None
    }
}

/// The cells of a fresh grid: penalties from the map, nothing visited, every distance
/// infinite but the start's, which is zero, and no predecessors.
pub open spec fn initial_cells(width: int, map: Seq<u32>, start: Point2d) -> Seq<Node> {
    Seq::new(
        map.len(),
        |i: int|
            Node {
                my_pos: cell_point(width, i),
                penalty: map[i],
                visited: false,
                distance: if i == cell_index(width, start) { 0 } else { MAX_DISTANCE },
                predecessor: None,
            },
    )
}

pub open spec fn initial_grid(width: int, height: int, map: Seq<u32>, start: Point2d, destination: Point2d) -> GridModel {
    GridModel { width, height, start, destination, cells: initial_cells(width, map, start) }
}

impl GridModel {
    pub open spec fn in_bounds(&self, p: Point2d) -> bool {
        in_grid(self.width, self.height, p.x as int, p.y as int)
    }

    pub open spec fn index(&self, p: Point2d) -> int {
        cell_index(self.width, p)
    }

    /// Dimensions within the limits, one cell per position in row-major order,
    /// distinct end points on the grid.
    pub open spec fn wf(&self) -> bool {
        &&& 1 <= self.width <= MAX_WIDTH
        &&& 1 <= self.height <= MAX_HEIGHT
        &&& self.cells.len() == self.width * self.height
        &&& self.in_bounds(self.start)
        &&& self.in_bounds(self.destination)
        &&& self.start != self.destination
        &&& forall|i: int| 0 <= i < self.cells.len() ==> #[trigger] self.cells[i].my_pos == cell_point(self.width, i)
    }

    /// The cell at a point.
    pub open spec fn at(&self, p: Point2d) -> Node {
        self.cells[self.index(p)]
    }

    /// `rank` drops along every predecessor link and stays below the number of cells,
    /// and every link leads to a point on the grid.
    pub open spec fn links_ranked(&self, rank: spec_fn(int) -> nat) -> bool {
        forall|i: int| 0 <= i < self.cells.len() ==> {
            &&& rank(i) < self.cells.len()
            &&& (#[trigger] self.cells[i].predecessor matches Some(q) ==> {
                &&& self.in_bounds(q)
                &&& rank(self.index(q)) < rank(i)
            })
        }
    }

    /// Following predecessor links from any cell ends, within as many steps as there are cells.
    pub open spec fn links_acyclic(&self) -> bool {
        exists|rank: spec_fn(int) -> nat| self.links_ranked(rank)
    }

    /// The points met when following predecessor links back from `p`, at most `fuel` of them,
    /// listed from the farthest back to `p` itself.
    pub open spec fn trace(&self, p: Point2d, fuel: nat) -> Seq<Point2d>
        decreases fuel,
    {
        if fuel == 0 {
            Seq::empty()
        } else {
            match self.at(p).predecessor {
                None => seq![p],
                Some(q) => self.trace(q, (fuel - 1) as nat).push(p),
            }
        }
    }

    /// The whole chain of predecessor links that ends at `p`, from its first point to `p`.
    pub open spec fn route_to(&self, p: Point2d) -> Seq<Point2d> {
        self.trace(p, self.cells.len())
    }

    /// Some unvisited cell has been reached by a path.
    pub open spec fn has_open_cell(&self) -> bool {
        exists|i: int| 0 <= i < self.cells.len() && !self.cells[i].visited && self.cells[i].distance < MAX_DISTANCE
    }

    /// Cell `i` is the next one to settle: an unvisited, reached cell of least distance,
    /// the first such in row-major order.
    pub open spec fn is_frontier(&self, i: int) -> bool {
        &&& 0 <= i < self.cells.len()
        &&& !self.cells[i].visited
        &&& self.cells[i].distance < MAX_DISTANCE
        &&& forall|j: int| 0 <= j < self.cells.len() && !self.cells[j].visited
            ==> self.cells[i].distance <= #[trigger] self.cells[j].distance
        &&& forall|j: int| 0 <= j < i && !self.cells[j].visited
            ==> self.cells[i].distance < #[trigger] self.cells[j].distance
    }
}

impl View for Playfield {
    type V = GridModel;

    open spec fn view(&self) -> GridModel {
        GridModel {
            width: self.width as int,
            height: self.height as int,
            start: self.start,
            destination: self.destination,
            cells: self.field@,
        }
    }
}

/// An in-bounds point has an index inside the grid, and that index leads back to it.
pub proof fn lemma_index_point(width: int, height: int, p: Point2d)
    requires
        1 <= width <= MAX_WIDTH,
        1 <= height <= MAX_HEIGHT,
        in_grid(width, height, p.x as int, p.y as int),
    ensures
        0 <= cell_index(width, p) < width * height,
        cell_point(width, cell_index(width, p)) == p,
{
    let i = cell_index(width, p);
    assert(0 <= p.y * width <= (height - 1) * width) by (nonlinear_arith)
        requires 0 <= p.y <= height - 1, 1 <= width;
    assert((height - 1) * width == height * width - width) by (nonlinear_arith);
    assert(i == p.y * width + p.x);
    lemma_fundamental_div_mod_converse(i, width, p.y as int, p.x as int);
}

/// An index inside the grid names an in-bounds point, whose index it is.
pub proof fn lemma_point_index(width: int, height: int, i: int)
    requires
        1 <= width <= MAX_WIDTH,
        1 <= height <= MAX_HEIGHT,
        0 <= i < width * height,
    ensures
        in_grid(width, height, cell_point(width, i).x as int, cell_point(width, i).y as int),
        cell_index(width, cell_point(width, i)) == i,
{
    lemma_fundamental_div_mod(i, width);
    let q = i / width;
    let r = i % width;
    assert(0 <= r < width);
    assert(0 <= q) by {
        if q < 0 {
            assert(width * q <= -width) by (nonlinear_arith)
                requires q <= -1, width >= 1;
        }
    }
    assert(q < height) by {
        if q >= height {
            assert(width * q >= width * height) by (nonlinear_arith)
                requires q >= height, width >= 1;
        }
    }
    assert(width * q == q * width) by (nonlinear_arith);
}

/// Any fuel beyond a point's rank traces the same chain.
pub proof fn lemma_trace_fuel(m: GridModel, rank: spec_fn(int) -> nat, p: Point2d, f1: nat, f2: nat)
    requires
        m.wf(),
        m.links_ranked(rank),
        m.in_bounds(p),
        f1 > rank(m.index(p)),
        f2 > rank(m.index(p)),
    ensures
        m.trace(p, f1) == m.trace(p, f2),
    decreases f1,
{
    lemma_index_point(m.width, m.height, p);
    let i = m.index(p);
    assert(m.cells[i].predecessor == m.at(p).predecessor);
    match m.at(p).predecessor {
        None => {},
        Some(q) => {
            lemma_trace_fuel(m, rank, q, (f1 - 1) as nat, (f2 - 1) as nat);
        },
    }
}

impl Playfield {
    /// Builds the grid of a query, or reports the first rule that its parameters break.
    pub fn new(width: i64, height: i64, start: Point2d, destination: Point2d, map: Vec<u32>) -> (r: Result<Playfield, MapError>)
        ensures
            match validation_error(width as int, height as int, map@.len() as int, start, destination) {
                Some(e) => r == Err::<Playfield, MapError>(e),
                None => r is Ok && r->Ok_0.wf()
                    && r->Ok_0@ == initial_grid(width as int, height as int, map@, start, destination),
            },
    {
        if width > MAX_WIDTH || height > MAX_HEIGHT {
            return Err(MapError::TooBig);
        }
        assert(-0x8000_0000_0000_0000 * 0x8000_0000_0000_0000 <= width * height <= 0x8000_0000_0000_0000 * 0x8000_0000_0000_0000) by (nonlinear_arith)
            requires -0x8000_0000_0000_0000 <= width <= 0x8000_0000_0000_0000, -0x8000_0000_0000_0000 <= height <= 0x8000_0000_0000_0000;
        if width as i128 * height as i128 != map.len() as i128 {
            return Err(MapError::SizeMismatch);
        }
        if start == destination {
            return Err(MapError::StartEqEnd);
        }
        if start.x < 0 || start.x >= width || start.y < 0 || start.y >= height {
            return Err(MapError::StartOutOfBounds);
        }
        if destination.x < 0 || destination.x >= width || destination.y < 0 || destination.y >= height {
            return Err(MapError::DestinationOutOfBounds);
        }
        let mut playfield = Playfield { width, height, field: Vec::new(), start, destination };
        playfield.init_with_vector(map);
        Ok(playfield)
    }

    /// Fills an empty grid with one fresh cell per map entry, then gives the start distance zero.
    fn init_with_vector(&mut self, playfield: Vec<u32>)
        requires
            old(self).dims_ok(),
            old(self).field@.len() == 0,
            playfield@.len() == old(self).width * old(self).height,
            old(self)@.in_bounds(old(self).start),
            old(self)@.in_bounds(old(self).destination),
            old(self).start != old(self).destination,
        ensures
            final(self).wf(),
            final(self)@ == initial_grid(old(self).width as int, old(self).height as int, playfield@, old(self).start, old(self).destination),
    {
        let n = playfield.len();
        let mut x: usize = 0;
        while x < n
            invariant
                self.dims_ok(),
                self.width == old(self).width,
                self.height == old(self).height,
                self.start == old(self).start,
                self.destination == old(self).destination,
                n == playfield@.len(),
                n == self.width * self.height,
                x <= n,
                self.field@.len() == x,
                forall|i: int| 0 <= i < x ==> #[trigger] self.field@[i] == (Node {
                    my_pos: cell_point(self.width as int, i),
                    penalty: playfield@[i],
                    visited: false,
                    distance: MAX_DISTANCE,
                    predecessor: None,
                }),
            decreases n - x,
        {
            let position = self.from_index(x);
            self.field.push(Node {
                my_pos: position,
                penalty: playfield[x],
                visited: false,
                distance: MAX_DISTANCE,
                predecessor: None,
            });
            x = x + 1;
        }
        let start_index = self.to_index(&self.start);
        let mut s = self.field[start_index];
        s.distance = 0;
        self.field.set(start_index, s);
        assert(self.field@ =~= initial_cells(self.width as int, playfield@, self.start));
    }

    pub open spec fn wf(&self) -> bool {
        self@.wf()
    }

    /// Dimensions within the limits; holds of a grid under construction too.
    pub open spec fn dims_ok(&self) -> bool {
        1 <= self.width <= MAX_WIDTH && 1 <= self.height <= MAX_HEIGHT
    }

    /// Row-major index of an in-bounds point.
    pub fn to_index(&self, point: &Point2d) -> (r: usize)
        requires
            self.dims_ok(),
            self@.in_bounds(*point),
        ensures
            r as int == self@.index(*point),
            r < self.width * self.height,
    {
        proof {
            lemma_index_point(self.width as int, self.height as int, *point);
        }
        assert(point.y * self.width <= MAX_HEIGHT * MAX_WIDTH) by (nonlinear_arith)
            requires 0 <= point.y < self.height <= MAX_HEIGHT, 1 <= self.width <= MAX_WIDTH;
        (point.y * self.width + point.x) as usize
    }

    /// The point at a row-major index.
    fn from_index(&self, i: usize) -> (r: Point2d)
        requires
            self.dims_ok(),
            i < self.width * self.height,
        ensures
            r == cell_point(self.width as int, i as int),
            self@.in_bounds(r),
    {
        proof {
            lemma_point_index(self.width as int, self.height as int, i as int);
        }
        assert(self.width * self.height <= MAX_WIDTH * MAX_HEIGHT) by (nonlinear_arith)
            requires 1 <= self.width <= MAX_WIDTH, 1 <= self.height <= MAX_HEIGHT;
        let y = (i as i64) / self.width;
        proof {
            lemma_fundamental_div_mod(i as int, self.width as int);
            assert(y * self.width <= i) by (nonlinear_arith)
                requires y == i as int / self.width as int, self.width >= 1, i >= 0,
                    i == self.width * y + (i as int % self.width as int),
                    0 <= i as int % self.width as int;
        }
        let x = (i as i64) - y * self.width;
        assert(x == i as int % self.width as int) by (nonlinear_arith)
            requires x == i - y * self.width, i == self.width * y + (i as int % self.width as int);
        Point2d { x, y }
    }

    /// The point one offset away, if it lies on the grid.
    pub fn apply_offset(&self, point: &Point2d, offset: &(i64, i64)) -> (r: Result<Point2d, PathfindingError>)
        ensures
            ({
                let nx = point.x + offset.0;
                let ny = point.y + offset.1;
                if in_grid(self.width as int, self.height as int, nx, ny) {
                    r == Ok::<Point2d, PathfindingError>(Point2d { x: nx as i64, y: ny as i64 })
                } else {
                    r == Err::<Point2d, PathfindingError>(PathfindingError::OutOfMap)
                }
            }),
    {
        let new_x = point.x as i128 + offset.0 as i128;
        let new_y = point.y as i128 + offset.1 as i128;
        if 0 <= new_x && new_x < self.width as i128 && 0 <= new_y && new_y < self.height as i128 {
            Ok(Point2d { x: new_x as i64, y: new_y as i64 })
        } else {
            Err(PathfindingError::OutOfMap)
        }
    }

    /// A copy of the cell at an in-bounds point.
    pub fn field_at(&self, point: &Point2d) -> (r: Node)
        requires
            self.wf(),
            self@.in_bounds(*point),
        ensures
            r == self@.at(*point),
    {
        let i = self.to_index(point);
        self.field[i]
    }

    /// Replaces the cell at an in-bounds point.
    pub fn set_field_at(&mut self, point: &Point2d, node: &Node)
        requires
            old(self).wf(),
            old(self)@.in_bounds(*point),
        ensures
            final(self)@ == (GridModel { cells: old(self)@.cells.update(old(self)@.index(*point), *node), ..old(self)@ }),
    {
        let i = self.to_index(point);
        self.field.set(i, *node);
    }

    /// The position of the next cell to settle (see `GridModel::is_frontier`).
    pub fn find_shortest_distance(&self) -> (r: Point2d)
        requires
            self.wf(),
            self@.has_open_cell(),
        ensures
            self@.in_bounds(r),
            self@.is_frontier(self@.index(r)),
    {
        let mut min_so_far: u64 = MAX_DISTANCE;
        let mut min_index: usize = usize::MAX;
        let mut index: usize = 0;
        while index < self.field.len()
            invariant
                self.wf(),
                index <= self.field@.len(),
                min_index == usize::MAX || min_index < index,
                min_index == usize::MAX ==> min_so_far == MAX_DISTANCE,
                min_index != usize::MAX ==> ({
                    &&& min_so_far == self.field@[min_index as int].distance
                    &&& !self.field@[min_index as int].visited
                    &&& min_so_far < MAX_DISTANCE
                    &&& forall|j: int| 0 <= j < min_index && !self.field@[j].visited
                        ==> min_so_far < #[trigger] self.field@[j].distance
                }),
                forall|j: int| 0 <= j < index && !self.field@[j].visited
                    ==> min_so_far <= #[trigger] self.field@[j].distance,
            decreases self.field@.len() - index,
        {
            if self.field[index].distance < min_so_far && self.field[index].visited == false {
                min_so_far = self.field[index].distance;
                min_index = index;
            }
            index = index + 1;
        }
        assert(min_index != usize::MAX) by {
            let k = choose|k: int| 0 <= k < self.field@.len() && !self.field@[k].visited && self.field@[k].distance < MAX_DISTANCE;
            assert(min_so_far <= self.field@[k].distance);
        }
        proof {
            lemma_point_index(self.width as int, self.height as int, min_index as int);
        }
        self.from_index(min_index)
    }

    /// Prepends to `path` the chain of predecessor links that ends at `node`'s position.
    pub fn glue_path_to_destination(&self, node: &Node, path: &mut Path)
        requires
            self.wf(),
            self@.links_acyclic(),
            self@.in_bounds(node.my_pos),
        ensures
            final(path).steps@ == self@.route_to(node.my_pos) + old(path).steps@,
    {
        let ghost m = self@;
        let ghost rank = choose|rank: spec_fn(int) -> nat| m.links_ranked(rank);
        proof {
            lemma_index_point(m.width, m.height, node.my_pos);
            assert(m.cells[m.index(node.my_pos)].predecessor == m.at(node.my_pos).predecessor);
            lemma_trace_fuel(m, rank, node.my_pos, m.cells.len(), (rank(m.index(node.my_pos)) + 1) as nat);
        }
        let mut current_pos = Point2d { x: node.my_pos.x, y: node.my_pos.y };
        loop
            invariant
                self.wf(),
                m == self@,
                m.links_ranked(rank),
                m.in_bounds(current_pos),
                m.route_to(node.my_pos) + old(path).steps@
                    == m.trace(current_pos, (rank(m.index(current_pos)) + 1) as nat) + path.steps@,
            decreases rank(m.index(current_pos)),
        {
            let n = self.field_at(&current_pos);
            proof {
                lemma_index_point(m.width, m.height, current_pos);
            }
            let ghost before = path.steps@;
            path.steps.insert(0, n.my_pos);
            assert(path.steps@ =~= seq![current_pos] + before);
            match n.predecessor {
                None => {
                    assert(m.trace(current_pos, (rank(m.index(current_pos)) + 1) as nat) =~= seq![current_pos]);
                    return;
                },
                Some(cp) => {
                    proof {
                        lemma_trace_fuel(m, rank, cp, rank(m.index(current_pos)) as nat, (rank(m.index(cp)) + 1) as nat);
                        let t = m.trace(cp, (rank(m.index(cp)) + 1) as nat);
                        assert(t.push(current_pos) + before =~= t + (seq![current_pos] + before));
                    }
                    current_pos = Point2d { x: cp.x, y: cp.y };
                },
            }
        }
    }

    /// Marks the cell at an in-bounds point as visited, leaving its other fields alone.
    pub fn set_visited(&mut self, point: &Point2d)
        requires
            old(self).wf(),
            old(self)@.in_bounds(*point),
        ensures
            final(self)@ == (GridModel {
                cells: old(self)@.cells.update(
                    old(self)@.index(*point),
                    Node { visited: true, ..old(self)@.at(*point) },
                ),
                ..old(self)@
            }),
    {
        let i = self.to_index(point);
        let mut n = self.field[i];
        n.visited = true;
        self.field.set(i, n);
    }
}

} // verus!
