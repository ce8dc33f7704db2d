use vstd::prelude::*;

verus! {

/// The widest grid that a query may use.
pub const MAX_WIDTH: i64 = 1000;

/// The tallest grid that a query may use.
pub const MAX_HEIGHT: i64 = 1000;

/// Distance of a cell that no path has reached yet ("infinite").
pub const MAX_DISTANCE: u64 = 0xffff_ffff_ffff_ffff;

/// The four neighbour directions, in the order the search tries them.
pub const OFFSETS: [(i64, i64); 4] = [(-1, 0), (1, 0), (0, -1), (0, 1)];

} // verus!
