//! An incremental, step-driven A* pathfinding engine over a dense 2D grid.
//!
//! The engine performs exactly one frontier expansion per call, so an
//! external driver (a timer tick, an event loop) can animate the search.
//! Costs use the octile model: a diagonal step costs 14, an orthogonal
//! step costs 10, so all costs stay whole numbers.

use vstd::prelude::*;

pub mod node;
pub mod grid;
pub mod astar;

verus! {

/// A grid coordinate: `(x, y)`.
pub type Position2D = (i32, i32);

/// Every failure the engine can report to its driver.
#[derive(Clone, Copy, Debug, PartialEq, Eq, Structural)]
pub enum SearchError {
    /// `algorithm` was called before a start and a target were set.
    NotInitialized,
    /// The frontier ran empty before the target was reached.
    NoPathFound,
    /// A coordinate lies outside the grid's dimensions.
    IndexOutOfBounds,
    /// An attempt to place a wall on the current start or target cell.
    InvalidReconfiguration,
}

/// The octile distance between two offsets of absolute size `dx`, `dy`:
/// 14 per diagonal step plus 10 per remaining orthogonal step.
pub open spec fn octile(dx: int, dy: int) -> int
    recommends
        dx >= 0,
        dy >= 0,
{
    if dx > dy {
        14 * dy + 10 * (dx - dy)
    } else {
        14 * dx + 10 * (dy - dx)
    }
}

/// Absolute value of a mathematical integer.
pub open spec fn abs_int(a: int) -> int {
    if a >= 0 {
        a
    } else {
        -a
    }
}

/// A position as a pair of mathematical integers.
pub open spec fn pos_int(p: Position2D) -> (int, int) {
    (p.0 as int, p.1 as int)
}

/// Whether `p` lies inside a `w` by `h` grid.
pub open spec fn pos_in_bounds(p: (int, int), w: int, h: int) -> bool {
    0 <= p.0 < w && 0 <= p.1 < h
}

/// The machine limit on grid dimensions: every cost the search can
/// produce (at most 14 per expanded cell plus the largest heuristic)
/// must fit in an `i32`.
pub open spec fn dims_fit(w: int, h: int) -> bool {
    0 < w && 0 < h && 14 * (w * h + w + h) <= i32::MAX
}

} // verus!
