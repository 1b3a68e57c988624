//! The per-cell search metadata: a `Node` is one grid position together
//! with its search state, its accumulated cost `g`, its heuristic
//! estimate `h`, and the position it was reached from.

use vstd::prelude::*;
use crate::Position2D;

verus! {

/// The search state of one grid cell.
#[derive(Clone, Copy, Debug, PartialEq, Eq, Structural)]
pub enum NodeState {
    Empty,
    Start,
    Target,
    Open,
    Closed,
    Current,
    Path,
    Wall,
}

/// One grid cell's search metadata. `parent` refers to the cell this one
/// was reached from, by position; it is absent for the start cell.
#[derive(Clone, Copy, Debug, PartialEq, Eq)]
pub struct Node {
    pub x: i32,
    pub y: i32,
    pub state: NodeState,
    pub g: i32,
    pub h: i32,
    pub parent: Option<Position2D>,
}

/// The position of a node, as mathematical integers.
pub open spec fn node_pos(n: Node) -> (int, int) {
    (n.x as int, n.y as int)
}

impl Node {
    /// The priority `f = g + h` used to pick the next expansion.
    pub fn get_f(&self) -> (r: i32)
        requires
            i32::MIN <= self.g + self.h <= i32::MAX,
        ensures
            r == self.g + self.h,
    {
        self.g + self.h
    }
}

} // verus!
