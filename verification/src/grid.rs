//! The dense, bounds-checked 2D store of cells, addressable by `(x, y)`.
//!
//! A grid is created with given dimensions and initial start/target
//! markers; all other cells start as `Empty`. During a run the search
//! engine is the grid's sole mutator.

use vstd::prelude::*;
use crate::{Position2D, SearchError, pos_int, pos_in_bounds, dims_fit};
use crate::node::{Node, NodeState, node_pos};

verus! {

/// The dense 2D container of cells, in column-of-rows layout:
/// `cells[x][y]` is the cell at position `(x, y)`.
pub struct Grid {
    pub cells: Vec<Vec<Node>>,
    pub width: i32,
    pub height: i32,
}

/// The state a freshly created cell carries: `Start` on the start
/// position, `Target` on the target position (start wins when the two
/// coincide), `Empty` everywhere else.
pub open spec fn initial_state(p: (int, int), start: (int, int), target: (int, int)) -> NodeState {
    if p == start {
        NodeState::Start
    } else if p == target {
        NodeState::Target
    } else {
        NodeState::Empty
    }
}

/// The cell a fresh grid holds at `(x, y)`.
pub open spec fn initial_cell(x: int, y: int, start: (int, int), target: (int, int)) -> Node {
    Node {
        x: x as i32,
        y: y as i32,
        state: initial_state((x, y), start, target),
        g: 0,
        h: 0,
        parent: None,
    }
}

impl Grid {
    pub open spec fn spec_width(self) -> int {
        self.width as int
    }

    pub open spec fn spec_height(self) -> int {
        self.height as int
    }

    /// The cell stored at position `(x, y)`.
    pub open spec fn cell_at(self, x: int, y: int) -> Node
        recommends
            pos_in_bounds((x, y), self.spec_width(), self.spec_height()),
    {
        self.cells@[x]@[y]
    }

    /// Well-formedness: the store is dense with the stated dimensions,
    /// the dimensions respect the machine limit, and every cell records
    /// its own position.
    pub open spec fn wf(self) -> bool {
        &&& dims_fit(self.spec_width(), self.spec_height())
        &&& self.cells@.len() == self.spec_width()
        &&& forall|i: int|
            0 <= i < self.spec_width() ==> (#[trigger] self.cells@[i])@.len()
                == self.spec_height()
        &&& forall|i: int, j: int|
            pos_in_bounds((i, j), self.spec_width(), self.spec_height()) ==> node_pos(
                #[trigger] self.cell_at(i, j),
            ) == (i, j)
    }

    /// Create a fully initialized grid: the start and target cells get
    /// their respective states, all others `Empty`. Rejects a start or
    /// target outside the dimensions.
    pub fn create(dimensions: Position2D, start: Position2D, target: Position2D) -> (r: Result<
        Grid,
        SearchError,
    >)
        requires
            dims_fit(dimensions.0 as int, dimensions.1 as int),
        ensures
            match r {
                Ok(g) => {
                    &&& pos_in_bounds(pos_int(start), dimensions.0 as int, dimensions.1 as int)
                    &&& pos_in_bounds(pos_int(target), dimensions.0 as int, dimensions.1 as int)
                    &&& g.wf()
                    &&& g.spec_width() == dimensions.0 as int
                    &&& g.spec_height() == dimensions.1 as int
                    &&& forall|i: int, j: int|
                        pos_in_bounds((i, j), g.spec_width(), g.spec_height())
                            ==> #[trigger] g.cell_at(i, j) == initial_cell(
                            i,
                            j,
                            pos_int(start),
                            pos_int(target),
                        )
                },
                Err(e) => {
                    &&& e == SearchError::IndexOutOfBounds
                    &&& !(pos_in_bounds(pos_int(start), dimensions.0 as int, dimensions.1 as int)
                        && pos_in_bounds(pos_int(target), dimensions.0 as int, dimensions.1 as int))
                },
            },
    {
        let w = dimensions.0;
        let h = dimensions.1;
        if !(start.0 >= 0 && start.0 < w && start.1 >= 0 && start.1 < h && target.0 >= 0
            && target.0 < w && target.1 >= 0 && target.1 < h) {
            return Err(SearchError::IndexOutOfBounds);
        }
        let mut cells: Vec<Vec<Node>> = Vec::new();
        let mut i: i32 = 0;
        while i < w
            invariant
                0 <= i <= w,
                0 < w,
                0 < h,
                cells@.len() == i,
                forall|a: int|
                    0 <= a < i ==> (#[trigger] cells@[a])@.len() == h,
                forall|a: int, b: int|
                    0 <= a < i && 0 <= b < h ==> #[trigger] cells@[a]@[b] == initial_cell(
                        a,
                        b,
                        pos_int(start),
                        pos_int(target),
                    ),
            decreases w - i,
        {
            let mut row: Vec<Node> = Vec::new();
            let mut j: i32 = 0;
            while j < h
                invariant
                    0 <= j <= h,
                    0 <= i < w,
                    0 < h,
                    row@.len() == j,
                    forall|b: int|
                        0 <= b < j ==> #[trigger] row@[b] == initial_cell(
                            i as int,
                            b,
                            pos_int(start),
                            pos_int(target),
                        ),
                decreases h - j,
            {
                let state = if i == start.0 && j == start.1 {
                    NodeState::Start
                } else if i == target.0 && j == target.1 {
                    NodeState::Target
                } else {
                    NodeState::Empty
                };
                row.push(Node { x: i, y: j, state, g: 0, h: 0, parent: None });
                j = j + 1;
            }
            cells.push(row);
            i = i + 1;
        }
        Ok(Grid { cells, width: w, height: h })
    }

    /// Bounds-checked read access to one cell.
    pub fn get(&self, position: Position2D) -> (r: Result<Node, SearchError>)
        requires
            self.wf(),
        ensures
            match r {
                Ok(n) => pos_in_bounds(pos_int(position), self.spec_width(), self.spec_height())
                    && n == self.cell_at(position.0 as int, position.1 as int),
                Err(e) => e == SearchError::IndexOutOfBounds && !pos_in_bounds(
                    pos_int(position),
                    self.spec_width(),
                    self.spec_height(),
                ),
            },
    {
        if position.0 >= 0 && position.0 < self.width && position.1 >= 0 && position.1
            < self.height {
            Ok(self.cells[position.0 as usize][position.1 as usize])
        } else {
            Err(SearchError::IndexOutOfBounds)
        }
    }

    /// Overwrite one cell; internal to the engine.
    pub(crate) fn set_cell(&mut self, x: usize, y: usize, n: Node)
        requires
            old(self).wf(),
            x < old(self).spec_width(),
            y < old(self).spec_height(),
            node_pos(n) == (x as int, y as int),
        ensures
            final(self).wf(),
            final(self).spec_width() == old(self).spec_width(),
            final(self).spec_height() == old(self).spec_height(),
            final(self).cell_at(x as int, y as int) == n,
            forall|i: int, j: int|
                pos_in_bounds((i, j), old(self).spec_width(), old(self).spec_height()) && (i, j)
                    != (x as int, y as int) ==> #[trigger] final(self).cell_at(i, j) == old(
                    self,
                ).cell_at(i, j),
    {
        let row = &mut self.cells[x];
        row[y] = n;
        proof {
            assert(self.width == old(self).width);
            assert(self.height == old(self).height);
            assert(self.cells@.len() == old(self).cells@.len());
            assert(self.cells@[x as int]@ == old(self).cells@[x as int]@.update(y as int, n));
            assert forall|i: int| 0 <= i < self.spec_width() implies (#[trigger] self.cells@[i])@.len()
                == self.spec_height() by {
                if i != x as int {
                    assert(self.cells@[i] == old(self).cells@[i]);
                }
            }
            assert forall|i: int, j: int|
                pos_in_bounds((i, j), self.spec_width(), self.spec_height()) && (i, j) != (
                    x as int,
                    y as int,
                ) implies #[trigger] self.cell_at(i, j) == old(self).cell_at(i, j) by {
                if i != x as int {
                    assert(self.cells@[i] == old(self).cells@[i]);
                }
            }
            assert forall|i: int, j: int|
                pos_in_bounds((i, j), self.spec_width(), self.spec_height()) implies node_pos(
                #[trigger] self.cell_at(i, j),
            ) == (i, j) by {
                if i == x as int && j == y as int {
                    assert(self.cell_at(i, j) == n);
                } else {
                    assert(self.cell_at(i, j) == old(self).cell_at(i, j));
                }
            }
        }
    }

    /// Toggle a wall at `position`: a `Wall` cell reverts to `Empty`, any
    /// other cell becomes `Wall`. Placing a wall on the current start or
    /// target cell is rejected as `InvalidReconfiguration`; walls are
    /// meant to be placed before or between runs.
    pub fn toggle_wall(&mut self, position: Position2D) -> (r: Result<(), SearchError>)
        requires
            old(self).wf(),
        ensures
            final(self).wf(),
            final(self).spec_width() == old(self).spec_width(),
            final(self).spec_height() == old(self).spec_height(),
            match r {
                Ok(()) => {
                    let p = pos_int(position);
                    let oldc = old(self).cell_at(p.0, p.1);
                    &&& pos_in_bounds(p, old(self).spec_width(), old(self).spec_height())
                    &&& oldc.state != NodeState::Start && oldc.state != NodeState::Target
                    &&& final(self).cell_at(p.0, p.1) == (Node {
                        state: if oldc.state == NodeState::Wall {
                            NodeState::Empty
                        } else {
                            NodeState::Wall
                        },
                        ..oldc
                    })
                    &&& forall|i: int, j: int|
                        pos_in_bounds((i, j), old(self).spec_width(), old(self).spec_height())
                            && (i, j) != p ==> #[trigger] final(self).cell_at(i, j) == old(
                            self,
                        ).cell_at(i, j)
                },
                Err(e) => {
                    let p = pos_int(position);
                    &&& *final(self) == *old(self)
                    &&& if pos_in_bounds(p, old(self).spec_width(), old(self).spec_height()) {
                        e == SearchError::InvalidReconfiguration && (old(self).cell_at(p.0, p.1).state
                            == NodeState::Start || old(self).cell_at(p.0, p.1).state
                            == NodeState::Target)
                    } else {
                        e == SearchError::IndexOutOfBounds
                    }
                },
            },
    {
        if !(position.0 >= 0 && position.0 < self.width && position.1 >= 0 && position.1
            < self.height) {
            return Err(SearchError::IndexOutOfBounds);
        }
        let x = position.0 as usize;
        let y = position.1 as usize;
        let cell = self.cells[x][y];
        if cell.state == NodeState::Start || cell.state == NodeState::Target {
            return Err(SearchError::InvalidReconfiguration);
        }
        let new_state = if cell.state == NodeState::Wall {
            NodeState::Empty
        } else {
            NodeState::Wall
        };
        self.set_cell(x, y, Node { state: new_state, ..cell });
        Ok(())
    }
}

} // verus!
