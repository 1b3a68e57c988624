//! The step-driven A* search engine: one frontier expansion per call.

use vstd::prelude::*;
use vstd::seq_lib::*;
use vstd::set_lib::*;
use crate::{Position2D, SearchError, octile, abs_int, pos_int, pos_in_bounds, dims_fit};
use crate::node::{Node, NodeState, node_pos};
use crate::grid::Grid;

verus! {

/// Whether some node in `s` sits at position `p`.
pub open spec fn has_pos(s: Seq<Node>, p: (int, int)) -> bool {
    exists|i: int| 0 <= i < s.len() && node_pos(s[i]) == p
}

/// No two nodes of `s` share a position.
pub open spec fn distinct_positions(s: Seq<Node>) -> bool {
    forall|i: int, j: int| 0 <= i < j < s.len() ==> node_pos(s[i]) != node_pos(s[j])
}

/// No node of `a` shares a position with a node of `b`.
pub open spec fn disjoint_positions(a: Seq<Node>, b: Seq<Node>) -> bool {
    forall|i: int, j: int|
        0 <= i < a.len() && 0 <= j < b.len() ==> node_pos(#[trigger] a[i]) != node_pos(
            #[trigger] b[j],
        )
}

/// Every node of `s` lies inside a `w` by `h` grid.
pub open spec fn nodes_in_bounds(s: Seq<Node>, w: int, h: int) -> bool {
    forall|i: int| 0 <= i < s.len() ==> pos_in_bounds(node_pos(#[trigger] s[i]), w, h)
}

/// Cost bounds that keep all arithmetic inside `i32`: each recorded `g`
/// is at most 14 per visited cell, each `h` at most the largest octile
/// distance the grid admits.
pub open spec fn costs_bounded(s: Seq<Node>, visited_len: int, w: int, h: int) -> bool {
    forall|i: int|
        0 <= i < s.len() ==> {
            let n = #[trigger] s[i];
            0 <= n.g <= 14 * visited_len && 0 <= n.h <= 14 * (w + h)
        }
}

/// The parent of `n`, if any, sits among the first `upto` nodes of `vs`.
pub open spec fn parent_ok_in(n: Node, vs: Seq<Node>, upto: int) -> bool {
    match n.parent {
        None => true,
        Some(p) => exists|j: int| 0 <= j < upto && node_pos(vs[j]) == pos_int(p),
    }
}

/// Parent links inside the visited list point strictly backwards: the
/// parent of `vs[i]` was visited before `vs[i]`.
pub open spec fn visited_parents_wf(vs: Seq<Node>) -> bool {
    forall|i: int| 0 <= i < vs.len() ==> parent_ok_in(#[trigger] vs[i], vs, i)
}

/// Every frontier node's parent, if any, has already been visited.
pub open spec fn frontier_parents_wf(fr: Seq<Node>, vs: Seq<Node>) -> bool {
    forall|k: int| 0 <= k < fr.len() ==> parent_ok_in(#[trigger] fr[k], vs, vs.len() as int)
}

/// Appending a node extends the positions of a list by its position.
proof fn lemma_has_pos_push(s: Seq<Node>, e: Node, q: (int, int))
    ensures
        has_pos(s.push(e), q) <==> (has_pos(s, q) || node_pos(e) == q),
{
    if has_pos(s.push(e), q) {
        let m = choose|m: int| 0 <= m < s.push(e).len() && node_pos(s.push(e)[m]) == q;
        if m < s.len() {
            assert(node_pos(s[m]) == q);
        }
    }
    if has_pos(s, q) {
        let m = choose|m: int| 0 <= m < s.len() && node_pos(s[m]) == q;
        assert(node_pos(s.push(e)[m]) == q);
    }
    if node_pos(e) == q {
        assert(node_pos(s.push(e)[s.len() as int]) == q);
    }
}

/// Replacing a node by one at the same position keeps the position set.
proof fn lemma_has_pos_update(s: Seq<Node>, i: int, e: Node, q: (int, int))
    requires
        0 <= i < s.len(),
        node_pos(e) == node_pos(s[i]),
    ensures
        has_pos(s.update(i, e), q) <==> has_pos(s, q),
{
    if has_pos(s.update(i, e), q) {
        let m = choose|m: int| 0 <= m < s.update(i, e).len() && node_pos(s.update(i, e)[m]) == q;
        assert(node_pos(s[m]) == q);
    }
    if has_pos(s, q) {
        let m = choose|m: int| 0 <= m < s.len() && node_pos(s[m]) == q;
        assert(node_pos(s.update(i, e)[m]) == q);
    }
}

/// Removing the only node at its position removes exactly that position.
proof fn lemma_has_pos_remove(s: Seq<Node>, i: int, q: (int, int))
    requires
        0 <= i < s.len(),
        distinct_positions(s),
    ensures
        has_pos(s.remove(i), q) <==> (has_pos(s, q) && q != node_pos(s[i])),
{
    let t = s.remove(i);
    if has_pos(t, q) {
        let m = choose|m: int| 0 <= m < t.len() && node_pos(t[m]) == q;
        if m < i {
            assert(node_pos(s[m]) == q);
        } else {
            assert(node_pos(s[m + 1]) == q);
        }
    }
    if has_pos(s, q) && q != node_pos(s[i]) {
        let m = choose|m: int| 0 <= m < s.len() && node_pos(s[m]) == q;
        if m < i {
            assert(node_pos(t[m]) == q);
        } else {
            assert(node_pos(t[m - 1]) == q);
        }
    }
}

/// One more processed prefix element extends the prefix positions by it.
proof fn lemma_has_pos_take_step(s: Seq<Node>, k: int, q: (int, int))
    requires
        0 <= k < s.len(),
    ensures
        has_pos(s.take(k + 1), q) <==> (has_pos(s.take(k), q) || node_pos(s[k]) == q),
{
    if has_pos(s.take(k + 1), q) {
        let m = choose|m: int|
            0 <= m < s.take(k + 1).len() && node_pos(#[trigger] s.take(k + 1)[m]) == q;
        if m < k {
            assert(node_pos(s.take(k)[m]) == q);
        } else {
            assert(node_pos(s[k]) == q);
        }
    }
    if has_pos(s.take(k), q) {
        let m = choose|m: int| 0 <= m < s.take(k).len() && node_pos(s.take(k)[m]) == q;
        assert(node_pos(s.take(k + 1)[m]) == q);
    }
    if node_pos(s[k]) == q {
        assert(node_pos(s.take(k + 1)[k]) == q);
    }
}

/// The cost one expansion step offers a neighbor at `q` of the selected
/// node `sel`: the selected node's cost plus the octile move cost.
pub open spec fn tentative_g(sel: Node, q: (int, int)) -> int {
    sel.g + octile(abs_int(q.0 - sel.x), abs_int(q.1 - sel.y))
}

/// Whether one expansion step relaxes the neighbor cell `oldc` of the
/// selected node `sel`: walls and visited positions are skipped, and a
/// remaining neighbor is (re)opened exactly when it is not yet in the
/// frontier or the new route improves on its recorded cost.
pub open spec fn relax_applies(sel: Node, oldc: Node, fr: Seq<Node>, vs: Seq<Node>) -> bool {
    &&& oldc.state != NodeState::Wall
    &&& !has_pos(vs, node_pos(oldc))
    &&& (!has_pos(fr, node_pos(oldc)) || tentative_g(sel, node_pos(oldc)) < oldc.g)
}

/// What a relaxed neighbor cell becomes: opened, with the tentative
/// cost, the fresh heuristic towards the target `tgt`, and the selected
/// node as parent.
pub open spec fn relaxed_cell(sel: Node, oldc: Node, tgt: Node) -> Node {
    Node {
        state: NodeState::Open,
        g: tentative_g(sel, node_pos(oldc)) as i32,
        h: octile(abs_int(oldc.x - tgt.x), abs_int(oldc.y - tgt.y)) as i32,
        parent: Some((sel.x, sel.y)),
        ..oldc
    }
}

/// Lexicographic order on the offsets of two positions from a common
/// center `p`: the fixed order in which the neighbors of `p` are
/// enumerated and, with them, fresh frontier entries are appended.
pub open spec fn off_lt(q1: (int, int), q2: (int, int), p: (int, int)) -> bool {
    q1.0 - p.0 < q2.0 - p.0 || (q1.0 - p.0 == q2.0 - p.0 && q1.1 - p.1 < q2.1 - p.1)
}

/// Strict priority order on nodes: smaller `f = g + h` first, ties
/// broken by the smaller `h`.
pub open spec fn fh_lt(a: Node, b: Node) -> bool {
    a.g + a.h < b.g + b.h || (a.g + a.h == b.g + b.h && a.h < b.h)
}

/// `s[i]` is the node one expansion step selects: no node beats it, and
/// it strictly beats every node before it (the earliest minimum).
pub open spec fn is_selected(s: Seq<Node>, i: int) -> bool {
    &&& 0 <= i < s.len()
    &&& forall|j: int| 0 <= j < s.len() ==> !fh_lt(#[trigger] s[j], s[i])
    &&& forall|j: int| 0 <= j < i ==> fh_lt(s[i], #[trigger] s[j])
}

/// Positions within Chebyshev distance 1 of each other, excluding
/// equality: the up-to-8 grid neighbors.
pub open spec fn adjacent(p: (int, int), q: (int, int)) -> bool {
    p != q && abs_int(p.0 - q.0) <= 1 && abs_int(p.1 - q.1) <= 1
}

/// The path from the search's origin to `vs[i]`, read off the parent
/// links inside the visited list `vs`, origin first.
pub open spec fn chain(vs: Seq<Node>, i: int) -> Seq<Node>
    recommends
        0 <= i < vs.len(),
        visited_parents_wf(vs),
    decreases i,
{
    if 0 <= i < vs.len() {
        match vs[i].parent {
            None => seq![vs[i]],
            Some(p) => {
                if exists|j: int| 0 <= j < i && node_pos(vs[j]) == pos_int(p) {
                    let j = choose|j: int| 0 <= j < i && node_pos(vs[j]) == pos_int(p);
                    chain(vs, j).push(vs[i])
                } else {
                    seq![vs[i]]
                }
            },
        }
    } else {
        seq![]
    }
}

/// The octile move cost between two cells: 14 per diagonal step plus 10
/// per remaining orthogonal step of the offset between them.
pub fn get_distance(node_a: &Node, node_b: &Node) -> (r: i32)
    requires
        14 * (abs_int(node_a.x - node_b.x) + abs_int(node_a.y - node_b.y)) <= i32::MAX,
    ensures
        r == octile(abs_int(node_a.x - node_b.x), abs_int(node_a.y - node_b.y)),
        r >= 0,
{
    let dst_x: i64 = if node_a.x >= node_b.x {
        node_a.x as i64 - node_b.x as i64
    } else {
        node_b.x as i64 - node_a.x as i64
    };
    let dst_y: i64 = if node_a.y >= node_b.y {
        node_a.y as i64 - node_b.y as i64
    } else {
        node_b.y as i64 - node_a.y as i64
    };
    let d: i64 = if dst_x > dst_y {
        14 * dst_y + 10 * (dst_x - dst_y)
    } else {
        14 * dst_x + 10 * (dst_y - dst_x)
    };
    d as i32
}

/// The step-driven A* search engine. It owns the frontier (open list)
/// and the visited set (closed list); `algorithm` performs exactly one
/// frontier expansion per call.
pub struct Astar {
    pub open_list: Vec<Node>,
    pub closed_list: Vec<Node>,
    pub target: Option<Node>,
    pub start: Option<Node>,
    pub found: Option<Vec<Node>>,
}

impl Astar {
    /// Both endpoints of the search are set.
    pub open spec fn ready(self) -> bool {
        self.start is Some && self.target is Some
    }

    /// The engine's internal invariant, relative to grid dimensions
    /// `w` by `h`: all recorded nodes are in bounds with positions
    /// unique per list and never shared between the lists (no
    /// reopening), every cost fits the `i32` budget, the visited list
    /// cannot outgrow the grid, and parent links always point to
    /// already-visited nodes.
    pub open spec fn inv(self, w: int, h: int) -> bool {
        &&& dims_fit(w, h)
        &&& nodes_in_bounds(self.open_list@, w, h)
        &&& nodes_in_bounds(self.closed_list@, w, h)
        &&& distinct_positions(self.open_list@)
        &&& distinct_positions(self.closed_list@)
        &&& disjoint_positions(self.open_list@, self.closed_list@)
        &&& costs_bounded(self.open_list@, self.closed_list@.len() as int, w, h)
        &&& costs_bounded(self.closed_list@, self.closed_list@.len() as int, w, h)
        &&& self.closed_list@.len() <= w * h
        &&& visited_parents_wf(self.closed_list@)
        &&& frontier_parents_wf(self.open_list@, self.closed_list@)
        &&& match self.start {
            Some(s) => pos_in_bounds(node_pos(s), w, h),
            None => true,
        }
        &&& match self.target {
            Some(t) => pos_in_bounds(node_pos(t), w, h),
            None => true,
        }
    }

    /// The consistency invariant between the engine and the grid it
    /// searches: away from the start cell, a cell is `Open` exactly when
    /// its position is in the frontier and `Closed` exactly when it is in
    /// the visited set; frontier entries mirror their grid cells
    /// verbatim, visited entries up to the `Closed` marking. The start
    /// cell keeps its `Start` state while it participates in the search,
    /// and it sits in the frontier only as the freshly seeded sole entry.
    pub open spec fn sync(self, g: Grid) -> bool {
        let w = g.spec_width();
        let h = g.spec_height();
        let sp = node_pos(self.start.unwrap());
        &&& g.wf()
        &&& self.ready()
        &&& pos_in_bounds(sp, w, h)
        &&& pos_in_bounds(node_pos(self.target.unwrap()), w, h)
        &&& g.cell_at(sp.0, sp.1).state == NodeState::Start
        &&& has_pos(self.open_list@, sp) || has_pos(self.closed_list@, sp)
        &&& (has_pos(self.open_list@, sp) ==> self.open_list@.len() == 1
            && self.closed_list@.len() == 0)
        &&& forall|x: int, y: int|
            pos_in_bounds((x, y), w, h) && (x, y) != sp ==> {
                &&& ((#[trigger] g.cell_at(x, y)).state == NodeState::Open <==> has_pos(
                    self.open_list@,
                    (x, y),
                ))
                &&& (g.cell_at(x, y).state == NodeState::Closed <==> has_pos(
                    self.closed_list@,
                    (x, y),
                ))
            }
        &&& forall|k: int|
            0 <= k < self.open_list@.len() ==> g.cell_at(
                node_pos(#[trigger] self.open_list@[k]).0,
                node_pos(self.open_list@[k]).1,
            ) == self.open_list@[k]
        &&& forall|i: int|
            0 <= i < self.closed_list@.len() ==> {
                let n = #[trigger] self.closed_list@[i];
                let c = g.cell_at(node_pos(n).0, node_pos(n).1);
                &&& c.x == n.x
                &&& c.y == n.y
                &&& c.g == n.g
                &&& c.h == n.h
                &&& c.parent == n.parent
                &&& (node_pos(n) == sp || c.state == NodeState::Closed)
            }
    }

    /// A fresh engine: empty frontier and visited set, no endpoints.
    pub fn new() -> (r: Astar)
        ensures
            r.open_list@.len() == 0,
            r.closed_list@.len() == 0,
            r.start is None,
            r.target is None,
            r.found is None,
    {
        let open_list: Vec<Node> = Vec::new();
        let closed_list: Vec<Node> = Vec::new();
        Astar { open_list, closed_list, target: None, start: None, found: None }
    }

    /// (Re)start a run: the frontier is reseeded with the start cell,
    /// the visited set and any cached result are discarded.
    pub fn init(&mut self, start: Node, target: Node)
        ensures
            final(self).open_list@ == seq![start],
            final(self).closed_list@.len() == 0,
            final(self).start == Some(start),
            final(self).target == Some(target),
            final(self).found is None,
    {
        self.open_list.clear();
        self.closed_list.clear();
        self.start = Some(start);
        self.open_list.push(start);
        self.target = Some(target);
        self.found = None;
        proof {
            assert(self.open_list@ =~= seq![start]);
        }
    }

    /// Change the start cell: a full reset, as `init` with the target kept.
    pub fn set_start(&mut self, start: Node)
        ensures
            final(self).open_list@ == seq![start],
            final(self).closed_list@.len() == 0,
            final(self).start == Some(start),
            final(self).target == old(self).target,
            final(self).found is None,
    {
        self.open_list.clear();
        self.closed_list.clear();
        self.start = Some(start);
        self.open_list.push(start);
        self.found = None;
        proof {
            assert(self.open_list@ =~= seq![start]);
        }
    }

    /// Change the target cell: a full reset, reseeded from the current
    /// start.
    pub fn set_target(&mut self, target: Node)
        requires
            old(self).start is Some,
        ensures
            final(self).open_list@ == seq![old(self).start.unwrap()],
            final(self).closed_list@.len() == 0,
            final(self).start == old(self).start,
            final(self).target == Some(target),
            final(self).found is None,
    {
        self.open_list.clear();
        self.closed_list.clear();
        let s = match &self.start {
            Some(s) => *s,
            None => unreached(),
        };
        self.open_list.push(s);
        self.target = Some(target);
        self.found = None;
        proof {
            assert(self.open_list@ =~= seq![old(self).start.unwrap()]);
        }
    }
    /// Advance the search by exactly one expansion: select the frontier
    /// entry with minimal `f = g + h` (ties to the smaller `h`, earliest
    /// entry among equals), move it to the visited set, mark its cell
    /// `Closed` (start and target cells keep their own state), and
    /// either report the finished path once the target is dequeued, or
    /// relax the up-to-8 neighbors and report that the search goes on.
    ///
    /// `position` receives the position of the expanded cell. Once a
    /// path was found, further calls return the cached path and change
    /// nothing. With no endpoints set the call reports
    /// `NotInitialized`; with an exhausted frontier, `NoPathFound`.
    #[verifier::loop_isolation(false)]
    #[verifier::rlimit(100)]
    pub fn algorithm(&mut self, grid: &mut Grid, position: &mut Position2D) -> (r: Result<
        Option<Vec<Node>>,
        SearchError,
    >)
        requires
            old(grid).wf(),
            old(self).inv(old(grid).spec_width(), old(grid).spec_height()),
            old(self).ready() && old(self).found is None ==> old(self).sync(*old(grid)),
        ensures
            final(grid).wf(),
            final(grid).spec_width() == old(grid).spec_width(),
            final(grid).spec_height() == old(grid).spec_height(),
            final(self).inv(old(grid).spec_width(), old(grid).spec_height()),
            final(self).start == old(self).start,
            final(self).target == old(self).target,
            old(self).found is Some ==> {
                &&& *final(self) == *old(self)
                &&& *final(grid) == *old(grid)
                &&& *final(position) == *old(position)
                &&& r matches Ok(Some(p)) && p@ == old(self).found.unwrap()@
            },
            !old(self).ready() && old(self).found is None ==> {
                &&& r == Err::<Option<Vec<Node>>, SearchError>(SearchError::NotInitialized)
                &&& *final(self) == *old(self)
                &&& *final(grid) == *old(grid)
                &&& *final(position) == *old(position)
            },
            old(self).ready() && old(self).found is None && old(self).open_list@.len() == 0 ==> {
                &&& r == Err::<Option<Vec<Node>>, SearchError>(SearchError::NoPathFound)
                &&& *final(self) == *old(self)
                &&& *final(grid) == *old(grid)
                &&& *final(position) == *old(position)
            },
            old(self).ready() && old(self).found is None && old(self).open_list@.len() > 0 ==> {
                let fr0 = old(self).open_list@;
                let cl0 = old(self).closed_list@;
                let sel_i = choose|si: int| is_selected(fr0, si);
                let sel = fr0[sel_i];
                let sp = node_pos(sel);
                let stp = node_pos(old(self).start.unwrap());
                let tgt = old(self).target.unwrap();
                let tgp = node_pos(tgt);
                let w = old(grid).spec_width();
                let h = old(grid).spec_height();
                &&& is_selected(fr0, sel_i)
                &&& *final(position) == (sel.x, sel.y)
                &&& final(self).closed_list@ == cl0.push(sel)
                &&& !has_pos(cl0, sp)
                &&& if sp == tgp {
                    let path = chain(cl0.push(sel), cl0.len() as int).drop_last().push(tgt);
                    &&& r matches Ok(Some(p)) && p@ == path
                    &&& final(self).found matches Some(fp) && fp@ == path
                    &&& final(self).open_list@ == fr0.remove(sel_i)
                    &&& forall|x: int, y: int|
                        pos_in_bounds((x, y), w, h) ==> {
                            let c = #[trigger] final(grid).cell_at(x, y);
                            if has_pos(path, (x, y)) {
                                c == (Node { state: NodeState::Path, ..old(grid).cell_at(x, y) })
                            } else {
                                c == old(grid).cell_at(x, y)
                            }
                        }
                } else {
                    &&& r == Ok::<Option<Vec<Node>>, SearchError>(None)
                    &&& final(self).found is None
                    &&& final(self).sync(*final(grid))
                    &&& forall|x: int, y: int|
                        pos_in_bounds((x, y), w, h) ==> {
                            let oldc = old(grid).cell_at(x, y);
                            let c = #[trigger] final(grid).cell_at(x, y);
                            if (x, y) == sp {
                                c == (if sp == stp {
                                    oldc
                                } else {
                                    Node { state: NodeState::Closed, ..oldc }
                                })
                            } else if adjacent((x, y), sp) && relax_applies(sel, oldc, fr0, cl0) {
                                c == relaxed_cell(sel, oldc, tgt)
                            } else {
                                c == oldc
                            }
                        }
                    &&& forall|q: (int, int)|
                        #![trigger has_pos(final(self).open_list@, q)]
                        has_pos(final(self).open_list@, q) <==> ((q != sp && has_pos(fr0, q)) || (
                        pos_in_bounds(q, w, h) && adjacent(q, sp) && old(grid).cell_at(
                            q.0,
                            q.1,
                        ).state != NodeState::Wall && !has_pos(cl0, q)))
                    &&& final(self).open_list@.len() >= fr0.remove(sel_i).len()
                    &&& forall|a: int|
                        0 <= a < fr0.remove(sel_i).len() ==> node_pos(
                            #[trigger] final(self).open_list@[a],
                        ) == node_pos(fr0.remove(sel_i)[a])
                    &&& forall|a: int, b: int|
                        fr0.remove(sel_i).len() <= a < b < final(self).open_list@.len() ==> off_lt(
                            node_pos(#[trigger] final(self).open_list@[a]),
                            node_pos(#[trigger] final(self).open_list@[b]),
                            sp,
                        )
                }
            },
    {
        let ghost w = old(grid).spec_width();
        let ghost h = old(grid).spec_height();
        match &self.found {
            Some(p) => {
                let copied = copy_nodes(p);
                return Ok(Some(copied));
            },
            None => {},
        }
        let (start_node, target_node) = match (&self.start, &self.target) {
            (Some(s), Some(t)) => (*s, *t),
            _ => {
                return Err(SearchError::NotInitialized);
            },
        };
        if self.open_list.len() == 0 {
            return Err(SearchError::NoPathFound);
        }
        let ghost fr0 = self.open_list@;
        let ghost cl0 = self.closed_list@;
        let ghost stp = node_pos(start_node);
        let ghost tgp = node_pos(target_node);
        proof {
            lemma_cost_fits(w, h, cl0.len() as int);
        }
        let mut best: usize = 0;
        let mut i: usize = 1;
        while i < self.open_list.len()
            invariant
                1 <= i <= self.open_list@.len(),
                (best as int) < i,
                forall|j: int|
                    0 <= j < i ==> !fh_lt(
                        #[trigger] self.open_list@[j],
                        self.open_list@[best as int],
                    ),
                forall|j: int|
                    0 <= j < best as int ==> fh_lt(
                        self.open_list@[best as int],
                        #[trigger] self.open_list@[j],
                    ),
            decreases self.open_list@.len() - i,
        {
            let fi = self.open_list[i].get_f();
            let fb = self.open_list[best].get_f();
            if fi < fb || (fi == fb && self.open_list[i].h < self.open_list[best].h) {
                best = i;
            }
            i = i + 1;
        }
        proof {
            assert(is_selected(fr0, best as int));
            let si = choose|si: int| is_selected(fr0, si);
            lemma_selected_unique(fr0, si, best as int);
        }
        let current = self.open_list[best];
        let ghost sp = node_pos(current);
        position.0 = current.x;
        position.1 = current.y;
        self.open_list.remove(best);
        self.closed_list.push(current);
        let ghost fr1 = self.open_list@;
        let ghost cl1 = self.closed_list@;
        proof {
            lemma_lists_after_step(fr0, cl0, best as int, w, h);
        }
        if !(current.x == start_node.x && current.y == start_node.y) && !(current.x
            == target_node.x && current.y == target_node.y) {
            let cx = current.x as usize;
            let cy = current.y as usize;
            let c = grid.cells[cx][cy];
            proof {
                assert(c == grid.cell_at(cx as int, cy as int));
                assert(node_pos(c) == (cx as int, cy as int));
            }
            grid.set_cell(cx, cy, Node { state: NodeState::Closed, ..c });
        }
        if current.x == target_node.x && current.y == target_node.y {
            proof {
                assert(*grid == *old(grid));
            }
            let path = reconstruct(&self.closed_list, grid, target_node);
            let cached_path = copy_nodes(&path);
            self.found = Some(cached_path);
            return Ok(Some(path));
        }
        let neighbors = get_neighbors(grid, (current.x, current.y));
        proof {
            assert(forall|m: int|
                0 <= m < neighbors@.len() ==> {
                    let q = node_pos(#[trigger] neighbors@[m]);
                    pos_in_bounds(q, w, h) && adjacent(q, sp) && neighbors@[m] == grid.cell_at(
                        q.0,
                        q.1,
                    )
                });
            assert(forall|q: (int, int)|
                pos_in_bounds(q, w, h) && adjacent(q, sp) ==> has_pos(neighbors@, q));
            assert(distinct_positions(neighbors@));
            assert(0 <= current.g <= 14 * cl0.len());
            assert forall|q: (int, int)|
                #![trigger has_pos(fr1, q)]
                has_pos(fr1, q) <==> (q != sp && has_pos(fr0, q)) by {
                lemma_has_pos_remove(fr0, best as int, q);
            }
            assert forall|x: int, y: int| pos_in_bounds((x, y), w, h) implies {
                let oldc = old(grid).cell_at(x, y);
                let c = #[trigger] grid.cell_at(x, y);
                if (x, y) == sp {
                    c == (if sp == stp {
                        oldc
                    } else {
                        Node { state: NodeState::Closed, ..oldc }
                    })
                } else {
                    c == oldc
                }
            } by {}
            assert forall|a: int| 0 <= a < fr1.len() implies grid.cell_at(
                node_pos(#[trigger] fr1[a]).0,
                node_pos(fr1[a]).1,
            ) == fr1[a] by {
                let a0: int = if a < best as int {
                    a
                } else {
                    a + 1
                };
                assert(fr1[a] == fr0[a0]);
                assert(node_pos(fr0[a0]) != sp);
                assert(old(grid).cell_at(node_pos(fr0[a0]).0, node_pos(fr0[a0]).1) == fr0[a0]);
            }
        }
        relax_neighbors(
            &mut self.open_list,
            grid,
            &self.closed_list,
            &neighbors,
            current,
            target_node,
            Ghost(*old(grid)),
            Ghost(fr0),
            Ghost(cl0),
            Ghost(stp),
        );
        proof {
            lemma_sync_after_step(*old(self), *self, *old(grid), *grid, best as int, w, h);
        }
        Ok(None)
    }
}

/// The index of the first node of `list` at the position of `p`, if any.
fn find_pos(list: &Vec<Node>, p: Position2D) -> (r: Option<usize>)
    ensures
        match r {
            Some(i) => i < list@.len() && node_pos(list@[i as int]) == pos_int(p),
            None => !has_pos(list@, pos_int(p)),
        },
{
    let mut i: usize = 0;
    while i < list.len()
        invariant
            i <= list@.len(),
            forall|j: int| 0 <= j < i ==> node_pos(#[trigger] list@[j]) != pos_int(p),
        decreases list@.len() - i,
    {
        let n = &list[i];
        if n.x == p.0 && n.y == p.1 {
            return Some(i);
        }
        i = i + 1;
    }
    None
}

/// An element-for-element copy of a node list.
fn copy_nodes(v: &Vec<Node>) -> (r: Vec<Node>)
    ensures
        r@ == v@,
{
    let mut r: Vec<Node> = Vec::new();
    let mut i: usize = 0;
    while i < v.len()
        invariant
            i <= v@.len(),
            r@ == v@.take(i as int),
        decreases v@.len() - i,
    {
        r.push(v[i]);
        i = i + 1;
        proof {
            assert(r@ =~= v@.take(i as int));
        }
    }
    proof {
        assert(v@.take(v@.len() as int) =~= v@);
    }
    r
}

/// Arithmetic room the dimension limit leaves: every cost the search
/// computes stays inside `i32`.
proof fn lemma_dims_small(w: int, h: int)
    by (nonlinear_arith)
    requires
        0 < w,
        0 < h,
        14 * (w * h + w + h) <= i32::MAX,
    ensures
        w < i32::MAX,
        h < i32::MAX,
        14 * (w + h) <= i32::MAX,
        0 < w * h,
{
}

/// Room for one `f = g + h` value: with the visited count `c` within the
/// grid size, every cost the search records fits `i32`.
proof fn lemma_cost_fits(w: int, h: int, c: int)
    by (nonlinear_arith)
    requires
        0 < w,
        0 < h,
        14 * (w * h + w + h) <= i32::MAX,
        0 <= c <= w * h,
    ensures
        14 * c + 14 * (w + h) <= i32::MAX,
{
}

/// The up-to-8 grid-adjacent neighbor cells of `position`: every cell
/// within Chebyshev distance 1, respecting grid bounds.
#[verifier::loop_isolation(false)]
pub fn get_neighbors(grid: &Grid, position: Position2D) -> (r: Vec<Node>)
    requires
        grid.wf(),
        pos_in_bounds(pos_int(position), grid.spec_width(), grid.spec_height()),
    ensures
        forall|m: int|
            0 <= m < r@.len() ==> {
                let q = node_pos(#[trigger] r@[m]);
                &&& pos_in_bounds(q, grid.spec_width(), grid.spec_height())
                &&& adjacent(q, pos_int(position))
                &&& r@[m] == grid.cell_at(q.0, q.1)
            },
        forall|q: (int, int)|
            pos_in_bounds(q, grid.spec_width(), grid.spec_height()) && adjacent(
                q,
                pos_int(position),
            ) ==> has_pos(r@, q),
        distinct_positions(r@),
        forall|m1: int, m2: int|
            0 <= m1 < m2 < r@.len() ==> off_lt(
                node_pos(#[trigger] r@[m1]),
                node_pos(#[trigger] r@[m2]),
                pos_int(position),
            ),
{
    proof {
        lemma_dims_small(grid.spec_width(), grid.spec_height());
    }
    let x = position.0;
    let y = position.1;
    let w = grid.width;
    let h = grid.height;
    let mut r: Vec<Node> = Vec::new();
    let mut dx: i32 = -1;
    while dx <= 1
        invariant
            -1 <= dx <= 2,
            forall|m: int|
                0 <= m < r@.len() ==> {
                    let q = node_pos(#[trigger] r@[m]);
                    &&& pos_in_bounds(q, grid.spec_width(), grid.spec_height())
                    &&& adjacent(q, pos_int(position))
                    &&& r@[m] == grid.cell_at(q.0, q.1)
                    &&& q.0 - position.0 < dx
                },
            forall|q: (int, int)|
                pos_in_bounds(q, grid.spec_width(), grid.spec_height()) && adjacent(
                    q,
                    pos_int(position),
                ) && q.0 - position.0 < dx ==> has_pos(r@, q),
            distinct_positions(r@),
            forall|m1: int, m2: int|
                0 <= m1 < m2 < r@.len() ==> off_lt(
                    node_pos(#[trigger] r@[m1]),
                    node_pos(#[trigger] r@[m2]),
                    pos_int(position),
                ),
        decreases 2 - dx,
    {
        let mut dy: i32 = -1;
        while dy <= 1
            invariant
                -1 <= dx <= 1,
                -1 <= dy <= 2,
                forall|m: int|
                    0 <= m < r@.len() ==> {
                        let q = node_pos(#[trigger] r@[m]);
                        &&& pos_in_bounds(q, grid.spec_width(), grid.spec_height())
                        &&& adjacent(q, pos_int(position))
                        &&& r@[m] == grid.cell_at(q.0, q.1)
                        &&& (q.0 - position.0 < dx || (q.0 - position.0 == dx && q.1 - position.1
                            < dy))
                    },
                forall|q: (int, int)|
                    pos_in_bounds(q, grid.spec_width(), grid.spec_height()) && adjacent(
                        q,
                        pos_int(position),
                    ) && (q.0 - position.0 < dx || (q.0 - position.0 == dx && q.1 - position.1
                        < dy)) ==> has_pos(r@, q),
                distinct_positions(r@),
                forall|m1: int, m2: int|
                    0 <= m1 < m2 < r@.len() ==> off_lt(
                        node_pos(#[trigger] r@[m1]),
                        node_pos(#[trigger] r@[m2]),
                        pos_int(position),
                    ),
            decreases 2 - dy,
        {
            if !(dx == 0 && dy == 0) {
                let cx = x + dx;
                let cy = y + dy;
                if cx >= 0 && cx < w && cy >= 0 && cy < h {
                    let ghost r_old = r@;
                    let cell = grid.cells[cx as usize][cy as usize];
                    r.push(cell);
                    proof {
                        assert(cell == grid.cell_at(cx as int, cy as int));
                        assert(node_pos(cell) == (cx as int, cy as int));
                        assert forall|q: (int, int)|
                            pos_in_bounds(q, grid.spec_width(), grid.spec_height()) && adjacent(
                                q,
                                pos_int(position),
                            ) && (q.0 - position.0 < dx || (q.0 - position.0 == dx && q.1
                                - position.1 < dy + 1)) implies has_pos(r@, q) by {
                            if q == (cx as int, cy as int) {
                                assert(node_pos(r@[r@.len() - 1]) == q);
                            } else {
                                assert(has_pos(r_old, q));
                                let m = choose|m: int|
                                    0 <= m < r_old.len() && node_pos(r_old[m]) == q;
                                assert(node_pos(r@[m]) == q);
                            }
                        }
                    }
                }
            }
            dy = dy + 1;
        }
        dx = dx + 1;
    }
    r
}

/// One expansion step keeps the engine's list invariants: removing the
/// selected entry from the frontier and appending it to the visited
/// list preserves bounds, distinctness, disjointness, cost budgets and
/// parent well-formedness.
proof fn lemma_lists_after_step(fr0: Seq<Node>, cl0: Seq<Node>, best: int, w: int, h: int)
    requires
        dims_fit(w, h),
        nodes_in_bounds(fr0, w, h),
        nodes_in_bounds(cl0, w, h),
        distinct_positions(fr0),
        distinct_positions(cl0),
        disjoint_positions(fr0, cl0),
        costs_bounded(fr0, cl0.len() as int, w, h),
        costs_bounded(cl0, cl0.len() as int, w, h),
        visited_parents_wf(cl0),
        frontier_parents_wf(fr0, cl0),
        0 <= best < fr0.len(),
    ensures
        !has_pos(cl0, node_pos(fr0[best])),
        forall|a: int|
            0 <= a < fr0.remove(best).len() ==> #[trigger] fr0.remove(best)[a] == (if a < best {
                fr0[a]
            } else {
                fr0[a + 1]
            }),
        nodes_in_bounds(fr0.remove(best), w, h),
        distinct_positions(fr0.remove(best)),
        distinct_positions(cl0.push(fr0[best])),
        disjoint_positions(fr0.remove(best), cl0.push(fr0[best])),
        costs_bounded(fr0.remove(best), cl0.push(fr0[best]).len() as int, w, h),
        costs_bounded(cl0.push(fr0[best]), cl0.push(fr0[best]).len() as int, w, h),
        cl0.push(fr0[best]).len() <= w * h,
        visited_parents_wf(cl0.push(fr0[best])),
        frontier_parents_wf(fr0.remove(best), cl0.push(fr0[best])),
{
    let current = fr0[best];
    let sp = node_pos(current);
    let fr1 = fr0.remove(best);
    let cl1 = cl0.push(current);
    assert(!has_pos(cl0, sp)) by {
        if has_pos(cl0, sp) {
            let m = choose|m: int| 0 <= m < cl0.len() && node_pos(cl0[m]) == sp;
            assert(node_pos(fr0[best]) != node_pos(cl0[m]));
        }
    };
    assert forall|a: int| 0 <= a < fr1.len() implies #[trigger] fr1[a] == (if a < best {
        fr0[a]
    } else {
        fr0[a + 1]
    }) by {}
    assert(nodes_in_bounds(fr1, w, h));
    assert(distinct_positions(fr1));
    assert(distinct_positions(cl1)) by {
        assert forall|a: int, b: int| 0 <= a < b < cl1.len() implies node_pos(cl1[a]) != node_pos(
            cl1[b],
        ) by {
            if b == cl0.len() as int {
                assert(cl1[a] == cl0[a]);
                assert(!has_pos(cl0, sp));
                if node_pos(cl0[a]) == sp {
                    assert(node_pos(cl0[a]) == sp);
                }
            }
        }
    };
    lemma_distinct_in_bounds_len(cl1, w, h);
    assert(disjoint_positions(fr1, cl1)) by {
        assert forall|a: int, b: int|
            0 <= a < fr1.len() && 0 <= b < cl1.len() implies node_pos(fr1[a]) != node_pos(
            cl1[b],
        ) by {
            let a0: int = if a < best {
                a
            } else {
                a + 1
            };
            assert(fr1[a] == fr0[a0]);
            if b < cl0.len() {
                assert(cl1[b] == cl0[b]);
            } else {
                assert(cl1[b] == current);
                assert(node_pos(fr0[a0]) != node_pos(fr0[best]));
            }
        }
    };
    assert(costs_bounded(fr1, cl1.len() as int, w, h));
    assert(costs_bounded(cl1, cl1.len() as int, w, h));
    assert(visited_parents_wf(cl1)) by {
        assert forall|a: int| 0 <= a < cl1.len() implies parent_ok_in(#[trigger] cl1[a], cl1, a) by {
            if a < cl0.len() {
                assert(parent_ok_in(cl0[a], cl0, a));
                assert(cl1[a] == cl0[a]);
                match cl0[a].parent {
                    None => {},
                    Some(p) => {
                        let j = choose|j: int| 0 <= j < a && node_pos(cl0[j]) == pos_int(p);
                        assert(node_pos(cl1[j]) == pos_int(p));
                    },
                }
            } else {
                assert(cl1[a] == current);
                assert(parent_ok_in(fr0[best], cl0, cl0.len() as int));
                match current.parent {
                    None => {},
                    Some(p) => {
                        let j = choose|j: int| 0 <= j < cl0.len() && node_pos(cl0[j]) == pos_int(p);
                        assert(node_pos(cl1[j]) == pos_int(p));
                    },
                }
            }
        }
    };
    assert(frontier_parents_wf(fr1, cl1)) by {
        assert forall|a: int| 0 <= a < fr1.len() implies parent_ok_in(
            #[trigger] fr1[a],
            cl1,
            cl1.len() as int,
        ) by {
            let a0: int = if a < best {
                a
            } else {
                a + 1
            };
            assert(fr1[a] == fr0[a0]);
            assert(parent_ok_in(fr0[a0], cl0, cl0.len() as int));
            match fr0[a0].parent {
                None => {},
                Some(p) => {
                    let j = choose|j: int| 0 <= j < cl0.len() && node_pos(cl0[j]) == pos_int(p);
                    assert(node_pos(cl1[j]) == pos_int(p));
                },
            }
        }
    };
}

/// Walk the parent links back from the last node of `visited` (the
/// dequeued goal), mark every cell on the way `Path` in the grid, and
/// return the ordered path: the chain from the search's origin up to,
/// but not including, the goal, with `target_node` appended.
#[verifier::loop_isolation(false)]
fn reconstruct(visited: &Vec<Node>, grid: &mut Grid, target_node: Node) -> (path: Vec<Node>)
    requires
        old(grid).wf(),
        visited@.len() > 0,
        visited_parents_wf(visited@),
        distinct_positions(visited@),
        nodes_in_bounds(visited@, old(grid).spec_width(), old(grid).spec_height()),
        pos_in_bounds(node_pos(target_node), old(grid).spec_width(), old(grid).spec_height()),
    ensures
        final(grid).wf(),
        final(grid).spec_width() == old(grid).spec_width(),
        final(grid).spec_height() == old(grid).spec_height(),
        path@ == chain(visited@, visited@.len() - 1).drop_last().push(target_node),
        forall|x: int, y: int|
            pos_in_bounds((x, y), old(grid).spec_width(), old(grid).spec_height()) ==> {
                let c = #[trigger] final(grid).cell_at(x, y);
                if has_pos(path@, (x, y)) {
                    c == (Node { state: NodeState::Path, ..old(grid).cell_at(x, y) })
                } else {
                    c == old(grid).cell_at(x, y)
                }
            },
{
    let ghost vs = visited@;
    let ghost goal: int = vs.len() - 1;
    let mut tmp: Vec<Node> = Vec::new();
    let mut i: usize = visited.len() - 1;
    while visited[i].parent.is_some()
        invariant
            i < vs.len(),
            grid.wf(),
            grid.spec_width() == old(grid).spec_width(),
            grid.spec_height() == old(grid).spec_height(),
            chain(vs, goal).drop_last() == chain(vs, i as int).drop_last() + tmp@.reverse(),
            nodes_in_bounds(tmp@, old(grid).spec_width(), old(grid).spec_height()),
            forall|m: int|
                0 <= m < tmp@.len() ==> exists|jj: int|
                    i as int <= jj < vs.len() && vs[jj] == #[trigger] tmp@[m],
            forall|x: int, y: int|
                pos_in_bounds((x, y), old(grid).spec_width(), old(grid).spec_height()) ==> {
                    let c = #[trigger] grid.cell_at(x, y);
                    if has_pos(tmp@, (x, y)) {
                        c == (Node { state: NodeState::Path, ..old(grid).cell_at(x, y) })
                    } else {
                        c == old(grid).cell_at(x, y)
                    }
                },
        decreases i,
    {
        let cur = visited[i];
        let p = match cur.parent {
            Some(p) => p,
            None => unreached(),
        };
        proof {
            assert(parent_ok_in(vs[i as int], vs, i as int));
        }
        let jo = find_pos(visited, p);
        let j = match jo {
            Some(j) => j,
            None => {
                proof {
                    let jw = choose|jw: int| 0 <= jw < i as int && node_pos(vs[jw]) == pos_int(p);
                    assert(node_pos(vs[jw]) == pos_int(p));
                }
                unreached()
            },
        };
        proof {
            let jw = choose|jw: int| 0 <= jw < i as int && node_pos(vs[jw]) == pos_int(p);
            assert(node_pos(vs[jw]) == pos_int(p));
            if j as int != jw {
                assert(false);
            }
        }
        let pn = visited[j];
        let ghost tmp_old = tmp@;
        let ghost gpre = *grid;
        proof {
            assert(pos_in_bounds(node_pos(pn), grid.spec_width(), grid.spec_height()));
            assert(!has_pos(tmp_old, node_pos(pn))) by {
                if has_pos(tmp_old, node_pos(pn)) {
                    let m = choose|m: int|
                        0 <= m < tmp_old.len() && node_pos(tmp_old[m]) == node_pos(pn);
                    let jj = choose|jj: int|
                        i as int <= jj < vs.len() && vs[jj] == tmp_old[m];
                    assert(node_pos(vs[jj]) == node_pos(vs[j as int]));
                    assert(false);
                }
            };
        }
        tmp.push(pn);
        let cx = pn.x as usize;
        let cy = pn.y as usize;
        let c = grid.cells[cx][cy];
        proof {
            assert(c == grid.cell_at(cx as int, cy as int));
            assert(node_pos(c) == (cx as int, cy as int));
        }
        grid.set_cell(cx, cy, Node { state: NodeState::Path, ..c });
        proof {
            assert(chain(vs, i as int) == chain(vs, j as int).push(vs[i as int]));
            assert(chain(vs, i as int).drop_last() =~= chain(vs, j as int));
            assert(chain(vs, j as int).drop_last().push(vs[j as int]) =~= chain(vs, j as int));
            assert(tmp@.reverse() =~= seq![pn] + tmp_old.reverse());
            assert(chain(vs, goal).drop_last() =~= chain(vs, j as int).drop_last()
                + tmp@.reverse());
            assert forall|m: int|
                0 <= m < tmp@.len() implies exists|jj: int|
                    j as int <= jj < vs.len() && vs[jj] == #[trigger] tmp@[m] by {
                if m < tmp_old.len() {
                    let jj = choose|jj: int| i as int <= jj < vs.len() && vs[jj] == tmp_old[m];
                    assert(j as int <= jj < vs.len() && vs[jj] == tmp@[m]);
                } else {
                    assert(vs[j as int] == tmp@[m]);
                }
            }
            assert forall|x: int, y: int|
                pos_in_bounds((x, y), old(grid).spec_width(), old(grid).spec_height()) implies {
                let cc = #[trigger] grid.cell_at(x, y);
                if has_pos(tmp@, (x, y)) {
                    cc == (Node { state: NodeState::Path, ..old(grid).cell_at(x, y) })
                } else {
                    cc == old(grid).cell_at(x, y)
                }
            } by {
                if (x, y) == node_pos(pn) {
                    assert(!has_pos(tmp_old, (x, y)));
                    assert(gpre.cell_at(x, y) == old(grid).cell_at(x, y));
                    assert(node_pos(tmp@[tmp@.len() - 1]) == (x, y));
                    assert(has_pos(tmp@, (x, y)));
                } else {
                    assert(grid.cell_at(x, y) == gpre.cell_at(x, y));
                    assert(has_pos(tmp@, (x, y)) <==> has_pos(tmp_old, (x, y))) by {
                        if has_pos(tmp@, (x, y)) {
                            let m = choose|m: int|
                                0 <= m < tmp@.len() && node_pos(tmp@[m]) == (x, y);
                            if m < tmp_old.len() {
                                assert(node_pos(tmp_old[m]) == (x, y));
                            }
                        }
                        if has_pos(tmp_old, (x, y)) {
                            let m = choose|m: int|
                                0 <= m < tmp_old.len() && node_pos(tmp_old[m]) == (x, y);
                            assert(node_pos(tmp@[m]) == (x, y));
                        }
                    };
                }
            }
        }
        i = j;
    }
    let ghost ancestors = chain(vs, goal).drop_last();
    proof {
        assert(chain(vs, i as int) == seq![vs[i as int]]);
        assert(ancestors =~= tmp@.reverse());
    }
    let mut path: Vec<Node> = Vec::new();
    let mut k: usize = tmp.len();
    while k > 0
        invariant
            k <= tmp@.len(),
            path@ == tmp@.reverse().take(tmp@.len() - k),
        decreases k,
    {
        k = k - 1;
        path.push(tmp[k]);
        proof {
            assert(tmp@.reverse()[tmp@.len() - 1 - k] == tmp@[k as int]);
            assert(path@ =~= tmp@.reverse().take(tmp@.len() - k));
        }
    }
    proof {
        assert(path@ =~= tmp@.reverse());
        assert(path@ == ancestors);
    }
    let tx = target_node.x as usize;
    let ty = target_node.y as usize;
    let c = grid.cells[tx][ty];
    proof {
        assert(c == grid.cell_at(tx as int, ty as int));
        assert(node_pos(c) == (tx as int, ty as int));
    }
    grid.set_cell(tx, ty, Node { state: NodeState::Path, ..c });
    path.push(target_node);
    proof {
        assert(path@ == ancestors.push(target_node));
        assert forall|x: int, y: int|
            pos_in_bounds((x, y), old(grid).spec_width(), old(grid).spec_height()) implies {
            let cc = #[trigger] grid.cell_at(x, y);
            if has_pos(path@, (x, y)) {
                cc == (Node { state: NodeState::Path, ..old(grid).cell_at(x, y) })
            } else {
                cc == old(grid).cell_at(x, y)
            }
        } by {
            if has_pos(path@, (x, y)) {
                let m = choose|m: int| 0 <= m < path@.len() && node_pos(path@[m]) == (x, y);
                if m < path@.len() - 1 {
                    assert(path@[m] == tmp@.reverse()[m]);
                    assert(tmp@.reverse()[m] == tmp@[tmp@.len() - 1 - m]);
                    assert(node_pos(tmp@[tmp@.len() - 1 - m]) == (x, y));
                    assert(has_pos(tmp@, (x, y)));
                } else {
                    assert(path@[m] == target_node);
                }
            } else {
                assert(!has_pos(tmp@, (x, y))) by {
                    if has_pos(tmp@, (x, y)) {
                        let m = choose|m: int| 0 <= m < tmp@.len() && node_pos(tmp@[m]) == (x, y);
                        assert(node_pos(tmp@.reverse()[tmp@.len() - 1 - m]) == (x, y));
                        assert(path@[tmp@.len() - 1 - m] == tmp@.reverse()[tmp@.len() - 1 - m]);
                        assert(has_pos(path@, (x, y)));
                    }
                };
                assert((x, y) != node_pos(target_node)) by {
                    if (x, y) == node_pos(target_node) {
                        assert(node_pos(path@[path@.len() - 1]) == (x, y));
                    }
                };
            }
        }
    }
    path
}

/// Distinct position keys are injective under row-major flattening.
proof fn lemma_key_injective(x1: int, y1: int, x2: int, y2: int, h: int)
    by (nonlinear_arith)
    requires
        0 <= y1 < h,
        0 <= y2 < h,
        x1 != x2 || y1 != y2,
    ensures
        x1 * h + y1 != x2 * h + y2,
{
}

/// A row-major key of an in-bounds position lies inside `[0, w * h)`.
proof fn lemma_key_in_range(x: int, y: int, w: int, h: int)
    by (nonlinear_arith)
    requires
        0 <= x < w,
        0 <= y < h,
    ensures
        0 <= x * h + y < w * h,
{
}

/// Pigeonhole bound: a list of nodes with pairwise distinct in-bounds
/// positions cannot hold more nodes than the grid has cells.
pub proof fn lemma_distinct_in_bounds_len(s: Seq<Node>, w: int, h: int)
    requires
        0 < w,
        0 < h,
        nodes_in_bounds(s, w, h),
        distinct_positions(s),
    ensures
        s.len() <= w * h,
{
    let keys = Seq::new(s.len(), |i: int| (s[i].x as int) * h + (s[i].y as int));
    assert forall|i: int, j: int| 0 <= i < j < keys.len() implies keys[i] != keys[j] by {
        assert(node_pos(s[i]) != node_pos(s[j]));
        lemma_key_injective(s[i].x as int, s[i].y as int, s[j].x as int, s[j].y as int, h);
    }
    assert(keys.no_duplicates());
    keys.unique_seq_to_set();
    let range = set_int_range(0, w * h);
    lemma_key_in_range(0, 0, w, h);
    lemma_int_range(0, w * h);
    assert forall|a: int| keys.to_set().contains(a) implies range.contains(a) by {
        assert(keys.contains(a));
        let i = choose|i: int| 0 <= i < keys.len() && keys[i] == a;
        lemma_key_in_range(s[i].x as int, s[i].y as int, w, h);
    }
    assert(keys.to_set().subset_of(range));
    lemma_len_subset(keys.to_set(), range);
}

/// Relax the neighbors of the just-expanded node `current`: skip walls
/// and visited positions, and (re)open each remaining neighbor that is
/// new to the frontier or reached more cheaply, updating its grid cell
/// and the frontier in lockstep. `og` is the grid as the expansion step
/// found it, before `current`'s cell was marked closed.
#[verifier::rlimit(100)]
#[verifier::spinoff_prover]
fn relax_neighbors(
    open_list: &mut Vec<Node>,
    grid: &mut Grid,
    closed_list: &Vec<Node>,
    neighbors: &Vec<Node>,
    current: Node,
    target_node: Node,
    Ghost(og): Ghost<Grid>,
    Ghost(fr0): Ghost<Seq<Node>>,
    Ghost(cl0): Ghost<Seq<Node>>,
    Ghost(stp): Ghost<(int, int)>,
)
    requires
        og.wf(),
        old(grid).wf(),
        old(grid).spec_width() == og.spec_width(),
        old(grid).spec_height() == og.spec_height(),
        pos_in_bounds(node_pos(target_node), og.spec_width(), og.spec_height()),
        closed_list@ == cl0.push(current),
        nodes_in_bounds(closed_list@, og.spec_width(), og.spec_height()),
        distinct_positions(closed_list@),
        costs_bounded(closed_list@, closed_list@.len() as int, og.spec_width(), og.spec_height()),
        closed_list@.len() <= og.spec_width() * og.spec_height(),
        0 <= current.g <= 14 * cl0.len(),
        nodes_in_bounds(old(open_list)@, og.spec_width(), og.spec_height()),
        distinct_positions(old(open_list)@),
        disjoint_positions(old(open_list)@, closed_list@),
        costs_bounded(
            old(open_list)@,
            closed_list@.len() as int,
            og.spec_width(),
            og.spec_height(),
        ),
        frontier_parents_wf(old(open_list)@, closed_list@),
        forall|a: int|
            0 <= a < old(open_list)@.len() ==> old(grid).cell_at(
                node_pos(#[trigger] old(open_list)@[a]).0,
                node_pos(old(open_list)@[a]).1,
            ) == old(open_list)@[a],
        forall|q: (int, int)|
            #![trigger has_pos(old(open_list)@, q)]
            has_pos(old(open_list)@, q) <==> (q != node_pos(current) && has_pos(fr0, q)),
        forall|x: int, y: int|
            pos_in_bounds((x, y), og.spec_width(), og.spec_height()) ==> {
                let oldc = og.cell_at(x, y);
                let c = #[trigger] old(grid).cell_at(x, y);
                if (x, y) == node_pos(current) {
                    c == (if node_pos(current) == stp {
                        oldc
                    } else {
                        Node { state: NodeState::Closed, ..oldc }
                    })
                } else {
                    c == oldc
                }
            },
        forall|m: int|
            0 <= m < neighbors@.len() ==> {
                let q = node_pos(#[trigger] neighbors@[m]);
                &&& pos_in_bounds(q, og.spec_width(), og.spec_height())
                &&& adjacent(q, node_pos(current))
                &&& neighbors@[m] == old(grid).cell_at(q.0, q.1)
            },
        forall|q: (int, int)|
            pos_in_bounds(q, og.spec_width(), og.spec_height()) && adjacent(
                q,
                node_pos(current),
            ) ==> has_pos(neighbors@, q),
        distinct_positions(neighbors@),
        forall|m1: int, m2: int|
            0 <= m1 < m2 < neighbors@.len() ==> off_lt(
                node_pos(#[trigger] neighbors@[m1]),
                node_pos(#[trigger] neighbors@[m2]),
                node_pos(current),
            ),
    ensures
        final(grid).wf(),
        final(grid).spec_width() == og.spec_width(),
        final(grid).spec_height() == og.spec_height(),
        nodes_in_bounds(final(open_list)@, og.spec_width(), og.spec_height()),
        distinct_positions(final(open_list)@),
        disjoint_positions(final(open_list)@, closed_list@),
        costs_bounded(
            final(open_list)@,
            closed_list@.len() as int,
            og.spec_width(),
            og.spec_height(),
        ),
        frontier_parents_wf(final(open_list)@, closed_list@),
        forall|a: int|
            0 <= a < final(open_list)@.len() ==> final(grid).cell_at(
                node_pos(#[trigger] final(open_list)@[a]).0,
                node_pos(final(open_list)@[a]).1,
            ) == final(open_list)@[a],
        final(open_list)@.len() >= old(open_list)@.len(),
        forall|a: int|
            0 <= a < old(open_list)@.len() ==> node_pos(#[trigger] final(open_list)@[a])
                == node_pos(old(open_list)@[a]),
        forall|a: int, b: int|
            old(open_list)@.len() <= a < b < final(open_list)@.len() ==> off_lt(
                node_pos(#[trigger] final(open_list)@[a]),
                node_pos(#[trigger] final(open_list)@[b]),
                node_pos(current),
            ),
        forall|x: int, y: int|
            pos_in_bounds((x, y), og.spec_width(), og.spec_height()) ==> {
                let oldc = og.cell_at(x, y);
                let c = #[trigger] final(grid).cell_at(x, y);
                if (x, y) == node_pos(current) {
                    c == (if node_pos(current) == stp {
                        oldc
                    } else {
                        Node { state: NodeState::Closed, ..oldc }
                    })
                } else if adjacent((x, y), node_pos(current)) && relax_applies(
                    current,
                    oldc,
                    fr0,
                    cl0,
                ) {
                    c == relaxed_cell(current, oldc, target_node)
                } else {
                    c == oldc
                }
            },
        forall|q: (int, int)|
            #![trigger has_pos(final(open_list)@, q)]
            has_pos(final(open_list)@, q) <==> ((q != node_pos(current) && has_pos(fr0, q)) || (
            pos_in_bounds(q, og.spec_width(), og.spec_height()) && adjacent(
                q,
                node_pos(current),
            ) && og.cell_at(q.0, q.1).state != NodeState::Wall && !has_pos(cl0, q))),
{
    let ghost w = og.spec_width();
    let ghost h = og.spec_height();
    let ghost sp = node_pos(current);
    let ghost cl1 = closed_list@;
    proof {
        lemma_appended_ordered_init(old(open_list)@, neighbors@, sp);
    }
    let mut k: usize = 0;
    while k < neighbors.len()
        invariant
            k <= neighbors@.len(),
            grid.wf(),
            grid.spec_width() == w,
            grid.spec_height() == h,
            og.wf(),
            w == og.spec_width(),
            h == og.spec_height(),
            sp == node_pos(current),
            cl1 == closed_list@,
            cl1 == cl0.push(current),
            pos_in_bounds(node_pos(target_node), w, h),
            nodes_in_bounds(cl1, w, h),
            distinct_positions(cl1),
            costs_bounded(cl1, cl1.len() as int, w, h),
            cl1.len() <= w * h,
            0 <= current.g <= 14 * cl0.len(),
            forall|m: int|
                0 <= m < neighbors@.len() ==> {
                    let q = node_pos(#[trigger] neighbors@[m]);
                    &&& pos_in_bounds(q, w, h)
                    &&& adjacent(q, sp)
                    &&& neighbors@[m] == old(grid).cell_at(q.0, q.1)
                },
            forall|q: (int, int)|
                pos_in_bounds(q, w, h) && adjacent(q, sp) ==> has_pos(neighbors@, q),
            distinct_positions(neighbors@),
            forall|m1: int, m2: int|
                0 <= m1 < m2 < neighbors@.len() ==> off_lt(
                    node_pos(#[trigger] neighbors@[m1]),
                    node_pos(#[trigger] neighbors@[m2]),
                    sp,
                ),
            appended_ordered(open_list@, old(open_list)@, neighbors@, k as int, sp),
            forall|x: int, y: int|
                pos_in_bounds((x, y), w, h) ==> {
                    let oldc = og.cell_at(x, y);
                    let c = #[trigger] old(grid).cell_at(x, y);
                    if (x, y) == sp {
                        c == (if sp == stp {
                            oldc
                        } else {
                            Node { state: NodeState::Closed, ..oldc }
                        })
                    } else {
                        c == oldc
                    }
                },
            nodes_in_bounds(open_list@, w, h),
            distinct_positions(open_list@),
            disjoint_positions(open_list@, cl1),
            costs_bounded(open_list@, cl1.len() as int, w, h),
            frontier_parents_wf(open_list@, cl1),
            forall|a: int|
                0 <= a < open_list@.len() ==> grid.cell_at(
                    node_pos(#[trigger] open_list@[a]).0,
                    node_pos(open_list@[a]).1,
                ) == open_list@[a],
            forall|x: int, y: int|
                pos_in_bounds((x, y), w, h) ==> {
                    let oldc = og.cell_at(x, y);
                    let c = #[trigger] grid.cell_at(x, y);
                    if (x, y) == sp {
                        c == (if sp == stp {
                            oldc
                        } else {
                            Node { state: NodeState::Closed, ..oldc }
                        })
                    } else if adjacent((x, y), sp) && relax_applies(current, oldc, fr0, cl0)
                        && has_pos(neighbors@.take(k as int), (x, y)) {
                        c == relaxed_cell(current, oldc, target_node)
                    } else {
                        c == oldc
                    }
                },
            forall|q: (int, int)|
                #![trigger has_pos(open_list@, q)]
                has_pos(open_list@, q) <==> ((q != sp && has_pos(fr0, q)) || (
                pos_in_bounds(q, w, h) && adjacent(q, sp) && og.cell_at(
                    q.0,
                    q.1,
                ).state != NodeState::Wall && !has_pos(cl0, q) && has_pos(
                    neighbors@.take(k as int),
                    q,
                ))),
        decreases neighbors@.len() - k,
    {
        let neighbor = neighbors[k];
        let n_x = neighbor.x;
        let n_y = neighbor.y;
        let ghost q = node_pos(neighbor);
        proof {
            assert(neighbor == neighbors@[k as int]);
            assert(pos_in_bounds(q, w, h) && adjacent(q, sp));
            assert(neighbor == old(grid).cell_at(q.0, q.1));
            assert(neighbor == og.cell_at(q.0, q.1));
            assert(!has_pos(neighbors@.take(k as int), q)) by {
                if has_pos(neighbors@.take(k as int), q) {
                    let m = choose|m: int|
                        0 <= m < k as int && node_pos(#[trigger] neighbors@.take(k as int)[m])
                            == q;
                    assert(node_pos(neighbors@[m]) == node_pos(neighbors@[k as int]));
                }
            };
            lemma_has_pos_take_step(neighbors@, k as int, q);
        }
        let skip_wall = neighbor.state == NodeState::Wall;
        let in_closed = find_pos(&closed_list, (n_x, n_y)).is_some();
        proof {
            assert(has_pos(cl1, q) <==> has_pos(cl0, q)) by {
                lemma_has_pos_push(cl0, current, q);
            };
        }
        if !skip_wall && !in_closed {
            let in_open_idx = find_pos(&open_list, (n_x, n_y));
            proof {
                assert(has_pos(open_list@, q) <==> (q != sp && has_pos(fr0, q)));
                assert(has_pos(fr0, q) <==> (in_open_idx is Some));
                lemma_cost_fits(w, h, cl1.len() as int);
                lemma_dims_small(w, h);
            }
            let dist = get_distance(&current, &neighbor);
            proof {
                assert(dist <= 14);
                assert(current.g + dist <= 14 * (cl1.len() as int));
            }
            let new_move_cost = current.g + dist;
            if in_open_idx.is_none() || new_move_cost < neighbor.g {
                proof {
                    assert(relax_applies(current, og.cell_at(q.0, q.1), fr0, cl0));
                }
                let h_val = get_distance(&neighbor, &target_node);
                proof {
                    assert(0 <= h_val <= 14 * (w + h));
                }
                let upd = Node {
                    x: neighbor.x,
                    y: neighbor.y,
                    state: NodeState::Open,
                    g: new_move_cost,
                    h: h_val,
                    parent: Some((current.x, current.y)),
                };
                proof {
                    assert(upd == relaxed_cell(
                        current,
                        og.cell_at(q.0, q.1),
                        target_node,
                    ));
                }
                let ghost open_pre = open_list@;
                let ghost grid_pre = *grid;
                grid.set_cell(n_x as usize, n_y as usize, upd);
                match in_open_idx {
                    None => {
                        open_list.push(upd);
                        proof {
                            assert forall|q2: (int, int)|
                                #![trigger has_pos(open_list@, q2)]
                                has_pos(open_list@, q2) <==> (has_pos(open_pre, q2) || q2
                                    == q) by {
                                lemma_has_pos_push(open_pre, upd, q2);
                            }
                        }
                    },
                    Some(oi) => {
                        proof {
                            assert(node_pos(open_pre[oi as int]) == q);
                        }
                        open_list[oi] = upd;
                        proof {
                            assert(open_list@ == open_pre.update(oi as int, upd));
                            assert forall|q2: (int, int)|
                                #![trigger has_pos(open_list@, q2)]
                                has_pos(open_list@, q2) <==> has_pos(open_pre, q2) by {
                                lemma_has_pos_update(open_pre, oi as int, upd, q2);
                            }
                            assert(has_pos(open_pre, q));
                        }
                    },
                }
                proof {
                    assert(distinct_positions(open_list@)) by {
                        assert forall|a: int, b: int|
                            0 <= a < b < open_list@.len() implies node_pos(
                            open_list@[a],
                        ) != node_pos(open_list@[b]) by {
                            if b < open_pre.len() {
                                assert(open_list@[a] == open_pre[a] || node_pos(
                                    open_list@[a],
                                ) == node_pos(open_pre[a]));
                                assert(open_list@[b] == open_pre[b] || node_pos(
                                    open_list@[b],
                                ) == node_pos(open_pre[b]));
                            } else {
                                assert(node_pos(open_list@[b]) == q);
                                assert(node_pos(open_list@[a]) == node_pos(open_pre[a]));
                                assert(!has_pos(open_pre, q));
                                if node_pos(open_pre[a]) == q {
                                    assert(has_pos(open_pre, q));
                                }
                            }
                        }
                    };
                    assert(disjoint_positions(open_list@, cl1)) by {
                        assert forall|a: int, b: int|
                            0 <= a < open_list@.len() && 0 <= b < cl1.len() implies
                            node_pos(#[trigger] open_list@[a]) != node_pos(
                            #[trigger] cl1[b],
                        ) by {
                            if a < open_pre.len() && node_pos(open_list@[a]) != q {
                                assert(node_pos(open_list@[a]) == node_pos(open_pre[a]));
                            } else {
                                assert(node_pos(open_list@[a]) == q);
                                if node_pos(cl1[b]) == q {
                                    assert(has_pos(cl1, q));
                                }
                            }
                        }
                    };
                    assert(frontier_parents_wf(open_list@, cl1)) by {
                        assert forall|a: int| 0 <= a < open_list@.len() implies
                            parent_ok_in(#[trigger] open_list@[a], cl1, cl1.len() as int)
                            by {
                            if a < open_pre.len() && open_list@[a] == open_pre[a] {
                                assert(parent_ok_in(open_pre[a], cl1, cl1.len() as int));
                            } else {
                                assert(open_list@[a] == upd);
                                assert(node_pos(cl1[cl1.len() - 1]) == sp);
                                assert(pos_int((current.x, current.y)) == sp);
                            }
                        }
                    };
                    assert forall|a: int| 0 <= a < open_list@.len() implies grid.cell_at(
                        node_pos(#[trigger] open_list@[a]).0,
                        node_pos(open_list@[a]).1,
                    ) == open_list@[a] by {
                        if a < open_pre.len() && open_list@[a] == open_pre[a] {
                            if node_pos(open_pre[a]) == q {
                                assert(has_pos(open_pre, q));
                                assert(node_pos(open_pre[a]) != q);
                            } else {
                                assert(grid.cell_at(
                                    node_pos(open_pre[a]).0,
                                    node_pos(open_pre[a]).1,
                                ) == grid_pre.cell_at(
                                    node_pos(open_pre[a]).0,
                                    node_pos(open_pre[a]).1,
                                ));
                            }
                        } else {
                            assert(open_list@[a] == upd);
                            assert(grid.cell_at(q.0, q.1) == upd);
                        }
                    }
                    assert forall|x: int, y: int| pos_in_bounds((x, y), w, h) implies {
                        let oldc = og.cell_at(x, y);
                        let c = #[trigger] grid.cell_at(x, y);
                        if (x, y) == sp {
                            c == (if sp == stp {
                                oldc
                            } else {
                                Node { state: NodeState::Closed, ..oldc }
                            })
                        } else if adjacent((x, y), sp) && relax_applies(current, oldc, fr0, cl0)
                            && has_pos(neighbors@.take(k as int + 1), (x, y)) {
                            c == relaxed_cell(current, oldc, target_node)
                        } else {
                            c == oldc
                        }
                    } by {
                        lemma_has_pos_take_step(neighbors@, k as int, (x, y));
                        if (x, y) == q {
                        } else {
                            assert(grid.cell_at(x, y) == grid_pre.cell_at(x, y));
                        }
                    }
                    match in_open_idx {
                        None => {
                            lemma_appended_ordered_push(
                                open_pre,
                                old(open_list)@,
                                neighbors@,
                                k as int,
                                sp,
                                upd,
                            );
                        },
                        Some(oi) => {
                            lemma_appended_ordered_update(
                                open_pre,
                                old(open_list)@,
                                neighbors@,
                                k as int,
                                sp,
                                oi as int,
                                upd,
                            );
                        },
                    }
                }
            } else {
                proof {
                    assert(has_pos(fr0, q));
                    assert(tentative_g(current, q) >= og.cell_at(q.0, q.1).g);
                    assert(!relax_applies(current, og.cell_at(q.0, q.1), fr0, cl0));
                    assert forall|x: int, y: int| pos_in_bounds((x, y), w, h) implies {
                        let oldc = og.cell_at(x, y);
                        let c = #[trigger] grid.cell_at(x, y);
                        if (x, y) == sp {
                            c == (if sp == stp {
                                oldc
                            } else {
                                Node { state: NodeState::Closed, ..oldc }
                            })
                        } else if adjacent((x, y), sp) && relax_applies(current, oldc, fr0, cl0)
                            && has_pos(neighbors@.take(k as int + 1), (x, y)) {
                            c == relaxed_cell(current, oldc, target_node)
                        } else {
                            c == oldc
                        }
                    } by {
                        lemma_has_pos_take_step(neighbors@, k as int, (x, y));
                    }
                    lemma_appended_ordered_same(
                        open_list@,
                        old(open_list)@,
                        neighbors@,
                        k as int,
                        sp,
                    );
                }
            }
        } else {
            proof {
                assert(neighbor == og.cell_at(q.0, q.1));
                assert(!relax_applies(current, og.cell_at(q.0, q.1), fr0, cl0));
                assert forall|x: int, y: int| pos_in_bounds((x, y), w, h) implies {
                    let oldc = og.cell_at(x, y);
                    let c = #[trigger] grid.cell_at(x, y);
                    if (x, y) == sp {
                        c == (if sp == stp {
                            oldc
                        } else {
                            Node { state: NodeState::Closed, ..oldc }
                        })
                    } else if adjacent((x, y), sp) && relax_applies(current, oldc, fr0, cl0)
                        && has_pos(neighbors@.take(k as int + 1), (x, y)) {
                        c == relaxed_cell(current, oldc, target_node)
                    } else {
                        c == oldc
                    }
                } by {
                    lemma_has_pos_take_step(neighbors@, k as int, (x, y));
                }
                lemma_appended_ordered_same(
                    open_list@,
                    old(open_list)@,
                    neighbors@,
                    k as int,
                    sp,
                );
            }
        }
        k = k + 1;
    }
    proof {
        assert(neighbors@.take(neighbors@.len() as int) =~= neighbors@);
        lemma_relax_post(open_list@, *grid, neighbors@, og, fr0, cl0, current, target_node, stp);
        lemma_appended_ordered_unfold(
            open_list@,
            old(open_list)@,
            neighbors@,
            neighbors@.len() as int,
            sp,
        );
    }
}

/// The bookkeeping that pins the frontier's order across one expansion
/// step: the entries the frontier started with keep their positions and
/// places, and entries appended while relaxing the first `k` neighbors
/// sit behind them, at neighbor positions, in the neighbors' fixed
/// enumeration order.
/// `p` is the position of one of the first `k` neighbors.
pub open spec fn among_first(p: (int, int), nbrs: Seq<Node>, k: int) -> bool {
    exists|m: int| 0 <= m < k && node_pos(#[trigger] nbrs[m]) == p
}

#[verifier::opaque]
pub open spec fn appended_ordered(
    open: Seq<Node>,
    base: Seq<Node>,
    nbrs: Seq<Node>,
    k: int,
    center: (int, int),
) -> bool {
    &&& open.len() >= base.len()
    &&& forall|a: int| 0 <= a < base.len() ==> node_pos(#[trigger] open[a]) == node_pos(base[a])
    &&& forall|a: int|
        base.len() <= a < open.len() ==> among_first(node_pos(#[trigger] open[a]), nbrs, k)
    &&& forall|a: int, b: int|
        base.len() <= a < b < open.len() ==> off_lt(
            node_pos(#[trigger] open[a]),
            node_pos(#[trigger] open[b]),
            center,
        )
}

/// An untouched frontier stays ordered when one more neighbor counts as
/// processed.
proof fn lemma_appended_ordered_same(
    open: Seq<Node>,
    base: Seq<Node>,
    nbrs: Seq<Node>,
    k: int,
    center: (int, int),
)
    requires
        appended_ordered(open, base, nbrs, k, center),
    ensures
        appended_ordered(open, base, nbrs, k + 1, center),
{
    reveal(appended_ordered);
    assert forall|a: int| base.len() <= a < open.len() implies among_first(
        node_pos(#[trigger] open[a]),
        nbrs,
        k + 1,
    ) by {
        assert(among_first(node_pos(open[a]), nbrs, k));
        let m = choose|m: int| 0 <= m < k && node_pos(#[trigger] nbrs[m]) == node_pos(open[a]);
        assert(0 <= m < k + 1 && node_pos(nbrs[m]) == node_pos(open[a]));
    }
}

/// An in-place update at an unchanged position keeps the frontier's
/// order.
proof fn lemma_appended_ordered_update(
    open: Seq<Node>,
    base: Seq<Node>,
    nbrs: Seq<Node>,
    k: int,
    center: (int, int),
    oi: int,
    e: Node,
)
    requires
        appended_ordered(open, base, nbrs, k, center),
        0 <= oi < open.len(),
        node_pos(e) == node_pos(open[oi]),
    ensures
        appended_ordered(open.update(oi, e), base, nbrs, k + 1, center),
{
    reveal(appended_ordered);
    let now = open.update(oi, e);
    assert forall|a: int| 0 <= a < now.len() implies node_pos(#[trigger] now[a]) == node_pos(
        open[a],
    ) by {}
    assert forall|a: int| base.len() <= a < now.len() implies among_first(
        node_pos(#[trigger] now[a]),
        nbrs,
        k + 1,
    ) by {
        assert(among_first(node_pos(open[a]), nbrs, k));
        let m = choose|m: int| 0 <= m < k && node_pos(#[trigger] nbrs[m]) == node_pos(open[a]);
        assert(0 <= m < k + 1 && node_pos(nbrs[m]) == node_pos(now[a]));
    }
}

/// Appending an entry at the position of the neighbor just processed
/// keeps the frontier's order: every earlier appended entry sits at an
/// earlier neighbor's position, which the enumeration ordered first.
proof fn lemma_appended_ordered_push(
    open: Seq<Node>,
    base: Seq<Node>,
    nbrs: Seq<Node>,
    k: int,
    center: (int, int),
    e: Node,
)
    requires
        appended_ordered(open, base, nbrs, k, center),
        0 <= k < nbrs.len(),
        node_pos(e) == node_pos(nbrs[k]),
        forall|m1: int, m2: int|
            0 <= m1 < m2 < nbrs.len() ==> off_lt(
                node_pos(#[trigger] nbrs[m1]),
                node_pos(#[trigger] nbrs[m2]),
                center,
            ),
    ensures
        appended_ordered(open.push(e), base, nbrs, k + 1, center),
{
    reveal(appended_ordered);
    let now = open.push(e);
    assert forall|a: int| base.len() <= a < now.len() implies among_first(
        node_pos(#[trigger] now[a]),
        nbrs,
        k + 1,
    ) by {
        if a < open.len() {
            assert(among_first(node_pos(open[a]), nbrs, k));
            let m = choose|m: int|
                0 <= m < k && node_pos(#[trigger] nbrs[m]) == node_pos(open[a]);
            assert(0 <= m < k + 1 && node_pos(nbrs[m]) == node_pos(now[a]));
        } else {
            assert(node_pos(nbrs[k]) == node_pos(now[a]));
        }
    }
    assert forall|a: int, b: int| base.len() <= a < b < now.len() implies off_lt(
        node_pos(#[trigger] now[a]),
        node_pos(#[trigger] now[b]),
        center,
    ) by {
        if b == open.len() as int {
            assert(among_first(node_pos(open[a]), nbrs, k));
            let m = choose|m: int|
                0 <= m < k && node_pos(#[trigger] nbrs[m]) == node_pos(open[a]);
            assert(off_lt(node_pos(nbrs[m]), node_pos(nbrs[k]), center));
        }
    }
}

/// An empty appended region is trivially ordered.
proof fn lemma_appended_ordered_init(open: Seq<Node>, nbrs: Seq<Node>, center: (int, int))
    ensures
        appended_ordered(open, open, nbrs, 0, center),
{
    reveal(appended_ordered);
}

/// Read the order bookkeeping back as plain facts about the final
/// frontier.
proof fn lemma_appended_ordered_unfold(
    open: Seq<Node>,
    base: Seq<Node>,
    nbrs: Seq<Node>,
    k: int,
    center: (int, int),
)
    requires
        appended_ordered(open, base, nbrs, k, center),
    ensures
        open.len() >= base.len(),
        forall|a: int| 0 <= a < base.len() ==> node_pos(#[trigger] open[a]) == node_pos(base[a]),
        forall|a: int, b: int|
            base.len() <= a < b < open.len() ==> off_lt(
                node_pos(#[trigger] open[a]),
                node_pos(#[trigger] open[b]),
                center,
            ),
{
    reveal(appended_ordered);
}

/// Once every neighbor has been processed, the per-prefix forms of the
/// relaxation outcome become the final ones: each adjacent in-bounds
/// position occurs among the neighbors.
#[verifier::rlimit(100)]
#[verifier::spinoff_prover]
proof fn lemma_relax_post(
    fr2: Seq<Node>,
    gf: Grid,
    nbrs: Seq<Node>,
    og: Grid,
    fr0: Seq<Node>,
    cl0: Seq<Node>,
    current: Node,
    target_node: Node,
    stp: (int, int),
)
    requires
        forall|q: (int, int)|
            pos_in_bounds(q, og.spec_width(), og.spec_height()) && adjacent(
                q,
                node_pos(current),
            ) ==> has_pos(nbrs, q),
        forall|x: int, y: int|
            pos_in_bounds((x, y), og.spec_width(), og.spec_height()) ==> {
                let oldc = og.cell_at(x, y);
                let c = #[trigger] gf.cell_at(x, y);
                if (x, y) == node_pos(current) {
                    c == (if node_pos(current) == stp {
                        oldc
                    } else {
                        Node { state: NodeState::Closed, ..oldc }
                    })
                } else if adjacent((x, y), node_pos(current)) && relax_applies(
                    current,
                    oldc,
                    fr0,
                    cl0,
                ) && has_pos(nbrs, (x, y)) {
                    c == relaxed_cell(current, oldc, target_node)
                } else {
                    c == oldc
                }
            },
        forall|q: (int, int)|
            #![trigger has_pos(fr2, q)]
            has_pos(fr2, q) <==> ((q != node_pos(current) && has_pos(fr0, q)) || (pos_in_bounds(
                q,
                og.spec_width(),
                og.spec_height(),
            ) && adjacent(q, node_pos(current)) && og.cell_at(q.0, q.1).state != NodeState::Wall
                && !has_pos(cl0, q) && has_pos(nbrs, q))),
    ensures
        forall|x: int, y: int|
            pos_in_bounds((x, y), og.spec_width(), og.spec_height()) ==> {
                let oldc = og.cell_at(x, y);
                let c = #[trigger] gf.cell_at(x, y);
                if (x, y) == node_pos(current) {
                    c == (if node_pos(current) == stp {
                        oldc
                    } else {
                        Node { state: NodeState::Closed, ..oldc }
                    })
                } else if adjacent((x, y), node_pos(current)) && relax_applies(
                    current,
                    oldc,
                    fr0,
                    cl0,
                ) {
                    c == relaxed_cell(current, oldc, target_node)
                } else {
                    c == oldc
                }
            },
        forall|q: (int, int)|
            #![trigger has_pos(fr2, q)]
            has_pos(fr2, q) <==> ((q != node_pos(current) && has_pos(fr0, q)) || (pos_in_bounds(
                q,
                og.spec_width(),
                og.spec_height(),
            ) && adjacent(q, node_pos(current)) && og.cell_at(q.0, q.1).state != NodeState::Wall
                && !has_pos(cl0, q))),
{
    let sp = node_pos(current);
    let w = og.spec_width();
    let h = og.spec_height();
    assert forall|q: (int, int)|
        #![trigger has_pos(fr2, q)]
        has_pos(fr2, q) <==> ((q != sp && has_pos(fr0, q)) || (pos_in_bounds(q, w, h) && adjacent(
            q,
            sp,
        ) && og.cell_at(q.0, q.1).state != NodeState::Wall && !has_pos(cl0, q))) by {
        if pos_in_bounds(q, w, h) && adjacent(q, sp) {
            assert(has_pos(nbrs, q));
        }
    }
    assert forall|x: int, y: int| pos_in_bounds((x, y), w, h) implies {
        let oldc = og.cell_at(x, y);
        let c = #[trigger] gf.cell_at(x, y);
        if (x, y) == sp {
            c == (if sp == stp {
                oldc
            } else {
                Node { state: NodeState::Closed, ..oldc }
            })
        } else if adjacent((x, y), sp) && relax_applies(current, oldc, fr0, cl0) {
            c == relaxed_cell(current, oldc, target_node)
        } else {
            c == oldc
        }
    } by {
        if (x, y) != sp && adjacent((x, y), sp) && relax_applies(
            current,
            og.cell_at(x, y),
            fr0,
            cl0,
        ) {
            assert(has_pos(nbrs, (x, y)));
        }
    }
}

/// One continuing expansion step re-establishes the engine-grid
/// consistency invariant: given the pointwise cell outcome, the exact
/// frontier membership and frontier entries mirroring their cells, the
/// stepped engine `a2` is in sync with the stepped grid `gf`.
#[verifier::rlimit(100)]
#[verifier::spinoff_prover]
proof fn lemma_sync_after_step(a1: Astar, a2: Astar, og: Grid, gf: Grid, best: int, w: int, h: int)
    requires
        a1.ready(),
        a1.inv(w, h),
        a1.sync(og),
        w == og.spec_width(),
        h == og.spec_height(),
        0 <= best < a1.open_list@.len(),
        node_pos(a1.open_list@[best]) != node_pos(a1.target.unwrap()),
        a2.start == a1.start,
        a2.target == a1.target,
        a2.closed_list@ == a1.closed_list@.push(a1.open_list@[best]),
        gf.wf(),
        gf.spec_width() == w,
        gf.spec_height() == h,
        forall|x: int, y: int|
            pos_in_bounds((x, y), w, h) ==> {
                let oldc = og.cell_at(x, y);
                let c = #[trigger] gf.cell_at(x, y);
                if (x, y) == node_pos(a1.open_list@[best]) {
                    c == (if node_pos(a1.open_list@[best]) == node_pos(a1.start.unwrap()) {
                        oldc
                    } else {
                        Node { state: NodeState::Closed, ..oldc }
                    })
                } else if adjacent((x, y), node_pos(a1.open_list@[best])) && relax_applies(
                    a1.open_list@[best],
                    oldc,
                    a1.open_list@,
                    a1.closed_list@,
                ) {
                    c == relaxed_cell(a1.open_list@[best], oldc, a1.target.unwrap())
                } else {
                    c == oldc
                }
            },
        forall|q: (int, int)|
            #![trigger has_pos(a2.open_list@, q)]
            has_pos(a2.open_list@, q) <==> ((q != node_pos(a1.open_list@[best]) && has_pos(
                a1.open_list@,
                q,
            )) || (pos_in_bounds(q, w, h) && adjacent(q, node_pos(a1.open_list@[best]))
                && og.cell_at(q.0, q.1).state != NodeState::Wall && !has_pos(
                a1.closed_list@,
                q,
            ))),
        forall|a: int|
            0 <= a < a2.open_list@.len() ==> gf.cell_at(
                node_pos(#[trigger] a2.open_list@[a]).0,
                node_pos(a2.open_list@[a]).1,
            ) == a2.open_list@[a],
    ensures
        a2.sync(gf),
{
    let fr0 = a1.open_list@;
    let cl0 = a1.closed_list@;
    let current = fr0[best];
    let sp = node_pos(current);
    let stp = node_pos(a1.start.unwrap());
    let cl1 = a2.closed_list@;
    let target_node = a1.target.unwrap();
    assert(has_pos(cl1, sp)) by {
        assert(node_pos(cl1[cl1.len() - 1]) == sp);
    };
    if stp != sp {
        assert(has_pos(cl0, stp) || has_pos(fr0, stp));
        if has_pos(fr0, stp) {
            assert(fr0.len() == 1 && cl0.len() == 0);
            assert(node_pos(fr0[0]) == stp);
            assert(node_pos(fr0[best]) == sp);
            assert(false);
        }
        assert(has_pos(cl0, stp));
        assert(gf.cell_at(stp.0, stp.1) == og.cell_at(stp.0, stp.1)) by {
            assert(!relax_applies(current, og.cell_at(stp.0, stp.1), fr0, cl0));
        };
    } else {
        assert(gf.cell_at(stp.0, stp.1) == og.cell_at(stp.0, stp.1));
    }
    assert(gf.cell_at(stp.0, stp.1).state == NodeState::Start);
    assert(has_pos(cl1, stp) || has_pos(a2.open_list@, stp)) by {
        if stp == sp {
            assert(has_pos(cl1, sp));
        } else {
            assert(has_pos(cl0, stp));
            let m = choose|m: int| 0 <= m < cl0.len() && node_pos(cl0[m]) == stp;
            assert(node_pos(cl1[m]) == stp);
        }
    };
    assert(has_pos(a2.open_list@, stp) ==> a2.open_list@.len() == 1 && cl1.len() == 0) by {
        if has_pos(a2.open_list@, stp) {
            assert(cl1.len() > 0);
            assert(stp != sp);
            assert(has_pos(cl0, stp));
            assert(!has_pos(a2.open_list@, stp));
        }
    };
    assert forall|x: int, y: int| pos_in_bounds((x, y), w, h) && (x, y) != stp implies {
        &&& ((#[trigger] gf.cell_at(x, y)).state == NodeState::Open <==> has_pos(
            a2.open_list@,
            (x, y),
        ))
        &&& (gf.cell_at(x, y).state == NodeState::Closed <==> has_pos(cl1, (x, y)))
    } by {
        let oldc = og.cell_at(x, y);
        let c = gf.cell_at(x, y);
        lemma_has_pos_push(cl0, current, (x, y));
        if (x, y) == sp {
            assert(c.state == NodeState::Closed);
            assert(!has_pos(a2.open_list@, (x, y)));
            assert(has_pos(cl1, (x, y)));
        } else if adjacent((x, y), sp) && relax_applies(current, oldc, fr0, cl0) {
            assert(c == relaxed_cell(current, oldc, target_node));
            assert(c.state == NodeState::Open);
            assert(has_pos(a2.open_list@, (x, y)));
            assert(!has_pos(cl0, (x, y)));
        } else {
            assert(c == oldc);
            assert(has_pos(a2.open_list@, (x, y)) <==> ((x, y) != sp && has_pos(fr0, (x, y))));
            if adjacent((x, y), sp) && pos_in_bounds((x, y), w, h) && oldc.state != NodeState::Wall
                && !has_pos(cl0, (x, y)) && !has_pos(fr0, (x, y)) {
                assert(relax_applies(current, oldc, fr0, cl0));
            }
        }
    }
    assert forall|a: int| 0 <= a < cl1.len() implies {
        let n = #[trigger] cl1[a];
        let c = gf.cell_at(node_pos(n).0, node_pos(n).1);
        &&& c.x == n.x
        &&& c.y == n.y
        &&& c.g == n.g
        &&& c.h == n.h
        &&& c.parent == n.parent
        &&& (node_pos(n) == stp || c.state == NodeState::Closed)
    } by {
        let n = cl1[a];
        let np = node_pos(n);
        if a < cl0.len() {
            assert(n == cl0[a]);
            assert(np != sp);
            assert(!relax_applies(current, og.cell_at(np.0, np.1), fr0, cl0)) by {
                assert(has_pos(cl0, np)) by {
                    assert(node_pos(cl0[a]) == np);
                };
            };
            assert(gf.cell_at(np.0, np.1) == og.cell_at(np.0, np.1));
        } else {
            assert(n == current);
            assert(np == sp);
            assert(og.cell_at(sp.0, sp.1) == current);
            if sp == stp {
                assert(gf.cell_at(sp.0, sp.1) == current);
            } else {
                assert(gf.cell_at(sp.0, sp.1) == (Node { state: NodeState::Closed, ..current }));
            }
        }
    }
}

/// Helper for the determinism law: match the two frontiers entry by
/// entry, from `idx` on, given they already agree below `idx`.
proof fn lemma_frontier_determined_from(
    fr_a: Seq<Node>,
    fr_b: Seq<Node>,
    base: Seq<Node>,
    gf: Grid,
    center: (int, int),
    idx: int,
)
    requires
        base.len() <= idx,
        fr_a.len() >= base.len(),
        fr_b.len() >= base.len(),
        distinct_positions(fr_a),
        distinct_positions(fr_b),
        forall|q: (int, int)| has_pos(fr_a, q) <==> has_pos(fr_b, q),
        forall|a: int| 0 <= a < base.len() ==> node_pos(#[trigger] fr_a[a]) == node_pos(base[a]),
        forall|a: int| 0 <= a < base.len() ==> node_pos(#[trigger] fr_b[a]) == node_pos(base[a]),
        forall|a: int, b: int|
            base.len() <= a < b < fr_a.len() ==> off_lt(
                node_pos(#[trigger] fr_a[a]),
                node_pos(#[trigger] fr_a[b]),
                center,
            ),
        forall|a: int, b: int|
            base.len() <= a < b < fr_b.len() ==> off_lt(
                node_pos(#[trigger] fr_b[a]),
                node_pos(#[trigger] fr_b[b]),
                center,
            ),
        forall|a: int|
            0 <= a < fr_a.len() ==> gf.cell_at(
                node_pos(#[trigger] fr_a[a]).0,
                node_pos(fr_a[a]).1,
            ) == fr_a[a],
        forall|a: int|
            0 <= a < fr_b.len() ==> gf.cell_at(
                node_pos(#[trigger] fr_b[a]).0,
                node_pos(fr_b[a]).1,
            ) == fr_b[a],
        forall|a: int| 0 <= a < idx && a < fr_a.len() && a < fr_b.len() ==> #[trigger] fr_a[a]
            == #[trigger] fr_b[a],
    ensures
        fr_a == fr_b,
    decreases fr_a.len() + fr_b.len() - idx,
{
    if idx >= fr_a.len() && idx >= fr_b.len() {
        if fr_a.len() < fr_b.len() {
            let p = node_pos(fr_b[fr_a.len() as int]);
            assert(has_pos(fr_b, p));
            assert(has_pos(fr_a, p));
            let j = choose|j: int| 0 <= j < fr_a.len() && node_pos(fr_a[j]) == p;
            assert(fr_a[j] == fr_b[j]);
            assert(node_pos(fr_b[j]) == node_pos(fr_b[fr_a.len() as int]));
            assert(false);
        }
        if fr_b.len() < fr_a.len() {
            let p = node_pos(fr_a[fr_b.len() as int]);
            assert(has_pos(fr_a, p));
            assert(has_pos(fr_b, p));
            let j = choose|j: int| 0 <= j < fr_b.len() && node_pos(fr_b[j]) == p;
            assert(fr_a[j] == fr_b[j]);
            assert(node_pos(fr_a[j]) == node_pos(fr_a[fr_b.len() as int]));
            assert(false);
        }
        assert(fr_a =~= fr_b);
    } else if idx >= fr_a.len() {
        let p = node_pos(fr_b[idx]);
        assert(has_pos(fr_b, p));
        assert(has_pos(fr_a, p));
        let j = choose|j: int| 0 <= j < fr_a.len() && node_pos(fr_a[j]) == p;
        assert(fr_a[j] == fr_b[j]);
        assert(node_pos(fr_b[j]) == node_pos(fr_b[idx]));
        assert(false);
    } else if idx >= fr_b.len() {
        let p = node_pos(fr_a[idx]);
        assert(has_pos(fr_a, p));
        assert(has_pos(fr_b, p));
        let j = choose|j: int| 0 <= j < fr_b.len() && node_pos(fr_b[j]) == p;
        assert(fr_a[j] == fr_b[j]);
        assert(node_pos(fr_a[j]) == node_pos(fr_a[idx]));
        assert(false);
    } else {
        let p = node_pos(fr_a[idx]);
        assert(has_pos(fr_a, p));
        assert(has_pos(fr_b, p));
        let j = choose|j: int| 0 <= j < fr_b.len() && node_pos(fr_b[j]) == p;
        assert(j >= base.len()) by {
            if j < base.len() {
                assert(node_pos(fr_a[j]) == node_pos(base[j]));
                assert(node_pos(fr_a[j]) == node_pos(fr_a[idx]));
            }
        };
        assert(j >= idx) by {
            if j < idx {
                assert(fr_a[j] == fr_b[j]);
                assert(node_pos(fr_a[j]) == node_pos(fr_a[idx]));
            }
        };
        assert(j == idx) by {
            if j > idx {
                let q = node_pos(fr_b[idx]);
                assert(has_pos(fr_b, q));
                assert(has_pos(fr_a, q));
                let i = choose|i: int| 0 <= i < fr_a.len() && node_pos(fr_a[i]) == q;
                assert(i >= base.len()) by {
                    if i < base.len() {
                        assert(node_pos(fr_b[i]) == node_pos(base[i]));
                        assert(node_pos(fr_b[i]) == node_pos(fr_b[idx]));
                    }
                };
                assert(i >= idx) by {
                    if i < idx {
                        assert(fr_a[i] == fr_b[i]);
                        assert(node_pos(fr_b[i]) == node_pos(fr_b[idx]));
                    }
                };
                assert(i > idx ==> off_lt(node_pos(fr_a[idx]), node_pos(fr_a[i]), center));
                assert(off_lt(node_pos(fr_b[idx]), node_pos(fr_b[j]), center));
                assert(false);
            }
        };
        assert(node_pos(fr_b[idx]) == p);
        assert(fr_a[idx] == gf.cell_at(p.0, p.1));
        assert(fr_b[idx] == gf.cell_at(p.0, p.1));
        lemma_frontier_determined_from(fr_a, fr_b, base, gf, center, idx + 1);
    }
}

/// Determinism: the frontier after one continuing expansion step is the
/// one sequence compatible with `algorithm`'s contract — the entries of
/// the remaining previous frontier in their old places, followed by the
/// freshly opened neighbors in the fixed enumeration order, every entry
/// mirroring its grid cell. Two frontiers that satisfy those clauses
/// against the same grid are equal, so a step, and with it a whole run,
/// has exactly one outcome for a fixed grid, start and target.
pub proof fn lemma_frontier_determined(
    fr_a: Seq<Node>,
    fr_b: Seq<Node>,
    base: Seq<Node>,
    gf: Grid,
    center: (int, int),
)
    requires
        fr_a.len() >= base.len(),
        fr_b.len() >= base.len(),
        distinct_positions(fr_a),
        distinct_positions(fr_b),
        forall|q: (int, int)| has_pos(fr_a, q) <==> has_pos(fr_b, q),
        forall|a: int| 0 <= a < base.len() ==> node_pos(#[trigger] fr_a[a]) == node_pos(base[a]),
        forall|a: int| 0 <= a < base.len() ==> node_pos(#[trigger] fr_b[a]) == node_pos(base[a]),
        forall|a: int, b: int|
            base.len() <= a < b < fr_a.len() ==> off_lt(
                node_pos(#[trigger] fr_a[a]),
                node_pos(#[trigger] fr_a[b]),
                center,
            ),
        forall|a: int, b: int|
            base.len() <= a < b < fr_b.len() ==> off_lt(
                node_pos(#[trigger] fr_b[a]),
                node_pos(#[trigger] fr_b[b]),
                center,
            ),
        forall|a: int|
            0 <= a < fr_a.len() ==> gf.cell_at(
                node_pos(#[trigger] fr_a[a]).0,
                node_pos(fr_a[a]).1,
            ) == fr_a[a],
        forall|a: int|
            0 <= a < fr_b.len() ==> gf.cell_at(
                node_pos(#[trigger] fr_b[a]).0,
                node_pos(fr_b[a]).1,
            ) == fr_b[a],
    ensures
        fr_a == fr_b,
{
    assert forall|a: int| 0 <= a < base.len() implies #[trigger] fr_a[a] == #[trigger] fr_b[a] by {
        let p = node_pos(fr_a[a]);
        assert(node_pos(fr_b[a]) == p);
        assert(fr_a[a] == gf.cell_at(p.0, p.1));
        assert(fr_b[a] == gf.cell_at(p.0, p.1));
    }
    lemma_frontier_determined_from(fr_a, fr_b, base, gf, center, base.len() as int);
}

/// The selected frontier entry is unique: the earliest minimum of the
/// `(f, h)` priority. Selection, and with it each expansion step, is a
/// deterministic function of the frontier.
pub proof fn lemma_selected_unique(s: Seq<Node>, i1: int, i2: int)
    requires
        is_selected(s, i1),
        is_selected(s, i2),
    ensures
        i1 == i2,
{
    if i1 < i2 {
        assert(fh_lt(s[i2], s[i1]));
        assert(!fh_lt(s[i2], s[i1]));
    }
    if i2 < i1 {
        assert(fh_lt(s[i1], s[i2]));
        assert(!fh_lt(s[i1], s[i2]));
    }
}

/// No reopening: positions in the visited list are pairwise distinct, so
/// no position is ever visited twice in a run.
pub proof fn lemma_no_reopening(a: Astar, w: int, h: int)
    requires
        a.inv(w, h),
    ensures
        distinct_positions(a.closed_list@),
{
}

/// Consistency between steps: while the engine is in sync with its
/// grid, a cell is `Open` exactly when its position is in the frontier
/// and `Closed` exactly when it is in the visited set, with the start
/// cell excepted: it keeps its `Start` state throughout the run.
pub proof fn lemma_state_consistency(a: Astar, g: Grid)
    requires
        a.sync(g),
    ensures
        g.cell_at(
            node_pos(a.start.unwrap()).0,
            node_pos(a.start.unwrap()).1,
        ).state == NodeState::Start,
        forall|x: int, y: int|
            pos_in_bounds((x, y), g.spec_width(), g.spec_height()) && (x, y) != node_pos(
                a.start.unwrap(),
            ) ==> {
                &&& ((#[trigger] g.cell_at(x, y)).state == NodeState::Open <==> has_pos(
                    a.open_list@,
                    (x, y),
                ))
                &&& (g.cell_at(x, y).state == NodeState::Closed <==> has_pos(
                    a.closed_list@,
                    (x, y),
                ))
            },
{
}

/// The visited set cannot grow past the number of grid cells; since each
/// continuing step visits one more cell, a run over a `w` by `h` grid
/// reaches its verdict within `w * h` steps.
pub proof fn lemma_visited_bounded(a: Astar, w: int, h: int)
    requires
        a.inv(w, h),
    ensures
        a.closed_list@.len() <= w * h,
{
}

} // verus!
