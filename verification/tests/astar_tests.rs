use astar_grid::astar::Astar;
use astar_grid::grid::Grid;
use astar_grid::node::{Node, NodeState};
use astar_grid::{Position2D, SearchError};

/// Octile distance between two positions, for expected values.
fn octile(a: Position2D, b: Position2D) -> i32 {
    let dx = (a.0 - b.0).abs();
    let dy = (a.1 - b.1).abs();
    if dx > dy {
        14 * dy + 10 * (dx - dy)
    } else {
        14 * dx + 10 * (dy - dx)
    }
}

fn setup(
    dims: Position2D,
    start: Position2D,
    target: Position2D,
    walls: &[Position2D],
) -> (Grid, Astar) {
    let mut grid = Grid::create(dims, start, target).unwrap();
    for w in walls {
        grid.toggle_wall(*w).unwrap();
    }
    let s = grid.get(start).unwrap();
    let t = grid.get(target).unwrap();
    let mut astar = Astar::new();
    astar.init(s, t);
    (grid, astar)
}

/// Drive the engine until it reports a path or an error, with a step cap.
fn run(grid: &mut Grid, astar: &mut Astar, max_steps: usize) -> Result<Vec<Node>, SearchError> {
    let mut pos: Position2D = (0, 0);
    for _ in 0..max_steps {
        match astar.algorithm(grid, &mut pos) {
            Ok(Some(path)) => return Ok(path),
            Ok(None) => {}
            Err(e) => return Err(e),
        }
    }
    panic!("search did not settle within {} steps", max_steps);
}

fn positions(path: &[Node]) -> Vec<Position2D> {
    path.iter().map(|n| (n.x, n.y)).collect()
}

#[test]
fn scenario_wall_free_diagonal() {
    let (mut grid, mut astar) = setup((5, 5), (0, 0), (4, 4), &[]);
    let path = run(&mut grid, &mut astar, 100).unwrap();
    assert_eq!(positions(&path), vec![(0, 0), (1, 1), (2, 2), (3, 3), (4, 4)]);
    assert_eq!(path.len(), 5);
    // Total cost: four diagonal steps at 14 each.
    assert_eq!(grid.get((4, 4)).unwrap().g, 56);
}

#[test]
fn scenario_wall_column_detour() {
    // Wall column at x = 2 for every y except y = 4.
    let walls = [(2, 0), (2, 1), (2, 2), (2, 3)];
    let (mut grid, mut astar) = setup((5, 5), (0, 0), (4, 0), &walls);
    let path = run(&mut grid, &mut astar, 100).unwrap();
    let pos = positions(&path);
    assert!(pos.contains(&(2, 4)), "path {:?} must pass through the gap", pos);
    assert_eq!(pos.first(), Some(&(0, 0)));
    assert_eq!(pos.last(), Some(&(4, 0)));
}

#[test]
fn scenario_start_equals_target() {
    let (mut grid, mut astar) = setup((5, 5), (2, 2), (2, 2), &[]);
    let mut pos: Position2D = (9, 9);
    let path = astar.algorithm(&mut grid, &mut pos).unwrap().unwrap();
    assert_eq!(positions(&path), vec![(2, 2)]);
    assert_eq!(pos, (2, 2));
    assert_eq!(grid.get((2, 2)).unwrap().g, 0);
    assert_eq!(grid.get((2, 2)).unwrap().state, NodeState::Path);
}

#[test]
fn optimal_cost_on_wall_free_grid() {
    // On a wall-free grid the found path costs exactly the octile
    // distance of the straight start-to-target offset.
    let cases = [
        ((6, 6), (0, 0), (5, 2)),
        ((7, 4), (6, 0), (0, 3)),
        ((5, 9), (2, 8), (2, 1)),
        ((8, 8), (7, 7), (0, 0)),
    ];
    for (dims, start, target) in cases {
        let (mut grid, mut astar) = setup(dims, start, target, &[]);
        run(&mut grid, &mut astar, 200).unwrap();
        assert_eq!(grid.get(target).unwrap().g, octile(start, target));
    }
}

#[test]
fn determinism_repeated_runs() {
    let walls = [(1, 1), (2, 2), (3, 1), (1, 3)];
    let mut first: Option<(Vec<Position2D>, Vec<(i32, i32)>)> = None;
    for _ in 0..3 {
        let (mut grid, mut astar) = setup((6, 6), (0, 0), (5, 5), &walls);
        let path = run(&mut grid, &mut astar, 200).unwrap();
        let mut cells = Vec::new();
        for x in 0..6 {
            for y in 0..6 {
                let c = grid.get((x, y)).unwrap();
                cells.push((c.g, c.h));
            }
        }
        let this = (positions(&path), cells);
        match &first {
            None => first = Some(this),
            Some(prev) => assert_eq!(prev, &this),
        }
    }
}

#[test]
fn unreachable_target_reports_no_path() {
    // Target in a corner, fully enclosed by walls.
    let walls = [(3, 3), (3, 4), (4, 3)];
    let (mut grid, mut astar) = setup((5, 5), (0, 0), (4, 4), &walls);
    let err = run(&mut grid, &mut astar, 30).unwrap_err();
    assert_eq!(err, SearchError::NoPathFound);
    // Exhaustion is stable: asking again reports the same.
    let mut pos: Position2D = (0, 0);
    assert_eq!(astar.algorithm(&mut grid, &mut pos), Err(SearchError::NoPathFound));
}

#[test]
fn no_position_visited_twice() {
    let walls = [(2, 0), (2, 1), (2, 2), (2, 3)];
    let (mut grid, mut astar) = setup((5, 5), (0, 0), (4, 0), &walls);
    let mut pos: Position2D = (0, 0);
    for _ in 0..100 {
        let done = match astar.algorithm(&mut grid, &mut pos) {
            Ok(Some(_)) => true,
            Ok(None) => false,
            Err(e) => panic!("unexpected error {:?}", e),
        };
        let visited: Vec<Position2D> = astar.closed_list.iter().map(|n| (n.x, n.y)).collect();
        for i in 0..visited.len() {
            for j in (i + 1)..visited.len() {
                assert_ne!(visited[i], visited[j], "position visited twice");
            }
        }
        if done {
            return;
        }
    }
    panic!("search did not finish");
}

#[test]
fn state_matches_frontier_and_visited_between_steps() {
    let walls = [(1, 2), (2, 1)];
    let (mut grid, mut astar) = setup((4, 4), (0, 0), (3, 3), &walls);
    let mut pos: Position2D = (0, 0);
    loop {
        match astar.algorithm(&mut grid, &mut pos) {
            Ok(Some(_)) => break,
            Err(e) => panic!("unexpected error {:?}", e),
            Ok(None) => {}
        }
        assert_eq!(grid.get((0, 0)).unwrap().state, NodeState::Start);
        for x in 0..4 {
            for y in 0..4 {
                if (x, y) == (0, 0) {
                    continue;
                }
                let cell = grid.get((x, y)).unwrap();
                let in_open = astar.open_list.iter().any(|n| (n.x, n.y) == (x, y));
                let in_closed = astar.closed_list.iter().any(|n| (n.x, n.y) == (x, y));
                assert_eq!(cell.state == NodeState::Open, in_open, "cell {:?}", (x, y));
                assert_eq!(cell.state == NodeState::Closed, in_closed, "cell {:?}", (x, y));
            }
        }
    }
}

#[test]
fn solved_engine_is_idempotent() {
    let (mut grid, mut astar) = setup((5, 5), (0, 0), (4, 4), &[]);
    let path = run(&mut grid, &mut astar, 100).unwrap();
    let snapshot: Vec<Node> = (0..5)
        .flat_map(|x| (0..5).map(move |y| (x, y)))
        .map(|p| grid.get(p).unwrap())
        .collect();
    let mut pos: Position2D = (7, 7);
    for _ in 0..3 {
        let again = astar.algorithm(&mut grid, &mut pos).unwrap().unwrap();
        assert_eq!(positions(&again), positions(&path));
        assert_eq!(pos, (7, 7), "a solved engine must not touch the out position");
    }
    let after: Vec<Node> = (0..5)
        .flat_map(|x| (0..5).map(move |y| (x, y)))
        .map(|p| grid.get(p).unwrap())
        .collect();
    assert_eq!(snapshot, after, "a solved engine must not mutate the grid");
}

#[test]
fn step_before_init_is_rejected() {
    let mut grid = Grid::create((3, 3), (0, 0), (2, 2)).unwrap();
    let mut astar = Astar::new();
    let mut pos: Position2D = (0, 0);
    assert_eq!(astar.algorithm(&mut grid, &mut pos), Err(SearchError::NotInitialized));
}

#[test]
fn set_start_and_set_target_reset_progress() {
    let (mut grid, mut astar) = setup((5, 5), (0, 0), (4, 4), &[]);
    run(&mut grid, &mut astar, 100).unwrap();
    assert!(!astar.closed_list.is_empty());
    // A fresh grid accompanies a changed endpoint, as on (re)initialization.
    let mut grid2 = Grid::create((5, 5), (1, 1), (4, 4)).unwrap();
    let s2 = grid2.get((1, 1)).unwrap();
    astar.set_start(s2);
    assert_eq!(astar.closed_list.len(), 0);
    assert_eq!(astar.open_list.len(), 1);
    assert_eq!((astar.open_list[0].x, astar.open_list[0].y), (1, 1));
    let path = run(&mut grid2, &mut astar, 100).unwrap();
    assert_eq!(positions(&path).first(), Some(&(1, 1)));
    let mut grid3 = Grid::create((5, 5), (1, 1), (0, 3)).unwrap();
    let t3 = grid3.get((0, 3)).unwrap();
    astar.set_target(t3);
    assert_eq!(astar.closed_list.len(), 0);
    assert_eq!(astar.open_list.len(), 1);
    let path = run(&mut grid3, &mut astar, 100).unwrap();
    assert_eq!(positions(&path).last(), Some(&(0, 3)));
}

#[test]
fn get_distance_matches_octile_model() {
    let n = |x: i32, y: i32| Node {
        x,
        y,
        state: NodeState::Empty,
        g: 0,
        h: 0,
        parent: None,
    };
    assert_eq!(astar_grid::astar::get_distance(&n(0, 0), &n(3, 1)), 34);
    assert_eq!(astar_grid::astar::get_distance(&n(0, 0), &n(4, 4)), 56);
    assert_eq!(astar_grid::astar::get_distance(&n(0, 0), &n(0, 3)), 30);
    assert_eq!(astar_grid::astar::get_distance(&n(5, 5), &n(5, 5)), 0);
    assert_eq!(astar_grid::astar::get_distance(&n(2, 7), &n(7, 2)), 70);
}

#[test]
fn get_f_is_g_plus_h() {
    let n = Node {
        x: 0,
        y: 0,
        state: NodeState::Open,
        g: 24,
        h: 38,
        parent: Some((0, 1)),
    };
    assert_eq!(n.get_f(), 62);
}
