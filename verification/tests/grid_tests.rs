use astar_grid::grid::Grid;
use astar_grid::node::NodeState;
use astar_grid::SearchError;

#[test]
fn create_marks_start_and_target() {
    let grid = Grid::create((4, 3), (0, 0), (3, 2)).unwrap();
    for x in 0..4 {
        for y in 0..3 {
            let cell = grid.get((x, y)).unwrap();
            assert_eq!((cell.x, cell.y), (x, y));
            assert_eq!(cell.g, 0);
            assert_eq!(cell.h, 0);
            assert_eq!(cell.parent, None);
            let expected = if (x, y) == (0, 0) {
                NodeState::Start
            } else if (x, y) == (3, 2) {
                NodeState::Target
            } else {
                NodeState::Empty
            };
            assert_eq!(cell.state, expected);
        }
    }
}

#[test]
fn create_start_wins_when_endpoints_coincide() {
    let grid = Grid::create((3, 3), (1, 1), (1, 1)).unwrap();
    assert_eq!(grid.get((1, 1)).unwrap().state, NodeState::Start);
}

#[test]
fn create_rejects_out_of_bounds_endpoints() {
    assert!(matches!(
        Grid::create((3, 3), (3, 0), (2, 2)),
        Err(SearchError::IndexOutOfBounds)
    ));
    assert!(matches!(
        Grid::create((3, 3), (0, 0), (0, -1)),
        Err(SearchError::IndexOutOfBounds)
    ));
}

#[test]
fn get_rejects_out_of_bounds() {
    let grid = Grid::create((3, 3), (0, 0), (2, 2)).unwrap();
    assert_eq!(grid.get((3, 3)).unwrap_err(), SearchError::IndexOutOfBounds);
    assert_eq!(grid.get((-1, 0)).unwrap_err(), SearchError::IndexOutOfBounds);
}

#[test]
fn toggle_wall_flips_and_flips_back() {
    let mut grid = Grid::create((3, 3), (0, 0), (2, 2)).unwrap();
    grid.toggle_wall((1, 1)).unwrap();
    assert_eq!(grid.get((1, 1)).unwrap().state, NodeState::Wall);
    grid.toggle_wall((1, 1)).unwrap();
    assert_eq!(grid.get((1, 1)).unwrap().state, NodeState::Empty);
}

#[test]
fn toggle_wall_rejects_endpoints_and_out_of_bounds() {
    let mut grid = Grid::create((3, 3), (0, 0), (2, 2)).unwrap();
    assert_eq!(grid.toggle_wall((0, 0)).unwrap_err(), SearchError::InvalidReconfiguration);
    assert_eq!(grid.toggle_wall((2, 2)).unwrap_err(), SearchError::InvalidReconfiguration);
    assert_eq!(grid.toggle_wall((5, 1)).unwrap_err(), SearchError::IndexOutOfBounds);
    assert_eq!(grid.get((0, 0)).unwrap().state, NodeState::Start);
    assert_eq!(grid.get((2, 2)).unwrap().state, NodeState::Target);
}
