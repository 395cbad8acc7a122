use mazest::maze::cell::{GridCell, Orientation, PathType};
use mazest::maze::grid::GridEvent;
use mazest::maze::Maze;
use mazest::solvers::astar::solve_astart;
use mazest::solvers::bfs::solve_bfs;
use mazest::solvers::dfs::solve_dfs;
use mazest::solvers::dijkstra::solve_dijkstra;
use mazest::solvers::{manhattan, search, solve_maze, take_next, Solver, TrackedCell};

const SOLVERS: [Solver; 4] = [Solver::Dfs, Solver::Bfs, Solver::Dijkstra, Solver::AStar];

/// A 3 by 3 maze with one way through: right, right, down, down.
fn corridor() -> Maze {
    let mut maze = Maze::new(3, 3, None);
    maze.remove_wall_cell_after((0, 0), Orientation::Vertical);
    maze.remove_wall_cell_after((1, 0), Orientation::Vertical);
    maze.remove_wall_cell_after((2, 0), Orientation::Horizontal);
    maze.remove_wall_cell_after((2, 1), Orientation::Horizontal);
    // A dead end on the side.
    maze.remove_wall_cell_after((0, 0), Orientation::Horizontal);
    maze
}

#[test]
fn a_maze_with_every_wall_standing_has_no_route() {
    for solver in SOLVERS {
        let mut maze = Maze::new(3, 3, None);
        assert!(!solve_maze(&mut maze, solver));
        assert_eq!(*maze.cell_at((0, 0)), GridCell::start());
        assert_eq!(*maze.cell_at((2, 2)), GridCell::goal());
        assert_eq!(*maze.cell_at((1, 1)), GridCell::empty());
    }
}

#[test]
fn a_single_cell_is_its_own_goal() {
    for solver in SOLVERS {
        let mut maze = Maze::new(1, 1, None);
        assert!(solve_maze(&mut maze, solver));
        assert_eq!(*maze.cell_at((0, 0)), GridCell::goal());
    }
}

#[test]
fn a_maze_without_cells_has_no_way() {
    let mut maze = Maze::new(0, 0, None);
    assert!(!solve_dijkstra(&mut maze, (0, 0), (0, 0)));
    assert!(!solve_dfs(&mut maze, (0, 0), (0, 0)));
    assert!(!solve_bfs(&mut maze, (0, 0), (0, 0)));
    assert!(!solve_astart(&mut maze, (0, 0), (0, 0)));
}

#[test]
fn the_route_through_a_corridor_is_found_and_marked() {
    for solver in SOLVERS {
        let mut maze = corridor();
        assert!(solve_maze(&mut maze, solver));
        assert_eq!(*maze.cell_at((0, 0)), GridCell::start());
        assert_eq!(*maze.cell_at((2, 2)), GridCell::goal());
        for cell in [(1, 0), (2, 0), (2, 1)] {
            assert_eq!(*maze.cell_at(cell), GridCell::visited());
        }
        let across = GridCell::Path(PathType::Route(Orientation::Horizontal));
        let down = GridCell::Path(PathType::Route(Orientation::Vertical));
        assert_eq!(*maze.grid().get((2, 1)), across);
        assert_eq!(*maze.grid().get((4, 1)), across);
        assert_eq!(*maze.grid().get((5, 2)), down);
        assert_eq!(*maze.grid().get((5, 4)), down);
        // The dead end is no part of the route.
        assert_eq!(*maze.grid().get((1, 2)), GridCell::empty());
        assert_eq!(*maze.cell_at((1, 1)), GridCell::empty());
    }
}

#[test]
fn a_wall_across_the_only_way_leaves_no_route() {
    for solver in SOLVERS {
        let mut maze = corridor();
        maze.insert_wall_line_after(1, 2, 2, Orientation::Horizontal);
        assert!(!solve_maze(&mut maze, solver));
        // Everything that can be reached was visited.
        for cell in [(1, 0), (2, 0), (2, 1), (0, 1)] {
            assert_eq!(*maze.cell_at(cell), GridCell::visited());
        }
        assert_eq!(*maze.cell_at((2, 2)), GridCell::goal());
    }
}

#[test]
fn cells_that_are_not_open_block_the_way() {
    for solver in SOLVERS {
        let mut maze = corridor();
        maze.set((2, 0), GridCell::mark());
        assert!(!search(&mut maze, (0, 0), (2, 2), solver));
        let mut maze = corridor();
        maze.set((2, 2), GridCell::goal());
        assert!(search(&mut maze, (0, 0), (2, 2), solver));
        // An open cell will do as the goal, too.
        let mut maze = corridor();
        assert!(search(&mut maze, (0, 0), (2, 1), solver));
        assert_eq!(*maze.cell_at((2, 1)), GridCell::goal());
    }
}

#[test]
fn a_goal_outside_the_maze_is_never_reached() {
    let mut maze = corridor();
    assert!(!solve_dijkstra(&mut maze, (0, 0), (3, 3)));
    let mut maze = corridor();
    assert!(solve_dijkstra(&mut maze, (2, 2), (0, 1)));
}

#[test]
fn an_open_maze_is_solved_breadth_first_along_a_shortest_route() {
    let (tx, rx) = std::sync::mpsc::sync_channel::<GridEvent>(10_000);
    let mut maze = Maze::new(4, 4, Some(tx));
    maze.clear_walls();
    rx.try_iter().count();
    assert!(solve_maze(&mut maze, Solver::Bfs));
    let routed = rx
        .try_iter()
        .filter(|event| {
            matches!(event, GridEvent::Update { new: GridCell::Path(PathType::Route(_)), .. })
        })
        .count();
    assert_eq!(routed, 6);
}

/// Passages that a solver marks as the route through an open maze.
fn passages_routed(width: u8, height: u8, solver: Solver) -> usize {
    let (tx, rx) = std::sync::mpsc::sync_channel::<GridEvent>(100_000);
    let mut maze = Maze::new(width, height, Some(tx));
    maze.clear_walls();
    rx.try_iter().count();
    assert!(solve_maze(&mut maze, solver));
    rx.try_iter()
        .filter(|event| {
            matches!(event, GridEvent::Update { new: GridCell::Path(PathType::Route(_)), .. })
        })
        .count()
}

#[test]
fn dijkstra_marks_a_route_that_none_is_shorter_than() {
    assert_eq!(passages_routed(4, 4, Solver::Dijkstra), 6);
    assert_eq!(passages_routed(7, 3, Solver::Dijkstra), 8);
    assert_eq!(passages_routed(1, 9, Solver::Dijkstra), 8);
    assert!(passages_routed(7, 5, Solver::Dfs) >= 10);
}

#[test]
fn breadth_first_marks_a_route_that_none_is_shorter_than() {
    assert_eq!(passages_routed(5, 6, Solver::Bfs), 9);
    let mut maze = Maze::new(5, 3, None);
    maze.clear_walls();
    maze.insert_wall_line_after(0, 1, 2, Orientation::Horizontal);
    assert!(solve_bfs(&mut maze, (1, 0), (1, 1)));
    let mut routed = 0;
    for y in 0..7 {
        for x in 0..11 {
            if matches!(maze.grid().get((x, y)), GridCell::Path(PathType::Route(_))) {
                routed += 1;
            }
        }
    }
    assert_eq!(routed, 3);
}

#[test]
fn dijkstra_goes_round_a_wall_by_the_shorter_side() {
    let mut maze = Maze::new(5, 3, None);
    maze.clear_walls();
    maze.insert_wall_line_after(0, 1, 2, Orientation::Horizontal);
    assert!(solve_dijkstra(&mut maze, (1, 0), (1, 1)));
    let mut routed = 0;
    for y in 0..7 {
        for x in 0..11 {
            if matches!(maze.grid().get((x, y)), GridCell::Path(PathType::Route(_))) {
                routed += 1;
            }
        }
    }
    assert_eq!(routed, 3);
}

#[test]
fn take_next_follows_the_discipline_of_the_solver() {
    let cell = |traveling_cost, heuristic_cost| TrackedCell {
        coord: (0, 0),
        parent: None,
        traveling_cost,
        heuristic_cost,
    };
    let nodes = vec![cell(3, 0), cell(1, 9), cell(2, 1), cell(1, 5), cell(4, 0)];
    let waiting = || vec![4usize, 0, 1, 2, 3];

    let mut w = waiting();
    assert_eq!(take_next(&nodes, &mut w, Solver::Dfs), 3);
    assert_eq!(w, vec![4, 0, 1, 2]);
    let mut w = waiting();
    assert_eq!(take_next(&nodes, &mut w, Solver::Bfs), 4);
    assert_eq!(w, vec![0, 1, 2, 3]);
    // The first of the two that are one step from the start.
    let mut w = waiting();
    assert_eq!(take_next(&nodes, &mut w, Solver::Dijkstra), 1);
    assert_eq!(w, vec![4, 0, 2, 3]);
    // Totals are 4, 3, 10, 3, 6: the first of the two threes.
    let mut w = waiting();
    assert_eq!(take_next(&nodes, &mut w, Solver::AStar), 0);
    assert_eq!(w, vec![4, 1, 2, 3]);
    assert_eq!(nodes[1].total_cost(), 10);
}

#[test]
fn manhattan_adds_the_differences() {
    assert_eq!(manhattan((0, 0), (0, 0)), 0);
    assert_eq!(manhattan((3, 7), (5, 2)), 7);
    assert_eq!(manhattan((5, 2), (3, 7)), 7);
    assert_eq!(manhattan((0, 255), (255, 0)), 510);
}
