use mazest::generators::kruskal::{all_edges, randomized_kruskal, Edge, UnionFind};
use mazest::generators::prim::{join, randomized_prim};
use mazest::generators::recur_backtrack::{carve, randomized_dfs, recursive_backtrack};
use mazest::generators::recur_div::{divide_once, recursive_division};
use mazest::generators::{
    fill_cells, generate_maze, get_rng, neighbors_holding, open_between, Generator,
};
use mazest::maze::cell::{GridCell, Orientation};
use mazest::maze::grid::GridEvent;
use mazest::maze::Maze;
use mazest::solvers::{solve_maze, Solver};
use mazest::visualize::grid_state::GridState;
use rand::rngs::StdRng;
use rand::{Rng, SeedableRng};

const ALL: [Generator; 4] =
    [Generator::RecurBacktrack, Generator::Prim, Generator::RecurDiv, Generator::Kruskal];

fn generated(width: u8, height: u8, generator: Generator, seed: u64) -> (Maze, Vec<GridEvent>) {
    let (tx, rx) = std::sync::mpsc::sync_channel::<GridEvent>(1_000_000);
    let mut maze = Maze::new(width, height, Some(tx));
    generate_maze(&mut maze, generator, Some(seed));
    let events: Vec<GridEvent> = rx.try_iter().collect();
    (maze, events)
}

/// Number of open passages between neighbouring cells.
fn passages(maze: &Maze) -> usize {
    let mut open = 0;
    for y in 0..maze.height() {
        for x in 0..maze.width() {
            if x + 1 < maze.width() && !maze.is_wall_cell_after((x, y), Orientation::Vertical) {
                open += 1;
            }
            if y + 1 < maze.height() && !maze.is_wall_cell_after((x, y), Orientation::Horizontal)
            {
                open += 1;
            }
        }
    }
    open
}

#[test]
fn generators_emit_a_stream_that_replays_to_the_grid() {
    for generator in ALL {
        for seed in 0..4 {
            let (maze, events) = generated(7, 5, generator, seed);
            assert_eq!(
                events[0],
                GridEvent::Initial { cell: GridCell::wall(), width: 15, height: 11 }
            );
            let mut state = GridState::new();
            let mut shown = vec![vec![GridCell::wall(); 15]; 11];
            for event in &events {
                if let GridEvent::Update { coord, old, new } = *event {
                    assert!(coord.0 < 15 && coord.1 < 11);
                    assert_ne!(old, new);
                    assert_eq!(shown[coord.1 as usize][coord.0 as usize], old);
                    shown[coord.1 as usize][coord.0 as usize] = new;
                }
                state.add_event(*event);
            }
            for y in 0..11u16 {
                for x in 0..15u16 {
                    assert_eq!(state.cell_at((x, y)), Some(*maze.grid().get((x, y))));
                    assert_eq!(shown[y as usize][x as usize], *maze.grid().get((x, y)));
                }
            }
        }
    }
}

#[test]
fn generators_leave_every_cell_open_and_the_boundary_standing() {
    for generator in ALL {
        let (maze, _) = generated(6, 9, generator, 11);
        for y in 0..9 {
            for x in 0..6 {
                assert_eq!(*maze.cell_at((x, y)), GridCell::empty());
            }
        }
        for x in 0..13 {
            assert_eq!(*maze.grid().get((x, 0)), GridCell::wall());
            assert_eq!(*maze.grid().get((x, 18)), GridCell::wall());
        }
        for y in 0..19 {
            assert_eq!(*maze.grid().get((0, y)), GridCell::wall());
            assert_eq!(*maze.grid().get((12, y)), GridCell::wall());
        }
    }
}

#[test]
fn generated_mazes_are_trees_that_every_solver_gets_through() {
    for generator in ALL {
        for seed in 0..3 {
            for solver in [Solver::Dfs, Solver::Bfs, Solver::Dijkstra, Solver::AStar] {
                let (mut maze, _) = generated(8, 6, generator, seed);
                assert_eq!(passages(&maze), 8 * 6 - 1);
                assert!(solve_maze(&mut maze, solver));
            }
        }
    }
}

/// Cells that a walk from the first cell gets to without crossing a wall.
fn cells_joined_to_the_first(maze: &Maze) -> usize {
    let (w, h) = (maze.width() as usize, maze.height() as usize);
    let mut seen = vec![false; w * h];
    let mut stack = vec![(0u8, 0u8)];
    seen[0] = true;
    let mut count = 0;
    while let Some((x, y)) = stack.pop() {
        count += 1;
        let mut steps: Vec<((u8, u8), (u8, u8), Orientation)> = Vec::new();
        if x > 0 {
            steps.push(((x - 1, y), (x - 1, y), Orientation::Vertical));
        }
        if (x as usize) + 1 < w {
            steps.push(((x + 1, y), (x, y), Orientation::Vertical));
        }
        if y > 0 {
            steps.push(((x, y - 1), (x, y - 1), Orientation::Horizontal));
        }
        if (y as usize) + 1 < h {
            steps.push(((x, y + 1), (x, y), Orientation::Horizontal));
        }
        for (to, from, orientation) in steps {
            let at = to.1 as usize * w + to.0 as usize;
            if !seen[at] && !maze.is_wall_cell_after(from, orientation) {
                seen[at] = true;
                stack.push(to);
            }
        }
    }
    count
}

#[test]
fn every_cell_of_a_generated_maze_is_joined_to_every_other() {
    for generator in ALL {
        for seed in 0..4 {
            let (mut maze, _) = generated(9, 7, generator, seed);
            assert_eq!(cells_joined_to_the_first(&maze), 9 * 7);
            assert_eq!(passages(&maze), 9 * 7 - 1);
            generate_maze(&mut maze, generator, Some(seed + 100));
            assert_eq!(cells_joined_to_the_first(&maze), 9 * 7);
            match generator {
                Generator::RecurDiv | Generator::Kruskal => {
                    assert_eq!(passages(&maze), 9 * 7 - 1)
                }
                Generator::RecurBacktrack | Generator::Prim => {
                    assert!(passages(&maze) >= 9 * 7 - 1)
                }
            }
            for x in 0..19 {
                assert_eq!(*maze.grid().get((x, 0)), GridCell::wall());
                assert_eq!(*maze.grid().get((x, 14)), GridCell::wall());
            }
        }
    }
}

#[test]
fn a_seed_fixes_what_backtracking_division_and_kruskal_do() {
    for generator in [Generator::RecurBacktrack, Generator::RecurDiv, Generator::Kruskal] {
        let (_, first) = generated(9, 9, generator, 42);
        let (_, again) = generated(9, 9, generator, 42);
        assert_eq!(first, again);
        let others: Vec<Vec<GridEvent>> =
            (0..5).map(|seed| generated(9, 9, generator, seed).1).collect();
        assert!(others.iter().any(|events| *events != first));
    }
}

#[test]
fn a_maze_without_cells_is_left_alone() {
    let (tx, rx) = std::sync::mpsc::sync_channel::<GridEvent>(16);
    let mut maze = Maze::new(0, 0, Some(tx));
    recursive_backtrack(&mut maze, Some(1));
    randomized_dfs(&mut maze, Some(1));
    randomized_prim(&mut maze, Some(1));
    recursive_division(&mut maze, Some(1));
    randomized_kruskal(&mut maze, Some(1));
    assert_eq!(
        rx.try_iter().collect::<Vec<_>>(),
        vec![GridEvent::Initial { cell: GridCell::wall(), width: 1, height: 1 }]
    );
}

#[test]
fn a_single_cell_is_opened() {
    for generator in ALL {
        let (maze, _) = generated(1, 1, generator, 3);
        assert_eq!(*maze.cell_at((0, 0)), GridCell::empty());
        assert_eq!(passages(&maze), 0);
    }
    let mut maze = Maze::new(1, 1, None);
    randomized_dfs(&mut maze, None);
    assert_eq!(*maze.cell_at((0, 0)), GridCell::empty());
}

#[test]
fn division_and_kruskal_take_a_maze_that_is_empty_one_way() {
    let mut maze = Maze::new(0, 3, None);
    recursive_division(&mut maze, Some(0));
    randomized_kruskal(&mut maze, Some(0));
    generate_maze(&mut maze, Generator::RecurDiv, Some(0));
    generate_maze(&mut maze, Generator::Kruskal, Some(0));
    assert_eq!(maze.grid().width(), 1);
    assert_eq!(maze.grid().height(), 7);
}

#[test]
fn the_depth_first_walk_without_highlight_carves_a_tree() {
    let mut maze = Maze::new(10, 10, None);
    randomized_dfs(&mut maze, Some(5));
    assert_eq!(passages(&maze), 99);
    let (tx, rx) = std::sync::mpsc::sync_channel::<GridEvent>(100_000);
    let mut shown = Maze::new(4, 4, Some(tx));
    randomized_dfs(&mut shown, Some(5));
    assert!(rx.try_iter().all(|event| match event {
        GridEvent::Update { old, new, .. } => old != GridCell::mark() && new != GridCell::mark(),
        GridEvent::Initial { .. } => true,
    }));
}

#[test]
fn fill_cells_sets_the_cells_and_leaves_the_walls() {
    let mut maze = Maze::new(3, 2, None);
    maze.remove_wall_cell_after((0, 0), Orientation::Vertical);
    fill_cells(&mut maze, GridCell::wall());
    for y in 0..2 {
        for x in 0..3 {
            assert_eq!(*maze.cell_at((x, y)), GridCell::wall());
        }
    }
    assert_eq!(*maze.grid().get((2, 1)), GridCell::empty());
    assert_eq!(*maze.grid().get((4, 1)), GridCell::wall());
}

#[test]
fn neighbors_holding_filters_by_cell() {
    let mut maze = Maze::new(3, 3, None);
    maze.set((0, 1), GridCell::wall());
    maze.set((1, 2), GridCell::wall());
    assert_eq!(neighbors_holding((1, 1), &maze, GridCell::wall()), vec![(0, 1), (1, 2)]);
    assert_eq!(neighbors_holding((1, 1), &maze, GridCell::empty()), vec![(2, 1), (1, 0)]);
    assert_eq!(neighbors_holding((5, 5), &maze, GridCell::empty()), Vec::<(u8, u8)>::new());
}

#[test]
fn open_between_opens_the_wall_after_the_first_of_two_cells() {
    let mut maze = Maze::new(3, 3, None);
    assert!(open_between(&mut maze, (1, 1), (0, 1)));
    assert_eq!(*maze.grid().get((2, 3)), GridCell::empty());
    assert!(!open_between(&mut maze, (0, 1), (1, 1)));
    assert!(open_between(&mut maze, (1, 1), (1, 2)));
    assert_eq!(*maze.grid().get((3, 4)), GridCell::empty());
    assert!(open_between(&mut maze, (1, 1), (1, 0)));
    assert_eq!(*maze.grid().get((3, 2)), GridCell::empty());
}

#[test]
fn carve_highlights_opens_the_wall_and_opens_the_cell() {
    let (tx, rx) = std::sync::mpsc::sync_channel::<GridEvent>(64);
    let mut maze = Maze::new(2, 1, Some(tx));
    maze.set((1, 0), GridCell::wall());
    rx.try_iter().count();
    carve(&mut maze, (0, 0), (1, 0), true);
    assert_eq!(
        rx.try_iter().collect::<Vec<_>>(),
        vec![
            GridEvent::Update { coord: (3, 1), old: GridCell::wall(), new: GridCell::mark() },
            GridEvent::Update { coord: (2, 1), old: GridCell::wall(), new: GridCell::empty() },
            GridEvent::Update { coord: (3, 1), old: GridCell::mark(), new: GridCell::empty() },
        ]
    );
    maze.set((1, 0), GridCell::wall());
    rx.try_iter().count();
    carve(&mut maze, (0, 0), (1, 0), false);
    assert_eq!(
        rx.try_iter().collect::<Vec<_>>(),
        vec![GridEvent::Update { coord: (3, 1), old: GridCell::wall(), new: GridCell::empty() }]
    );
}

#[test]
fn join_opens_the_wall_and_the_frontier_cell() {
    let mut maze = Maze::new(2, 2, None);
    maze.set((0, 1), GridCell::mark());
    join(&mut maze, (0, 1), (0, 0));
    assert_eq!(*maze.cell_at((0, 1)), GridCell::empty());
    assert_eq!(*maze.grid().get((1, 2)), GridCell::empty());
    assert_eq!(*maze.grid().get((2, 3)), GridCell::wall());
}

#[test]
fn divide_once_raises_a_wall_with_one_hole() {
    let mut maze = Maze::new(4, 3, None);
    maze.clear_walls();
    divide_once(&mut maze, (0, 0), 4, 3, Orientation::Horizontal, 1, 2);
    for x in 1..=7 {
        let expected = if x == 5 { GridCell::empty() } else { GridCell::wall() };
        assert_eq!(*maze.grid().get((x, 4)), expected);
    }
    assert_eq!(*maze.grid().get((1, 2)), GridCell::empty());
    divide_once(&mut maze, (1, 0), 3, 2, Orientation::Vertical, 0, 1);
    assert_eq!(*maze.grid().get((4, 1)), GridCell::wall());
    assert_eq!(*maze.grid().get((4, 2)), GridCell::wall());
    assert_eq!(*maze.grid().get((4, 3)), GridCell::empty());
    assert_eq!(*maze.grid().get((4, 5)), GridCell::empty());
}

#[test]
fn all_edges_lists_every_inner_wall_once() {
    assert_eq!(
        all_edges(2, 2),
        vec![
            Edge { cell1: (0, 0), cell2: (1, 0) },
            Edge { cell1: (0, 0), cell2: (0, 1) },
            Edge { cell1: (1, 0), cell2: (1, 1) },
            Edge { cell1: (0, 1), cell2: (1, 1) },
        ]
    );
    assert_eq!(all_edges(1, 1), Vec::<Edge>::new());
    assert_eq!(all_edges(0, 5), Vec::<Edge>::new());
    assert_eq!(all_edges(255, 255).len(), 2 * 255 * 254);
}

#[test]
fn union_find_joins_sets_and_tells_them_apart() {
    let mut sets = UnionFind::new(6);
    for x in 0..6 {
        assert_eq!(sets.find(x), x);
    }
    assert!(sets.unite(0, 1));
    assert!(!sets.unite(1, 0));
    assert_eq!(sets.find(0), sets.find(1));
    assert_eq!(sets.find(1), 0);
    assert!(sets.unite(2, 3));
    assert_ne!(sets.find(1), sets.find(3));
    assert!(sets.unite(1, 3));
    assert_eq!(sets.find(3), 0);
    assert_eq!(sets.find(2), sets.find(0));
    assert_ne!(sets.find(4), sets.find(0));
    assert!(sets.unite(4, 0));
    // The set of lower rank goes under the other.
    assert_eq!(sets.find(4), 0);
    assert_eq!(sets.find(5), 5);
}

#[test]
fn union_find_takes_the_largest_size() {
    let mut sets = UnionFind::new(65535);
    for x in 1..65535u16 {
        assert!(sets.unite(x - 1, x));
    }
    let root = sets.find(0);
    assert_eq!(sets.find(65534), root);
    assert!(!sets.unite(0, 65534));
}

#[test]
fn a_seed_makes_the_same_generator_every_time() {
    assert_eq!(get_rng(Some(5)), StdRng::seed_from_u64(5));
    assert_eq!(get_rng(Some(5)), get_rng(Some(5)));
    assert_ne!(get_rng(Some(5)), get_rng(Some(6)));
    let mut first = get_rng(Some(5));
    let mut again = get_rng(Some(5));
    for _ in 0..8 {
        assert_eq!(first.random::<u64>(), again.random::<u64>());
    }
    assert_ne!(get_rng(None), get_rng(None));
}
