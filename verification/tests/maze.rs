use mazest::maze::cell::{GridCell, Orientation};
use mazest::maze::grid::GridEvent;
use mazest::maze::{get_neighbors, Maze};

#[test]
fn maze_test_maze_indexing() {
    let mut maze = Maze::new(5, 5, None);
    maze.set((2, 3), GridCell::start());
    assert_eq!(maze[(2, 3)], GridCell::start());
}

#[test]
fn mod_test_maze_indexing() {
    let mut maze = Maze::new(5, 5, None);
    maze.set((2, 3), GridCell::start());
    assert_eq!(maze[(2, 3)], GridCell::start());
    assert_eq!(*maze.cell_at((2, 3)), GridCell::start());
    assert_eq!(maze.grid()[(5, 7)], GridCell::start());
}

#[test]
fn test_remove_wall() {
    let mut maze = Maze::new(5, 5, None);
    assert!(maze.remove_wall_cell_after((1, 1), Orientation::Vertical));
    // Trying to remove the same wall again should return false
    assert!(!maze.remove_wall_cell_after((1, 1), Orientation::Vertical));
    // Check that the wall has been removed in the grid
    assert_eq!(maze.grid()[(3, 5)], GridCell::empty());
    assert_eq!(maze.grid()[(4, 3)], GridCell::empty());
}

#[test]
fn test_out_of_bounds() {
    let maze = Maze::new(5, 5, None);
    assert!(!maze.is_in_bounds((5, 5)));
    assert!(!maze.is_in_bounds((0, 5)));
    assert!(!maze.is_in_bounds((5, 0)));
    assert!(maze.is_in_bounds((4, 4)));
}

#[test]
fn new_maze_emits_declaration_then_openings() {
    let (tx, rx) = std::sync::mpsc::sync_channel::<GridEvent>(64);
    let maze = Maze::new(2, 1, Some(tx));
    drop(maze);
    let events: Vec<GridEvent> = rx.iter().collect();
    assert_eq!(
        events,
        vec![
            GridEvent::Initial { cell: GridCell::wall(), width: 5, height: 3 },
            GridEvent::Update { coord: (1, 1), old: GridCell::wall(), new: GridCell::empty() },
            GridEvent::Update { coord: (3, 1), old: GridCell::wall(), new: GridCell::empty() },
        ]
    );
}

#[test]
fn neighbors_come_left_right_up_down() {
    let maze = Maze::new(3, 3, None);
    assert_eq!(get_neighbors((1, 1), &maze), vec![(0, 1), (2, 1), (1, 0), (1, 2)]);
    assert_eq!(get_neighbors((0, 0), &maze), vec![(1, 0), (0, 1)]);
    assert_eq!(get_neighbors((2, 2), &maze), vec![(1, 2), (2, 1)]);
    assert_eq!(get_neighbors((3, 0), &maze), Vec::<(u8, u8)>::new());
}

#[test]
fn remove_wall_opens_the_position_between_two_neighbours() {
    let mut maze = Maze::new(3, 3, None);
    assert!(maze.are_adjacent((1, 1), (2, 1)));
    assert!(maze.are_adjacent((1, 1), (1, 0)));
    assert!(!maze.are_adjacent((1, 1), (2, 2)));
    assert!(!maze.are_adjacent((1, 1), (1, 1)));
    assert!(!maze.are_adjacent((0, 1), (2, 1)));
    maze.remove_wall((1, 1), (2, 1));
    assert_eq!(*maze.grid().get((4, 3)), GridCell::empty());
    maze.remove_wall((1, 1), (1, 0));
    assert_eq!(*maze.grid().get((3, 2)), GridCell::empty());
    assert!(!maze.is_wall_cell_after((1, 1), Orientation::Vertical));
    assert!(!maze.is_wall_cell_after((1, 0), Orientation::Horizontal));
    assert!(maze.is_wall_cell_after((1, 1), Orientation::Horizontal));
}

#[test]
fn a_new_maze_has_open_cells_between_standing_walls() {
    let maze = Maze::new(3, 2, None);
    assert_eq!(maze.width(), 3);
    assert_eq!(maze.height(), 2);
    assert!(!maze.is_empty());
    assert!(Maze::new(0, 0, None).is_empty());
    assert!(!Maze::new(0, 2, None).is_empty());
    assert_eq!(maze.grid().width(), 7);
    assert_eq!(maze.grid().height(), 5);
    for y in 0..5u16 {
        for x in 0..7u16 {
            let expected =
                if x % 2 == 1 && y % 2 == 1 { GridCell::empty() } else { GridCell::wall() };
            assert_eq!(*maze.grid().get((x, y)), expected);
        }
    }
}

#[test]
fn the_boundary_is_the_first_and_last_row_and_column() {
    let maze = Maze::new(2, 1, None);
    let grid = maze.grid();
    assert!(grid.is_boundary(0, 1));
    assert!(grid.is_boundary(4, 1));
    assert!(grid.is_boundary(2, 0));
    assert!(grid.is_boundary(2, 2));
    assert!(!grid.is_boundary(1, 1));
    assert!(!grid.is_boundary(3, 1));
    assert!(!grid.is_boundary(5, 1));
}

#[test]
fn setting_a_cell_emits_the_change_and_nothing_for_no_change() {
    let (tx, rx) = std::sync::mpsc::sync_channel::<GridEvent>(64);
    let mut maze = Maze::new(1, 1, Some(tx));
    rx.try_iter().count();
    assert_eq!(maze.set((0, 0), GridCell::goal()), (1, 1));
    maze.set((0, 0), GridCell::goal());
    maze.set((0, 0), GridCell::visited());
    assert_eq!(
        rx.try_iter().collect::<Vec<_>>(),
        vec![
            GridEvent::Update { coord: (1, 1), old: GridCell::empty(), new: GridCell::goal() },
            GridEvent::Update { coord: (1, 1), old: GridCell::goal(), new: GridCell::visited() },
        ]
    );
}

#[test]
fn a_grid_without_receiver_goes_on() {
    let (tx, rx) = std::sync::mpsc::sync_channel::<GridEvent>(1);
    drop(rx);
    let mut maze = Maze::new(2, 2, Some(tx));
    maze.set((1, 1), GridCell::goal());
    assert_eq!(*maze.cell_at((1, 1)), GridCell::goal());
}

#[test]
fn clearing_and_filling_walls_spare_the_boundary() {
    let (tx, rx) = std::sync::mpsc::sync_channel::<GridEvent>(256);
    let mut maze = Maze::new(2, 2, Some(tx));
    rx.try_iter().count();
    maze.clear_walls();
    // The inner walls of a 5 by 5 grid, row by row.
    let opened: Vec<(u16, u16)> = rx
        .try_iter()
        .map(|event| match event {
            GridEvent::Update { coord, old, new } => {
                assert_eq!((old, new), (GridCell::wall(), GridCell::empty()));
                coord
            }
            GridEvent::Initial { .. } => panic!("a second declaration"),
        })
        .collect();
    assert_eq!(opened, vec![(2, 1), (1, 2), (2, 2), (3, 2), (2, 3)]);
    for i in 0..5u16 {
        assert_eq!(*maze.grid().get((i, 0)), GridCell::wall());
        assert_eq!(*maze.grid().get((0, i)), GridCell::wall());
    }
    maze.fill_walls();
    assert_eq!(rx.try_iter().count(), 9);
    for y in 0..5u16 {
        for x in 0..5u16 {
            assert_eq!(*maze.grid().get((x, y)), GridCell::wall());
        }
    }
}

#[test]
fn a_wall_line_runs_alongside_the_cells_it_is_asked_for() {
    let mut maze = Maze::new(4, 4, None);
    maze.clear_walls();
    maze.insert_wall_line_after(1, 1, 2, Orientation::Horizontal);
    for x in 1..8u16 {
        let expected = if (3..=5).contains(&x) { GridCell::wall() } else { GridCell::empty() };
        assert_eq!(*maze.grid().get((x, 4)), expected);
    }
    maze.insert_wall_line_after(0, 0, 3, Orientation::Vertical);
    for y in 1..8u16 {
        assert_eq!(*maze.grid().get((2, y)), GridCell::wall());
    }
    // A line from a later cell to an earlier one is no line.
    maze.insert_wall_line_after(2, 3, 1, Orientation::Horizontal);
    assert_eq!(*maze.grid().get((5, 6)), GridCell::empty());
}

#[test]
fn a_passage_is_marked_with_its_route_or_the_kind_given() {
    let mut maze = Maze::new(2, 2, None);
    let at = maze.set_path_cell_after((0, 0), Orientation::Horizontal, None);
    assert_eq!(at, (2, 1));
    assert_eq!(
        *maze.grid().get((2, 1)),
        GridCell::Path(mazest::maze::cell::PathType::Route(Orientation::Horizontal))
    );
    let at = maze.set_path_cell_after(
        (0, 0),
        Orientation::Vertical,
        Some(mazest::maze::cell::PathType::Visited),
    );
    assert_eq!(at, (1, 2));
    assert_eq!(*maze.grid().get((1, 2)), GridCell::visited());
    assert!(GridCell::wall().is_wall() && GridCell::mark().is_wall());
    assert!(!GridCell::empty().is_wall() && !GridCell::pacman().is_wall());
}

#[test]
fn a_full_channel_takes_no_more_events() {
    // A new maze of two cells emits three events: a channel of three is
    // full after them, and the producer would have to wait with a fourth.
    let (tx, rx) = std::sync::mpsc::sync_channel::<GridEvent>(3);
    let maze = Maze::new(2, 1, Some(tx.clone()));
    let extra = GridEvent::Update { coord: (1, 1), old: GridCell::empty(), new: GridCell::goal() };
    assert!(matches!(tx.try_send(extra), Err(std::sync::mpsc::TrySendError::Full(_))));
    assert_eq!(rx.try_iter().count(), 3);
    assert!(tx.try_send(extra).is_ok());
    assert_eq!(*maze.cell_at((0, 0)), GridCell::empty());
}
