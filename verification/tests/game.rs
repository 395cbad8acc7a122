use mazest::game::game_state::{
    is_drawn, key_direction, urgency_of, Direction, GameState, UiEvent, Urgency,
};
use mazest::generators::Generator;
use mazest::maze::cell::{GridCell, Orientation, PathType};
use mazest::visualize::input::Key;

const DIRECTIONS: [Direction; 4] =
    [Direction::Left, Direction::Right, Direction::Up, Direction::Down];

fn opposite(direction: Direction) -> Direction {
    match direction {
        Direction::Left => Direction::Right,
        Direction::Right => Direction::Left,
        Direction::Up => Direction::Down,
        Direction::Down => Direction::Up,
    }
}

#[test]
fn a_new_game_puts_the_player_first_and_the_goal_last() {
    for generator in
        [Generator::RecurBacktrack, Generator::Prim, Generator::RecurDiv, Generator::Kruskal]
    {
        let state = GameState::initialize(5, 4, generator);
        assert_eq!(state.current(), (0, 0));
        assert_eq!(state.goal(), (4, 3));
        assert!(!state.goal_reached());
        assert_eq!(*state.maze().cell_at((0, 0)), GridCell::pacman());
        assert_eq!(*state.maze().cell_at((4, 3)), GridCell::goal());
        assert_eq!(state.grid().width(), 11);
        assert_eq!(state.grid().height(), 9);
    }
}

#[test]
fn a_game_on_a_single_cell_is_won_at_once() {
    let state = GameState::initialize(1, 1, Generator::Kruskal);
    assert!(state.goal_reached());
    assert_eq!(*state.maze().cell_at((0, 0)), GridCell::goal());
}

#[test]
fn the_player_cannot_leave_the_maze() {
    let mut state = GameState::initialize(4, 4, Generator::RecurBacktrack);
    let mut updates = Vec::new();
    assert_eq!(state.move_pacman(Direction::Left, &mut updates), None);
    assert_eq!(state.move_pacman(Direction::Up, &mut updates), None);
    assert!(updates.is_empty());
    assert_eq!(state.current(), (0, 0));
    assert_eq!(*state.maze().cell_at((0, 0)), GridCell::pacman());
}

#[test]
fn a_move_goes_where_no_wall_stands_and_marks_its_trace() {
    for seed_maze in 0..8 {
        let generator = if seed_maze % 2 == 0 { Generator::Kruskal } else { Generator::Prim };
        let mut state = GameState::initialize(5, 5, generator);
        let mut moved_once = false;
        for direction in [Direction::Right, Direction::Down] {
            let (neighbour, orientation, route) = match direction {
                Direction::Right => ((1, 0), Orientation::Vertical, Orientation::Horizontal),
                _ => ((0, 1), Orientation::Horizontal, Orientation::Vertical),
            };
            let walled = state.maze().is_wall_cell_after((0, 0), orientation);
            let mut updates = Vec::new();
            let moved = state.move_pacman(direction, &mut updates);
            if walled {
                assert_eq!(moved, None);
                assert!(updates.is_empty());
                continue;
            }
            moved_once = true;
            assert_eq!(moved, Some(neighbour));
            assert_eq!(state.current(), neighbour);
            let passage = (1 + neighbour.0 as u16, 1 + neighbour.1 as u16);
            assert_eq!(
                updates,
                vec![
                    UiEvent::GridUpdate { coord: (1, 1), new: GridCell::visited() },
                    UiEvent::GridUpdate {
                        coord: passage,
                        new: GridCell::Path(PathType::Route(route))
                    },
                    UiEvent::GridUpdate {
                        coord: (2 * neighbour.0 as u16 + 1, 2 * neighbour.1 as u16 + 1),
                        new: GridCell::pacman()
                    },
                ]
            );
            assert_eq!(*state.maze().cell_at((0, 0)), GridCell::visited());
            assert_eq!(*state.maze().cell_at(neighbour), GridCell::pacman());

            // Going back clears the trace.
            let mut updates = Vec::new();
            assert_eq!(state.move_pacman(opposite(direction), &mut updates), Some((0, 0)));
            assert_eq!(
                updates,
                vec![
                    UiEvent::GridUpdate {
                        coord: (2 * neighbour.0 as u16 + 1, 2 * neighbour.1 as u16 + 1),
                        new: GridCell::empty()
                    },
                    UiEvent::GridUpdate { coord: passage, new: GridCell::empty() },
                    UiEvent::GridUpdate { coord: (1, 1), new: GridCell::pacman() },
                ]
            );
            assert_eq!(*state.maze().cell_at(neighbour), GridCell::empty());
            assert_eq!(*state.maze().grid().get(passage), GridCell::empty());
        }
        assert!(moved_once, "a generated maze leaves a way out of its first cell");
    }
}

#[test]
fn a_walk_along_open_passages_reaches_the_goal() {
    let mut state = GameState::initialize(6, 6, Generator::RecurDiv);
    let mut trail = vec![state.current()];
    let mut seen = vec![state.current()];
    let mut updates = Vec::new();
    let mut steps = 0;
    while !state.goal_reached() {
        steps += 1;
        assert!(steps < 10_000);
        let here = state.current();
        let mut advanced = false;
        for direction in DIRECTIONS {
            let target = match direction {
                Direction::Left if here.0 > 0 => (here.0 - 1, here.1),
                Direction::Right if here.0 < 5 => (here.0 + 1, here.1),
                Direction::Up if here.1 > 0 => (here.0, here.1 - 1),
                Direction::Down if here.1 < 5 => (here.0, here.1 + 1),
                _ => continue,
            };
            if seen.contains(&target) {
                continue;
            }
            if state.move_pacman(direction, &mut updates) == Some(target) {
                seen.push(target);
                trail.push(target);
                advanced = true;
                break;
            }
        }
        if !advanced {
            trail.pop();
            let back = *trail.last().unwrap();
            let direction = DIRECTIONS
                .into_iter()
                .find(|d| match d {
                    Direction::Left => here.0 > 0 && (here.0 - 1, here.1) == back,
                    Direction::Right => (here.0 + 1, here.1) == back,
                    Direction::Up => here.1 > 0 && (here.0, here.1 - 1) == back,
                    Direction::Down => (here.0, here.1 + 1) == back,
                })
                .unwrap();
            assert_eq!(state.move_pacman(direction, &mut updates), Some(back));
        }
    }
    assert_eq!(state.current(), (5, 5));
    assert_eq!(*state.maze().cell_at((5, 5)), GridCell::pacman());
    assert_eq!(updates.len() % 3, 0);
}

#[test]
fn arrow_keys_stand_for_directions() {
    assert_eq!(key_direction(Key::Left), Some(Direction::Left));
    assert_eq!(key_direction(Key::Right), Some(Direction::Right));
    assert_eq!(key_direction(Key::Up), Some(Direction::Up));
    assert_eq!(key_direction(Key::Down), Some(Direction::Down));
    assert_eq!(key_direction(Key::Enter), None);
    assert_eq!(key_direction(Key::Esc), None);
    assert_eq!(key_direction(Key::Other), None);
}

#[test]
fn passages_lie_between_the_cells() {
    let mut state = GameState::initialize(2, 1, Generator::Kruskal);
    let mut updates = Vec::new();
    assert_eq!(state.move_pacman(Direction::Right, &mut updates), Some((1, 0)));
    assert!(state.goal_reached());
    assert_eq!(updates[1], UiEvent::GridUpdate {
        coord: (2, 1),
        new: GridCell::Path(PathType::Route(Orientation::Horizontal))
    });
}

#[test]
fn urgency_rises_at_half_and_at_a_quarter_of_the_time() {
    assert_eq!(urgency_of(60_000, 60_000), Urgency::Low);
    assert_eq!(urgency_of(30_001, 60_000), Urgency::Low);
    assert_eq!(urgency_of(30_000, 60_000), Urgency::Medium);
    assert_eq!(urgency_of(15_001, 60_000), Urgency::Medium);
    assert_eq!(urgency_of(15_000, 60_000), Urgency::High);
    assert_eq!(urgency_of(0, 60_000), Urgency::High);
}

#[test]
fn updates_are_drawn_only_inside_a_known_grid() {
    assert!(!is_drawn(None, (0, 0)));
    assert!(is_drawn(Some((3, 2)), (2, 1)));
    assert!(!is_drawn(Some((3, 2)), (3, 1)));
    assert!(!is_drawn(Some((3, 2)), (2, 2)));
}
