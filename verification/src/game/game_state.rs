//! State of one run of the game, and the player's moves.

use vstd::prelude::*;
use crate::generators::{
    generate_maze, is_tree, lemma_tree_whatever_cells, lemma_walled_in, Generator,
};
use crate::maze::cell::{GridCell, Orientation, PathType};
use crate::maze::grid::Grid;
use crate::maze::{cell_coord, passage_coord, Maze};
use crate::visualize::input::Key;

verus! {

/// Where the player wants to go.
#[derive(Debug, Clone, Copy, PartialEq, Eq, Structural)]
pub enum Direction {
    Up,
    Down,
    Left,
    Right,
}

/// What the game tells its renderer about the grid.
#[derive(Debug, Clone, Copy, PartialEq, Eq)]
pub enum UiEvent {
    /// The size of the grid.
    GridInit { width: u16, height: u16 },
    /// The cell now shown at `coord` (column, row).
    GridUpdate { coord: (u16, u16), new: GridCell },
}

/// How one run of the game ended.
#[derive(Debug, Clone, Copy, PartialEq, Eq, Structural)]
pub enum GameRunResult {
    /// The goal was reached in time.
    GoalReached,
    /// Time ran out.
    Timeout,
    /// The player left.
    Canceled,
}

/// A move as it is planned: the cell to move to, the cell after which the
/// wall in the way would stand, the orientation of that wall, and the
/// orientation of the route through it.
pub struct Plan {
    pub new_pos: (u8, u8),
    pub check_pos: (u8, u8),
    pub wall: Orientation,
    pub path: Orientation,
}

/// The move from `current` in `direction` in a maze of the given size, if
/// it stays inside the maze.
pub open spec fn planned(current: (u8, u8), direction: Direction, width: u8, height: u8) -> Option<
    Plan,
> {
    match direction {
        Direction::Left => if current.0 >= 1 {
            Some(
                Plan {
                    new_pos: ((current.0 - 1) as u8, current.1),
                    check_pos: ((current.0 - 1) as u8, current.1),
                    wall: Orientation::Vertical,
                    path: Orientation::Horizontal,
                },
            )
        } else {
            None
        },
        Direction::Right => if current.0 + 1 < width {
            Some(
                Plan {
                    new_pos: ((current.0 + 1) as u8, current.1),
                    check_pos: current,
                    wall: Orientation::Vertical,
                    path: Orientation::Horizontal,
                },
            )
        } else {
            None
        },
        Direction::Up => if current.1 >= 1 {
            Some(
                Plan {
                    new_pos: (current.0, (current.1 - 1) as u8),
                    check_pos: (current.0, (current.1 - 1) as u8),
                    wall: Orientation::Horizontal,
                    path: Orientation::Vertical,
                },
            )
        } else {
            None
        },
        Direction::Down => if current.1 + 1 < height {
            Some(
                Plan {
                    new_pos: (current.0, (current.1 + 1) as u8),
                    check_pos: current,
                    wall: Orientation::Horizontal,
                    path: Orientation::Vertical,
                },
            )
        } else {
            None
        },
    }
}

/// The direction that an arrow key stands for.
pub fn key_direction(key: Key) -> (direction: Option<Direction>)
    ensures
        direction == match key {
            Key::Left => Some(Direction::Left),
            Key::Right => Some(Direction::Right),
            Key::Up => Some(Direction::Up),
            Key::Down => Some(Direction::Down),
            _ => None::<Direction>,
        },
{
    match key {
        Key::Left => Some(Direction::Left),
        Key::Right => Some(Direction::Right),
        Key::Up => Some(Direction::Up),
        Key::Down => Some(Direction::Down),
        _ => None,
    }
}

/// One run of the game: the maze, where the player stands, and where the
/// goal is.
pub struct GameState {
    maze: Maze,
    current: (u8, u8),
    goal: (u8, u8),
}

impl GameState {
    /// The maze being played.
    pub closed spec fn spec_maze(&self) -> &Maze {
        &self.maze
    }

    /// Where the player stands.
    pub closed spec fn spec_current(&self) -> (u8, u8) {
        self.current
    }

    /// Where the goal is.
    pub closed spec fn spec_goal(&self) -> (u8, u8) {
        self.goal
    }

    /// The maze is well-formed and holds the player and the goal.
    pub closed spec fn wf(&self) -> bool {
        &&& self.maze.wf()
        &&& self.maze.spec_in_bounds(self.current)
        &&& self.maze.spec_in_bounds(self.goal)
    }

    /// What well-formedness says, in terms of the public specification.
    pub proof fn lemma_wf(&self)
        requires
            self.wf(),
        ensures
            self.spec_maze().wf(),
            self.spec_maze().spec_in_bounds(self.spec_current()),
            self.spec_maze().spec_in_bounds(self.spec_goal()),
    {
    }

    /// A new run on a maze of the given size, carved by the generator: the
    /// player stands on the first cell and the goal is the last. The other
    /// cells are open, and the cells are joined as a tree: a way leads
    /// from each to every other and one wall fewer is open than there are
    /// cells.
    pub fn initialize(width: u8, height: u8, generator: Generator) -> (state: Self)
        requires
            width > 0,
            height > 0,
        ensures
            state.wf(),
            state.spec_maze().spec_width() == width,
            state.spec_maze().spec_height() == height,
            state.spec_current() == (0u8, 0u8),
            state.spec_goal() == ((width - 1) as u8, (height - 1) as u8),
            state.spec_maze().spec_cell(state.spec_goal()) == GridCell::goal(),
            (width > 1 || height > 1) ==> state.spec_maze().spec_cell(state.spec_current())
                == GridCell::pacman(),
            forall|c: (u8, u8)|
                state.spec_maze().spec_in_bounds(c) && c != state.spec_current() && c
                    != state.spec_goal() ==> #[trigger] state.spec_maze().spec_cell(c)
                    == GridCell::empty(),
            is_tree(state.spec_maze()),
    {
        let mut maze = Maze::new(width, height, None);
        proof {
            lemma_walled_in(&maze);
        }
        generate_maze(&mut maze, generator, None);
        let start = (0, 0);
        let ghost m0 = maze;
        maze.set(start, GridCell::pacman());
        let goal = (width - 1, height - 1);
        let ghost m1 = maze;
        maze.set(goal, GridCell::goal());
        proof {
            m0.lemma_wf();
            m1.lemma_wf();
            m1.spec_grid().lemma_put_cells(m0.spec_grid(), cell_coord(start), GridCell::pacman());
            maze.spec_grid().lemma_put_cells(m1.spec_grid(), cell_coord(goal), GridCell::goal());
            assert forall|c: (u8, u8)|
                maze.spec_in_bounds(c) && c != start && c != goal implies #[trigger] maze.spec_cell(
                c,
            ) == GridCell::empty() by {
                assert(m0.spec_grid().contains(cell_coord(c)));
                assert(m0.spec_cell(c) == GridCell::empty());
            }
            lemma_tree_whatever_cells(&m0, &maze);
        }
        GameState { maze, goal, current: start }
    }

    /// The maze being played.
    pub fn maze(&self) -> (m: &Maze)
        ensures
            m == self.spec_maze(),
    {
        &self.maze
    }

    /// Where the player stands.
    pub fn current(&self) -> (c: (u8, u8))
        ensures
            c == self.spec_current(),
    {
        self.current
    }

    /// Where the goal is.
    pub fn goal(&self) -> (c: (u8, u8))
        ensures
            c == self.spec_goal(),
    {
        self.goal
    }

    /// The grid of the maze being played.
    pub fn grid(&self) -> (g: &Grid)
        ensures
            g == self.spec_maze().spec_grid(),
    {
        self.maze.grid()
    }

    /// Whether the player stands on the goal.
    pub fn goal_reached(&self) -> (reached: bool)
        ensures
            reached == (self.spec_current() == self.spec_goal()),
    {
        self.current.0 == self.goal.0 && self.current.1 == self.goal.1
    }

    /// Moves the player one cell in `direction`, unless the maze ends
    /// there or a wall is in the way. The cell left behind is marked as
    /// visited and the passage as part of the route; moving back onto a
    /// visited cell clears both instead. What changes on the grid is added
    /// to `updates`: the cell left, the passage, and the cell entered, in
    /// this order. Returns the player's new position, if it moved.
    #[verifier::rlimit(50)]
    pub fn move_pacman(&mut self, direction: Direction, updates: &mut Vec<UiEvent>) -> (moved:
        Option<(u8, u8)>)
        requires
            old(self).wf(),
        ensures
            final(self).wf(),
            final(self).spec_goal() == old(self).spec_goal(),
            final(self).spec_maze().extends(old(self).spec_maze()),
            moved == old(self).destination(direction),
            moved.is_none() ==> *final(self) == *old(self) && final(updates)@ == old(updates)@,
            moved.is_some() ==> {
                let plan = planned(
                    old(self).spec_current(),
                    direction,
                    old(self).spec_maze().spec_width(),
                    old(self).spec_maze().spec_height(),
                ).unwrap();
                let back = old(self).spec_maze().spec_cell(plan.new_pos) == GridCell::visited();
                let left = if back {
                    GridCell::empty()
                } else {
                    GridCell::visited()
                };
                let passage = if back {
                    GridCell::empty()
                } else {
                    GridCell::Path(PathType::Route(plan.path))
                };
                &&& final(self).spec_current() == plan.new_pos
                &&& final(updates)@ == old(updates)@ + seq![
                    UiEvent::GridUpdate { coord: cell_coord(old(self).spec_current()), new: left },
                    UiEvent::GridUpdate {
                        coord: passage_coord(plan.check_pos, plan.path),
                        new: passage,
                    },
                    UiEvent::GridUpdate { coord: cell_coord(plan.new_pos), new: GridCell::pacman() },
                ]
                &&& forall|at: (u16, u16)|
                    old(self).spec_maze().spec_grid().contains(at) ==> {
                        #[trigger] final(self).spec_maze().spec_grid().spec_get(at) == (if at
                            == cell_coord(plan.new_pos) {
                            GridCell::pacman()
                        } else if at == passage_coord(plan.check_pos, plan.path) {
                            passage
                        } else if at == cell_coord(old(self).spec_current()) {
                            left
                        } else {
                            old(self).spec_maze().spec_grid().spec_get(at)
                        })
                    }
            },
    {
        proof {
            self.maze.lemma_extends_self();
        }
        let (new_pos, check_pos, wall_orientation, path_orientation) = match direction {
            Direction::Left => {
                if self.current.0 == 0 {
                    return None;
                }
                let new_pos = (self.current.0 - 1, self.current.1);
                (new_pos, new_pos, Orientation::Vertical, Orientation::Horizontal)
            },
            Direction::Right => {
                if self.current.0 == 255 || self.current.0 + 1 >= self.maze.width() {
                    return None;
                }
                let new_pos = (self.current.0 + 1, self.current.1);
                (new_pos, self.current, Orientation::Vertical, Orientation::Horizontal)
            },
            Direction::Up => {
                if self.current.1 == 0 {
                    return None;
                }
                let new_pos = (self.current.0, self.current.1 - 1);
                (new_pos, new_pos, Orientation::Horizontal, Orientation::Vertical)
            },
            Direction::Down => {
                if self.current.1 == 255 || self.current.1 + 1 >= self.maze.height() {
                    return None;
                }
                let new_pos = (self.current.0, self.current.1 + 1);
                (new_pos, self.current, Orientation::Horizontal, Orientation::Vertical)
            },
        };
        if self.maze.is_wall_cell_after(check_pos, wall_orientation) {
            return None;
        }
        let ghost m0 = self.maze;
        let back = *self.maze.cell_at(new_pos) == GridCell::visited();
        let left = if back {
            GridCell::empty()
        } else {
            GridCell::visited()
        };
        let current_grid_coord = self.maze.set(self.current, left);
        updates.push(UiEvent::GridUpdate { coord: current_grid_coord, new: left });
        let ghost m1 = self.maze;
        let route_grid_coord = self.maze.set_path_cell_after(
            check_pos,
            path_orientation,
            if back {
                Some(PathType::Empty)
            } else {
                None
            },
        );
        let passage = if back {
            GridCell::empty()
        } else {
            GridCell::Path(PathType::Route(path_orientation))
        };
        updates.push(UiEvent::GridUpdate { coord: route_grid_coord, new: passage });
        let ghost m2 = self.maze;
        let new_grid_coord = self.maze.set(new_pos, GridCell::pacman());
        updates.push(UiEvent::GridUpdate { coord: new_grid_coord, new: GridCell::pacman() });
        proof {
            m0.lemma_wf();
            m1.lemma_wf();
            m2.lemma_wf();
            m1.spec_grid().lemma_put_cells(m0.spec_grid(), current_grid_coord, left);
            m2.spec_grid().lemma_put_cells(m1.spec_grid(), route_grid_coord, passage);
            self.maze.spec_grid().lemma_put_cells(
                m2.spec_grid(),
                new_grid_coord,
                GridCell::pacman(),
            );
            m2.lemma_extends_chain(&m1, &m0);
            self.maze.lemma_extends_chain(&m2, &m0);
            assert(updates@ =~= old(updates)@ + seq![
                UiEvent::GridUpdate { coord: current_grid_coord, new: left },
                UiEvent::GridUpdate { coord: route_grid_coord, new: passage },
                UiEvent::GridUpdate { coord: new_grid_coord, new: GridCell::pacman() },
            ]);
        }
        self.current = new_pos;
        Some(new_pos)
    }

    /// Where a move in `direction` takes the player: the neighbouring cell,
    /// unless the maze ends there or a wall is in the way.
    pub open spec fn destination(&self, direction: Direction) -> Option<(u8, u8)> {
        match planned(
            self.spec_current(),
            direction,
            self.spec_maze().spec_width(),
            self.spec_maze().spec_height(),
        ) {
            None => None,
            Some(plan) => if self.spec_maze().spec_is_wall_after(plan.check_pos, plan.wall) {
                None
            } else {
                Some(plan.new_pos)
            },
        }
    }
}

/// How pressing the remaining time is.
#[derive(Debug, Clone, Copy, PartialEq, Eq, Structural)]
pub enum Urgency {
    /// More than half of the time is left.
    Low,
    /// At most half of the time is left.
    Medium,
    /// At most a quarter of the time is left.
    High,
}

/// How pressing `remaining` is of a run that lasts `total`, both in
/// milliseconds.
pub fn urgency_of(remaining: u64, total: u64) -> (urgency: Urgency)
    ensures
        urgency == (if remaining <= total / 4 {
            Urgency::High
        } else if remaining <= total / 2 {
            Urgency::Medium
        } else {
            Urgency::Low
        }),
{
    if remaining <= total / 4 {
        Urgency::High
    } else if remaining <= total / 2 {
        Urgency::Medium
    } else {
        Urgency::Low
    }
}

/// Whether the game's renderer draws an update at `coord`: only once it
/// knows the grid's size, and only inside the grid.
pub fn is_drawn(dims: Option<(u16, u16)>, coord: (u16, u16)) -> (draws: bool)
    ensures
        draws == match dims {
            Some((width, height)) => coord.0 < width && coord.1 < height,
            None => false,
        },
{
    match dims {
        Some((width, height)) => coord.0 < width && coord.1 < height,
        None => false,
    }
}

} // verus!
