//! What a session is made of besides the renderer: its limits, the sizes
//! it offers, and the work of the compute unit.

use vstd::prelude::*;
use std::sync::mpsc::SyncSender;
use rand::Rng;
use crate::generators::{generate_maze, is_tree, lemma_walled_in, Generator};
use crate::maze::grid::GridEvent;
use crate::maze::cell::GridCell;
use crate::maze::{opening_stream, Maze};
use crate::solvers::{is_route, same_walls, solve_maze, Solver};
use crate::visualize::input::Key;
use crate::visualize::renderer::RendererStatus;

verus! {

/// Most grid events that wait in the channel between the compute unit and
/// the renderer.
pub const MAX_EVENTS_IN_CHANNEL_BUFFER: usize = 1000;

/// Most grid events kept for stepping through history.
pub const MAX_HISTORY_GRID_EVENTS: usize = 100;

/// How long the coordinator waits for input before it looks at the
/// renderer again, in milliseconds.
pub const INPUT_RECV_TIMEOUT_MILLIS: u64 = 100;

/// How long the input unit waits for a key before it looks at the stop
/// signal again, in milliseconds.
pub const USER_INPUT_EVENT_POLL_TIMEOUT_MILLIS: u64 = 100;

/// Rows at the bottom of the terminal kept for status messages.
pub const NUM_STATUS_ROWS: u16 = 1;

/// The largest maze side that fits `term_size` terminal cells when a grid
/// cell takes `cell_size` of them: the grid side is made odd and at least
/// three, and the maze side is half of it, at most 255.
pub open spec fn max_maze_size(term_size: u16, cell_size: u16) -> u8
    recommends
        cell_size > 0,
{
    let n = term_size / cell_size;
    let odd = if n % 2 == 0 && n > 0 {
        n - 1
    } else {
        n as int
    };
    let grid = if odd < 3 {
        3
    } else {
        odd
    };
    if grid / 2 > 255 {
        255u8
    } else {
        (grid / 2) as u8
    }
}

/// The largest maze side that fits `term_size` terminal cells when a grid
/// cell takes `cell_size` of them.
pub fn get_max_maze_size(term_size: u16, cell_size: u16) -> (size: u8)
    requires
        cell_size > 0,
    ensures
        size == max_maze_size(term_size, cell_size),
        size >= 1,
{
    let n = term_size / cell_size;
    let odd = if n % 2 == 0 && n > 0 {
        n - 1
    } else {
        n
    };
    let max_grid_size = if odd < 3 {
        3
    } else {
        odd
    };
    let half = max_grid_size / 2;
    if half > 255 {
        255
    } else {
        half as u8
    }
}

/// Time to render one grid update of a maze whose larger side has `size`
/// cells, given the time `rate` for a maze of 255: `rate` times the square
/// of how many times `size` goes into 255.
pub open spec fn refresh_micros(rate: nat, size: nat) -> nat
    recommends
        size > 0,
{
    rate * ((255nat / size) * (255nat / size))
}

/// Timing of a session that renders in batches.
pub struct App {
    /// Interval between two renderings of the event buffer, in
    /// microseconds.
    pub render_interval: u64,
    /// Time to render one grid update of a maze 255 cells a side, in
    /// microseconds.
    pub render_refresh_rate: u64,
    /// How long the coordinator waits for input, in microseconds.
    pub input_recv_timeout: u64,
    /// How long the input unit waits for a key, in microseconds.
    pub user_input_event_poll_timeout: u64,
}

impl Default for App {
    /// The default timing.
    fn default() -> (app: Self)
        ensures
            app.render_interval == 100_000,
            app.render_refresh_rate == 20,
            app.input_recv_timeout == 100_000,
            app.user_input_event_poll_timeout == 100_000,
    {
        App::new()
    }
}

impl App {
    /// The default timing: a rendering every 100 milliseconds, 20
    /// microseconds per update, and waits of 100 milliseconds.
    pub fn new() -> (app: Self)
        ensures
            app.render_interval == 100_000,
            app.render_refresh_rate == 20,
            app.input_recv_timeout == 100_000,
            app.user_input_event_poll_timeout == 100_000,
    {
        App {
            render_interval: 100_000,
            render_refresh_rate: 20,
            input_recv_timeout: 100_000,
            user_input_event_poll_timeout: 100_000,
        }
    }

    /// The largest maze side offered by default.
    pub fn get_default_maze_size(term_size: u16, cell_size: u16) -> (size: u8)
        requires
            cell_size > 0,
        ensures
            size == max_maze_size(term_size, cell_size),
    {
        get_max_maze_size(term_size, cell_size)
    }

    /// Time to render one grid update of a maze of the given size, in
    /// microseconds: the time for the largest maze times the square of how
    /// many times the larger side goes into 255.
    pub fn calculate_render_refresh_time(&self, grid_width: u8, grid_height: u8) -> (micros: u64)
        requires
            grid_width > 0 || grid_height > 0,
            self.render_refresh_rate <= u64::MAX / 65025,
        ensures
            micros == refresh_micros(
                self.render_refresh_rate as nat,
                if grid_width >= grid_height {
                    grid_width as nat
                } else {
                    grid_height as nat
                },
            ),
    {
        let size: u64 = if grid_width >= grid_height {
            grid_width as u64
        } else {
            grid_height as u64
        };
        let times: u64 = 255 / size;
        assert(times * times <= 65025) by (nonlinear_arith)
            requires
                times <= 255,
        ;
        let square: u64 = times * times;
        assert(self.render_refresh_rate * square <= u64::MAX) by (nonlinear_arith)
            requires
                self.render_refresh_rate <= u64::MAX / 65025,
                (u64::MAX / 65025) * 65025 <= u64::MAX,
                square <= 65025,
        ;
        self.render_refresh_rate * square
    }

    /// Generates and solves one maze; see [`compute`].
    pub fn compute(
        width: u8,
        height: u8,
        grid_event_tx: SyncSender<GridEvent>,
        generator: Generator,
        solver: Solver,
    ) -> (reached: bool)
        requires
            width > 0,
            height > 0,
        ensures
            reached,
            exists|generated: Maze, left: Maze| #[trigger]
                computed(width, height, reached, &generated, &left),
    {
        compute(width, height, grid_event_tx, generator, solver)
    }
}

/// What one round of the compute unit comes to, with the maze as the
/// generator made it and the maze as the solver left it. The generated
/// maze has the size asked for, every cell open and joined to every other,
/// and one wall fewer open than it has cells; its grid emits to the
/// channel, and what it has emitted begins with the declaration of the
/// grid and the opening of its cells. The solver has only added to that,
/// has marked the goal and, in a maze of more than one cell, the start, and
/// has left the walls alone where it found no route. The round reports the
/// goal as reached exactly where a route leads through the generated maze.
pub open spec fn computed(
    width: u8,
    height: u8,
    reached: bool,
    generated: &Maze,
    left: &Maze,
) -> bool {
    &&& generated.wf()
    &&& generated.spec_width() == width
    &&& generated.spec_height() == height
    &&& generated.spec_grid().is_connected()
    &&& generated.spec_grid().fill() == GridCell::wall()
    &&& opening_stream(width, height).is_prefix_of(generated.spec_grid().emitted())
    &&& forall|c: (u8, u8)|
        generated.spec_in_bounds(c) ==> #[trigger] generated.spec_cell(c) == GridCell::empty()
    &&& is_tree(generated)
    &&& left.extends(generated)
    &&& reached == exists|way: Seq<(u8, u8)>| #[trigger] is_route(generated, way)
    &&& left.spec_cell(((width - 1) as u8, (height - 1) as u8)) == GridCell::goal()
    &&& (width > 1 || height > 1) ==> left.spec_cell((0u8, 0u8)) == GridCell::start()
    &&& !reached ==> same_walls(left, generated)
}

/// Generates a maze of the given size with the generator and solves it
/// with the solver, every change going to the channel. Returns whether the
/// goal was reached, which it is whatever the generator drew: the cells of
/// a generated maze are all joined, so a route leads through it.
pub fn compute(
    width: u8,
    height: u8,
    grid_event_tx: SyncSender<GridEvent>,
    generator: Generator,
    solver: Solver,
) -> (reached: bool)
    requires
        width > 0,
        height > 0,
    ensures
        reached,
        exists|generated: Maze, left: Maze| #[trigger]
            computed(width, height, reached, &generated, &left),
{
    let mut maze = Maze::new(width, height, Some(grid_event_tx));
    let ghost made = maze;
    proof {
        lemma_walled_in(&made);
    }
    generate_maze(&mut maze, generator, None);
    let ghost generated = maze;
    let reached = solve_maze(&mut maze, solver);
    proof {
        assert(computed(width, height, reached, &generated, &maze));
        crate::solvers::lemma_joined_has_route(&generated);
    }
    reached
}

/// Pairing number `index` of a generator with a solver: the generators in
/// the order backtracking, Kruskal, Prim, division, each with the solvers
/// in the order depth first, breadth first, Dijkstra, A*.
pub open spec fn spec_combo(index: int) -> (Generator, Solver) {
    (
        if index / 4 == 0 {
            Generator::RecurBacktrack
        } else if index / 4 == 1 {
            Generator::Kruskal
        } else if index / 4 == 2 {
            Generator::Prim
        } else {
            Generator::RecurDiv
        },
        if index % 4 == 0 {
            Solver::Dfs
        } else if index % 4 == 1 {
            Solver::Bfs
        } else if index % 4 == 2 {
            Solver::Dijkstra
        } else {
            Solver::AStar
        },
    )
}

/// Pairing number `index` of a generator with a solver, of sixteen.
pub fn combo(index: usize) -> (pair: (Generator, Solver))
    requires
        index < 16,
    ensures
        pair == spec_combo(index as int),
{
    let generator = match index / 4 {
        0 => Generator::RecurBacktrack,
        1 => Generator::Kruskal,
        2 => Generator::Prim,
        _ => Generator::RecurDiv,
    };
    let solver = match index % 4 {
        0 => Solver::Dfs,
        1 => Solver::Bfs,
        2 => Solver::Dijkstra,
        _ => Solver::AStar,
    };
    (generator, solver)
}

/// A number below `n`.
///
/// Wraps `Rng::random_range` on the thread's generator, `rand::rng`, which
/// gives a value inside the range and panics on an empty one.
#[verifier::external_body]
fn random_below(n: usize) -> (index: usize)
    requires
        n > 0,
    ensures
        index < n,
{
    rand::rng().random_range(0..n)
}

/// A pairing of a generator with a solver, drawn at random for the next
/// round of a looping session.
pub fn next_combo() -> (pair: (Generator, Solver))
    ensures
        exists|index: int| 0 <= index < 16 && pair == #[trigger] spec_combo(index),
{
    let index = random_below(16);
    let pair = combo(index);
    assert(pair == spec_combo(index as int));
    pair
}

/// The maze side that the operator's input stands for, if it is valid: a
/// blank input stands for `max_size`; a number stands for itself if it is
/// at least one and at most `max_size`; anything else is invalid.
pub fn select_dimension(blank: bool, parsed: Option<u8>, max_size: u8) -> (side: Option<u8>)
    ensures
        side == (if blank {
            Some(max_size)
        } else {
            match parsed {
                Some(n) if 1 <= n <= max_size => Some(n),
                _ => None::<u8>,
            }
        }),
{
    if blank {
        Some(max_size)
    } else {
        match parsed {
            Some(n) => if n >= 1 && n <= max_size {
                Some(n)
            } else {
                None
            },
            None => None,
        }
    }
}

/// The menu entry selected after a key is pressed on entry `selected` of
/// `len`: Up and Down move by one entry and wrap around at the ends; any
/// other key leaves the selection.
pub fn menu_move(selected: usize, len: usize, key: Key) -> (next: usize)
    requires
        selected < len,
    ensures
        next < len,
        next == match key {
            Key::Up => if selected == 0 {
                len - 1
            } else {
                selected - 1
            },
            Key::Down => if selected + 1 >= len {
                0
            } else {
                selected + 1
            },
            _ => selected as int,
        },
{
    match key {
        Key::Up => if selected == 0 {
            len - 1
        } else {
            selected - 1
        },
        Key::Down => if selected >= len - 1 {
            0
        } else {
            selected + 1
        },
        _ => selected,
    }
}

/// How a session ended, for the operator.
#[derive(Debug, Clone, Copy, PartialEq, Eq, Structural)]
pub enum Outcome {
    /// Everything was drawn and the solver reached the goal.
    GoalReached,
    /// Everything was drawn and the solver found no way to the goal.
    GoalNotReached,
    /// The session was cancelled; what the solver found is not reported.
    Cancelled,
}

/// What the coordinator reports of a session: a cancelled session is
/// reported as cancelled whatever the solver found; a completed one by
/// whether the goal was reached.
pub fn report_outcome(status: RendererStatus, goal_reached: bool) -> (outcome: Outcome)
    ensures
        outcome == match status {
            RendererStatus::Cancelled => Outcome::Cancelled,
            RendererStatus::Completed => if goal_reached {
                Outcome::GoalReached
            } else {
                Outcome::GoalNotReached
            },
        },
{
    match status {
        RendererStatus::Cancelled => Outcome::Cancelled,
        RendererStatus::Completed => if goal_reached {
            Outcome::GoalReached
        } else {
            Outcome::GoalNotReached
        },
    }
}

} // verus!
