//! Maze solving: a search from a start cell to a goal cell that marks what
//! it visits and, where it arrives, the route it found.

pub mod astar;
pub mod bfs;
pub mod dfs;
pub mod dijkstra;

use vstd::prelude::*;
use std::collections::{HashMap, HashSet};
use crate::generators::{
    are_neighbors,
    hop,
    lemma_gap,
    lemma_neighbors_complete,
    passable,
    wall_between,
};
use crate::maze::cell::{GridCell, Orientation};
use crate::maze::{cell_coord, get_neighbors, is_cell_coord, neighbors_of, passage_coord, Maze};
use crate::solvers::astar::solve_astart;
use crate::solvers::bfs::solve_bfs;
use crate::solvers::dfs::solve_dfs;
use crate::solvers::dijkstra::solve_dijkstra;

verus! {

broadcast use vstd::std_specs::hash::group_hash_axioms;

/// The solving algorithms.
#[derive(Debug, Clone, Copy, PartialEq, Eq, Structural)]
pub enum Solver {
    Dfs,
    Bfs,
    Dijkstra,
    AStar,
}

/// A cell that the search has reached, with the cell it was reached from.
/// Tracked cells live in an arena and name their parent by its index.
pub struct TrackedCell {
    /// The cell.
    pub coord: (u8, u8),
    /// Index of the tracked cell from which this one was reached.
    pub parent: Option<usize>,
    /// Steps from the start.
    pub traveling_cost: usize,
    /// Estimated steps to the goal.
    pub heuristic_cost: usize,
}

impl TrackedCell {
    /// Steps from the start plus estimated steps to the goal.
    pub open spec fn spec_total_cost(&self) -> nat {
        (self.traveling_cost + self.heuristic_cost) as nat
    }

    /// Steps from the start plus estimated steps to the goal.
    pub fn total_cost(&self) -> (c: usize)
        requires
            self.traveling_cost + self.heuristic_cost <= usize::MAX,
        ensures
            c == self.spec_total_cost(),
    {
        self.traveling_cost + self.heuristic_cost
    }
}

/// A cell as a single number: rows of 256 columns.
pub open spec fn key_of(coord: (u8, u8)) -> u16 {
    (coord.1 * 256 + coord.0) as u16
}

/// The way from the first tracked cell to tracked cell `i`, along the
/// parents.
pub open spec fn trail(nodes: Seq<TrackedCell>, i: int) -> Seq<(u8, u8)>
    decreases i,
{
    if i < 0 || i >= nodes.len() {
        Seq::empty()
    } else {
        match nodes[i].parent {
            Some(p) if p < i => trail(nodes, p as int).push(nodes[i].coord),
            _ => seq![nodes[i].coord],
        }
    }
}

/// Which of the waiting tracked cells the algorithm takes up next: depth
/// first the one that came last, breadth first the one that came first,
/// Dijkstra the first of those fewest steps from the start, A* the first
/// of those with the least sum of steps from the start and estimated steps
/// to the goal.
pub open spec fn next_up(nodes: Seq<TrackedCell>, waiting: Seq<usize>, solver: Solver) -> int
    recommends
        waiting.len() > 0,
{
    match solver {
        Solver::Dfs => waiting.len() - 1,
        Solver::Bfs => 0,
        Solver::Dijkstra => first_least(waiting.len() as int, |k: int| nodes[waiting[k] as int].traveling_cost as nat),
        Solver::AStar => first_least(waiting.len() as int, |k: int| nodes[waiting[k] as int].spec_total_cost()),
    }
}

/// The first position below `n` at which `cost` is least.
pub open spec fn first_least(n: int, cost: spec_fn(int) -> nat) -> int
    decreases n,
{
    if n <= 1 {
        0
    } else {
        let best = first_least(n - 1, cost);
        if cost(n - 1) < cost(best) {
            n - 1
        } else {
            best
        }
    }
}

/// The first least position is a position, nothing before it costs as
/// little, and nothing costs less.
pub proof fn lemma_first_least(n: int, cost: spec_fn(int) -> nat)
    requires
        n >= 1,
    ensures
        0 <= first_least(n, cost) < n,
        forall|k: int| 0 <= k < n ==> cost(first_least(n, cost)) <= #[trigger] cost(k),
        forall|k: int| 0 <= k < first_least(n, cost) ==> cost(first_least(n, cost)) < #[trigger] cost(k),
    decreases n,
{
    if n > 1 {
        lemma_first_least(n - 1, cost);
    }
}

/// Takes the tracked cell that is up next out of the waiting ones.
#[verifier::rlimit(50)]
pub fn take_next(nodes: &Vec<TrackedCell>, waiting: &mut Vec<usize>, solver: Solver) -> (taken: usize)
    requires
        old(waiting)@.len() > 0,
        forall|k: int| 0 <= k < old(waiting)@.len() ==> #[trigger] old(waiting)@[k] < nodes@.len(),
        forall|i: int|
            0 <= i < nodes@.len() ==> (#[trigger] nodes@[i]).traveling_cost
                + nodes@[i].heuristic_cost <= usize::MAX,
    ensures
        taken == old(waiting)@[next_up(nodes@, old(waiting)@, solver)],
        final(waiting)@ == old(waiting)@.remove(next_up(nodes@, old(waiting)@, solver)),
        0 <= next_up(nodes@, old(waiting)@, solver) < old(waiting)@.len(),
{
    let at: usize = match solver {
        Solver::Dfs => waiting.len() - 1,
        Solver::Bfs => 0,
        Solver::Dijkstra => {
            let ghost cost = |k: int| nodes@[waiting@[k] as int].traveling_cost as nat;
            let mut best: usize = 0;
            let mut k: usize = 1;
            while k < waiting.len()
                invariant
                    1 <= k <= waiting@.len(),
                    best == first_least(k as int, cost),
                    best < k,
                    cost == |k: int| nodes@[waiting@[k] as int].traveling_cost as nat,
                    forall|k: int| 0 <= k < waiting@.len() ==> #[trigger] waiting@[k] < nodes@.len(),
                decreases waiting@.len() - k,
            {
                if nodes[waiting[k]].traveling_cost < nodes[waiting[best]].traveling_cost {
                    best = k;
                }
                k += 1;
            }
            best
        },
        Solver::AStar => {
            let ghost cost = |k: int| nodes@[waiting@[k] as int].spec_total_cost();
            let mut best: usize = 0;
            let mut k: usize = 1;
            while k < waiting.len()
                invariant
                    1 <= k <= waiting@.len(),
                    best == first_least(k as int, cost),
                    best < k,
                    cost == |k: int| nodes@[waiting@[k] as int].spec_total_cost(),
                    forall|k: int| 0 <= k < waiting@.len() ==> #[trigger] waiting@[k] < nodes@.len(),
                    forall|i: int|
                        0 <= i < nodes@.len() ==> (#[trigger] nodes@[i]).traveling_cost
                            + nodes@[i].heuristic_cost <= usize::MAX,
                decreases waiting@.len() - k,
            {
                if nodes[waiting[k]].total_cost() < nodes[waiting[best]].total_cost() {
                    best = k;
                }
                k += 1;
            }
            best
        },
    };
    waiting.remove(at)
}

/// Steps between two cells where no wall is in the way: the difference of
/// their columns plus that of their rows.
pub open spec fn spec_manhattan(a: (u8, u8), b: (u8, u8)) -> nat {
    ((if a.0 > b.0 {
        a.0 - b.0
    } else {
        b.0 - a.0
    }) + (if a.1 > b.1 {
        a.1 - b.1
    } else {
        b.1 - a.1
    })) as nat
}

/// Steps between two cells where no wall is in the way.
pub fn manhattan(a: (u8, u8), b: (u8, u8)) -> (d: usize)
    ensures
        d == spec_manhattan(a, b),
        d <= 510,
{
    let dx = if a.0 > b.0 {
        a.0 - b.0
    } else {
        b.0 - a.0
    };
    let dy = if a.1 > b.1 {
        a.1 - b.1
    } else {
        b.1 - a.1
    };
    dx as usize + dy as usize
}

/// Whether `way` leads from the first cell of the maze to its last by
/// steps that no wall is in the way of, through cells that are open or
/// marked as the goal, without coming back to the first cell.
pub open spec fn is_route(maze: &Maze, way: Seq<(u8, u8)>) -> bool {
    let start = (0u8, 0u8);
    let goal = ((maze.spec_width() - 1) as u8, (maze.spec_height() - 1) as u8);
    &&& way.len() >= 1
    &&& way[0] == start
    &&& way.last() == goal
    &&& forall|i: int|
        0 <= i < way.len() - 1 ==> {
            &&& passable(maze, (#[trigger] hop(way, i)).0, hop(way, i).1)
            &&& hop(way, i).1 != start
            &&& (hop(way, i).1 == goal || maze.spec_cell(hop(way, i).1) == GridCell::empty()
                || maze.spec_cell(hop(way, i).1) == GridCell::goal())
        }
}

/// Whether `way` is as short as any route through the maze.
pub open spec fn is_shortest_route(maze: &Maze, way: Seq<(u8, u8)>) -> bool {
    forall|other: Seq<(u8, u8)>| #[trigger] is_route(maze, other) ==> way.len() <= other.len()
}

/// A way through open cells from the first cell of a maze to its last
/// holds a route: its part from where it last stands on the first cell.
pub proof fn lemma_way_holds_route(maze: &Maze, way: Seq<(u8, u8)>)
    requires
        maze.spec_width() > 0,
        maze.spec_height() > 0,
        crate::generators::leads(
            maze,
            way,
            (0u8, 0u8),
            ((maze.spec_width() - 1) as u8, (maze.spec_height() - 1) as u8),
        ),
        forall|c: (u8, u8)| maze.spec_in_bounds(c) ==> #[trigger] maze.spec_cell(c) == GridCell::empty(),
    ensures
        exists|route: Seq<(u8, u8)>| #[trigger] is_route(maze, route),
    decreases way.len(),
{
    let start = (0u8, 0u8);
    let goal = ((maze.spec_width() - 1) as u8, (maze.spec_height() - 1) as u8);
    if exists|i: int| 0 < i < way.len() && way[i] == start {
        let i = choose|i: int| 0 < i < way.len() && way[i] == start;
        let rest = way.subrange(i, way.len() as int);
        assert forall|k: int| 0 <= k < rest.len() - 1 implies passable(
            maze,
            (#[trigger] hop(rest, k)).0,
            hop(rest, k).1,
        ) by {
            assert(hop(rest, k) == hop(way, k + i));
        }
        assert(crate::generators::leads(maze, rest, start, goal));
        lemma_way_holds_route(maze, rest);
    } else {
        assert forall|i: int| 0 <= i < way.len() - 1 implies {
            &&& passable(maze, (#[trigger] hop(way, i)).0, hop(way, i).1)
            &&& hop(way, i).1 != start
            &&& (hop(way, i).1 == goal || maze.spec_cell(hop(way, i).1) == GridCell::empty()
                || maze.spec_cell(hop(way, i).1) == GridCell::goal())
        } by {
            assert(way[i + 1] != start);
        }
        assert(is_route(maze, way));
    }
}

/// A maze whose cells are all open and joined has a route.
pub proof fn lemma_joined_has_route(maze: &Maze)
    requires
        maze.wf(),
        maze.spec_width() > 0,
        maze.spec_height() > 0,
        crate::generators::all_joined(maze),
        forall|c: (u8, u8)| maze.spec_in_bounds(c) ==> #[trigger] maze.spec_cell(c) == GridCell::empty(),
    ensures
        exists|route: Seq<(u8, u8)>| #[trigger] is_route(maze, route),
{
    let start = (0u8, 0u8);
    let goal = ((maze.spec_width() - 1) as u8, (maze.spec_height() - 1) as u8);
    crate::generators::lemma_all_joined(maze, start, goal);
    let way = choose|way: Seq<(u8, u8)>| #[trigger]
        crate::generators::leads(maze, way, start, goal);
    lemma_way_holds_route(maze, way);
}

/// Whether `marked` is `given` with its first cell marked as the start and
/// its last as the goal.
pub open spec fn ends_marked(given: &Maze, marked: &Maze) -> bool {
    forall|at: (u16, u16)|
        given.spec_grid().contains(at) ==> #[trigger] marked.spec_grid().spec_get(at) == (
        if at == cell_coord(((given.spec_width() - 1) as u8, (given.spec_height() - 1) as u8)) {
            GridCell::goal()
        } else if at == cell_coord((0u8, 0u8)) {
            GridCell::start()
        } else {
            given.spec_grid().spec_get(at)
        })
}

/// Marks the first cell of the maze as the start and the last as the goal.
fn mark_ends(maze: &mut Maze)
    requires
        old(maze).wf(),
        old(maze).spec_width() > 0,
        old(maze).spec_height() > 0,
    ensures
        final(maze).extends(old(maze)),
        ends_marked(old(maze), final(maze)),
{
    let start = (0, 0);
    let goal = (maze.width() - 1, maze.height() - 1);
    let ghost m0 = *maze;
    maze.set(start, GridCell::start());
    let ghost m1 = *maze;
    maze.set(goal, GridCell::goal());
    proof {
        maze.lemma_extends_chain(&m1, &m0);
        m0.lemma_wf();
        m1.lemma_wf();
        m1.spec_grid().lemma_put_cells(m0.spec_grid(), cell_coord(start), GridCell::start());
        maze.spec_grid().lemma_put_cells(m1.spec_grid(), cell_coord(goal), GridCell::goal());
    }
}

/// A maze has a route exactly where the search finds a way through the
/// maze with its ends marked.
proof fn lemma_routes(given: &Maze, marked: &Maze)
    requires
        given.wf(),
        marked.wf(),
        given.spec_width() > 0,
        given.spec_height() > 0,
        marked.spec_width() == given.spec_width(),
        marked.spec_height() == given.spec_height(),
        ends_marked(given, marked),
    ensures
        (exists|way: Seq<(u8, u8)>| #[trigger]
            is_open_way(
                marked,
                way,
                (0u8, 0u8),
                ((given.spec_width() - 1) as u8, (given.spec_height() - 1) as u8),
            )) == (exists|way: Seq<(u8, u8)>| #[trigger] is_route(given, way)),
{
    let start = (0u8, 0u8);
    let goal = ((given.spec_width() - 1) as u8, (given.spec_height() - 1) as u8);
    if exists|way: Seq<(u8, u8)>| #[trigger] is_open_way(marked, way, start, goal) {
        let way = choose|way: Seq<(u8, u8)>| #[trigger] is_open_way(marked, way, start, goal);
        lemma_route_is_open_way(given, marked, way);
        assert(is_route(given, way));
    }
    if exists|way: Seq<(u8, u8)>| #[trigger] is_route(given, way) {
        let way = choose|way: Seq<(u8, u8)>| #[trigger] is_route(given, way);
        lemma_route_is_open_way(given, marked, way);
        assert(is_open_way(marked, way, start, goal));
    }
}

/// Marks the start and the goal of the maze, its first and its last cell,
/// and solves it with the chosen algorithm. Returns whether the goal was
/// reached, which it is exactly where a route leads to it; the passages of
/// one route are then marked, and nothing else between the cells changes.
/// With Dijkstra and breadth first no route is shorter than the marked
/// one.
#[verifier::rlimit(50)]
pub fn solve_maze(maze: &mut Maze, solver: Solver) -> (reached: bool)
    requires
        old(maze).wf(),
        old(maze).spec_width() > 0,
        old(maze).spec_height() > 0,
    ensures
        final(maze).extends(old(maze)),
        reached == exists|way: Seq<(u8, u8)>| #[trigger] is_route(old(maze), way),
        final(maze).spec_cell(((old(maze).spec_width() - 1) as u8, (old(maze).spec_height()
            - 1) as u8)) == GridCell::goal(),
        old(maze).spec_width() > 1 || old(maze).spec_height() > 1 ==> final(maze).spec_cell(
            (0u8, 0u8),
        ) == GridCell::start(),
        !reached ==> same_walls(final(maze), old(maze)),
        reached ==> exists|way: Seq<(u8, u8)>|
            #[trigger] is_route(old(maze), way) && routed(old(maze), final(maze), way) && (solver
                == Solver::Dijkstra || solver == Solver::Bfs ==> is_shortest_route(
                old(maze),
                way,
            )),
{
    let start = (0, 0);
    let goal = (maze.width() - 1, maze.height() - 1);
    mark_ends(maze);
    let ghost marked = *maze;
    let reached = match solver {
        Solver::Dfs => solve_dfs(maze, start, goal),
        Solver::Bfs => solve_bfs(maze, start, goal),
        Solver::Dijkstra => solve_dijkstra(maze, start, goal),
        Solver::AStar => solve_astart(maze, start, goal),
    };
    proof {
        maze.lemma_extends_chain(&marked, old(maze));
        lemma_routes(old(maze), &marked);
        lemma_marked_cell(old(maze), &marked, goal);
        lemma_marked_cell(old(maze), &marked, start);
        if start == goal {
            assert(is_open_way(&marked, seq![start], start, goal));
        }
        if reached {
            let way = choose|way: Seq<(u8, u8)>|
                #[trigger] is_open_way(&marked, way, start, goal) && routed(&marked, maze, way) && (
                solver == Solver::Dijkstra || solver == Solver::Bfs ==> is_shortest(
                    &marked,
                    way,
                    start,
                    goal,
                ));
            lemma_route_is_open_way(old(maze), &marked, way);
            if solver == Solver::Dijkstra || solver == Solver::Bfs {
                assert forall|other: Seq<(u8, u8)>| #[trigger]
                    is_route(old(maze), other) implies way.len() <= other.len() by {
                    lemma_route_is_open_way(old(maze), &marked, other);
                }
            }
            marked.lemma_wf();
            old(maze).lemma_wf();
            assert(same_walls(&marked, old(maze)));
            lemma_routed_same_walls(old(maze), &marked, maze, way);
            assert(is_route(old(maze), way) && routed(old(maze), maze, way));
        }
        if !reached {
            old(maze).lemma_wf();
            marked.lemma_wf();
            assert forall|at: (u16, u16)|
                old(maze).spec_grid().contains(at) && !is_cell_coord(
                    at,
                ) implies #[trigger] maze.spec_grid().spec_get(at) == old(maze).spec_grid().spec_get(at) by {
                assert(marked.spec_grid().spec_get(at) == old(maze).spec_grid().spec_get(at));
            }
        }
    }
    reached
}

/// A route through a maze is a way that the search may take through the
/// same maze with its first cell marked as the start and its last as the
/// goal, and the other way round.
#[verifier::rlimit(50)]
proof fn lemma_route_is_open_way(given: &Maze, marked: &Maze, way: Seq<(u8, u8)>)
    requires
        given.wf(),
        marked.wf(),
        given.spec_width() > 0,
        given.spec_height() > 0,
        marked.spec_width() == given.spec_width(),
        marked.spec_height() == given.spec_height(),
        ends_marked(given, marked),
    ensures
        is_open_way(
            marked,
            way,
            (0u8, 0u8),
            ((given.spec_width() - 1) as u8, (given.spec_height() - 1) as u8),
        ) == is_route(given, way),
{
    let start = (0u8, 0u8);
    let goal = ((given.spec_width() - 1) as u8, (given.spec_height() - 1) as u8);
    assert(same_walls(marked, given)) by {
        given.lemma_wf();
    }
    if is_open_way(marked, way, start, goal) {
        assert forall|i: int| 0 <= i < way.len() - 1 implies {
            &&& passable(given, (#[trigger] hop(way, i)).0, hop(way, i).1)
            &&& hop(way, i).1 != start
            &&& (hop(way, i).1 == goal || given.spec_cell(hop(way, i).1) == GridCell::empty()
                || given.spec_cell(hop(way, i).1) == GridCell::goal())
        } by {
            assert(open_step(marked, start, hop(way, i).0, hop(way, i).1));
            lemma_passable_same_walls(marked, given, way[i], way[i + 1]);
            lemma_marked_cell(given, marked, way[i + 1]);
        }
    }
    if is_route(given, way) {
        assert forall|i: int| 0 <= i < way.len() - 1 implies open_step(
            marked,
            start,
            (#[trigger] hop(way, i)).0,
            hop(way, i).1,
        ) by {
            assert(passable(given, hop(way, i).0, hop(way, i).1));
            lemma_passable_same_walls(marked, given, way[i], way[i + 1]);
            lemma_marked_cell(given, marked, way[i + 1]);
        }
    }
}

/// What a cell holds after the first cell of the maze was marked as the
/// start and the last as the goal.
proof fn lemma_marked_cell(given: &Maze, marked: &Maze, b: (u8, u8))
    requires
        given.wf(),
        marked.wf(),
        given.spec_in_bounds(b),
        given.spec_width() > 0,
        given.spec_height() > 0,
        marked.spec_width() == given.spec_width(),
        marked.spec_height() == given.spec_height(),
        ends_marked(given, marked),
    ensures
        marked.spec_cell(b) == (if b == ((given.spec_width() - 1) as u8, (given.spec_height()
            - 1) as u8) {
            GridCell::goal()
        } else if b == (0u8, 0u8) {
            GridCell::start()
        } else {
            given.spec_cell(b)
        }),
{
    given.lemma_wf();
    assert(given.spec_grid().contains(cell_coord(b)));
}

/// All the keys there are, finitely many.
pub proof fn lemma_all_keys()
    ensures
        Set::<u16>::new(|k: u16| true).finite(),
        Set::<u16>::new(|k: u16| true).len() == 65536,
{
    let range = vstd::set_lib::set_int_range(0, 65536);
    let f = |i: int| i as u16;
    let full = Set::<u16>::new(|k: u16| true);
    vstd::set_lib::lemma_int_range(0, 65536);
    assert forall|k: u16| range.map(f).contains(k) by {
        assert(range.contains(k as int));
        assert(f(k as int) == k);
    }
    assert(range.map(f) =~= full);
    assert(vstd::relations::injective_on(f, range));
    vstd::set_lib::lemma_map_size(range, full, f);
}

/// Different cells have different keys.
pub proof fn lemma_key_injective(a: (u8, u8), b: (u8, u8))
    requires
        key_of(a) == key_of(b),
    ensures
        a == b,
{
}

/// Whether the search may step from cell `a` to its neighbour `b`: no wall
/// stands between them, and `b` is open or marked as the goal, and is not
/// the start.
pub open spec fn open_step(maze: &Maze, start: (u8, u8), a: (u8, u8), b: (u8, u8)) -> bool {
    &&& passable(maze, a, b)
    &&& b != start
    &&& (maze.spec_cell(b) == GridCell::empty() || maze.spec_cell(b) == GridCell::goal())
}

/// Whether `way` leads from `start` to `goal` through the maze by steps
/// that the search may take.
pub open spec fn is_open_way(maze: &Maze, way: Seq<(u8, u8)>, start: (u8, u8), goal: (u8, u8)) -> bool {
    &&& way.len() >= 1
    &&& way[0] == start
    &&& way.last() == goal
    &&& maze.spec_in_bounds(start)
    &&& forall|i: int|
        0 <= i < way.len() - 1 ==> open_step(
            maze,
            start,
            (#[trigger] hop(way, i)).0,
            hop(way, i).1,
        )
}

/// What the search keeps of every tracked cell: it is a cell of the maze;
/// the first is the start and has no parent; every other was reached from
/// an earlier one by a step that the search may take; and its steps from
/// the start are no more than its index.
pub open spec fn tracked_well(maze: &Maze, nodes: Seq<TrackedCell>, start: (u8, u8)) -> bool {
    &&& nodes.len() >= 1
    &&& nodes[0].coord == start
    &&& nodes[0].parent.is_none()
    &&& forall|i: int|
        0 <= i < nodes.len() ==> {
            &&& maze.spec_in_bounds((#[trigger] nodes[i]).coord)
            &&& nodes[i].traveling_cost <= i
            &&& nodes[i].heuristic_cost <= 510
            &&& i > 0 ==> match nodes[i].parent {
                Some(p) => p < i && open_step(maze, start, nodes[p as int].coord, nodes[i].coord),
                None => false,
            }
        }
}

/// The trail of a tracked cell leads from the start to that cell.
pub proof fn lemma_trail_is_way(maze: &Maze, nodes: Seq<TrackedCell>, start: (u8, u8), i: int)
    requires
        tracked_well(maze, nodes, start),
        0 <= i < nodes.len(),
    ensures
        is_open_way(maze, trail(nodes, i), start, nodes[i].coord),
    decreases i,
{
    if i > 0 {
        let p = nodes[i].parent.unwrap() as int;
        lemma_trail_is_way(maze, nodes, start, p);
        let before = trail(nodes, p);
        let way = trail(nodes, i);
        assert(way == before.push(nodes[i].coord));
        assert forall|k: int| 0 <= k < way.len() - 1 implies open_step(
            maze,
            start,
            (#[trigger] hop(way, k)).0,
            hop(way, k).1,
        ) by {
            if k < before.len() - 1 {
                assert(open_step(maze, start, hop(before, k).0, hop(before, k).1));
            }
        }
    }
}

/// Whether the walls of `maze` stand as those of `before` do: only cells
/// differ.
pub open spec fn same_walls(maze: &Maze, before: &Maze) -> bool {
    forall|at: (u16, u16)|
        before.spec_grid().contains(at) && !is_cell_coord(at) ==> #[trigger] maze.spec_grid().spec_get(
            at,
        ) == before.spec_grid().spec_get(at)
}

/// Whether the search has run dry: every cell that a tracked cell leads to
/// in one step is tracked itself, and the goal is not among the tracked.
pub open spec fn run_dry(
    maze: &Maze,
    nodes: Seq<TrackedCell>,
    visited: Set<u16>,
    start: (u8, u8),
    goal: (u8, u8),
) -> bool {
    &&& forall|i: int, b: (u8, u8)|
        0 <= i < nodes.len() && #[trigger] open_step(maze, start, nodes[i].coord, b)
            ==> visited.contains(key_of(b))
    &&& forall|k: u16|
        visited.contains(k) ==> exists|i: int|
            0 <= i < nodes.len() && key_of((#[trigger] nodes[i]).coord) == k
    &&& visited.contains(key_of(start))
    &&& forall|i: int| 0 <= i < nodes.len() ==> (#[trigger] nodes[i]).coord != goal
}

/// Every cell on a way from the start is tracked once the search has run
/// dry.
proof fn lemma_way_is_tracked(
    maze: &Maze,
    nodes: Seq<TrackedCell>,
    visited: Set<u16>,
    start: (u8, u8),
    goal: (u8, u8),
    way: Seq<(u8, u8)>,
    j: int,
)
    requires
        run_dry(maze, nodes, visited, start, goal),
        way.len() >= 1,
        way[0] == start,
        forall|i: int|
            0 <= i < way.len() - 1 ==> open_step(
                maze,
                start,
                (#[trigger] hop(way, i)).0,
                hop(way, i).1,
            ),
        0 <= j < way.len(),
    ensures
        visited.contains(key_of(way[j])),
    decreases j,
{
    if j > 0 {
        lemma_way_is_tracked(maze, nodes, visited, start, goal, way, j - 1);
        let k = key_of(way[j - 1]);
        let i = choose|i: int| 0 <= i < nodes.len() && key_of((#[trigger] nodes[i]).coord) == k;
        lemma_key_injective(nodes[i].coord, way[j - 1]);
        assert(open_step(maze, start, hop(way, j - 1).0, hop(way, j - 1).1));
        assert(open_step(maze, start, nodes[i].coord, way[j]));
    }
}

/// Once the search has run dry, no way leads from the start to the goal.
pub proof fn lemma_no_way(
    maze: &Maze,
    nodes: Seq<TrackedCell>,
    visited: Set<u16>,
    start: (u8, u8),
    goal: (u8, u8),
    way: Seq<(u8, u8)>,
)
    requires
        run_dry(maze, nodes, visited, start, goal),
    ensures
        !is_open_way(maze, way, start, goal),
{
    if is_open_way(maze, way, start, goal) {
        lemma_way_is_tracked(maze, nodes, visited, start, goal, way, way.len() - 1);
        let k = key_of(goal);
        let i = choose|i: int| 0 <= i < nodes.len() && key_of((#[trigger] nodes[i]).coord) == k;
        lemma_key_injective(nodes[i].coord, goal);
    }
}

/// The passage after a cell lies in the grid, off the cells.
proof fn lemma_passage(maze: &Maze, from: (u8, u8), orientation: Orientation)
    requires
        maze.wf(),
        maze.spec_in_bounds(from),
        match orientation {
            Orientation::Horizontal => from.0 + 1 < maze.spec_width(),
            Orientation::Vertical => from.1 + 1 < maze.spec_height(),
        },
    ensures
        maze.spec_grid().contains(passage_coord(from, orientation)),
        !is_cell_coord(passage_coord(from, orientation)),
{
    maze.lemma_wf();
}

/// Putting a cell off the cells of a maze changes none of its cells.
proof fn lemma_put_off_cells(after: &Maze, before: &Maze, at: (u16, u16), cell: GridCell)
    requires
        before.wf(),
        before.spec_grid().contains(at),
        !is_cell_coord(at),
        after.is_put(before, at, cell),
    ensures
        forall|c: (u8, u8)|
            before.spec_in_bounds(c) ==> #[trigger] after.spec_cell(c) == before.spec_cell(c),
{
    before.lemma_wf();
    after.spec_grid().lemma_put_cells(before.spec_grid(), at, cell);
    assert forall|c: (u8, u8)| before.spec_in_bounds(c) implies #[trigger] after.spec_cell(c)
        == before.spec_cell(c) by {
        assert(before.spec_grid().contains(cell_coord(c)));
        assert(is_cell_coord(cell_coord(c)));
    }
}

/// Putting a cell on a cell of a maze changes none of its other cells.
proof fn lemma_put_on_cell(after: &Maze, before: &Maze, on: (u8, u8), cell: GridCell)
    requires
        before.wf(),
        before.spec_in_bounds(on),
        after.is_put(before, cell_coord(on), cell),
    ensures
        after.spec_cell(on) == cell,
        forall|c: (u8, u8)|
            before.spec_in_bounds(c) && c != on ==> #[trigger] after.spec_cell(c)
                == before.spec_cell(c),
        same_walls(after, before),
{
    before.lemma_wf();
    after.spec_grid().lemma_put_cells(before.spec_grid(), cell_coord(on), cell);
    assert forall|c: (u8, u8)| before.spec_in_bounds(c) && c != on implies #[trigger] after.spec_cell(
        c,
    ) == before.spec_cell(c) by {
        assert(before.spec_grid().contains(cell_coord(c)));
    }
}

/// Position in the grid of the passage between two neighbouring cells.
pub open spec fn between(a: (u8, u8), b: (u8, u8)) -> (u16, u16) {
    ((a.0 + b.0 + 1) as u16, (a.1 + b.1 + 1) as u16)
}

/// The cell that marks the passage at `at` as part of the route: along a
/// column where the passage lies between two rows, else along a row.
pub open spec fn route_at(at: (u16, u16)) -> GridCell {
    GridCell::Path(
        crate::maze::cell::PathType::Route(
            if at.0 % 2 == 1 {
                Orientation::Vertical
            } else {
                Orientation::Horizontal
            },
        ),
    )
}

/// Whether `at` is the passage of one of the steps of `way`.
pub open spec fn on_way(way: Seq<(u8, u8)>, at: (u16, u16)) -> bool {
    exists|i: int|
        0 <= i < way.len() - 1 && between((#[trigger] hop(way, i)).0, hop(way, i).1) == at
}

/// Whether `after` is `before` with the passages of `way` marked as the
/// route and every other position between the cells as it was.
pub open spec fn routed(before: &Maze, after: &Maze, way: Seq<(u8, u8)>) -> bool {
    forall|at: (u16, u16)|
        before.spec_grid().contains(at) && !is_cell_coord(at) ==> #[trigger] after.spec_grid().spec_get(
            at,
        ) == (if on_way(way, at) {
            route_at(at)
        } else {
            before.spec_grid().spec_get(at)
        })
}

/// The passages between tracked cell `i` and the first tracked cell, along
/// the parents.
pub open spec fn chain_gaps(nodes: Seq<TrackedCell>, i: int) -> Set<(u16, u16)>
    decreases i,
{
    if i < 0 || i >= nodes.len() {
        Set::empty()
    } else {
        match nodes[i].parent {
            Some(p) if p < i => chain_gaps(nodes, p as int).insert(
                between(nodes[p as int].coord, nodes[i].coord),
            ),
            _ => Set::empty(),
        }
    }
}

/// The passages along the parents of a tracked cell are the passages of
/// its trail.
proof fn lemma_chain_is_trail(
    maze: &Maze,
    nodes: Seq<TrackedCell>,
    start: (u8, u8),
    i: int,
    at: (u16, u16),
)
    requires
        tracked_well(maze, nodes, start),
        0 <= i < nodes.len(),
    ensures
        chain_gaps(nodes, i).contains(at) == on_way(trail(nodes, i), at),
    decreases i,
{
    let way = trail(nodes, i);
    if i > 0 {
        let p = nodes[i].parent.unwrap() as int;
        lemma_chain_is_trail(maze, nodes, start, p, at);
        lemma_trail_is_way(maze, nodes, start, p);
        let before = trail(nodes, p);
        assert(way == before.push(nodes[i].coord));
        let last = before.len() - 1;
        assert(hop(way, last) == (nodes[p].coord, nodes[i].coord));
        if on_way(before, at) {
            let k = choose|k: int|
                0 <= k < before.len() - 1 && between((#[trigger] hop(before, k)).0, hop(before, k).1)
                    == at;
            assert(hop(way, k) == hop(before, k));
        }
        if on_way(way, at) {
            let k = choose|k: int|
                0 <= k < way.len() - 1 && between((#[trigger] hop(way, k)).0, hop(way, k).1) == at;
            if k < last {
                assert(hop(before, k) == hop(way, k));
            }
        }
    } else {
        assert(nodes[0].parent.is_none());
        assert(way.len() == 1);
    }
}

/// A cell whose key is visited is tracked, and its trail leads to it from
/// the start.
proof fn lemma_visited_is_reached(
    maze: &Maze,
    nodes: Seq<TrackedCell>,
    visited: Set<u16>,
    start: (u8, u8),
    c: (u8, u8),
)
    requires
        tracked_well(maze, nodes, start),
        indexed(nodes, visited),
        visited.contains(key_of(c)),
    ensures
        exists|way: Seq<(u8, u8)>| #[trigger] is_open_way(maze, way, start, c),
{
    reveal(indexed);
    let i = choose|i: int| 0 <= i < nodes.len() && key_of((#[trigger] nodes[i]).coord) == key_of(c);
    lemma_key_injective(nodes[i].coord, c);
    lemma_trail_is_way(maze, nodes, start, i);
    assert(is_open_way(maze, trail(nodes, i), start, c));
}

/// Whether the positions between the cells of `now` are those of `given`
/// but for the passages of `done`, which are marked as the route.
pub open spec fn passages_marked(given: &Maze, now: &Maze, done: Set<(u16, u16)>) -> bool {
    forall|at: (u16, u16)|
        given.spec_grid().contains(at) && !is_cell_coord(at) ==> #[trigger] now.spec_grid().spec_get(
            at,
        ) == (if done.contains(at) {
            route_at(at)
        } else {
            given.spec_grid().spec_get(at)
        })
}

/// Marking one more passage keeps the others as they are.
proof fn lemma_passage_marked(
    given: &Maze,
    mid: &Maze,
    after: &Maze,
    done: Set<(u16, u16)>,
    at: (u16, u16),
)
    requires
        given.wf(),
        mid.wf(),
        mid.spec_width() == given.spec_width(),
        mid.spec_height() == given.spec_height(),
        mid.spec_grid().contains(at),
        passages_marked(given, mid, done),
        after.is_put(mid, at, route_at(at)),
    ensures
        passages_marked(given, after, done.insert(at)),
{
    given.lemma_wf();
    mid.lemma_wf();
    after.spec_grid().lemma_put_cells(mid.spec_grid(), at, route_at(at));
    assert forall|p: (u16, u16)|
        given.spec_grid().contains(p) && !is_cell_coord(
            p,
        ) implies #[trigger] after.spec_grid().spec_get(p) == (if done.insert(at).contains(p) {
        route_at(p)
    } else {
        given.spec_grid().spec_get(p)
    }) by {
        assert(mid.spec_grid().contains(p));
        if p != at {
            assert(after.spec_grid().spec_get(p) == mid.spec_grid().spec_get(p));
        }
    }
}

/// Marks the passage between the neighbouring cells `a` and `b` as part
/// of the route.
fn mark_passage(
    maze: &mut Maze,
    a: (u8, u8),
    b: (u8, u8),
    Ghost(base): Ghost<&Maze>,
    Ghost(done): Ghost<Set<(u16, u16)>>,
)
    requires
        old(maze).extends(base),
        base.wf(),
        base.spec_in_bounds(a),
        base.spec_in_bounds(b),
        are_neighbors(a, b),
        passages_marked(base, old(maze), done),
        forall|c: (u8, u8)|
            base.spec_in_bounds(c) ==> #[trigger] old(maze).spec_cell(c) == base.spec_cell(c),
    ensures
        final(maze).extends(base),
        passages_marked(base, final(maze), done.insert(between(b, a))),
        forall|c: (u8, u8)|
            base.spec_in_bounds(c) ==> #[trigger] final(maze).spec_cell(c) == base.spec_cell(c),
{
    let (from, orientation) = if a.0 == b.0 {
        (
            if b.1 < a.1 {
                b
            } else {
                a
            },
            Orientation::Vertical,
        )
    } else {
        (
            if b.0 < a.0 {
                b
            } else {
                a
            },
            Orientation::Horizontal,
        )
    };
    let ghost mid = *maze;
    proof {
        lemma_passage(&mid, from, orientation);
    }
    let at = maze.set_path_cell_after(from, orientation, None);
    proof {
        maze.lemma_extends_chain(&mid, base);
        lemma_put_off_cells(
            maze,
            &mid,
            at,
            GridCell::Path(crate::maze::cell::PathType::Route(orientation)),
        );
        assert forall|c: (u8, u8)| base.spec_in_bounds(c) implies #[trigger] maze.spec_cell(c)
            == base.spec_cell(c) by {
            assert(mid.spec_cell(c) == base.spec_cell(c));
        }
        assert(at == between(b, a));
        assert(route_at(at) == GridCell::Path(crate::maze::cell::PathType::Route(orientation)));
        lemma_passage_marked(base, &mid, maze, done, at);
    }
}

/// Marks the route from the start to tracked cell `last`: every passage
/// between a tracked cell on it and its parent becomes part of the route.
#[verifier::rlimit(40)]
fn mark_route(
    maze: &mut Maze,
    nodes: &Vec<TrackedCell>,
    last: usize,
    Ghost(given): Ghost<&Maze>,
    Ghost(start): Ghost<(u8, u8)>,
)
    requires
        old(maze).wf(),
        old(maze).spec_width() == given.spec_width(),
        old(maze).spec_height() == given.spec_height(),
        tracked_well(given, nodes@, start),
        last < nodes@.len(),
    ensures
        final(maze).extends(old(maze)),
        forall|c: (u8, u8)|
            old(maze).spec_in_bounds(c) ==> #[trigger] final(maze).spec_cell(c) == old(maze).spec_cell(c),
        passages_marked(old(maze), final(maze), chain_gaps(nodes@, last as int)),
{
    let mut child = last;
    let ghost mut done: Set<(u16, u16)> = Set::empty();
    proof {
        maze.lemma_extends_self();
        assert(done.union(chain_gaps(nodes@, child as int)) =~= chain_gaps(nodes@, last as int));
    }
    loop
        invariant
            maze.extends(old(maze)),
            old(maze).wf(),
            old(maze).spec_width() == given.spec_width(),
            old(maze).spec_height() == given.spec_height(),
            done.union(chain_gaps(nodes@, child as int)) == chain_gaps(nodes@, last as int),
            passages_marked(old(maze), maze, done),
            forall|c: (u8, u8)|
                old(maze).spec_in_bounds(c) ==> #[trigger] maze.spec_cell(c) == old(maze).spec_cell(c),
            maze.spec_width() == given.spec_width(),
            maze.spec_height() == given.spec_height(),
            tracked_well(given, nodes@, start),
            child < nodes@.len(),
        ensures
            maze.extends(old(maze)),
            forall|c: (u8, u8)|
                old(maze).spec_in_bounds(c) ==> #[trigger] maze.spec_cell(c) == old(maze).spec_cell(c),
            done == chain_gaps(nodes@, last as int),
            passages_marked(old(maze), maze, done),
        decreases child,
    {
        proof {
            if nodes@[child as int].parent.is_none() || child == 0 {
                assert(chain_gaps(nodes@, child as int) =~= Set::<(u16, u16)>::empty());
                assert(done =~= chain_gaps(nodes@, last as int));
            }
        }
        let parent = match nodes[child].parent {
            Some(parent) => parent,
            None => {
                break ;
            },
        };
        if child == 0 {
            break ;
        }
        let a = nodes[child].coord;
        let b = nodes[parent].coord;
        assert(open_step(given, start, b, a));
        mark_passage(maze, a, b, Ghost(old(maze)), Ghost(done));
        proof {
            assert(done.insert(between(b, a)).union(chain_gaps(nodes@, parent as int)) =~= done.union(
                chain_gaps(nodes@, child as int),
            ));
            done = done.insert(between(b, a));
        }
        child = parent;
    }
}

/// Mazes with the same walls allow the same steps.
pub proof fn lemma_passable_same_walls(maze: &Maze, before: &Maze, a: (u8, u8), b: (u8, u8))
    requires
        maze.wf(),
        before.wf(),
        maze.spec_width() == before.spec_width(),
        maze.spec_height() == before.spec_height(),
        same_walls(maze, before),
    ensures
        passable(maze, a, b) == passable(before, a, b),
{
    if before.spec_in_bounds(a) && before.spec_in_bounds(b) && are_neighbors(a, b) {
        lemma_gap(before, a, b);
    }
}

/// Whether the cells of `maze` are those of `before` but for the marks of
/// a search from `start`: the start is marked, and any other cell is as it
/// was or marked as visited.
pub open spec fn cells_marked(maze: &Maze, before: &Maze, start: (u8, u8)) -> bool {
    &&& maze.spec_cell(start) == GridCell::start()
    &&& forall|c: (u8, u8)|
        before.spec_in_bounds(c) && c != start ==> #[trigger] maze.spec_cell(c)
            == before.spec_cell(c) || maze.spec_cell(c) == GridCell::visited()
}

/// Marks a tracked cell as visited, unless it is marked as the start.
#[verifier::rlimit(50)]
fn mark_visited(
    maze: &mut Maze,
    coord: (u8, u8),
    Ghost(given): Ghost<&Maze>,
    Ghost(visited): Ghost<Set<u16>>,
    Ghost(start): Ghost<(u8, u8)>,
)
    requires
        old(maze).wf(),
        given.wf(),
        given.spec_in_bounds(start),
        cells_marked(old(maze), given, start),
        old(maze).spec_in_bounds(coord),
        old(maze).spec_width() == given.spec_width(),
        old(maze).spec_height() == given.spec_height(),
        same_walls(old(maze), given),
        visited.contains(key_of(coord)),
        forall|c: (u8, u8)|
            old(maze).spec_in_bounds(c) && !visited.contains(key_of(c)) ==> {
                #[trigger] old(maze).spec_cell(c) == given.spec_cell(c)
            },
    ensures
        final(maze).extends(old(maze)),
        same_walls(final(maze), given),
        cells_marked(final(maze), given, start),
        forall|c: (u8, u8)|
            final(maze).spec_in_bounds(c) && !visited.contains(key_of(c)) ==> {
                #[trigger] final(maze).spec_cell(c) == given.spec_cell(c)
            },
        forall|c: (u8, u8)|
            old(maze).spec_in_bounds(c) && c != coord ==> #[trigger] final(maze).spec_cell(c)
                == old(maze).spec_cell(c),
{
    if *maze.cell_at(coord) != GridCell::start() {
        maze.set(coord, GridCell::visited());
        proof {
            lemma_put_on_cell(maze, old(maze), coord, GridCell::visited());
            given.lemma_wf();
            old(maze).lemma_wf();
            assert forall|at: (u16, u16)|
                given.spec_grid().contains(at) && !is_cell_coord(
                    at,
                ) implies #[trigger] maze.spec_grid().spec_get(at) == given.spec_grid().spec_get(
                at,
            ) by {
                assert(old(maze).spec_grid().spec_get(at) == given.spec_grid().spec_get(at));
            }
            assert forall|c: (u8, u8)|
                maze.spec_in_bounds(c) && !visited.contains(
                    key_of(c),
                ) implies #[trigger] maze.spec_cell(c) == given.spec_cell(c) by {
                assert(old(maze).spec_cell(c) == given.spec_cell(c));
            }
            assert forall|c: (u8, u8)| given.spec_in_bounds(c) && c != start implies (
            #[trigger] maze.spec_cell(c)) == given.spec_cell(c) || maze.spec_cell(c)
                == GridCell::visited() by {
                assert(old(maze).spec_cell(c) == given.spec_cell(c) || old(maze).spec_cell(c)
                    == GridCell::visited());
            }
        }
    } else {
        proof {
            maze.lemma_extends_self();
        }
    }
}

/// Whether every tracked cell but `skip` has been taken up or waits its
/// turn.
#[verifier::opaque]
pub open spec fn covered_except(
    nodes: Seq<TrackedCell>,
    waiting: Seq<usize>,
    expanded: Set<int>,
    skip: int,
) -> bool {
    forall|n: int|
        0 <= n < nodes.len() && n != skip ==> expanded.contains(n) || is_waiting(waiting, n)
}

/// Whether tracked cell `n` waits its turn.
pub open spec fn is_waiting(waiting: Seq<usize>, n: int) -> bool {
    exists|k: int| 0 <= k < waiting.len() && #[trigger] waiting[k] == n
}

/// Whether every visited key is the key of a tracked cell.
#[verifier::opaque]
pub open spec fn indexed(nodes: Seq<TrackedCell>, visited: Set<u16>) -> bool {
    forall|k: u16|
        visited.contains(k) ==> exists|i: int|
            0 <= i < nodes.len() && key_of((#[trigger] nodes[i]).coord) == k
}

/// Whether every step that the search may take from a tracked cell that
/// was taken up leads to a visited cell.
#[verifier::opaque]
pub open spec fn closed_under(
    maze: &Maze,
    start: (u8, u8),
    nodes: Seq<TrackedCell>,
    expanded: Set<int>,
    visited: Set<u16>,
) -> bool {
    forall|i: int, b: (u8, u8)|
        expanded.contains(i) && 0 <= i < nodes.len() && #[trigger] open_step(
            maze,
            start,
            nodes[i].coord,
            b,
        ) ==> visited.contains(key_of(b))
}

/// Taking a tracked cell out of the waiting ones leaves every other one
/// covered.
proof fn lemma_covered_take(
    nodes: Seq<TrackedCell>,
    waiting: Seq<usize>,
    expanded: Set<int>,
    pos: int,
)
    requires
        covered_except(nodes, waiting, expanded, -1),
        0 <= pos < waiting.len(),
    ensures
        covered_except(nodes, waiting.remove(pos), expanded, waiting[pos] as int),
{
    reveal(covered_except);
    let after = waiting.remove(pos);
    assert forall|n: int|
        0 <= n < nodes.len() && n != waiting[pos] as int implies expanded.contains(n)
        || is_waiting(after, n) by {
        if !expanded.contains(n) {
            let k = choose|k: int| 0 <= k < waiting.len() && #[trigger] waiting[k] == n;
            if k < pos {
                assert(after[k] == n);
            } else {
                assert(after[k - 1] == n);
            }
        }
    }
}

/// A new tracked cell that waits its turn is covered, and so stay the
/// others.
proof fn lemma_covered_push(
    nodes: Seq<TrackedCell>,
    waiting: Seq<usize>,
    expanded: Set<int>,
    skip: int,
    node: TrackedCell,
)
    requires
        covered_except(nodes, waiting, expanded, skip),
        nodes.len() <= usize::MAX,
    ensures
        covered_except(nodes.push(node), waiting.push(nodes.len() as usize), expanded, skip),
{
    reveal(covered_except);
    let after = waiting.push(nodes.len() as usize);
    assert forall|n: int|
        0 <= n < nodes.len() + 1 && n != skip implies expanded.contains(n) || is_waiting(
        after,
        n,
    ) by {
        if n == nodes.len() {
            assert(after[after.len() - 1] == n);
        } else if !expanded.contains(n) {
            let k = choose|k: int| 0 <= k < waiting.len() && #[trigger] waiting[k] == n;
            assert(after[k] == n);
        }
    }
}

/// Once the tracked cell that was skipped is taken up, all are covered.
proof fn lemma_covered_close(
    nodes: Seq<TrackedCell>,
    waiting: Seq<usize>,
    expanded: Set<int>,
    idx: int,
)
    requires
        covered_except(nodes, waiting, expanded, idx),
    ensures
        covered_except(nodes, waiting, expanded.insert(idx), -1),
{
    reveal(covered_except);
}

/// At the start the one tracked cell waits its turn.
proof fn lemma_covered_start(node: TrackedCell)
    ensures
        covered_except(seq![node], seq![0usize], Set::empty(), -1),
{
    reveal(covered_except);
    assert(seq![0usize][0] == 0usize);
}

/// When nothing waits, every tracked cell has been taken up.
proof fn lemma_covered_done(nodes: Seq<TrackedCell>, expanded: Set<int>, n: int)
    requires
        covered_except(nodes, Seq::empty(), expanded, -1),
        0 <= n < nodes.len(),
    ensures
        expanded.contains(n),
{
    reveal(covered_except);
}

/// A new tracked cell and its key keep the keys indexed.
proof fn lemma_indexed_push(nodes: Seq<TrackedCell>, visited: Set<u16>, node: TrackedCell)
    requires
        indexed(nodes, visited),
    ensures
        indexed(nodes.push(node), visited.insert(key_of(node.coord))),
{
    reveal(indexed);
    let after = nodes.push(node);
    assert forall|k: u16| visited.insert(key_of(node.coord)).contains(k) implies exists|i: int|
        0 <= i < after.len() && key_of((#[trigger] after[i]).coord) == k by {
        if visited.contains(k) {
            let i = choose|i: int| 0 <= i < nodes.len() && key_of((#[trigger] nodes[i]).coord) == k;
            assert(after[i] == nodes[i]);
        } else {
            assert(after[after.len() - 1] == node);
        }
    }
}

/// At the start the one key is that of the one tracked cell.
proof fn lemma_indexed_start(node: TrackedCell)
    ensures
        indexed(seq![node], Set::<u16>::empty().insert(key_of(node.coord))),
{
    reveal(indexed);
    assert(seq![node][0] == node);
}

/// A new tracked cell, not taken up yet, keeps the search closed so far.
proof fn lemma_closed_push(
    maze: &Maze,
    start: (u8, u8),
    nodes: Seq<TrackedCell>,
    expanded: Set<int>,
    visited: Set<u16>,
    node: TrackedCell,
)
    requires
        closed_under(maze, start, nodes, expanded, visited),
        forall|i: int| expanded.contains(i) ==> 0 <= i < nodes.len(),
    ensures
        closed_under(maze, start, nodes.push(node), expanded, visited.insert(key_of(node.coord))),
{
    reveal(closed_under);
    let after = nodes.push(node);
    assert forall|i: int, b: (u8, u8)|
        expanded.contains(i) && 0 <= i < after.len() && #[trigger] open_step(
            maze,
            start,
            after[i].coord,
            b,
        ) implies visited.insert(key_of(node.coord)).contains(key_of(b)) by {
        assert(after[i] == nodes[i]);
        assert(open_step(maze, start, nodes[i].coord, b));
    }
}

/// Taking up a tracked cell all of whose steps lead to visited cells keeps
/// the search closed.
proof fn lemma_closed_close(
    maze: &Maze,
    start: (u8, u8),
    nodes: Seq<TrackedCell>,
    expanded: Set<int>,
    visited: Set<u16>,
    idx: int,
)
    requires
        closed_under(maze, start, nodes, expanded, visited),
        0 <= idx < nodes.len(),
        forall|b: (u8, u8)| #[trigger]
            open_step(maze, start, nodes[idx].coord, b) ==> visited.contains(key_of(b)),
    ensures
        closed_under(maze, start, nodes, expanded.insert(idx), visited),
{
    reveal(closed_under);
}

/// Before any tracked cell is taken up the search is closed.
proof fn lemma_closed_start(maze: &Maze, start: (u8, u8), nodes: Seq<TrackedCell>, visited: Set<u16>)
    ensures
        closed_under(maze, start, nodes, Set::empty(), visited),
{
    reveal(closed_under);
}

/// A search that has nothing waiting has run dry.
proof fn lemma_run_dry(
    maze: &Maze,
    nodes: Seq<TrackedCell>,
    expanded: Set<int>,
    visited: Set<u16>,
    start: (u8, u8),
    goal: (u8, u8),
)
    requires
        nodes.len() >= 1,
        nodes[0].coord == start,
        covered_except(nodes, Seq::empty(), expanded, -1),
        indexed(nodes, visited),
        closed_under(maze, start, nodes, expanded, visited),
        forall|i: int| 0 <= i < nodes.len() ==> visited.contains(key_of((#[trigger] nodes[i]).coord)),
        forall|i: int|
            expanded.contains(i) ==> 0 <= i < nodes.len() && (#[trigger] nodes[i]).coord != goal,
    ensures
        run_dry(maze, nodes, visited, start, goal),
{
    reveal(indexed);
    reveal(closed_under);
    assert forall|i: int| 0 <= i < nodes.len() implies (#[trigger] nodes[i]).coord != goal by {
        lemma_covered_done(nodes, expanded, i);
    }
    assert forall|i: int, b: (u8, u8)|
        0 <= i < nodes.len() && #[trigger] open_step(
            maze,
            start,
            nodes[i].coord,
            b,
        ) implies visited.contains(key_of(b)) by {
        lemma_covered_done(nodes, expanded, i);
    }
    assert(visited.contains(key_of(nodes[0].coord)));
}

/// Whether `way` is a walk that the search may take from `start` and
/// that stands on cell `c` after `j` steps.
pub open spec fn arrives(
    maze: &Maze,
    start: (u8, u8),
    way: Seq<(u8, u8)>,
    j: int,
    c: (u8, u8),
) -> bool {
    &&& 0 <= j < way.len()
    &&& way[0] == start
    &&& way[j] == c
    &&& forall|i: int|
        0 <= i < way.len() - 1 ==> open_step(
            maze,
            start,
            (#[trigger] hop(way, i)).0,
            hop(way, i).1,
        )
}

/// Whether `way` is as short as any way that the search may take from
/// `start` to `goal`.
pub open spec fn is_shortest(maze: &Maze, way: Seq<(u8, u8)>, start: (u8, u8), goal: (u8, u8)) -> bool {
    forall|other: Seq<(u8, u8)>| #[trigger]
        is_open_way(maze, other, start, goal) ==> way.len() <= other.len()
}

/// Whether every tracked cell is one step further from the start than its
/// parent, and no walk gets to its cell in fewer steps.
#[verifier::opaque]
pub open spec fn costs_least(maze: &Maze, start: (u8, u8), nodes: Seq<TrackedCell>) -> bool {
    costs_step(nodes) && costs_floor(maze, start, nodes)
}

/// Whether no waiting tracked cell is fewer steps from the start than
/// tracked cell `idx`.
#[verifier::opaque]
pub open spec fn waiting_behind(nodes: Seq<TrackedCell>, waiting: Seq<usize>, idx: int) -> bool {
    forall|k: int|
        0 <= k < waiting.len() ==> nodes[idx].traveling_cost <= nodes[(#[trigger] waiting[k]) as int].traveling_cost
}

/// The first tracked cell alone is no step from the start.
proof fn lemma_least_start(maze: &Maze, start: (u8, u8), node: TrackedCell)
    requires
        node.coord == start,
        node.parent.is_none(),
        node.traveling_cost == 0,
    ensures
        costs_least(maze, start, seq![node]),
{
    reveal(costs_least);
}

/// The tracked cell that Dijkstra takes up is no further from the start
/// than those that go on waiting.
proof fn lemma_least_taken(nodes: Seq<TrackedCell>, waiting: Seq<usize>)
    requires
        waiting.len() > 0,
        forall|k: int| 0 <= k < waiting.len() ==> #[trigger] waiting[k] < nodes.len(),
    ensures
        waiting_behind(
            nodes,
            waiting.remove(next_up(nodes, waiting, Solver::Dijkstra)),
            waiting[next_up(nodes, waiting, Solver::Dijkstra)] as int,
        ),
{
    reveal(waiting_behind);
    let cost = |k: int| nodes[waiting[k] as int].traveling_cost as nat;
    lemma_first_least(waiting.len() as int, cost);
    let pos = first_least(waiting.len() as int, cost);
    let left = waiting.remove(pos);
    assert forall|k: int| 0 <= k < left.len() implies nodes[waiting[pos] as int].traveling_cost
        <= nodes[(#[trigger] left[k]) as int].traveling_cost by {
        let from = if k < pos {
            k
        } else {
            k + 1
        };
        assert(left[k] == waiting[from]);
        assert(cost(pos) <= cost(from));
    }
}

/// Whether the waiting tracked cells stand in the order of their steps
/// from the start, the last no more than one step further than the first.
#[verifier::opaque]
pub open spec fn queue_in_order(nodes: Seq<TrackedCell>, waiting: Seq<usize>) -> bool {
    forall|k: int, l: int|
        0 <= k < l < waiting.len() ==> nodes[(#[trigger] waiting[k]) as int].traveling_cost
            <= nodes[(#[trigger] waiting[l]) as int].traveling_cost <= nodes[waiting[k] as int].traveling_cost
            + 1
}

/// Whether no waiting tracked cell is more than one step further from the
/// start than tracked cell `idx`.
#[verifier::opaque]
pub open spec fn waiting_near(nodes: Seq<TrackedCell>, waiting: Seq<usize>, idx: int) -> bool {
    forall|k: int|
        0 <= k < waiting.len() ==> nodes[(#[trigger] waiting[k]) as int].traveling_cost
            <= nodes[idx].traveling_cost + 1
}

/// The tracked cell that a breadth-first search takes up is no further
/// from the start than those that go on waiting, and they no more than
/// one step further than it.
proof fn lemma_first_taken(nodes: Seq<TrackedCell>, waiting: Seq<usize>)
    requires
        waiting.len() > 0,
        queue_in_order(nodes, waiting),
    ensures
        queue_in_order(nodes, waiting.remove(0)),
        waiting_behind(nodes, waiting.remove(0), waiting[0] as int),
        waiting_near(nodes, waiting.remove(0), waiting[0] as int),
{
    reveal(queue_in_order);
    reveal(waiting_behind);
    reveal(waiting_near);
    let left = waiting.remove(0);
    assert forall|k: int| 0 <= k < left.len() implies left[k] == waiting[k + 1] by {}
    assert forall|k: int, l: int| 0 <= k < l < left.len() implies nodes[(
    #[trigger] left[k]) as int].traveling_cost <= nodes[(#[trigger] left[l]) as int].traveling_cost
        <= nodes[left[k] as int].traveling_cost + 1 by {
        assert(left[k] == waiting[k + 1]);
        assert(left[l] == waiting[l + 1]);
    }
    assert forall|k: int| 0 <= k < left.len() implies nodes[waiting[0] as int].traveling_cost
        <= nodes[(#[trigger] left[k]) as int].traveling_cost <= nodes[waiting[0] as int].traveling_cost
        + 1 by {
        assert(left[k] == waiting[k + 1]);
    }
}

/// A tracked cell that counts one step more than the one being taken up
/// keeps the waiting ones in order when it joins them at the end.
proof fn lemma_order_push(
    nodes: Seq<TrackedCell>,
    waiting: Seq<usize>,
    idx: usize,
    node: TrackedCell,
    at: usize,
)
    requires
        at == nodes.len(),
        idx < nodes.len(),
        forall|k: int| 0 <= k < waiting.len() ==> #[trigger] waiting[k] < nodes.len(),
        queue_in_order(nodes, waiting),
        waiting_behind(nodes, waiting, idx as int),
        waiting_near(nodes, waiting, idx as int),
        node.traveling_cost == nodes[idx as int].traveling_cost + 1,
    ensures
        queue_in_order(nodes.push(node), waiting.push(at)),
        waiting_near(nodes.push(node), waiting.push(at), idx as int),
{
    reveal(queue_in_order);
    reveal(waiting_behind);
    reveal(waiting_near);
    let after = nodes.push(node);
    let longer = waiting.push(at);
    assert(after[idx as int] == nodes[idx as int]);
    assert(after[at as int] == node);
    assert forall|k: int| 0 <= k < waiting.len() implies longer[k] == waiting[k] && after[(
    #[trigger] waiting[k]) as int] == nodes[waiting[k] as int] by {}
    assert forall|k: int, l: int| 0 <= k < l < longer.len() implies after[(
    #[trigger] longer[k]) as int].traveling_cost <= after[(#[trigger] longer[l]) as int].traveling_cost
        <= after[longer[k] as int].traveling_cost + 1 by {
        assert(longer[k] == waiting[k]);
        assert(after[waiting[k] as int] == nodes[waiting[k] as int]);
        if l < waiting.len() {
            assert(longer[l] == waiting[l]);
            assert(after[waiting[l] as int] == nodes[waiting[l] as int]);
        } else {
            assert(longer[l] == at);
        }
    }
    assert forall|k: int| 0 <= k < longer.len() implies after[(
    #[trigger] longer[k]) as int].traveling_cost <= after[idx as int].traveling_cost + 1 by {
        if k < waiting.len() {
            assert(longer[k] == waiting[k]);
            assert(after[waiting[k] as int] == nodes[waiting[k] as int]);
        } else {
            assert(longer[k] == at);
        }
    }
}

/// One waiting tracked cell is in order.
proof fn lemma_order_start(nodes: Seq<TrackedCell>, waiting: Seq<usize>)
    requires
        waiting.len() <= 1,
    ensures
        queue_in_order(nodes, waiting),
{
    reveal(queue_in_order);
}

/// Where the search goes by steps from the start, a cell on a walk that
/// is not visited yet lies more
/// steps along the walk than the tracked cell that is being taken up lies
/// from the start.
proof fn lemma_fresh_is_far(
    maze: &Maze,
    start: (u8, u8),
    nodes: Seq<TrackedCell>,
    waiting: Seq<usize>,
    visited: Set<u16>,
    expanded: Set<int>,
    idx: int,
    way: Seq<(u8, u8)>,
    j: int,
)
    requires
        tracked_well(maze, nodes, start),
        costs_least(maze, start, nodes),
        waiting_behind(nodes, waiting, idx),
        covered_except(nodes, waiting, expanded, idx),
        indexed(nodes, visited),
        closed_under(maze, start, nodes, expanded, visited),
        visited.contains(key_of(start)),
        0 <= idx < nodes.len(),
        arrives(maze, start, way, j, way[j]),
        !visited.contains(key_of(way[j])),
    ensures
        nodes[idx].traveling_cost + 1 <= j,
    decreases j,
{
    if j > 0 {
        let before = way[j - 1];
        assert(open_step(maze, start, hop(way, j - 1).0, hop(way, j - 1).1));
        if !visited.contains(key_of(before)) {
            assert(arrives(maze, start, way, j - 1, way[j - 1]));
            lemma_fresh_is_far(maze, start, nodes, waiting, visited, expanded, idx, way, j - 1);
        } else {
            reveal(indexed);
            let n = choose|n: int|
                0 <= n < nodes.len() && key_of((#[trigger] nodes[n]).coord) == key_of(before);
            lemma_key_injective(nodes[n].coord, before);
            assert(arrives(maze, start, way, j - 1, nodes[n].coord));
            assert(nodes[n].traveling_cost <= j - 1) by {
                reveal(costs_least);
            }
            assert(open_step(maze, start, nodes[n].coord, way[j]));
            if expanded.contains(n) {
                reveal(closed_under);
                assert(false);
            } else if n != idx {
                reveal(covered_except);
                assert(is_waiting(waiting, n));
                let k = choose|k: int| 0 <= k < waiting.len() && #[trigger] waiting[k] == n;
                reveal(waiting_behind);
                assert(nodes[idx].traveling_cost <= nodes[waiting[k] as int].traveling_cost);
            }
        }
    }
}

/// Whether every tracked cell is one step further from the start than its
/// parent.
pub open spec fn costs_step(nodes: Seq<TrackedCell>) -> bool {
    forall|i: int|
        0 <= i < nodes.len() ==> (#[trigger] nodes[i]).traveling_cost == (match nodes[i].parent {
            Some(p) if p < i => nodes[p as int].traveling_cost + 1,
            _ => 0,
        })
}

/// Whether no walk gets to the cell of a tracked cell in fewer steps than
/// the tracked cell counts.
pub open spec fn costs_floor(maze: &Maze, start: (u8, u8), nodes: Seq<TrackedCell>) -> bool {
    forall|way: Seq<(u8, u8)>, j: int, i: int|
        0 <= i < nodes.len() && #[trigger] arrives(maze, start, way, j, nodes[i].coord)
            ==> nodes[i].traveling_cost <= j
}

/// A tracked cell that counts one step more than its parent keeps the
/// counts in step.
proof fn lemma_step_push(nodes: Seq<TrackedCell>, idx: usize, node: TrackedCell)
    requires
        costs_step(nodes),
        idx < nodes.len(),
        node.parent == Some(idx),
        node.traveling_cost == nodes[idx as int].traveling_cost + 1,
    ensures
        costs_step(nodes.push(node)),
{
    let after = nodes.push(node);
    assert forall|i: int| 0 <= i < after.len() implies (#[trigger] after[i]).traveling_cost == (
    match after[i].parent {
        Some(p) if p < i => after[p as int].traveling_cost + 1,
        _ => 0,
    }) by {
        if i < nodes.len() {
            assert(after[i] == nodes[i]);
            match nodes[i].parent {
                Some(p) if p < i => {
                    assert(after[p as int] == nodes[p as int]);
                },
                _ => {},
            }
        } else {
            assert(after[i] == node);
            assert(after[idx as int] == nodes[idx as int]);
        }
    }
}

/// A tracked cell that counts one step more than the one being taken up
/// waits behind it, as the others do.
proof fn lemma_behind_push(
    nodes: Seq<TrackedCell>,
    waiting: Seq<usize>,
    idx: usize,
    node: TrackedCell,
    at: usize,
)
    requires
        at == nodes.len(),
        waiting_behind(nodes, waiting, idx as int),
        idx < nodes.len(),
        forall|k: int| 0 <= k < waiting.len() ==> #[trigger] waiting[k] < nodes.len(),
        node.traveling_cost == nodes[idx as int].traveling_cost + 1,
    ensures
        waiting_behind(nodes.push(node), waiting.push(at), idx as int),
{
    reveal(waiting_behind);
    let after = nodes.push(node);
    let longer = waiting.push(at);
    assert(after[idx as int] == nodes[idx as int]);
    assert forall|k: int| 0 <= k < longer.len() implies after[idx as int].traveling_cost <= after[(
    #[trigger] longer[k]) as int].traveling_cost by {
        if k < waiting.len() {
            assert(longer[k] == waiting[k]);
            assert(after[waiting[k] as int] == nodes[waiting[k] as int]);
        } else {
            assert(longer[k] == nodes.len());
            assert(after[nodes.len() as int] == node);
        }
    }
}

/// Where the tracked cell being taken up is no further from the start
/// than those that wait, a cell that becomes tracked from it is as few
/// steps from the start as any walk gets to it, and waits behind it.
proof fn lemma_least_push(
    maze: &Maze,
    start: (u8, u8),
    nodes: Seq<TrackedCell>,
    waiting: Seq<usize>,
    visited: Set<u16>,
    expanded: Set<int>,
    idx: usize,
    node: TrackedCell,
    at: usize,
)
    requires
        at == nodes.len(),
        tracked_well(maze, nodes, start),
        costs_least(maze, start, nodes),
        waiting_behind(nodes, waiting, idx as int),
        covered_except(nodes, waiting, expanded, idx as int),
        indexed(nodes, visited),
        closed_under(maze, start, nodes, expanded, visited),
        visited.contains(key_of(start)),
        idx < nodes.len(),
        forall|k: int| 0 <= k < waiting.len() ==> #[trigger] waiting[k] < nodes.len(),
        node.parent == Some(idx),
        node.traveling_cost == nodes[idx as int].traveling_cost + 1,
        !visited.contains(key_of(node.coord)),
    ensures
        costs_least(maze, start, nodes.push(node)),
        waiting_behind(nodes.push(node), waiting.push(at), idx as int),
{
    let after = nodes.push(node);
    assert(costs_step(nodes) && costs_floor(maze, start, nodes)) by {
        reveal(costs_least);
    }
    lemma_step_push(nodes, idx, node);
    lemma_behind_push(nodes, waiting, idx, node, at);
    assert forall|way: Seq<(u8, u8)>, j: int, i: int|
        0 <= i < after.len() && #[trigger] arrives(
            maze,
            start,
            way,
            j,
            after[i].coord,
        ) implies after[i].traveling_cost <= j by {
        if i < nodes.len() {
            assert(after[i] == nodes[i]);
            assert(arrives(maze, start, way, j, nodes[i].coord));
        } else {
            assert(after[i] == node);
            assert(arrives(maze, start, way, j, way[j]));
            lemma_fresh_is_far(maze, start, nodes, waiting, visited, expanded, idx as int, way, j);
        }
    }
    assert(costs_least(maze, start, after)) by {
        reveal(costs_least);
    }
}

/// Where the costs are least, the trail of a tracked cell has as many
/// steps as the cell counts from the start, and no way to the cell is
/// shorter.
proof fn lemma_trail_is_shortest(maze: &Maze, start: (u8, u8), nodes: Seq<TrackedCell>, i: int)
    requires
        tracked_well(maze, nodes, start),
        costs_least(maze, start, nodes),
        0 <= i < nodes.len(),
    ensures
        trail(nodes, i).len() == nodes[i].traveling_cost + 1,
        is_shortest(maze, trail(nodes, i), start, nodes[i].coord),
    decreases i,
{
    reveal(costs_least);
    if i > 0 {
        let p = nodes[i].parent.unwrap() as int;
        lemma_trail_is_shortest(maze, start, nodes, p);
    }
    assert forall|other: Seq<(u8, u8)>| #[trigger]
        is_open_way(maze, other, start, nodes[i].coord) implies trail(nodes, i).len()
        <= other.len() by {
        assert(arrives(maze, start, other, other.len() - 1, nodes[i].coord));
    }
}

/// Whether the books of the search are in order.
pub open spec fn books_kept(
    given: &Maze,
    start: (u8, u8),
    goal: (u8, u8),
    nodes: Seq<TrackedCell>,
    waiting: Seq<usize>,
    visited: Set<u16>,
    costs: Map<u16, usize>,
    unvisited: Set<u16>,
    expanded: Set<int>,
    skip: int,
) -> bool {
    &&& tracked_well(given, nodes, start)
    &&& forall|k: int| 0 <= k < waiting.len() ==> #[trigger] waiting[k] < nodes.len()
    &&& forall|i: int| 0 <= i < nodes.len() ==> visited.contains(key_of((#[trigger] nodes[i]).coord))
    &&& forall|k: u16| #[trigger] costs.contains_key(k) ==> visited.contains(k)
    &&& unvisited.finite()
    &&& forall|k: u16| unvisited.contains(k) <==> !visited.contains(k)
    &&& nodes.len() + unvisited.len() == 65536
    &&& forall|i: int|
        #[trigger] expanded.contains(i) ==> 0 <= i < nodes.len() && nodes[i].coord != goal
    &&& covered_except(nodes, waiting, expanded, skip)
    &&& indexed(nodes, visited)
    &&& closed_under(given, start, nodes, expanded, visited)
}

/// Looks at the neighbour `c` of the tracked cell `idx`: if the search may
/// step there and the cell is not visited yet, it becomes a tracked cell
/// and waits its turn.
#[verifier::rlimit(40)]
fn enlist(
    maze: &Maze,
    nodes: &mut Vec<TrackedCell>,
    waiting: &mut Vec<usize>,
    visited: &mut HashSet<u16>,
    costs: &mut HashMap<u16, usize>,
    idx: usize,
    c: (u8, u8),
    goal: (u8, u8),
    astar: bool,
    Ghost(given): Ghost<&Maze>,
    Ghost(start): Ghost<(u8, u8)>,
    Ghost(unvisited): Ghost<Set<u16>>,
    Ghost(expanded): Ghost<Set<int>>,
    Ghost(least): Ghost<bool>,
    Ghost(fifo): Ghost<bool>,
) -> (left: Ghost<Set<u16>>)
    requires
        maze.wf(),
        given.wf(),
        least ==> costs_least(given, start, old(nodes)@) && waiting_behind(
            old(nodes)@,
            old(waiting)@,
            idx as int,
        ),
        fifo ==> least && queue_in_order(old(nodes)@, old(waiting)@) && waiting_near(
            old(nodes)@,
            old(waiting)@,
            idx as int,
        ),
        maze.spec_width() == given.spec_width(),
        maze.spec_height() == given.spec_height(),
        given.spec_in_bounds(start),
        same_walls(maze, given),
        forall|c: (u8, u8)|
            maze.spec_in_bounds(c) && !old(visited)@.contains(key_of(c)) ==> #[trigger] maze.spec_cell(
                c,
            ) == given.spec_cell(c),
        idx < old(nodes)@.len(),
        maze.spec_in_bounds(c),
        are_neighbors(old(nodes)@[idx as int].coord, c),
        books_kept(
            given,
            start,
            goal,
            old(nodes)@,
            old(waiting)@,
            old(visited)@,
            old(costs)@,
            unvisited,
            expanded,
            idx as int,
        ),
    ensures
        books_kept(
            given,
            start,
            goal,
            final(nodes)@,
            final(waiting)@,
            final(visited)@,
            final(costs)@,
            left@,
            expanded,
            idx as int,
        ),
        old(nodes)@.is_prefix_of(final(nodes)@),
        old(visited)@.subset_of(final(visited)@),
        final(nodes)@.len() - old(nodes)@.len() == unvisited.len() - left@.len(),
        final(waiting)@.len() - old(waiting)@.len() == final(nodes)@.len() - old(nodes)@.len(),
        final(nodes)@.len() >= old(nodes)@.len(),
        open_step(given, start, old(nodes)@[idx as int].coord, c) ==> final(visited)@.contains(
            key_of(c),
        ),
        least ==> costs_least(given, start, final(nodes)@) && waiting_behind(
            final(nodes)@,
            final(waiting)@,
            idx as int,
        ),
        fifo ==> queue_in_order(final(nodes)@, final(waiting)@) && waiting_near(
            final(nodes)@,
            final(waiting)@,
            idx as int,
        ),
{
    let coord = nodes[idx].coord;
    let new_cost = nodes[idx].traveling_cost + 1;
    let key: u16 = c.1 as u16 * 256 + c.0 as u16;
    let cell = *maze.cell_at(c);
    let fresh = !visited.contains(&key) && (cell == GridCell::empty() || cell == GridCell::goal());
    let (from, orientation) = if coord.0 == c.0 {
        (
            if c.1 < coord.1 {
                c
            } else {
                coord
            },
            Orientation::Horizontal,
        )
    } else {
        (
            if c.0 < coord.0 {
                c
            } else {
                coord
            },
            Orientation::Vertical,
        )
    };
    proof {
        lemma_gap(maze, coord, c);
        assert((from, orientation) == wall_between(coord, c));
    }
    let reachable = !maze.is_wall_cell_after(from, orientation);
    proof {
        lemma_passable_same_walls(maze, given, coord, c);
        assert(reachable == passable(maze, coord, c));
        if key_of(c) == key_of(start) {
            lemma_key_injective(c, start);
        }
        assert(visited@.contains(key_of(nodes@[0].coord)));
    }
    if fresh && reachable {
        let cheaper = match costs.get(&key) {
            Some(existing) => new_cost < *existing,
            None => true,
        };
        if cheaper {
            let node = TrackedCell {
                coord: c,
                parent: Some(idx),
                traveling_cost: new_cost,
                heuristic_cost: if astar {
                    manhattan(c, goal)
                } else {
                    0
                },
            };
            proof {
                assert(open_step(given, start, coord, c));
                lemma_covered_push(nodes@, waiting@, expanded, idx as int, node);
                lemma_indexed_push(nodes@, visited@, node);
                lemma_closed_push(given, start, nodes@, expanded, visited@, node);
                if fifo {
                    lemma_order_push(nodes@, waiting@, idx, node, nodes.len());
                }
                if least {
                    lemma_least_push(
                        given,
                        start,
                        nodes@,
                        waiting@,
                        visited@,
                        expanded,
                        idx,
                        node,
                        nodes.len(),
                    );
                }
            }
            costs.insert(key, new_cost);
            visited.insert(key);
            let at = nodes.len();
            nodes.push(node);
            waiting.push(at);
            proof {
                assert(old(nodes)@ =~= nodes@.subrange(0, old(nodes)@.len() as int));
            }
            return Ghost(unvisited.remove(key));
        }
    }
    proof {
        assert(nodes@ =~= nodes@.subrange(0, nodes@.len() as int));
    }
    Ghost(unvisited)
}

/// Looks at every neighbour of the tracked cell `idx`: each that the
/// search may step to and that is not visited yet becomes a tracked cell
/// and waits its turn.
#[verifier::rlimit(50)]
fn expand(
    maze: &Maze,
    nodes: &mut Vec<TrackedCell>,
    waiting: &mut Vec<usize>,
    visited: &mut HashSet<u16>,
    costs: &mut HashMap<u16, usize>,
    idx: usize,
    goal: (u8, u8),
    astar: bool,
    Ghost(given): Ghost<&Maze>,
    Ghost(start): Ghost<(u8, u8)>,
    Ghost(entry_unvisited): Ghost<Set<u16>>,
    Ghost(expanded): Ghost<Set<int>>,
    Ghost(least): Ghost<bool>,
    Ghost(fifo): Ghost<bool>,
) -> (left: Ghost<Set<u16>>)
    requires
        maze.wf(),
        given.wf(),
        maze.spec_width() == given.spec_width(),
        maze.spec_height() == given.spec_height(),
        given.spec_in_bounds(start),
        same_walls(maze, given),
        forall|c: (u8, u8)|
            maze.spec_in_bounds(c) && !old(visited)@.contains(key_of(c)) ==> #[trigger] maze.spec_cell(
                c,
            ) == given.spec_cell(c),
        idx < old(nodes)@.len(),
        least ==> costs_least(given, start, old(nodes)@) && waiting_behind(
            old(nodes)@,
            old(waiting)@,
            idx as int,
        ),
        fifo ==> least && queue_in_order(old(nodes)@, old(waiting)@) && waiting_near(
            old(nodes)@,
            old(waiting)@,
            idx as int,
        ),
        books_kept(
            given,
            start,
            goal,
            old(nodes)@,
            old(waiting)@,
            old(visited)@,
            old(costs)@,
            entry_unvisited,
            expanded,
            idx as int,
        ),
    ensures
        books_kept(
            given,
            start,
            goal,
            final(nodes)@,
            final(waiting)@,
            final(visited)@,
            final(costs)@,
            left@,
            expanded,
            idx as int,
        ),
        old(nodes)@.len() <= final(nodes)@.len(),
        final(nodes)@[idx as int] == old(nodes)@[idx as int],
        old(visited)@.subset_of(final(visited)@),
        final(nodes)@.len() - old(nodes)@.len() == entry_unvisited.len() - left@.len(),
        final(waiting)@.len() == old(waiting)@.len() + (final(nodes)@.len() - old(nodes)@.len()),
        forall|b: (u8, u8)| #[trigger]
            open_step(given, start, old(nodes)@[idx as int].coord, b) ==> final(visited)@.contains(
                key_of(b),
            ),
        least ==> costs_least(given, start, final(nodes)@) && waiting_behind(
            final(nodes)@,
            final(waiting)@,
            idx as int,
        ),
        fifo ==> queue_in_order(final(nodes)@, final(waiting)@),
{
    let coord = nodes[idx].coord;
    let ghost mut unvisited = entry_unvisited;
    proof {
        assert(maze.spec_in_bounds(coord));
    }
    let around = get_neighbors(coord, maze);
    let mut i: usize = 0;
    while i < around.len()
        invariant
            i <= around@.len(),
            around@ == neighbors_of(coord, maze.spec_width(), maze.spec_height()),
            forall|k: int| 0 <= k < around@.len() ==> maze.spec_in_bounds(#[trigger] around@[k]),
            maze.wf(),
            given.wf(),
            maze.spec_in_bounds(coord),
            maze.spec_width() == given.spec_width(),
            maze.spec_height() == given.spec_height(),
            given.spec_in_bounds(start),
            same_walls(maze, given),
            forall|c: (u8, u8)|
                maze.spec_in_bounds(c) && !visited@.contains(key_of(c)) ==> #[trigger] maze.spec_cell(
                    c,
                ) == given.spec_cell(c),
            idx < old(nodes)@.len() <= nodes@.len(),
            nodes@[idx as int] == old(nodes)@[idx as int],
            nodes@[idx as int].coord == coord,
            old(visited)@.subset_of(visited@),
            least ==> costs_least(given, start, nodes@) && waiting_behind(
                nodes@,
                waiting@,
                idx as int,
            ),
            fifo ==> least && queue_in_order(nodes@, waiting@) && waiting_near(
                nodes@,
                waiting@,
                idx as int,
            ),
            books_kept(
                given,
                start,
                goal,
                nodes@,
                waiting@,
                visited@,
                costs@,
                unvisited,
                expanded,
                idx as int,
            ),
            nodes@.len() - old(nodes)@.len() == entry_unvisited.len() - unvisited.len(),
            waiting@.len() == old(waiting)@.len() + (nodes@.len() - old(nodes)@.len()),
            forall|k: int|
                0 <= k < i && open_step(given, start, coord, #[trigger] around@[k])
                    ==> visited@.contains(key_of(around@[k])),
        decreases around@.len() - i,
    {
        let c = around[i];
        proof {
            crate::generators::lemma_neighbors_adjacent(
                coord,
                maze.spec_width(),
                maze.spec_height(),
                i as int,
            );
        }
        let ghost nodes_before = nodes@;
        let left = enlist(
            maze,
            nodes,
            waiting,
            visited,
            costs,
            idx,
            c,
            goal,
            astar,
            Ghost(given),
            Ghost(start),
            Ghost(unvisited),
            Ghost(expanded),
            Ghost(least),
            Ghost(fifo),
        );
        proof {
            unvisited = left@;
            assert(nodes@[idx as int] == nodes_before[idx as int]);
        }
        i += 1;
    }
    proof {
        assert forall|b: (u8, u8)| #[trigger]
            open_step(given, start, coord, b) implies visited@.contains(key_of(b)) by {
            lemma_neighbors_complete(coord, maze.spec_width(), maze.spec_height(), b);
            let k = choose|k: int|
                0 <= k < neighbors_of(coord, maze.spec_width(), maze.spec_height()).len()
                    && #[trigger] neighbors_of(coord, maze.spec_width(), maze.spec_height())[k]
                    == b;
            assert(around@[k] == b);
        }
    }
    Ghost(unvisited)
}

/// Every cell that differs from what it was has a visited key, so a way
/// leads to it from the start.
proof fn lemma_changes_reached(
    given: &Maze,
    now: &Maze,
    nodes: Seq<TrackedCell>,
    visited: Set<u16>,
    start: (u8, u8),
)
    requires
        tracked_well(given, nodes, start),
        indexed(nodes, visited),
        forall|c: (u8, u8)|
            given.spec_in_bounds(c) && !visited.contains(key_of(c)) ==> #[trigger] now.spec_cell(c)
                == given.spec_cell(c),
    ensures
        forall|c: (u8, u8)|
            given.spec_in_bounds(c) && #[trigger] now.spec_cell(c) != given.spec_cell(c)
                ==> exists|way: Seq<(u8, u8)>| #[trigger] is_open_way(given, way, start, c),
{
    assert forall|c: (u8, u8)|
        given.spec_in_bounds(c) && #[trigger] now.spec_cell(c) != given.spec_cell(
            c,
        ) implies exists|way: Seq<(u8, u8)>| #[trigger] is_open_way(given, way, start, c) by {
        lemma_visited_is_reached(given, nodes, visited, start, c);
    }
}

/// A route marked on a maze with the walls of another is a route marked
/// on that other maze.
proof fn lemma_routed_same_walls(given: &Maze, mid: &Maze, after: &Maze, way: Seq<(u8, u8)>)
    requires
        given.wf(),
        mid.wf(),
        mid.spec_width() == given.spec_width(),
        mid.spec_height() == given.spec_height(),
        same_walls(mid, given),
        routed(mid, after, way),
    ensures
        routed(given, after, way),
{
    given.lemma_wf();
    mid.lemma_wf();
    assert forall|at: (u16, u16)|
        given.spec_grid().contains(at) && !is_cell_coord(
            at,
        ) implies #[trigger] after.spec_grid().spec_get(at) == (if on_way(way, at) {
        route_at(at)
    } else {
        given.spec_grid().spec_get(at)
    }) by {
        assert(mid.spec_grid().contains(at));
        assert(mid.spec_grid().spec_get(at) == given.spec_grid().spec_get(at));
    }
}

/// Marks the goal, which tracked cell `idx` has reached, and the route to
/// it.
#[verifier::rlimit(50)]
fn reach_goal(
    maze: &mut Maze,
    nodes: &Vec<TrackedCell>,
    idx: usize,
    goal: (u8, u8),
    Ghost(given): Ghost<&Maze>,
    Ghost(start): Ghost<(u8, u8)>,
)
    requires
        old(maze).wf(),
        old(maze).spec_width() == given.spec_width(),
        old(maze).spec_height() == given.spec_height(),
        tracked_well(given, nodes@, start),
        idx < nodes@.len(),
        nodes@[idx as int].coord == goal,
    ensures
        final(maze).extends(old(maze)),
        final(maze).spec_cell(goal) == GridCell::goal(),
        forall|c: (u8, u8)|
            old(maze).spec_in_bounds(c) && c != goal ==> #[trigger] final(maze).spec_cell(c)
                == old(maze).spec_cell(c),
        routed(old(maze), final(maze), trail(nodes@, idx as int)),
{
    maze.set(goal, GridCell::goal());
    let ghost marked = *maze;
    proof {
        lemma_put_on_cell(&marked, old(maze), goal, GridCell::goal());
        old(maze).lemma_wf();
        marked.lemma_wf();
    }
    mark_route(maze, nodes, idx, Ghost(given), Ghost(start));
    proof {
        maze.lemma_extends_chain(&marked, old(maze));
        assert forall|at: (u16, u16)|
            old(maze).spec_grid().contains(at) && !is_cell_coord(
                at,
            ) implies #[trigger] maze.spec_grid().spec_get(at) == (if on_way(
            trail(nodes@, idx as int),
            at,
        ) {
            route_at(at)
        } else {
            old(maze).spec_grid().spec_get(at)
        }) by {
            lemma_chain_is_trail(given, nodes@, start, idx as int, at);
            assert(marked.spec_grid().contains(at));
            assert(marked.spec_grid().spec_get(at) == old(maze).spec_grid().spec_get(at));
        }
    }
}

/// Searches the maze for a way from `start` to `goal`. The start is
/// marked; then the tracked cell that is up next is taken up, marked as
/// visited, and every neighbour of it that is open, not yet tracked, and
/// not behind a wall becomes a tracked cell that waits its turn. Where the
/// cell taken up is the goal, the goal and the route to it are marked and
/// the search ends. A maze without cells has no way.
///
/// The search returns `true` exactly where a way leads from the start to
/// the goal through the maze as it was given. The passages of one such
/// way are then marked as the route; with Dijkstra and breadth first no
/// way is shorter than that one.
#[verifier::rlimit(60)]
pub fn search(maze: &mut Maze, start: (u8, u8), goal: (u8, u8), solver: Solver) -> (reached: bool)
    requires
        old(maze).wf(),
        old(maze).spec_in_bounds(start) || (old(maze).spec_width() == 0 && old(maze).spec_height() == 0),
    ensures
        final(maze).extends(old(maze)),
        reached == exists|way: Seq<(u8, u8)>| #[trigger] is_open_way(old(maze), way, start, goal),
        reached ==> final(maze).spec_cell(goal) == GridCell::goal(),
        old(maze).spec_in_bounds(start) && !(reached && start == goal) ==> final(maze).spec_cell(
            start,
        ) == GridCell::start(),
        forall|c: (u8, u8)|
            old(maze).spec_in_bounds(c) && c != start && !(reached && c == goal) ==> {
                #[trigger] final(maze).spec_cell(c) == old(maze).spec_cell(c) || final(maze).spec_cell(c) == GridCell::visited()
            },
        !reached ==> same_walls(final(maze), old(maze)),
        !reached && goal != start && old(maze).spec_in_bounds(goal) ==> final(maze).spec_cell(goal)
            == old(maze).spec_cell(goal),
        reached ==> exists|way: Seq<(u8, u8)>|
            #[trigger] is_open_way(old(maze), way, start, goal) && routed(
                old(maze),
                final(maze),
                way,
            ) && (solver == Solver::Dijkstra || solver == Solver::Bfs ==> is_shortest(
                old(maze),
                way,
                start,
                goal,
            )),
        forall|c: (u8, u8)|
            old(maze).spec_in_bounds(c) && #[trigger] final(maze).spec_cell(c) != old(maze).spec_cell(c) ==> exists|way: Seq<(u8, u8)>|
                #[trigger] is_open_way(old(maze), way, start, c),
{
    if maze.is_empty() {
        proof {
            maze.lemma_extends_self();
            old(maze).lemma_wf();
        }
        return false;
    }
    maze.set(start, GridCell::start());
    let astar = match solver {
        Solver::AStar => true,
        _ => false,
    };
    let first = TrackedCell {
        coord: start,
        parent: None,
        traveling_cost: 0,
        heuristic_cost: if astar {
            manhattan(start, goal)
        } else {
            0
        },
    };
    let mut nodes: Vec<TrackedCell> = Vec::new();
    nodes.push(first);
    let mut waiting: Vec<usize> = Vec::new();
    waiting.push(0);
    let mut visited: HashSet<u16> = HashSet::new();
    let start_key: u16 = start.1 as u16 * 256 + start.0 as u16;
    visited.insert(start_key);
    let mut costs: HashMap<u16, usize> = HashMap::new();
    costs.insert(start_key, 0);
    let ghost mut unvisited: Set<u16> = Set::<u16>::new(|k: u16| true).remove(start_key);
    let ghost mut expanded: Set<int> = Set::empty();
    proof {
        old(maze).lemma_wf();
        maze.lemma_wf();
        maze.spec_grid().lemma_put_cells(
            old(maze).spec_grid(),
            cell_coord(start),
            GridCell::start(),
        );
        lemma_all_keys();
        assert forall|c: (u8, u8)|
            maze.spec_in_bounds(c) && !visited@.contains(key_of(c)) implies #[trigger] maze.spec_cell(
            c,
        ) == old(maze).spec_cell(c) by {
            if key_of(c) == key_of(start) {
                lemma_key_injective(c, start);
            }
            assert(old(maze).spec_grid().contains(cell_coord(c)));
        }
        assert(old(maze).spec_grid().contains(cell_coord(start)));
        assert forall|c: (u8, u8)| old(maze).spec_in_bounds(c) && c != start implies (
        #[trigger] maze.spec_cell(c)) == old(maze).spec_cell(c) || maze.spec_cell(c)
            == GridCell::visited() by {
            assert(old(maze).spec_grid().contains(cell_coord(c)));
        }
        assert(nodes@ =~= seq![first]);
        assert(waiting@ =~= seq![0usize]);
        assert(visited@ =~= Set::<u16>::empty().insert(key_of(start)));
        lemma_covered_start(first);
        lemma_indexed_start(first);
        lemma_closed_start(old(maze), start, nodes@, visited@);
        lemma_least_start(old(maze), start, first);
        lemma_order_start(nodes@, waiting@);
    }
    let ghost fifo = solver == Solver::Bfs;
    let ghost least = solver == Solver::Dijkstra || fifo;
    while waiting.len() > 0
        invariant
            fifo == (solver == Solver::Bfs),
            least == (solver == Solver::Dijkstra || fifo),
            least ==> costs_least(old(maze), start, nodes@),
            fifo ==> queue_in_order(nodes@, waiting@),
            maze.extends(old(maze)),
            maze.spec_width() == old(maze).spec_width(),
            maze.spec_height() == old(maze).spec_height(),
            old(maze).wf(),
            old(maze).spec_in_bounds(start),
            same_walls(maze, old(maze)),
            cells_marked(maze, old(maze), start),
            goal != start && old(maze).spec_in_bounds(goal) ==> maze.spec_cell(goal) == old(maze).spec_cell(goal),
            forall|c: (u8, u8)|
                maze.spec_in_bounds(c) && !visited@.contains(key_of(c)) ==> #[trigger] maze.spec_cell(
                    c,
                ) == old(maze).spec_cell(c),
            books_kept(
                old(maze),
                start,
                goal,
                nodes@,
                waiting@,
                visited@,
                costs@,
                unvisited,
                expanded,
                -1,
            ),
        decreases unvisited.len(), waiting@.len(),
    {
        let ghost entry_waiting = waiting@;
        let idx = take_next(&nodes, &mut waiting, solver);
        let ghost pos = next_up(nodes@, entry_waiting, solver);
        proof {
            lemma_covered_take(nodes@, entry_waiting, expanded, pos);
            if fifo {
                lemma_first_taken(nodes@, entry_waiting);
            } else if least {
                lemma_least_taken(nodes@, entry_waiting);
            }
        }
        let coord = nodes[idx].coord;
        if coord.0 == goal.0 && coord.1 == goal.1 {
            let ghost m1 = *maze;
            reach_goal(maze, &nodes, idx, goal, Ghost(old(maze)), Ghost(start));
            proof {
                maze.lemma_extends_chain(&m1, old(maze));
                lemma_trail_is_way(old(maze), nodes@, start, idx as int);
                assert(is_open_way(old(maze), trail(nodes@, idx as int), start, goal));
                if least {
                    lemma_trail_is_shortest(old(maze), start, nodes@, idx as int);
                }
                assert forall|c: (u8, u8)|
                    old(maze).spec_in_bounds(c) && c != start && c != goal implies (
                #[trigger] maze.spec_cell(c)) == old(maze).spec_cell(c) || maze.spec_cell(c)
                    == GridCell::visited() by {
                    assert(m1.spec_cell(c) == old(maze).spec_cell(c) || m1.spec_cell(c)
                        == GridCell::visited());
                }
                m1.lemma_wf();
                lemma_routed_same_walls(old(maze), &m1, maze, trail(nodes@, idx as int));
                assert forall|c: (u8, u8)|
                    old(maze).spec_in_bounds(c) && !visited@.contains(
                        key_of(c),
                    ) implies #[trigger] maze.spec_cell(c) == old(maze).spec_cell(c) by {
                    assert(m1.spec_cell(c) == old(maze).spec_cell(c));
                }
                lemma_changes_reached(old(maze), maze, nodes@, visited@, start);
            }
            return true;
        }
        let ghost m1 = *maze;
        mark_visited(maze, coord, Ghost(old(maze)), Ghost(visited@), Ghost(start));
        proof {
            maze.lemma_extends_chain(&m1, old(maze));
        }
        let ghost entry_visited = visited@;
        let left = expand(
            maze,
            &mut nodes,
            &mut waiting,
            &mut visited,
            &mut costs,
            idx,
            goal,
            astar,
            Ghost(old(maze)),
            Ghost(start),
            Ghost(unvisited),
            Ghost(expanded),
            Ghost(least),
            Ghost(fifo),
        );
        proof {
            unvisited = left@;
            assert forall|c: (u8, u8)|
                maze.spec_in_bounds(c) && !visited@.contains(
                    key_of(c),
                ) implies #[trigger] maze.spec_cell(c) == old(maze).spec_cell(c) by {
                assert(!entry_visited.contains(key_of(c)));
            }
            lemma_covered_close(nodes@, waiting@, expanded, idx as int);
            lemma_closed_close(old(maze), start, nodes@, expanded, visited@, idx as int);
            expanded = expanded.insert(idx as int);
        }
    }
    proof {
        assert(waiting@ =~= Seq::<usize>::empty());
        lemma_run_dry(old(maze), nodes@, expanded, visited@, start, goal);
        assert forall|way: Seq<(u8, u8)>| !#[trigger] is_open_way(old(maze), way, start, goal) by {
            lemma_no_way(old(maze), nodes@, visited@, start, goal, way);
        }
        lemma_changes_reached(old(maze), maze, nodes@, visited@, start);
    }
    false
}

} // verus!
