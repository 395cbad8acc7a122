//! A*: the tracked cell with the least sum of steps from the start and estimated
//! steps to the goal is taken up first.

use vstd::prelude::*;
use crate::maze::cell::GridCell;
use crate::maze::Maze;
use crate::solvers::{is_open_way, routed, same_walls, search, Solver};

verus! {

/// Searches the maze for a way from `start` to `goal`, marking what it
/// visits and, where it arrives, the route. Returns whether a way leads
/// from the start to the goal through the maze as it was given. Only cells
/// that a way leads to from the start are marked, and where the goal is
/// reached, the passages of one way to it are marked as the route and
/// nothing else between the cells changes.
pub fn solve_astart(maze: &mut Maze, start: (u8, u8), goal: (u8, u8)) -> (reached: bool)
    requires
        old(maze).wf(),
        old(maze).spec_in_bounds(start) || (old(maze).spec_width() == 0 && old(maze).spec_height() == 0),
    ensures
        final(maze).extends(old(maze)),
        reached == exists|way: Seq<(u8, u8)>| #[trigger] is_open_way(old(maze), way, start, goal),
        reached ==> final(maze).spec_cell(goal) == GridCell::goal(),
        old(maze).spec_in_bounds(start) && !(reached && start == goal) ==> final(maze).spec_cell(
            start,
        ) == GridCell::start(),
        forall|c: (u8, u8)|
            old(maze).spec_in_bounds(c) && c != start && !(reached && c == goal) ==> {
                #[trigger] final(maze).spec_cell(c) == old(maze).spec_cell(c) || final(maze).spec_cell(c) == GridCell::visited()
            },
        !reached ==> same_walls(final(maze), old(maze)),
        !reached && goal != start && old(maze).spec_in_bounds(goal) ==> final(maze).spec_cell(goal)
            == old(maze).spec_cell(goal),
        reached ==> exists|way: Seq<(u8, u8)>|
            #[trigger] is_open_way(old(maze), way, start, goal) && routed(
                old(maze),
                final(maze),
                way,
            ),
        forall|c: (u8, u8)|
            old(maze).spec_in_bounds(c) && #[trigger] final(maze).spec_cell(c) != old(maze).spec_cell(
                c,
            ) ==> exists|way: Seq<(u8, u8)>| #[trigger] is_open_way(old(maze), way, start, c),
{
    search(maze, start, goal, Solver::AStar)
}

} // verus!
