//! Maze generation algorithms: recursive backtracking, Prim, recursive
//! division and Kruskal. Each works on a [`Maze`] and lets its grid emit
//! what it changes.

pub mod kruskal;
pub mod prim;
pub mod recur_backtrack;
pub mod recur_div;

use vstd::prelude::*;
use rand::rngs::StdRng;
use rand::{Rng, SeedableRng};
use crate::generators::kruskal::randomized_kruskal;
use crate::generators::prim::randomized_prim;
use crate::generators::recur_backtrack::recursive_backtrack;
use crate::generators::recur_div::recursive_division;
use crate::maze::cell::{GridCell, Orientation};
use crate::maze::grid::{lemma_row_major, Grid, GridEvent};
use crate::maze::{cell_coord, get_neighbors, is_cell_coord, neighbors_of, wall_coord, Maze};

verus! {

/// The standard pseudo-random number generator of the `rand` crate.
#[verifier::external_type_specification]
#[verifier::external_body]
pub struct ExStdRng(StdRng);

/// The generator that a seed makes, in the state before its first number
/// is drawn.
pub uninterp spec fn seeded_from(seed: u64) -> StdRng;

/// A generator seeded with `seed`.
///
/// Wraps `StdRng::seed_from_u64`, which computes the generator's first
/// state from the seed alone. Nothing is claimed of the numbers that the
/// generator will give.
#[verifier::external_body]
fn seeded_rng(seed: u64) -> (rng: StdRng)
    ensures
        rng == seeded_from(seed),
{
    StdRng::seed_from_u64(seed)
}

/// A generator seeded by the operating system.
///
/// Wraps `StdRng::from_os_rng`, which panics where the operating system
/// cannot provide entropy.
#[verifier::external_body]
fn os_rng() -> StdRng {
    StdRng::from_os_rng()
}

/// A number below `n`.
///
/// Wraps `Rng::random_range` on the range from zero to `n`, which gives a
/// value inside the range and panics on an empty one.
#[verifier::external_body]
pub(crate) fn random_u8_below(rng: &mut StdRng, n: u8) -> (r: u8)
    requires
        n > 0,
    ensures
        r < n,
{
    rng.random_range(0..n)
}

/// An index below `n`.
///
/// Wraps `Rng::random_range` on the range from zero to `n`, which gives a
/// value inside the range and panics on an empty one.
#[verifier::external_body]
pub(crate) fn random_index(rng: &mut StdRng, n: usize) -> (r: usize)
    requires
        n > 0,
    ensures
        r < n,
{
    rng.random_range(0..n)
}

/// A fair coin.
///
/// Wraps `Rng::random_ratio` with one in two.
#[verifier::external_body]
pub(crate) fn random_half(rng: &mut StdRng) -> bool {
    rng.random_ratio(1, 2)
}

/// A random number generator: the one that `seed` makes, for a
/// reproducible run, or one seeded by the operating system, of which
/// nothing is known.
pub fn get_rng(seed: Option<u64>) -> (rng: StdRng)
    ensures
        seed.is_some() ==> rng == seeded_from(seed.unwrap()),
{
    match seed {
        Some(s) => seeded_rng(s),
        None => os_rng(),
    }
}

/// The generation algorithms.
#[derive(Debug, Clone, Copy, PartialEq, Eq, Structural)]
pub enum Generator {
    RecurBacktrack,
    Prim,
    RecurDiv,
    Kruskal,
}

/// How many positions of a grid hold a solid wall.
pub open spec fn walls(cells: Seq<GridCell>) -> nat {
    cells.to_multiset().count(GridCell::wall())
}

/// Putting a cell changes the number of solid walls by what left and what
/// came.
pub proof fn lemma_put_walls(after: &Grid, before: &Grid, at: (u16, u16), cell: GridCell)
    requires
        before.wf(),
        before.contains(at),
        after.is_put(before, at, cell),
    ensures
        walls(after.cells()) + (if before.spec_get(at) == GridCell::wall() {
            1nat
        } else {
            0nat
        }) == walls(before.cells()) + (if cell == GridCell::wall() {
            1nat
        } else {
            0nat
        }),
{
    broadcast use vstd::multiset::group_multiset_axioms;

    before.lemma_index_in_range(at);
    let i = before.spec_ravel_index(at);
    vstd::seq_lib::to_multiset_update(before.cells(), i, cell);
    vstd::seq_lib::to_multiset_contains(before.cells(), before.cells()[i]);
    assert(before.cells().contains(before.cells()[i]));
}

/// Whether every cell of the maze holds one of two values.
pub open spec fn cells_among(maze: &Maze, a: GridCell, b: GridCell) -> bool {
    forall|c: (u8, u8)|
        maze.spec_in_bounds(c) ==> #[trigger] maze.spec_cell(c) == a || maze.spec_cell(c) == b
}

/// The updates that the grid of a maze `width` cells wide emits while the
/// first `n` of its cells, row by row, are set to `target`: one for each
/// cell that held something else, in order.
pub open spec fn cell_updates(before: &Grid, width: u8, target: GridCell, n: nat) -> Seq<GridEvent>
    recommends
        width > 0,
    decreases n,
{
    if n == 0 {
        Seq::empty()
    } else {
        let i = (n - 1) as int;
        let at = cell_coord(((i % (width as int)) as u8, (i / (width as int)) as u8));
        let earlier = cell_updates(before, width, target, (n - 1) as nat);
        if before.spec_get(at) != target {
            earlier.push(GridEvent::Update { coord: at, old: before.spec_get(at), new: target })
        } else {
            earlier
        }
    }
}

/// Sets every cell of the maze to `cell`, row by row, the grid emitting an
/// update for each cell that changes. The walls between the cells stay as
/// they are.
#[verifier::rlimit(50)]
pub fn fill_cells(maze: &mut Maze, cell: GridCell)
    requires
        old(maze).wf(),
    ensures
        final(maze).extends(old(maze)),
        forall|at: (u16, u16)|
            old(maze).spec_grid().contains(at) ==> #[trigger] final(maze).spec_grid().spec_get(at)
                == (if crate::maze::is_cell_coord(at) {
                cell
            } else {
                old(maze).spec_grid().spec_get(at)
            }),
        final(maze).spec_grid().emitted() == old(maze).spec_grid().emitted() + cell_updates(
            old(maze).spec_grid(),
            old(maze).spec_width(),
            cell,
            (old(maze).spec_width() * old(maze).spec_height()) as nat,
        ),
{
    let width = maze.width();
    let height = maze.height();
    proof {
        maze.lemma_wf();
        maze.lemma_extends_self();
        assert(maze.spec_grid().emitted() + cell_updates(old(maze).spec_grid(), width, cell, 0)
            =~= maze.spec_grid().emitted());
    }
    let mut y: u8 = 0;
    while y < height
        invariant
            y <= height,
            width == maze.spec_width(),
            height == maze.spec_height(),
            old(maze).spec_grid().spec_width() == 2 * width + 1,
            old(maze).spec_grid().spec_height() == 2 * height + 1,
            maze.extends(old(maze)),
            maze.spec_grid().emitted() == old(maze).spec_grid().emitted() + cell_updates(
                old(maze).spec_grid(),
                width,
                cell,
                (y * width) as nat,
            ),
            forall|at: (u16, u16)|
                old(maze).spec_grid().contains(at) ==> #[trigger] maze.spec_grid().spec_get(at)
                    == (if crate::maze::is_cell_coord(at) && at.1 < 2 * y {
                    cell
                } else {
                    old(maze).spec_grid().spec_get(at)
                }),
        decreases height - y,
    {
        let mut x: u8 = 0;
        while x < width
            invariant
                y < height,
                x <= width,
                width == maze.spec_width(),
                height == maze.spec_height(),
                old(maze).spec_grid().spec_width() == 2 * width + 1,
                old(maze).spec_grid().spec_height() == 2 * height + 1,
                maze.extends(old(maze)),
                maze.spec_grid().emitted() == old(maze).spec_grid().emitted() + cell_updates(
                    old(maze).spec_grid(),
                    width,
                    cell,
                    (y * width + x) as nat,
                ),
                forall|at: (u16, u16)|
                    old(maze).spec_grid().contains(at) ==> #[trigger] maze.spec_grid().spec_get(at)
                        == (if crate::maze::is_cell_coord(at) && (at.1 < 2 * y || (at.1 == 2 * y
                        + 1 && at.0 < 2 * x)) {
                        cell
                    } else {
                        old(maze).spec_grid().spec_get(at)
                    }),
            decreases width - x,
        {
            let ghost mid = *maze;
            let at = maze.set((x, y), cell);
            proof {
                mid.lemma_wf();
                maze.spec_grid().lemma_put_cells(mid.spec_grid(), at, cell);
                maze.lemma_extends_chain(&mid, old(maze));
                lemma_row_major(width as int, x as int, y as int);
                assert(mid.spec_grid().spec_get(at) == old(maze).spec_grid().spec_get(at));
                assert(maze.spec_grid().emitted() =~= old(maze).spec_grid().emitted()
                    + cell_updates(old(maze).spec_grid(), width, cell, (y * width + x + 1) as nat));
            }
            x += 1;
        }
        proof {
            assert((y + 1) * width == y * width + width) by (nonlinear_arith);
        }
        y += 1;
    }
    proof {
        assert(height * width == width * height) by (nonlinear_arith);
    }
}

/// The neighbours of `coord` whose cell holds `cell`, in the order left,
/// right, up, down.
#[verifier::rlimit(50)]
pub fn neighbors_holding(coord: (u8, u8), maze: &Maze, cell: GridCell) -> (r: Vec<(u8, u8)>)
    requires
        maze.wf(),
    ensures
        r@ == neighbors_of(coord, maze.spec_width(), maze.spec_height()).filter(
            |c: (u8, u8)| maze.spec_cell(c) == cell,
        ),
        forall|i: int|
            0 <= i < r@.len() ==> maze.spec_in_bounds(#[trigger] r@[i]) && maze.spec_cell(r@[i])
                == cell && are_neighbors(coord, r@[i]),
        r@.no_duplicates(),
        forall|b: (u8, u8)|
            maze.spec_in_bounds(coord) && maze.spec_in_bounds(b) && #[trigger] are_neighbors(
                coord,
                b,
            ) && maze.spec_cell(b) == cell ==> r@.contains(b),
{
    let all = get_neighbors(coord, maze);
    proof {
        lemma_neighbors_distinct(coord, maze.spec_width(), maze.spec_height());
    }
    let mut r: Vec<(u8, u8)> = Vec::new();
    let ghost keep = |c: (u8, u8)| maze.spec_cell(c) == cell;
    let mut i: usize = 0;
    assert(all@.take(0).filter(keep) =~= Seq::<(u8, u8)>::empty());
    while i < all.len()
        invariant
            i <= all.len(),
            maze.wf(),
            all@ == neighbors_of(coord, maze.spec_width(), maze.spec_height()),
            forall|k: int| 0 <= k < all@.len() ==> maze.spec_in_bounds(#[trigger] all@[k]),
            keep == |c: (u8, u8)| maze.spec_cell(c) == cell,
            r@ == all@.take(i as int).filter(keep),
            all@.no_duplicates(),
            r@.no_duplicates(),
            forall|k: int|
                0 <= k < r@.len() ==> exists|j: int| 0 <= j < i && all@[j] == #[trigger] r@[k],
            forall|k: int|
                0 <= k < r@.len() ==> maze.spec_in_bounds(#[trigger] r@[k]) && maze.spec_cell(
                    r@[k],
                ) == cell && are_neighbors(coord, r@[k]),
            forall|j: int|
                0 <= j < i && maze.spec_cell(#[trigger] all@[j]) == cell ==> r@.contains(all@[j]),
        decreases all.len() - i,
    {
        let c = all[i];
        proof {
            assert(all@.take(i + 1).drop_last() =~= all@.take(i as int));
            all@.take(i as int).lemma_filter_push(c, keep);
            assert(all@.take(i as int).push(c) =~= all@.take(i + 1));
            lemma_neighbors_adjacent(coord, maze.spec_width(), maze.spec_height(), i as int);
        }
        if *maze.cell_at(c) == cell {
            let ghost before = r@;
            r.push(c);
            proof {
                assert(r@[r@.len() - 1] == c);
                assert forall|j: int|
                    0 <= j < i + 1 && maze.spec_cell(#[trigger] all@[j]) == cell implies r@.contains(
                    all@[j],
                ) by {
                    if j < i {
                        assert(before.contains(all@[j]));
                        let k = choose|k: int| 0 <= k < before.len() && before[k] == all@[j];
                        assert(r@[k] == before[k]);
                    } else {
                        assert(r@[r@.len() - 1] == all@[j]);
                    }
                }
                assert forall|k: int| 0 <= k < r@.len() implies exists|j: int|
                    0 <= j < i + 1 && all@[j] == #[trigger] r@[k] by {
                    if k < before.len() {
                        let j = choose|j: int| 0 <= j < i && all@[j] == before[k];
                        assert(0 <= j < i + 1 && all@[j] == r@[k]);
                    } else {
                        assert(all@[i as int] == r@[k]);
                    }
                }
                assert forall|a: int, b: int|
                    0 <= a < r@.len() && 0 <= b < r@.len() && a != b implies r@[a] != r@[b] by {
                    if a < before.len() && b < before.len() {
                        assert(before[a] != before[b]);
                    } else if a < before.len() {
                        let j = choose|j: int| 0 <= j < i && all@[j] == before[a];
                    } else {
                        let j = choose|j: int| 0 <= j < i && all@[j] == before[b];
                    }
                }
            }
        }
        i += 1;
    }
    assert(all@.take(all@.len() as int) =~= all@);
    proof {
        assert forall|b: (u8, u8)|
            maze.spec_in_bounds(coord) && maze.spec_in_bounds(b) && #[trigger] are_neighbors(
                coord,
                b,
            ) && maze.spec_cell(b) == cell implies r@.contains(b) by {
            lemma_neighbors_complete(coord, maze.spec_width(), maze.spec_height(), b);
            let k = choose|k: int|
                0 <= k < neighbors_of(coord, maze.spec_width(), maze.spec_height()).len()
                    && #[trigger] neighbors_of(coord, maze.spec_width(), maze.spec_height())[k]
                    == b;
            assert(all@[k] == b);
        }
    }
    r
}

/// Whether two cells are next to each other in a row or in a column.
pub open spec fn are_neighbors(a: (u8, u8), b: (u8, u8)) -> bool {
    (a.0 == b.0 && (a.1 - b.1 == 1 || b.1 - a.1 == 1)) || (a.1 == b.1 && (a.0 - b.0 == 1 || b.0
        - a.0 == 1))
}

/// Every neighbour of a cell is next to it.
pub proof fn lemma_neighbors_adjacent(coord: (u8, u8), width: u8, height: u8, i: int)
    requires
        0 <= i < neighbors_of(coord, width, height).len(),
    ensures
        are_neighbors(coord, neighbors_of(coord, width, height)[i]),
{
}

/// The neighbours of a cell are all different.
pub proof fn lemma_neighbors_distinct(coord: (u8, u8), width: u8, height: u8)
    ensures
        neighbors_of(coord, width, height).no_duplicates(),
{
}

/// Every cell of the maze next to a cell is among its neighbours.
pub proof fn lemma_neighbors_complete(coord: (u8, u8), width: u8, height: u8, b: (u8, u8))
    requires
        coord.0 < width && coord.1 < height,
        b.0 < width && b.1 < height,
        are_neighbors(coord, b),
    ensures
        exists|k: int|
            0 <= k < neighbors_of(coord, width, height).len() && #[trigger] neighbors_of(
                coord,
                width,
                height,
            )[k] == b,
{
    let all = neighbors_of(coord, width, height);
    let left: Seq<(u8, u8)> = if coord.0 > 0 {
        seq![((coord.0 - 1) as u8, coord.1)]
    } else {
        Seq::empty()
    };
    let right: Seq<(u8, u8)> = if coord.0 + 1 < width {
        seq![((coord.0 + 1) as u8, coord.1)]
    } else {
        Seq::empty()
    };
    let up: Seq<(u8, u8)> = if coord.1 > 0 {
        seq![(coord.0, (coord.1 - 1) as u8)]
    } else {
        Seq::empty()
    };
    let down: Seq<(u8, u8)> = if coord.1 + 1 < height {
        seq![(coord.0, (coord.1 + 1) as u8)]
    } else {
        Seq::empty()
    };
    assert(all == left + right + up + down);
    if b.0 + 1 == coord.0 {
        assert(all[0] == b);
    } else if b.0 == coord.0 + 1 {
        assert(all[left.len() as int] == b);
    } else if b.1 + 1 == coord.1 {
        assert(all[(left.len() + right.len()) as int] == b);
    } else {
        assert(all[(left.len() + right.len() + up.len()) as int] == b);
    }
}

/// Whether one can step from cell `a` to its neighbour `b`: both are cells
/// of the maze and no wall stands between them.
pub open spec fn passable(maze: &Maze, a: (u8, u8), b: (u8, u8)) -> bool {
    &&& maze.spec_in_bounds(a)
    &&& maze.spec_in_bounds(b)
    &&& are_neighbors(a, b)
    &&& !maze.spec_is_wall_after(wall_between(a, b).0, wall_between(a, b).1)
}

/// Step `i` of a way: the cell it leaves and the cell it enters.
pub open spec fn hop(way: Seq<(u8, u8)>, i: int) -> ((u8, u8), (u8, u8)) {
    (way[i], way[i + 1])
}

/// Whether `way` leads from cell `a` to cell `b` through the maze by steps
/// between neighbouring cells that no wall is in the way of.
pub open spec fn leads(maze: &Maze, way: Seq<(u8, u8)>, a: (u8, u8), b: (u8, u8)) -> bool {
    &&& way.len() >= 1
    &&& way[0] == a
    &&& way.last() == b
    &&& maze.spec_in_bounds(a)
    &&& forall|i: int|
        0 <= i < way.len() - 1 ==> passable(maze, (#[trigger] hop(way, i)).0, hop(way, i).1)
}

/// Whether some way leads from cell `a` to cell `b`.
pub open spec fn joined(maze: &Maze, a: (u8, u8), b: (u8, u8)) -> bool {
    exists|way: Seq<(u8, u8)>| #[trigger] leads(maze, way, a, b)
}

/// Whether a way leads from the cell `from` to every open cell of the
/// maze.
pub open spec fn open_cells_joined(maze: &Maze, from: (u8, u8)) -> bool {
    forall|c: (u8, u8)|
        maze.spec_in_bounds(c) && #[trigger] maze.spec_cell(c) == GridCell::empty() ==> joined(
            maze,
            from,
            c,
        )
}

/// Whether the cells of the maze are all joined: from one of them a way
/// leads to every other.
pub open spec fn all_joined(maze: &Maze) -> bool {
    exists|from: (u8, u8)|
        maze.spec_in_bounds(from) && forall|c: (u8, u8)|
            maze.spec_in_bounds(c) ==> #[trigger] joined(maze, from, c)
}

/// Whether no position between the cells of `before` that was free of
/// walls holds a wall in `after`.
pub open spec fn walls_only_opened(before: &Maze, after: &Maze) -> bool {
    forall|at: (u16, u16)|
        before.spec_grid().contains(at) && !is_cell_coord(at) && !(before.spec_grid().spec_get(
            at,
        ) is Wall) ==> !(#[trigger] after.spec_grid().spec_get(at) is Wall)
}

/// Whether `at` lies on the first or last row or column of the maze's
/// grid.
pub open spec fn on_edge(maze: &Maze, at: (u16, u16)) -> bool {
    at.0 == 0 || at.1 == 0 || at.0 == 2 * maze.spec_width() || at.1 == 2 * maze.spec_height()
}

/// Whether the first and last rows and columns of the grid of `after` are
/// as they are in `before`.
pub open spec fn boundary_kept(before: &Maze, after: &Maze) -> bool {
    forall|at: (u16, u16)|
        before.spec_grid().contains(at) && on_edge(before, at) ==> #[trigger] after.spec_grid().spec_get(
            at,
        ) == before.spec_grid().spec_get(at)
}

/// A boundary kept twice over is kept.
pub proof fn lemma_boundary_chain(before: &Maze, mid: &Maze, after: &Maze)
    requires
        before.wf(),
        mid.wf(),
        mid.spec_width() == before.spec_width(),
        mid.spec_height() == before.spec_height(),
        boundary_kept(before, mid),
        boundary_kept(mid, after),
    ensures
        boundary_kept(before, after),
{
    before.lemma_wf();
    mid.lemma_wf();
    assert forall|at: (u16, u16)|
        before.spec_grid().contains(at) && on_edge(
            before,
            at,
        ) implies #[trigger] after.spec_grid().spec_get(at) == before.spec_grid().spec_get(at) by {
        assert(mid.spec_grid().contains(at) && on_edge(mid, at));
        assert(mid.spec_grid().spec_get(at) == before.spec_grid().spec_get(at));
    }
}

/// Carving into a solid cell from an open one keeps every open cell
/// joined to the cell that the carving began from.
pub proof fn lemma_joined_carve(
    before: &Maze,
    after: &Maze,
    from: (u8, u8),
    cell: (u8, u8),
    next: (u8, u8),
)
    requires
        before.wf(),
        after.spec_width() == before.spec_width(),
        after.spec_height() == before.spec_height(),
        open_cells_joined(before, from),
        before.spec_in_bounds(cell),
        before.spec_cell(cell) == GridCell::empty(),
        walls_only_opened(before, after),
        passable(after, cell, next),
        forall|c: (u8, u8)|
            before.spec_in_bounds(c) ==> #[trigger] after.spec_cell(c) == (if c == next {
                GridCell::empty()
            } else {
                before.spec_cell(c)
            }),
    ensures
        open_cells_joined(after, from),
{
    assert forall|c: (u8, u8)|
        after.spec_in_bounds(c) && #[trigger] after.spec_cell(c) == GridCell::empty() implies joined(
        after,
        from,
        c,
    ) by {
        if c == next {
            assert(before.spec_cell(cell) == GridCell::empty());
            lemma_joined_persists(before, after, from, cell);
            lemma_joined_step(after, from, cell, next);
        } else {
            assert(before.spec_cell(c) == GridCell::empty());
            lemma_joined_persists(before, after, from, c);
        }
    }
}

/// Whether the positions between the cells of `after` are as they are in
/// `before`.
pub open spec fn walls_kept(before: &Maze, after: &Maze) -> bool {
    forall|at: (u16, u16)|
        before.spec_grid().contains(at) && !is_cell_coord(at) ==> #[trigger] after.spec_grid().spec_get(
            at,
        ) == before.spec_grid().spec_get(at)
}

/// Where no wall changes and no cell is opened, every open cell stays
/// joined.
pub proof fn lemma_joined_kept(before: &Maze, after: &Maze, from: (u8, u8))
    requires
        before.wf(),
        after.spec_width() == before.spec_width(),
        after.spec_height() == before.spec_height(),
        open_cells_joined(before, from),
        walls_kept(before, after),
        forall|c: (u8, u8)|
            before.spec_in_bounds(c) && #[trigger] after.spec_cell(c) == GridCell::empty()
                ==> before.spec_cell(c) == GridCell::empty(),
    ensures
        open_cells_joined(after, from),
{
    assert forall|c: (u8, u8)|
        after.spec_in_bounds(c) && #[trigger] after.spec_cell(c) == GridCell::empty() implies joined(
        after,
        from,
        c,
    ) by {
        assert(before.spec_cell(c) == GridCell::empty());
        lemma_joined_persists(before, after, from, c);
    }
}

/// A free step can be taken both ways.
pub proof fn lemma_passable_back(maze: &Maze, a: (u8, u8), b: (u8, u8))
    requires
        maze.wf(),
        passable(maze, a, b),
    ensures
        passable(maze, b, a),
{
    lemma_gap(maze, a, b);
}

/// Where a way leads from `a` to `b` and one from `b` to `c`, one leads
/// from `a` to `c`.
pub proof fn lemma_joined_on(maze: &Maze, a: (u8, u8), b: (u8, u8), c: (u8, u8))
    requires
        joined(maze, a, b),
        joined(maze, b, c),
    ensures
        joined(maze, a, c),
{
    let first = choose|way: Seq<(u8, u8)>| #[trigger] leads(maze, way, a, b);
    let second = choose|way: Seq<(u8, u8)>| #[trigger] leads(maze, way, b, c);
    let way = first + second.subrange(1, second.len() as int);
    assert forall|i: int| 0 <= i < way.len() - 1 implies passable(
        maze,
        (#[trigger] hop(way, i)).0,
        hop(way, i).1,
    ) by {
        if i < first.len() - 1 {
            assert(hop(way, i) == hop(first, i));
        } else {
            let k = i - (first.len() - 1);
            assert(hop(way, i) == hop(second, k));
        }
    }
    assert(leads(maze, way, a, c));
}

/// After the wall between two neighbouring cells was opened, or found
/// open: the step between them is free, no cell and no boundary position
/// has changed, and no wall stands that did not stand before.
pub proof fn lemma_opened_between(
    before: &Maze,
    after: &Maze,
    a: (u8, u8),
    b: (u8, u8),
    removed: bool,
)
    requires
        before.wf(),
        before.spec_in_bounds(a),
        before.spec_in_bounds(b),
        are_neighbors(a, b),
        removed == before.spec_is_wall_after(wall_between(a, b).0, wall_between(a, b).1),
        removed ==> after.is_put(
            before,
            wall_coord(wall_between(a, b).0, wall_between(a, b).1),
            GridCell::empty(),
        ),
        !removed ==> *after == *before,
    ensures
        after.wf(),
        after.spec_width() == before.spec_width(),
        after.spec_height() == before.spec_height(),
        passable(after, a, b),
        walls_only_opened(before, after),
        boundary_kept(before, after),
        forall|c: (u8, u8)|
            before.spec_in_bounds(c) ==> #[trigger] after.spec_cell(c) == before.spec_cell(c),
{
    before.lemma_wf();
    lemma_gap(before, a, b);
    let gap = wall_coord(wall_between(a, b).0, wall_between(a, b).1);
    assert(!on_edge(before, gap));
    if removed {
        after.spec_grid().lemma_put_cells(before.spec_grid(), gap, GridCell::empty());
    }
    assert forall|c: (u8, u8)| before.spec_in_bounds(c) implies #[trigger] after.spec_cell(c)
        == before.spec_cell(c) by {
        assert(before.spec_grid().contains(cell_coord(c)));
        assert(is_cell_coord(cell_coord(c)));
    }
}

/// Filling the inside of the grid leaves its boundary as it was.
pub proof fn lemma_filled_boundary(before: &Maze, after: &Maze, cell: GridCell)
    requires
        before.wf(),
        after.extends(before),
        after.spec_grid().cells() == Seq::new(
            before.spec_grid().cells().len(),
            |i: int|
                if crate::maze::grid::on_boundary(
                    before.spec_grid().spec_width(),
                    before.spec_grid().spec_height(),
                    i,
                ) {
                    before.spec_grid().cells()[i]
                } else {
                    cell
                },
        ),
    ensures
        boundary_kept(before, after),
{
    before.lemma_wf();
    assert forall|at: (u16, u16)|
        before.spec_grid().contains(at) && on_edge(
            before,
            at,
        ) implies #[trigger] after.spec_grid().spec_get(at) == before.spec_grid().spec_get(at) by {
        before.spec_grid().lemma_index_in_range(at);
        lemma_row_major(before.spec_grid().spec_width() as int, at.0 as int, at.1 as int);
    }
}

/// One where a cell lies after the cell `c` and the wall between the two
/// is open, else none.
pub open spec fn gap_open(maze: &Maze, c: (u8, u8), orientation: Orientation) -> nat {
    if maze.has_cell_after(c, orientation) && !maze.spec_is_wall_after(c, orientation) {
        1
    } else {
        0
    }
}

/// How many walls after the first `n` cells of row `y` are open.
pub open spec fn row_gaps(maze: &Maze, y: u8, n: nat) -> nat
    decreases n,
{
    if n == 0 {
        0
    } else {
        row_gaps(maze, y, (n - 1) as nat) + gap_open(
            maze,
            ((n - 1) as u8, y),
            Orientation::Vertical,
        ) + gap_open(maze, ((n - 1) as u8, y), Orientation::Horizontal)
    }
}

/// How many walls after the cells of the first `rows` rows are open.
pub open spec fn gaps_upto(maze: &Maze, rows: nat) -> nat
    decreases rows,
{
    if rows == 0 {
        0
    } else {
        gaps_upto(maze, (rows - 1) as nat) + row_gaps(
            maze,
            (rows - 1) as u8,
            maze.spec_width() as nat,
        )
    }
}

/// How many of the walls between neighbouring cells of the maze are open.
pub open spec fn open_walls(maze: &Maze) -> nat {
    gaps_upto(maze, maze.spec_height() as nat)
}

/// Whether the walls between the cells of `after` are open where those of
/// `before` are, but for the wall after cell `at`, which is open in
/// `after` and stands in `before`.
pub open spec fn one_more_open(
    before: &Maze,
    after: &Maze,
    at: (u8, u8),
    orientation: Orientation,
) -> bool {
    &&& after.spec_width() == before.spec_width()
    &&& after.spec_height() == before.spec_height()
    &&& before.spec_in_bounds(at)
    &&& gap_open(before, at, orientation) == 0
    &&& gap_open(after, at, orientation) == 1
    &&& forall|c: (u8, u8), o: Orientation|
        (c, o) != (at, orientation) ==> #[trigger] gap_open(after, c, o) == gap_open(before, c, o)
}

/// Whether the walls between the cells of `after` are open exactly where
/// those of `before` are.
pub open spec fn as_open(before: &Maze, after: &Maze) -> bool {
    &&& after.spec_width() == before.spec_width()
    &&& after.spec_height() == before.spec_height()
    &&& forall|c: (u8, u8), o: Orientation| #[trigger]
        gap_open(after, c, o) == gap_open(before, c, o)
}

/// One more open wall in a row counts one more there, and nowhere else.
proof fn lemma_row_one_more(
    before: &Maze,
    after: &Maze,
    at: (u8, u8),
    orientation: Orientation,
    y: u8,
    n: nat,
)
    requires
        one_more_open(before, after, at, orientation),
        n <= 256,
    ensures
        row_gaps(after, y, n) == row_gaps(before, y, n) + (if at.1 == y && at.0 < n {
            1nat
        } else {
            0nat
        }),
    decreases n,
{
    if n > 0 {
        lemma_row_one_more(before, after, at, orientation, y, (n - 1) as nat);
        let c = ((n - 1) as u8, y);
        assert(gap_open(after, c, Orientation::Vertical) + gap_open(
            after,
            c,
            Orientation::Horizontal,
        ) == gap_open(before, c, Orientation::Vertical) + gap_open(
            before,
            c,
            Orientation::Horizontal,
        ) + (if c == at {
            1nat
        } else {
            0nat
        })) by {
            if c == at {
                match orientation {
                    Orientation::Vertical => {
                        assert((c, Orientation::Horizontal) != (at, orientation));
                    },
                    Orientation::Horizontal => {
                        assert((c, Orientation::Vertical) != (at, orientation));
                    },
                }
            } else {
                assert((c, Orientation::Vertical) != (at, orientation));
                assert((c, Orientation::Horizontal) != (at, orientation));
            }
        }
    }
}

/// One more open wall counts one more among the rows that hold it.
proof fn lemma_rows_one_more(
    before: &Maze,
    after: &Maze,
    at: (u8, u8),
    orientation: Orientation,
    rows: nat,
)
    requires
        one_more_open(before, after, at, orientation),
        rows <= 256,
    ensures
        gaps_upto(after, rows) == gaps_upto(before, rows) + (if at.1 < rows {
            1nat
        } else {
            0nat
        }),
    decreases rows,
{
    if rows > 0 {
        lemma_rows_one_more(before, after, at, orientation, (rows - 1) as nat);
        lemma_row_one_more(
            before,
            after,
            at,
            orientation,
            (rows - 1) as u8,
            before.spec_width() as nat,
        );
    }
}

/// Opening one wall between two cells makes one more open wall.
pub proof fn lemma_one_more_open(
    before: &Maze,
    after: &Maze,
    at: (u8, u8),
    orientation: Orientation,
)
    requires
        one_more_open(before, after, at, orientation),
    ensures
        open_walls(after) == open_walls(before) + 1,
{
    lemma_rows_one_more(before, after, at, orientation, before.spec_height() as nat);
}

/// Where the same walls are open, as many are.
pub proof fn lemma_as_open(before: &Maze, after: &Maze)
    requires
        as_open(before, after),
    ensures
        open_walls(after) == open_walls(before),
{
    lemma_rows_as_open(before, after, before.spec_height() as nat);
}

/// Where the same walls are open, as many are in the first rows.
proof fn lemma_rows_as_open(before: &Maze, after: &Maze, rows: nat)
    requires
        as_open(before, after),
    ensures
        gaps_upto(after, rows) == gaps_upto(before, rows),
    decreases rows,
{
    if rows > 0 {
        lemma_rows_as_open(before, after, (rows - 1) as nat);
        lemma_row_as_open(before, after, (rows - 1) as u8, before.spec_width() as nat);
    }
}

/// Where the same walls are open, as many are in a row.
proof fn lemma_row_as_open(before: &Maze, after: &Maze, y: u8, n: nat)
    requires
        as_open(before, after),
    ensures
        row_gaps(after, y, n) == row_gaps(before, y, n),
    decreases n,
{
    if n > 0 {
        lemma_row_as_open(before, after, y, (n - 1) as nat);
    }
}

/// Where no wall between two cells is open, none is counted.
pub proof fn lemma_none_open(maze: &Maze)
    requires
        forall|c: (u8, u8), o: Orientation| #[trigger] gap_open(maze, c, o) == 0,
    ensures
        open_walls(maze) == 0,
{
    lemma_rows_none_open(maze, maze.spec_height() as nat);
}

/// Where no wall between two cells is open, none is counted in the first
/// rows.
proof fn lemma_rows_none_open(maze: &Maze, rows: nat)
    requires
        forall|c: (u8, u8), o: Orientation| #[trigger] gap_open(maze, c, o) == 0,
    ensures
        gaps_upto(maze, rows) == 0,
    decreases rows,
{
    if rows > 0 {
        lemma_rows_none_open(maze, (rows - 1) as nat);
        lemma_row_none_open(maze, (rows - 1) as u8, maze.spec_width() as nat);
    }
}

/// Where no wall between two cells is open, none is counted in a row.
proof fn lemma_row_none_open(maze: &Maze, y: u8, n: nat)
    requires
        forall|c: (u8, u8), o: Orientation| #[trigger] gap_open(maze, c, o) == 0,
    ensures
        row_gaps(maze, y, n) == 0,
    decreases n,
{
    if n > 0 {
        lemma_row_none_open(maze, y, (n - 1) as nat);
    }
}

/// Whether the cells of the maze are all joined and as few walls are open
/// as can join them: every cell but one has one open wall to its name.
pub open spec fn is_tree(maze: &Maze) -> bool {
    all_joined(maze) && open_walls(maze) + 1 == maze.spec_width() * maze.spec_height()
}

/// Putting a cell on the wall between two neighbouring cells that stood
/// opens one more wall.
pub proof fn lemma_put_one_more(before: &Maze, after: &Maze, a: (u8, u8), b: (u8, u8))
    requires
        before.wf(),
        before.spec_in_bounds(a),
        before.spec_in_bounds(b),
        are_neighbors(a, b),
        before.spec_is_wall_after(wall_between(a, b).0, wall_between(a, b).1),
        after.is_put(
            before,
            wall_coord(wall_between(a, b).0, wall_between(a, b).1),
            GridCell::empty(),
        ),
    ensures
        one_more_open(before, after, wall_between(a, b).0, wall_between(a, b).1),
{
    before.lemma_wf();
    lemma_gap(before, a, b);
    let (at, orientation) = wall_between(a, b);
    let gap = wall_coord(at, orientation);
    after.spec_grid().lemma_put_cells(before.spec_grid(), gap, GridCell::empty());
    assert forall|c: (u8, u8), o: Orientation| (c, o) != (at, orientation) implies #[trigger] gap_open(
        after,
        c,
        o,
    ) == gap_open(before, c, o) by {
        if before.has_cell_after(c, o) {
            assert(before.spec_grid().contains(wall_coord(c, o)));
            assert(wall_coord(c, o) != gap);
        }
    }
}

/// Where the positions between the cells are as they were, the same walls
/// are open.
pub proof fn lemma_walls_kept_as_open(before: &Maze, after: &Maze)
    requires
        before.wf(),
        after.spec_width() == before.spec_width(),
        after.spec_height() == before.spec_height(),
        walls_kept(before, after),
    ensures
        as_open(before, after),
{
    before.lemma_wf();
    assert forall|c: (u8, u8), o: Orientation| #[trigger]
        gap_open(after, c, o) == gap_open(before, c, o) by {
        if before.has_cell_after(c, o) {
            assert(before.spec_grid().contains(wall_coord(c, o)));
            assert(!is_cell_coord(wall_coord(c, o)));
        }
    }
}

/// Filling the inside of the grid puts the filling on every wall between
/// two cells.
pub proof fn lemma_filled_gaps(before: &Maze, after: &Maze, cell: GridCell)
    requires
        before.wf(),
        after.extends(before),
        after.spec_grid().cells() == Seq::new(
            before.spec_grid().cells().len(),
            |i: int|
                if crate::maze::grid::on_boundary(
                    before.spec_grid().spec_width(),
                    before.spec_grid().spec_height(),
                    i,
                ) {
                    before.spec_grid().cells()[i]
                } else {
                    cell
                },
        ),
    ensures
        forall|c: (u8, u8), o: Orientation|
            before.has_cell_after(c, o) ==> after.spec_grid().spec_get(#[trigger] wall_coord(c, o))
                == cell,
{
    before.lemma_wf();
    assert forall|c: (u8, u8), o: Orientation| before.has_cell_after(c, o) implies after.spec_grid().spec_get(
        #[trigger] wall_coord(c, o),
    ) == cell by {
        let at = wall_coord(c, o);
        assert(before.spec_grid().contains(at));
        before.spec_grid().lemma_index_in_range(at);
        lemma_row_major(before.spec_grid().spec_width() as int, at.0 as int, at.1 as int);
    }
}

/// One where the cell `c` of the maze is not open, else none.
pub open spec fn cell_shut(maze: &Maze, c: (u8, u8)) -> nat {
    if maze.spec_cell(c) != GridCell::empty() {
        1
    } else {
        0
    }
}

/// How many of the first `n` cells of row `y` are not open.
pub open spec fn row_shut(maze: &Maze, y: u8, n: nat) -> nat
    decreases n,
{
    if n == 0 {
        0
    } else {
        row_shut(maze, y, (n - 1) as nat) + cell_shut(maze, ((n - 1) as u8, y))
    }
}

/// How many cells of the first `rows` rows are not open.
pub open spec fn shut_upto(maze: &Maze, rows: nat) -> nat
    decreases rows,
{
    if rows == 0 {
        0
    } else {
        shut_upto(maze, (rows - 1) as nat) + row_shut(
            maze,
            (rows - 1) as u8,
            maze.spec_width() as nat,
        )
    }
}

/// How many cells of the maze are not open.
pub open spec fn shut_cells(maze: &Maze) -> nat {
    shut_upto(maze, maze.spec_height() as nat)
}

/// Whether the cells of `after` are open where those of `before` are,
/// but for the cell `at`, which is open in `after` and not in `before`.
pub open spec fn one_less_shut(before: &Maze, after: &Maze, at: (u8, u8)) -> bool {
    &&& after.spec_width() == before.spec_width()
    &&& after.spec_height() == before.spec_height()
    &&& before.spec_in_bounds(at)
    &&& cell_shut(before, at) == 1
    &&& cell_shut(after, at) == 0
    &&& forall|c: (u8, u8)|
        before.spec_in_bounds(c) && c != at ==> #[trigger] cell_shut(after, c) == cell_shut(
            before,
            c,
        )
}

proof fn lemma_row_less_shut(before: &Maze, after: &Maze, at: (u8, u8), y: u8, n: nat)
    requires
        one_less_shut(before, after, at),
        y < before.spec_height(),
        n <= before.spec_width(),
    ensures
        row_shut(before, y, n) == row_shut(after, y, n) + (if at.1 == y && at.0 < n {
            1nat
        } else {
            0nat
        }),
    decreases n,
{
    if n > 0 {
        lemma_row_less_shut(before, after, at, y, (n - 1) as nat);
        let c = ((n - 1) as u8, y);
        assert(before.spec_in_bounds(c));
        if c != at {
            assert(cell_shut(after, c) == cell_shut(before, c));
        }
    }
}

proof fn lemma_rows_less_shut(before: &Maze, after: &Maze, at: (u8, u8), rows: nat)
    requires
        one_less_shut(before, after, at),
        rows <= before.spec_height(),
    ensures
        shut_upto(before, rows) == shut_upto(after, rows) + (if at.1 < rows {
            1nat
        } else {
            0nat
        }),
    decreases rows,
{
    if rows > 0 {
        lemma_rows_less_shut(before, after, at, (rows - 1) as nat);
        lemma_row_less_shut(before, after, at, (rows - 1) as u8, before.spec_width() as nat);
    }
}

/// Opening one cell leaves one fewer that is not open.
pub proof fn lemma_one_less_shut(before: &Maze, after: &Maze, at: (u8, u8))
    requires
        one_less_shut(before, after, at),
    ensures
        shut_cells(before) == shut_cells(after) + 1,
{
    lemma_rows_less_shut(before, after, at, before.spec_height() as nat);
}

proof fn lemma_row_none_shut(maze: &Maze, y: u8, n: nat)
    requires
        forall|c: (u8, u8)| maze.spec_in_bounds(c) ==> #[trigger] cell_shut(maze, c) == 0,
        y < maze.spec_height(),
        n <= maze.spec_width(),
    ensures
        row_shut(maze, y, n) == 0,
    decreases n,
{
    if n > 0 {
        lemma_row_none_shut(maze, y, (n - 1) as nat);
        assert(maze.spec_in_bounds(((n - 1) as u8, y)));
    }
}

proof fn lemma_rows_none_shut(maze: &Maze, rows: nat)
    requires
        forall|c: (u8, u8)| maze.spec_in_bounds(c) ==> #[trigger] cell_shut(maze, c) == 0,
        rows <= maze.spec_height(),
    ensures
        shut_upto(maze, rows) == 0,
    decreases rows,
{
    if rows > 0 {
        lemma_rows_none_shut(maze, (rows - 1) as nat);
        lemma_row_none_shut(maze, (rows - 1) as u8, maze.spec_width() as nat);
    }
}

/// Where every cell of the maze is open, none is counted.
pub proof fn lemma_none_shut(maze: &Maze)
    requires
        forall|c: (u8, u8)| maze.spec_in_bounds(c) ==> #[trigger] cell_shut(maze, c) == 0,
    ensures
        shut_cells(maze) == 0,
{
    lemma_rows_none_shut(maze, maze.spec_height() as nat);
}

/// Whether no wall between two cells of the maze is open.
pub open spec fn no_open_walls(maze: &Maze) -> bool {
    forall|c: (u8, u8), o: Orientation| #[trigger] gap_open(maze, c, o) == 0
}

/// The cell after `c`: below it for a horizontal wall, to its right for a
/// vertical one.
pub open spec fn cell_after(c: (u8, u8), orientation: Orientation) -> (u8, u8) {
    match orientation {
        Orientation::Horizontal => (c.0, (c.1 + 1) as u8),
        Orientation::Vertical => ((c.0 + 1) as u8, c.1),
    }
}

/// Whether every open wall of the maze lies between two open cells.
pub open spec fn open_walls_between_open(maze: &Maze) -> bool {
    forall|c: (u8, u8), o: Orientation|
        #[trigger] gap_open(maze, c, o) == 1 ==> maze.spec_cell(c) == GridCell::empty()
            && maze.spec_cell(cell_after(c, o)) == GridCell::empty()
}

/// Whether the maze holds one open wall for every open cell but one, each
/// between two open cells.
pub open spec fn carved_as_tree(maze: &Maze) -> bool {
    &&& open_walls_between_open(maze)
    &&& open_walls(maze) + shut_cells(maze) + 1 == maze.spec_width() * maze.spec_height()
}

/// Carving from an open cell into a neighbour that is not open opens one
/// wall and one cell, and keeps every open wall between two open cells.
pub proof fn lemma_carved_as_tree(before: &Maze, after: &Maze, cell: (u8, u8), next: (u8, u8))
    requires
        before.wf(),
        after.wf(),
        after.spec_width() == before.spec_width(),
        after.spec_height() == before.spec_height(),
        carved_as_tree(before),
        before.spec_in_bounds(cell),
        before.spec_in_bounds(next),
        are_neighbors(cell, next),
        before.spec_cell(cell) == GridCell::empty(),
        before.spec_cell(next) != GridCell::empty(),
        forall|at: (u16, u16)|
            before.spec_grid().contains(at) ==> #[trigger] after.spec_grid().spec_get(at) == (if at
                == cell_coord(next) {
                GridCell::empty()
            } else if at == wall_coord(wall_between(cell, next).0, wall_between(cell, next).1)
                && before.spec_grid().spec_get(at) is Wall {
                GridCell::empty()
            } else {
                before.spec_grid().spec_get(at)
            }),
    ensures
        carved_as_tree(after),
{
    before.lemma_wf();
    lemma_gap(before, cell, next);
    let (at, orientation) = wall_between(cell, next);
    let gap = wall_coord(at, orientation);
    assert(cell_after(at, orientation) == (if at == cell {
        next
    } else {
        cell
    }));
    assert(gap_open(before, at, orientation) == 0);
    assert(before.spec_grid().spec_get(gap) is Wall);
    assert(after.spec_grid().spec_get(gap) == GridCell::empty());
    assert forall|c: (u8, u8), o: Orientation| (c, o) != (at, orientation) implies #[trigger] gap_open(
        after,
        c,
        o,
    ) == gap_open(before, c, o) by {
        if before.has_cell_after(c, o) {
            assert(before.spec_grid().contains(wall_coord(c, o)));
            assert(wall_coord(c, o) != gap);
            assert(wall_coord(c, o) != cell_coord(next));
        }
    }
    assert(one_more_open(before, after, at, orientation));
    lemma_one_more_open(before, after, at, orientation);
    assert forall|c: (u8, u8)|
        before.spec_in_bounds(c) && c != next implies #[trigger] cell_shut(after, c)
        == cell_shut(before, c) by {
        assert(before.spec_grid().contains(cell_coord(c)));
        assert(cell_coord(c) != gap);
    }
    assert(before.spec_grid().contains(cell_coord(next)));
    assert(one_less_shut(before, after, next));
    lemma_one_less_shut(before, after, next);
    assert forall|c: (u8, u8), o: Orientation| #[trigger] gap_open(after, c, o) == 1 implies after.spec_cell(
        c,
    ) == GridCell::empty() && after.spec_cell(cell_after(c, o)) == GridCell::empty() by {
        assert(before.spec_grid().contains(cell_coord(c)));
        assert(before.spec_grid().contains(cell_coord(cell_after(c, o))));
        if (c, o) != (at, orientation) {
            assert(gap_open(before, c, o) == 1);
        }
    }
}

/// A maze without open walls whose cells are all solid but one open cell
/// is carved as a tree.
pub proof fn lemma_tree_begun(given: &Maze, begun: &Maze, start: (u8, u8))
    requires
        given.wf(),
        begun.wf(),
        begun.spec_width() == given.spec_width(),
        begun.spec_height() == given.spec_height(),
        no_open_walls(given),
        walls_kept(given, begun),
        begun.spec_in_bounds(start),
        forall|c: (u8, u8)|
            begun.spec_in_bounds(c) ==> #[trigger] begun.spec_cell(c) == (if c == start {
                GridCell::empty()
            } else {
                GridCell::wall()
            }),
    ensures
        carved_as_tree(begun),
{
    lemma_walls_kept_as_open(given, begun);
    assert forall|c: (u8, u8), o: Orientation| #[trigger] gap_open(begun, c, o) == 0 by {
        assert(gap_open(given, c, o) == 0);
    }
    lemma_none_open(begun);
    lemma_rows_begun(begun, start, begun.spec_height() as nat);
    let w = begun.spec_width() as int;
    let h = begun.spec_height() as int;
    assert(h * w == w * h) by (nonlinear_arith);
}

proof fn lemma_row_begun(begun: &Maze, start: (u8, u8), y: u8, n: nat)
    requires
        forall|c: (u8, u8)|
            begun.spec_in_bounds(c) ==> #[trigger] begun.spec_cell(c) == (if c == start {
                GridCell::empty()
            } else {
                GridCell::wall()
            }),
        y < begun.spec_height(),
        n <= begun.spec_width(),
    ensures
        row_shut(begun, y, n) + (if start.1 == y && start.0 < n {
            1nat
        } else {
            0nat
        }) == n,
    decreases n,
{
    if n > 0 {
        lemma_row_begun(begun, start, y, (n - 1) as nat);
        assert(begun.spec_in_bounds(((n - 1) as u8, y)));
    }
}

proof fn lemma_rows_begun(begun: &Maze, start: (u8, u8), rows: nat)
    requires
        forall|c: (u8, u8)|
            begun.spec_in_bounds(c) ==> #[trigger] begun.spec_cell(c) == (if c == start {
                GridCell::empty()
            } else {
                GridCell::wall()
            }),
        begun.spec_in_bounds(start),
        rows <= begun.spec_height(),
    ensures
        shut_upto(begun, rows) + (if start.1 < rows {
            1nat
        } else {
            0nat
        }) == rows * begun.spec_width(),
    decreases rows,
{
    if rows > 0 {
        lemma_rows_begun(begun, start, (rows - 1) as nat);
        lemma_row_begun(begun, start, (rows - 1) as u8, begun.spec_width() as nat);
        let w = begun.spec_width() as int;
        let r = rows as int;
        assert((r - 1) * w + w == r * w) by (nonlinear_arith);
        assert(((rows - 1) as nat) * begun.spec_width() == (r - 1) * w);
    } else {
        assert(rows * begun.spec_width() == 0) by (nonlinear_arith)
            requires
                rows == 0,
        ;
    }
}

/// A maze carved as a tree whose cells are all open has one open wall
/// fewer than cells.
pub proof fn lemma_tree_done(maze: &Maze)
    requires
        carved_as_tree(maze),
        forall|c: (u8, u8)| maze.spec_in_bounds(c) ==> #[trigger] maze.spec_cell(c) == GridCell::empty(),
    ensures
        open_walls(maze) + 1 == maze.spec_width() * maze.spec_height(),
{
    assert forall|c: (u8, u8)| maze.spec_in_bounds(c) implies #[trigger] cell_shut(maze, c)
        == 0 by {
        assert(maze.spec_cell(c) == GridCell::empty());
    }
    lemma_none_shut(maze);
}

proof fn lemma_row_as_shut(before: &Maze, after: &Maze, y: u8, n: nat)
    requires
        after.spec_width() == before.spec_width(),
        after.spec_height() == before.spec_height(),
        forall|c: (u8, u8)|
            before.spec_in_bounds(c) ==> #[trigger] cell_shut(after, c) == cell_shut(before, c),
        y < before.spec_height(),
        n <= before.spec_width(),
    ensures
        row_shut(after, y, n) == row_shut(before, y, n),
    decreases n,
{
    if n > 0 {
        lemma_row_as_shut(before, after, y, (n - 1) as nat);
        assert(before.spec_in_bounds(((n - 1) as u8, y)));
    }
}

proof fn lemma_rows_as_shut(before: &Maze, after: &Maze, rows: nat)
    requires
        after.spec_width() == before.spec_width(),
        after.spec_height() == before.spec_height(),
        forall|c: (u8, u8)|
            before.spec_in_bounds(c) ==> #[trigger] cell_shut(after, c) == cell_shut(before, c),
        rows <= before.spec_height(),
    ensures
        shut_upto(after, rows) == shut_upto(before, rows),
    decreases rows,
{
    if rows > 0 {
        lemma_rows_as_shut(before, after, (rows - 1) as nat);
        lemma_row_as_shut(before, after, (rows - 1) as u8, before.spec_width() as nat);
    }
}

/// A maze carved as a tree stays so while no wall between its cells
/// changes and no cell is opened or shut.
pub proof fn lemma_tree_kept(before: &Maze, after: &Maze)
    requires
        before.wf(),
        after.spec_width() == before.spec_width(),
        after.spec_height() == before.spec_height(),
        carved_as_tree(before),
        walls_kept(before, after),
        forall|c: (u8, u8)|
            before.spec_in_bounds(c) ==> (#[trigger] after.spec_cell(c) == GridCell::empty()) == (
            before.spec_cell(c) == GridCell::empty()),
    ensures
        carved_as_tree(after),
{
    lemma_walls_kept_as_open(before, after);
    lemma_as_open(before, after);
    assert forall|c: (u8, u8)| before.spec_in_bounds(c) implies #[trigger] cell_shut(after, c)
        == cell_shut(before, c) by {
        assert((after.spec_cell(c) == GridCell::empty()) == (before.spec_cell(c)
            == GridCell::empty()));
    }
    lemma_rows_as_shut(before, after, before.spec_height() as nat);
    assert forall|c: (u8, u8), o: Orientation| #[trigger] gap_open(after, c, o) == 1 implies after.spec_cell(
        c,
    ) == GridCell::empty() && after.spec_cell(cell_after(c, o)) == GridCell::empty() by {
        assert(gap_open(before, c, o) == 1);
        assert(before.spec_in_bounds(c));
        assert(before.spec_in_bounds(cell_after(c, o)));
        assert((after.spec_cell(c) == GridCell::empty()) == (before.spec_cell(c)
            == GridCell::empty()));
        assert((after.spec_cell(cell_after(c, o)) == GridCell::empty()) == (before.spec_cell(
            cell_after(c, o),
        ) == GridCell::empty()));
    }
}

/// A maze with a wall on every position between its cells has no open
/// wall.
pub proof fn lemma_walled_in(maze: &Maze)
    requires
        maze.wf(),
        forall|at: (u16, u16)|
            maze.spec_grid().contains(at) && !is_cell_coord(at)
                ==> #[trigger] maze.spec_grid().spec_get(at) is Wall,
    ensures
        no_open_walls(maze),
{
    maze.lemma_wf();
    assert forall|c: (u8, u8), o: Orientation| #[trigger] gap_open(maze, c, o) == 0 by {
        if maze.has_cell_after(c, o) {
            assert(maze.spec_grid().contains(wall_coord(c, o)));
            assert(!is_cell_coord(wall_coord(c, o)));
        }
    }
}

/// Where a way leads from `a` to `b`, one leads back.
pub proof fn lemma_joined_back(maze: &Maze, way: Seq<(u8, u8)>, a: (u8, u8), b: (u8, u8))
    requires
        maze.wf(),
        leads(maze, way, a, b),
    ensures
        joined(maze, b, a),
    decreases way.len(),
{
    if way.len() == 1 {
        lemma_joined_self(maze, a);
    } else {
        let last = way.len() - 2;
        let before = way[last];
        let shorter = way.drop_last();
        assert(hop(way, last) == (before, b));
        assert(passable(maze, before, b));
        assert forall|i: int| 0 <= i < shorter.len() - 1 implies passable(
            maze,
            (#[trigger] hop(shorter, i)).0,
            hop(shorter, i).1,
        ) by {
            assert(hop(shorter, i) == hop(way, i));
        }
        assert(leads(maze, shorter, a, before));
        lemma_joined_back(maze, shorter, a, before);
        lemma_passable_back(maze, before, b);
        lemma_joined_self(maze, b);
        lemma_joined_step(maze, b, b, before);
        lemma_joined_on(maze, b, before, a);
    }
}

/// In a maze whose cells are all joined, a way leads from every cell to
/// every other.
pub proof fn lemma_all_joined(maze: &Maze, a: (u8, u8), b: (u8, u8))
    requires
        maze.wf(),
        all_joined(maze),
        maze.spec_in_bounds(a),
        maze.spec_in_bounds(b),
    ensures
        joined(maze, a, b),
{
    let from = choose|from: (u8, u8)|
        maze.spec_in_bounds(from) && forall|c: (u8, u8)|
            maze.spec_in_bounds(c) ==> #[trigger] joined(maze, from, c);
    assert(joined(maze, from, a));
    assert(joined(maze, from, b));
    let way = choose|way: Seq<(u8, u8)>| #[trigger] leads(maze, way, from, a);
    lemma_joined_back(maze, way, from, a);
    lemma_joined_on(maze, a, from, b);
}

/// A maze whose cells are joined as a tree stays so whatever its cells
/// come to hold, while the positions between them stay as they are.
pub proof fn lemma_tree_whatever_cells(before: &Maze, after: &Maze)
    requires
        before.wf(),
        after.spec_width() == before.spec_width(),
        after.spec_height() == before.spec_height(),
        walls_kept(before, after),
        is_tree(before),
    ensures
        is_tree(after),
{
    lemma_walls_kept_as_open(before, after);
    lemma_as_open(before, after);
    let from = choose|from: (u8, u8)|
        before.spec_in_bounds(from) && forall|c: (u8, u8)|
            before.spec_in_bounds(c) ==> #[trigger] joined(before, from, c);
    assert forall|c: (u8, u8)| after.spec_in_bounds(c) implies #[trigger] joined(after, from, c) by {
        assert(joined(before, from, c));
        lemma_joined_persists(before, after, from, c);
    }
    assert(after.spec_in_bounds(from));
}

/// A cell is joined to itself.
pub proof fn lemma_joined_self(maze: &Maze, a: (u8, u8))
    requires
        maze.spec_in_bounds(a),
    ensures
        joined(maze, a, a),
{
    assert(leads(maze, seq![a], a, a));
}

/// A cell that a free step leads to from a joined cell is joined.
pub proof fn lemma_joined_step(maze: &Maze, a: (u8, u8), b: (u8, u8), c: (u8, u8))
    requires
        joined(maze, a, b),
        passable(maze, b, c),
    ensures
        joined(maze, a, c),
{
    let way = choose|way: Seq<(u8, u8)>| #[trigger] leads(maze, way, a, b);
    let longer = way.push(c);
    assert forall|i: int| 0 <= i < longer.len() - 1 implies passable(
        maze,
        (#[trigger] hop(longer, i)).0,
        hop(longer, i).1,
    ) by {
        if i < way.len() - 1 {
            assert(hop(longer, i) == hop(way, i));
        }
    }
    assert(leads(maze, longer, a, c));
}

/// Cells stay joined where walls are only opened.
pub proof fn lemma_joined_persists(before: &Maze, after: &Maze, a: (u8, u8), b: (u8, u8))
    requires
        before.wf(),
        after.spec_width() == before.spec_width(),
        after.spec_height() == before.spec_height(),
        walls_only_opened(before, after),
        joined(before, a, b),
    ensures
        joined(after, a, b),
{
    let way = choose|way: Seq<(u8, u8)>| #[trigger] leads(before, way, a, b);
    assert forall|i: int| 0 <= i < way.len() - 1 implies passable(
        after,
        (#[trigger] hop(way, i)).0,
        hop(way, i).1,
    ) by {
        assert(passable(before, hop(way, i).0, hop(way, i).1));
        lemma_gap(before, hop(way, i).0, hop(way, i).1);
    }
    assert(leads(after, way, a, b));
}

/// Whether every neighbour of an open cell of the maze is open too.
pub open spec fn open_cells_closed(maze: &Maze) -> bool {
    forall|a: (u8, u8), b: (u8, u8)|
        maze.spec_in_bounds(a) && maze.spec_in_bounds(b) && #[trigger] are_neighbors(a, b)
            && maze.spec_cell(a) == GridCell::empty() ==> maze.spec_cell(b) == GridCell::empty()
}

/// Steps from one cell to another along rows and columns.
pub open spec fn distance(a: (u8, u8), b: (u8, u8)) -> nat {
    ((if a.0 > b.0 {
        a.0 - b.0
    } else {
        b.0 - a.0
    }) + (if a.1 > b.1 {
        a.1 - b.1
    } else {
        b.1 - a.1
    })) as nat
}

/// Where every neighbour of an open cell is open and one cell is open,
/// every cell is open: each cell is reached from the open one through
/// neighbours.
pub proof fn lemma_open_spreads(maze: &Maze, from: (u8, u8), to: (u8, u8))
    requires
        open_cells_closed(maze),
        maze.spec_in_bounds(from),
        maze.spec_in_bounds(to),
        maze.spec_cell(from) == GridCell::empty(),
    ensures
        maze.spec_cell(to) == GridCell::empty(),
    decreases distance(from, to),
{
    if to != from {
        let nearer: (u8, u8) = if to.0 > from.0 {
            ((to.0 - 1) as u8, to.1)
        } else if to.0 < from.0 {
            ((to.0 + 1) as u8, to.1)
        } else if to.1 > from.1 {
            (to.0, (to.1 - 1) as u8)
        } else {
            (to.0, (to.1 + 1) as u8)
        };
        lemma_open_spreads(maze, from, nearer);
        assert(are_neighbors(nearer, to));
    }
}

/// Which wall separates two neighbouring cells: the cell that the wall
/// comes after, and the wall's orientation.
pub open spec fn wall_between(a: (u8, u8), b: (u8, u8)) -> ((u8, u8), Orientation) {
    if a.0 == b.0 {
        (
            if b.1 < a.1 {
                b
            } else {
                a
            },
            Orientation::Horizontal,
        )
    } else {
        (
            if b.0 < a.0 {
                b
            } else {
                a
            },
            Orientation::Vertical,
        )
    }
}

/// The wall between two neighbouring cells of a maze lies in its grid, off
/// the cells, after the one of the two that comes first.
pub proof fn lemma_gap(maze: &Maze, a: (u8, u8), b: (u8, u8))
    requires
        maze.wf(),
        maze.spec_in_bounds(a),
        maze.spec_in_bounds(b),
        are_neighbors(a, b),
    ensures
        maze.spec_grid().contains(wall_coord(wall_between(a, b).0, wall_between(a, b).1)),
        !is_cell_coord(wall_coord(wall_between(a, b).0, wall_between(a, b).1)),
        maze.has_cell_after(wall_between(a, b).0, wall_between(a, b).1),
        wall_between(a, b) == wall_between(b, a),
{
    maze.lemma_wf();
}

/// Opens the wall between two neighbouring cells. Returns whether a wall
/// stood there.
pub fn open_between(maze: &mut Maze, a: (u8, u8), b: (u8, u8)) -> (removed: bool)
    requires
        old(maze).wf(),
        old(maze).spec_in_bounds(a),
        old(maze).spec_in_bounds(b),
        are_neighbors(a, b),
    ensures
        removed == old(maze).spec_is_wall_after(wall_between(a, b).0, wall_between(a, b).1),
        removed ==> final(maze).is_put(
            old(maze),
            wall_coord(wall_between(a, b).0, wall_between(a, b).1),
            GridCell::empty(),
        ),
        !removed ==> *final(maze) == *old(maze),
{
    let (from, orientation) = if a.0 == b.0 {
        (
            if b.1 < a.1 {
                b
            } else {
                a
            },
            Orientation::Horizontal,
        )
    } else {
        (
            if b.0 < a.0 {
                b
            } else {
                a
            },
            Orientation::Vertical,
        )
    };
    maze.remove_wall_cell_after(from, orientation)
}

/// Runs the chosen generation algorithm on the maze. Whatever it draws,
/// the grid only emits valid updates, every cell of the maze ends open and
/// joined to every other by ways that no wall is in the way of, and the
/// boundary of the grid stays as it was; a maze without cells is left as
/// it is. Division and Kruskal leave one wall fewer open than there are
/// cells, and so do backtracking and Prim where no wall between two cells
/// was open before. Backtracking and Prim draw their
/// first cell from the maze, so they take no maze that has rows without
/// columns or columns without rows.
pub fn generate_maze(maze: &mut Maze, generator: Generator, seed: Option<u64>)
    requires
        old(maze).wf(),
        generator == Generator::RecurBacktrack || generator == Generator::Prim ==> (old(maze).spec_width() == 0) == (old(maze).spec_height() == 0),
    ensures
        final(maze).extends(old(maze)),
        old(maze).spec_width() == 0 && old(maze).spec_height() == 0 ==> *final(maze) == *old(maze),
        forall|c: (u8, u8)|
            final(maze).spec_in_bounds(c) ==> #[trigger] final(maze).spec_cell(c)
                == GridCell::empty(),
        old(maze).spec_width() > 0 && old(maze).spec_height() > 0 ==> all_joined(final(maze)),
        old(maze).spec_width() > 0 && old(maze).spec_height() > 0 && (generator
            == Generator::RecurDiv || generator == Generator::Kruskal || no_open_walls(old(maze)))
            ==> is_tree(final(maze)),
        boundary_kept(old(maze), final(maze)),
{
    match generator {
        Generator::RecurBacktrack => recursive_backtrack(maze, seed),
        Generator::Prim => randomized_prim(maze, seed),
        Generator::RecurDiv => recursive_division(maze, seed),
        Generator::Kruskal => randomized_kruskal(maze, seed),
    }
}

} // verus!
