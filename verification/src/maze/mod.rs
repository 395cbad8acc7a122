//! The maze, its cell grid, and the events a grid emits while it changes.

pub mod cell;
pub mod grid;

pub use crate::maze::cell::{GridCell, Orientation, PathType, WallType};
pub use crate::maze::grid::{Grid, GridEvent};

use vstd::prelude::*;
use std::sync::mpsc::SyncSender;
use crate::maze::grid::lemma_row_major;

verus! {

/// Position in the grid of the maze cell `coord`.
pub open spec fn cell_coord(coord: (u8, u8)) -> (u16, u16) {
    ((2 * coord.0 + 1) as u16, (2 * coord.1 + 1) as u16)
}

/// Position in the grid of the wall after the maze cell `from`: below it
/// for a horizontal wall, to its right for a vertical one.
pub open spec fn wall_coord(from: (u8, u8), orientation: Orientation) -> (u16, u16) {
    match orientation {
        Orientation::Horizontal => ((2 * from.0 + 1) as u16, (2 * from.1 + 2) as u16),
        Orientation::Vertical => ((2 * from.0 + 2) as u16, (2 * from.1 + 1) as u16),
    }
}

/// Position in the grid of the passage after the maze cell `from`: to its
/// right for a horizontal passage, below it for a vertical one.
pub open spec fn passage_coord(from: (u8, u8), orientation: Orientation) -> (u16, u16) {
    match orientation {
        Orientation::Horizontal => ((2 * from.0 + 2) as u16, (2 * from.1 + 1) as u16),
        Orientation::Vertical => ((2 * from.0 + 1) as u16, (2 * from.1 + 2) as u16),
    }
}

/// A maze of `width` by `height` cells on a grid that also holds the walls
/// between and around them: cell (x, y) stands at grid position
/// (2x + 1, 2y + 1).
pub struct Maze {
    grid: Grid,
    width: u8,
    height: u8,
}

impl Maze {
    /// The grid under the maze.
    pub closed spec fn spec_grid(&self) -> &Grid {
        &self.grid
    }

    /// Number of cell columns.
    pub closed spec fn spec_width(&self) -> u8 {
        self.width
    }

    /// Number of cell rows.
    pub closed spec fn spec_height(&self) -> u8 {
        self.height
    }

    /// The grid is well-formed and has room for the cells and their walls.
    pub closed spec fn wf(&self) -> bool {
        &&& self.grid.wf()
        &&& self.grid.spec_width() == 2 * self.width + 1
        &&& self.grid.spec_height() == 2 * self.height + 1
    }

    /// What well-formedness says, in terms of the public specification.
    pub proof fn lemma_wf(&self)
        requires
            self.wf(),
        ensures
            self.spec_grid().wf(),
            self.spec_grid().spec_width() == 2 * self.spec_width() + 1,
            self.spec_grid().spec_height() == 2 * self.spec_height() + 1,
    {
    }

    /// Whether `coord` is a cell of the maze.
    pub open spec fn spec_in_bounds(&self, coord: (u8, u8)) -> bool {
        coord.0 < self.spec_width() && coord.1 < self.spec_height()
    }

    /// The maze cell at `coord`.
    pub open spec fn spec_cell(&self, coord: (u8, u8)) -> GridCell
        recommends
            self.spec_in_bounds(coord),
    {
        self.spec_grid().spec_get(cell_coord(coord))
    }

    /// The maze is `before` after some changes to its grid.
    pub open spec fn extends(&self, before: &Maze) -> bool {
        &&& self.wf()
        &&& self.spec_width() == before.spec_width()
        &&& self.spec_height() == before.spec_height()
        &&& self.spec_grid().extends(before.spec_grid())
    }

    /// A well-formed maze extends itself.
    pub proof fn lemma_extends_self(&self)
        requires
            self.wf(),
        ensures
            self.extends(self),
    {
        assert(self.spec_grid().emitted().is_prefix_of(self.spec_grid().emitted()));
    }

    /// Changes upon changes are changes.
    pub proof fn lemma_extends_chain(&self, mid: &Maze, before: &Maze)
        requires
            self.extends(mid),
            mid.extends(before),
        ensures
            self.extends(before),
    {
        let a = before.spec_grid().emitted();
        let b = mid.spec_grid().emitted();
        let c = self.spec_grid().emitted();
        assert(a =~= c.subrange(0, a.len() as int)) by {
            assert(a =~= b.subrange(0, a.len() as int));
            assert(b =~= c.subrange(0, b.len() as int));
        }
    }

    /// The maze is `before` after `cell` was put at grid position `at`.
    pub open spec fn is_put(&self, before: &Maze, at: (u16, u16), cell: GridCell) -> bool {
        &&& self.extends(before)
        &&& self.spec_grid().is_put(before.spec_grid(), at, cell)
    }

    /// Whether a wall stands after the cell `from` in the given
    /// orientation.
    pub open spec fn spec_is_wall_after(&self, from: (u8, u8), orientation: Orientation) -> bool {
        self.spec_grid().spec_get(wall_coord(from, orientation)) is Wall
    }

    /// Whether the cell `from` has a neighbour after it in the given
    /// orientation: below it for a horizontal wall, to its right for a
    /// vertical one.
    pub open spec fn has_cell_after(&self, from: (u8, u8), orientation: Orientation) -> bool {
        &&& self.spec_in_bounds(from)
        &&& match orientation {
            Orientation::Horizontal => from.1 + 1 < self.spec_height(),
            Orientation::Vertical => from.0 + 1 < self.spec_width(),
        }
    }

    /// The grid under the maze.
    pub fn grid(&self) -> (g: &Grid)
        ensures
            g == self.spec_grid(),
    {
        &self.grid
    }

    /// Number of cell rows.
    pub fn height(&self) -> (h: u8)
        ensures
            h == self.spec_height(),
    {
        self.height
    }

    /// Number of cell columns.
    pub fn width(&self) -> (w: u8)
        ensures
            w == self.spec_width(),
    {
        self.width
    }

    /// Whether the maze has no cells in either direction.
    pub fn is_empty(&self) -> (b: bool)
        ensures
            b == (self.spec_width() == 0 && self.spec_height() == 0),
    {
        self.width == 0 && self.height == 0
    }

    /// Whether `coord` is a cell of the maze.
    pub fn is_in_bounds(&self, coord: (u8, u8)) -> (b: bool)
        ensures
            b == self.spec_in_bounds(coord),
    {
        coord.0 < self.width && coord.1 < self.height
    }

    /// The maze cell at `coord`.
    pub fn cell_at(&self, coord: (u8, u8)) -> (cell: &GridCell)
        requires
            self.wf(),
            self.spec_in_bounds(coord),
        ensures
            *cell == self.spec_cell(coord),
    {
        self.grid.get((coord.0 as u16 * 2 + 1, coord.1 as u16 * 2 + 1))
    }

    /// Puts `cell` at the maze cell `coord` and returns the cell's position
    /// in the grid.
    pub fn set(&mut self, coord: (u8, u8), cell: GridCell) -> (at: (u16, u16))
        requires
            old(self).wf(),
            old(self).spec_in_bounds(coord),
        ensures
            at == cell_coord(coord),
            final(self).is_put(old(self), at, cell),
    {
        let at = (coord.0 as u16 * 2 + 1, coord.1 as u16 * 2 + 1);
        self.grid.set(at, cell);
        at
    }

    /// Whether two cells are neighbours in a row or in a column.
    pub fn are_adjacent(&self, a: (u8, u8), b: (u8, u8)) -> (r: bool)
        ensures
            r == ((a.0 == b.0 && (a.1 - b.1 == 1 || b.1 - a.1 == 1)) || (a.1 == b.1 && (a.0 - b.0
                == 1 || b.0 - a.0 == 1))),
    {
        let dx = if a.0 > b.0 {
            a.0 - b.0
        } else {
            b.0 - a.0
        };
        let dy = if a.1 > b.1 {
            a.1 - b.1
        } else {
            b.1 - a.1
        };
        (dx == 1 && dy == 0) || (dx == 0 && dy == 1)
    }

    /// Opens the wall between two neighbouring cells.
    pub fn remove_wall(&mut self, a: (u8, u8), b: (u8, u8))
        requires
            old(self).wf(),
            old(self).spec_in_bounds(a),
            old(self).spec_in_bounds(b),
            (a.0 == b.0 && (a.1 - b.1 == 1 || b.1 - a.1 == 1)) || (a.1 == b.1 && (a.0 - b.0 == 1
                || b.0 - a.0 == 1)),
        ensures
            final(self).is_put(
                old(self),
                ((a.0 + b.0 + 1) as u16, (a.1 + b.1 + 1) as u16),
                GridCell::empty(),
            ),
    {
        let wall_x = a.0 as u16 + b.0 as u16 + 1;
        let wall_y = a.1 as u16 + b.1 as u16 + 1;
        self.grid.set((wall_x, wall_y), GridCell::empty());
    }

    /// Opens the wall after the cell `from`: below it for a horizontal
    /// wall, to its right for a vertical one. Returns whether a wall stood
    /// there; an open passage is left as it is.
    pub fn remove_wall_cell_after(&mut self, from: (u8, u8), orientation: Orientation) -> (removed:
        bool)
        requires
            old(self).wf(),
            old(self).has_cell_after(from, orientation),
        ensures
            removed == old(self).spec_is_wall_after(from, orientation),
            removed ==> final(self).is_put(
                old(self),
                wall_coord(from, orientation),
                GridCell::empty(),
            ),
            !removed ==> *final(self) == *old(self),
    {
        let at = match orientation {
            Orientation::Horizontal => (from.0 as u16 * 2 + 1, from.1 as u16 * 2 + 2),
            Orientation::Vertical => (from.0 as u16 * 2 + 2, from.1 as u16 * 2 + 1),
        };
        if self.grid.get(at).is_wall() {
            self.grid.set(at, GridCell::empty());
            true
        } else {
            false
        }
    }

    /// Whether a wall stands after the cell `from`: below it for a
    /// horizontal wall, to its right for a vertical one.
    pub fn is_wall_cell_after(&self, from: (u8, u8), orientation: Orientation) -> (r: bool)
        requires
            self.wf(),
            self.has_cell_after(from, orientation),
        ensures
            r == self.spec_is_wall_after(from, orientation),
    {
        let at = match orientation {
            Orientation::Horizontal => (from.0 as u16 * 2 + 1, from.1 as u16 * 2 + 2),
            Orientation::Vertical => (from.0 as u16 * 2 + 2, from.1 as u16 * 2 + 1),
        };
        self.grid.get(at).is_wall()
    }

    /// Marks the passage after the cell `from`: to its right for a
    /// horizontal passage, below it for a vertical one. The passage becomes
    /// a path cell of kind `path`, or part of the route along
    /// `orientation` where no kind is given. Returns the passage's position
    /// in the grid.
    pub fn set_path_cell_after(
        &mut self,
        from: (u8, u8),
        orientation: Orientation,
        path: Option<PathType>,
    ) -> (at: (u16, u16))
        requires
            old(self).wf(),
            old(self).spec_in_bounds(from),
            match orientation {
                Orientation::Horizontal => from.0 + 1 < old(self).spec_width(),
                Orientation::Vertical => from.1 + 1 < old(self).spec_height(),
            },
        ensures
            at == passage_coord(from, orientation),
            final(self).is_put(
                old(self),
                at,
                GridCell::Path(
                    match path {
                        Some(kind) => kind,
                        None => PathType::Route(orientation),
                    },
                ),
            ),
    {
        let at = match orientation {
            Orientation::Horizontal => (from.0 as u16 * 2 + 2, from.1 as u16 * 2 + 1),
            Orientation::Vertical => (from.0 as u16 * 2 + 1, from.1 as u16 * 2 + 2),
        };
        let kind = match path {
            Some(kind) => kind,
            None => PathType::Route(orientation),
        };
        self.grid.set(at, GridCell::Path(kind));
        at
    }
}

/// Whether the grid position `at` is where a maze cell stands.
pub open spec fn is_cell_coord(at: (u16, u16)) -> bool {
    at.0 % 2 == 1 && at.1 % 2 == 1
}

/// What the grid of a new maze of `width` by `height` cells emits: its
/// declaration as a grid of walls, then the opening of every cell, row by
/// row.
pub open spec fn opening_stream(width: u8, height: u8) -> Seq<GridEvent> {
    seq![
        GridEvent::Initial {
            cell: GridCell::wall(),
            width: (2 * width + 1) as u16,
            height: (2 * height + 1) as u16,
        },
    ] + Seq::new(
        (width * height) as nat,
        |i: int|
            GridEvent::Update {
                coord: cell_coord(((i % (width as int)) as u8, (i / (width as int)) as u8)),
                old: GridCell::wall(),
                new: GridCell::empty(),
            },
    )
}

/// The cells of `maze` that are neighbours of `coord`, in the order left,
/// right, up, down; none where `coord` is no cell of the maze.
pub open spec fn neighbors_of(coord: (u8, u8), width: u8, height: u8) -> Seq<(u8, u8)> {
    if coord.0 < width && coord.1 < height {
        let left: Seq<(u8, u8)> = if coord.0 > 0 {
            seq![((coord.0 - 1) as u8, coord.1)]
        } else {
            Seq::empty()
        };
        let right: Seq<(u8, u8)> = if coord.0 + 1 < width {
            seq![((coord.0 + 1) as u8, coord.1)]
        } else {
            Seq::empty()
        };
        let up: Seq<(u8, u8)> = if coord.1 > 0 {
            seq![(coord.0, (coord.1 - 1) as u8)]
        } else {
            Seq::empty()
        };
        let down: Seq<(u8, u8)> = if coord.1 + 1 < height {
            seq![(coord.0, (coord.1 + 1) as u8)]
        } else {
            Seq::empty()
        };
        left + right + up + down
    } else {
        Seq::empty()
    }
}

/// The neighbours of `coord` in `maze`, in the order left, right, up, down.
pub fn get_neighbors(coord: (u8, u8), maze: &Maze) -> (r: Vec<(u8, u8)>)
    ensures
        r@ == neighbors_of(coord, maze.spec_width(), maze.spec_height()),
        forall|i: int| 0 <= i < r@.len() ==> maze.spec_in_bounds(#[trigger] r@[i]),
{
    let mut r: Vec<(u8, u8)> = Vec::new();
    if maze.is_in_bounds(coord) {
        let (x, y) = coord;
        if x > 0 {
            r.push((x - 1, y));
        }
        if x + 1 < maze.width() {
            r.push((x + 1, y));
        }
        if y > 0 {
            r.push((x, y - 1));
        }
        if y + 1 < maze.height() {
            r.push((x, y + 1));
        }
    }
    assert(r@ =~= neighbors_of(coord, maze.spec_width(), maze.spec_height()));
    r
}

impl Maze {
    /// A maze of `width` by `height` open cells with every wall standing.
    /// The grid emits its declaration and the opening of each cell, to the
    /// channel if one is given.
    #[verifier::rlimit(50)]
    pub fn new(width: u8, height: u8, grid_event_tx: Option<SyncSender<GridEvent>>) -> (m: Self)
        ensures
            m.wf(),
            m.spec_width() == width,
            m.spec_height() == height,
            m.spec_grid().fill() == GridCell::wall(),
            m.spec_grid().is_connected() == grid_event_tx.is_some(),
            forall|at: (u16, u16)|
                m.spec_grid().contains(at) ==> #[trigger] m.spec_grid().spec_get(at) == (
                if is_cell_coord(at) {
                    GridCell::empty()
                } else {
                    GridCell::wall()
                }),
            m.spec_grid().emitted() == opening_stream(width, height),
    {
        let grid_height: u16 = height as u16 * 2 + 1;
        let grid_width: u16 = width as u16 * 2 + 1;
        let mut maze = Maze {
            grid: Grid::new(grid_width, grid_height, GridCell::wall(), grid_event_tx),
            width,
            height,
        };
        let ghost declared = maze.grid.emitted();
        proof {
            assert forall|at: (u16, u16)| maze.grid.contains(at) implies #[trigger] maze.grid.spec_get(
                at,
            ) == GridCell::wall() by {
                maze.grid.lemma_index_in_range(at);
            }
            assert(declared + Seq::new(0, |i: int| opening_stream(width, height)[i + 1])
                =~= declared);
        }
        let mut y: u8 = 0;
        while y < height
            invariant
                y <= height,
                maze.wf(),
                maze.width == width,
                maze.height == height,
                maze.grid.fill() == GridCell::wall(),
                maze.grid.is_connected() == grid_event_tx.is_some(),
                declared == seq![
                    GridEvent::Initial {
                        cell: GridCell::wall(),
                        width: (2 * width + 1) as u16,
                        height: (2 * height + 1) as u16,
                    },
                ],
                forall|at: (u16, u16)|
                    maze.grid.contains(at) ==> #[trigger] maze.grid.spec_get(at) == (
                    if is_cell_coord(at) && at.1 < 2 * y {
                        GridCell::empty()
                    } else {
                        GridCell::wall()
                    }),
                maze.grid.emitted() == declared + Seq::new(
                    (y * width) as nat,
                    |i: int| opening_stream(width, height)[i + 1],
                ),
            decreases height - y,
        {
            let mut x: u8 = 0;
            while x < width
                invariant
                    y < height,
                    x <= width,
                    maze.wf(),
                    maze.width == width,
                    maze.height == height,
                    maze.grid.fill() == GridCell::wall(),
                    maze.grid.is_connected() == grid_event_tx.is_some(),
                    declared == seq![
                        GridEvent::Initial {
                            cell: GridCell::wall(),
                            width: (2 * width + 1) as u16,
                            height: (2 * height + 1) as u16,
                        },
                    ],
                    forall|at: (u16, u16)|
                        maze.grid.contains(at) ==> #[trigger] maze.grid.spec_get(at) == (
                        if is_cell_coord(at) && (at.1 < 2 * y || (at.1 == 2 * y + 1 && at.0 < 2
                            * x)) {
                            GridCell::empty()
                        } else {
                            GridCell::wall()
                        }),
                    maze.grid.emitted() == declared + Seq::new(
                        (y * width + x) as nat,
                        |i: int| opening_stream(width, height)[i + 1],
                    ),
                decreases width - x,
            {
                let ghost mid = maze;
                let ghost i = y * width + x;
                let at = maze.set((x, y), GridCell::empty());
                proof {
                    maze.grid.lemma_put_cells(&mid.grid, at, GridCell::empty());
                    lemma_row_major(width as int, x as int, y as int);
                    assert(y * width + x < width * height) by (nonlinear_arith)
                        requires
                            0 <= x < width,
                            0 <= y < height,
                    ;
                    assert(mid.grid.spec_get(at) == GridCell::wall());
                    assert(opening_stream(width, height)[i + 1] == GridEvent::Update {
                        coord: at,
                        old: GridCell::wall(),
                        new: GridCell::empty(),
                    });
                    assert(maze.grid.emitted() =~= declared + Seq::new(
                        (i + 1) as nat,
                        |i: int| opening_stream(width, height)[i + 1],
                    ));
                }
                x += 1;
            }
            proof {
                assert((y + 1) * width == y * width + width) by (nonlinear_arith);
            }
            y += 1;
        }
        proof {
            assert(height * width == width * height) by (nonlinear_arith);
            assert(maze.grid.emitted() =~= opening_stream(width, height));
        }
        maze
    }

    /// Opens every wall inside the maze. The boundary stays.
    pub fn clear_walls(&mut self)
        requires
            old(self).wf(),
        ensures
            final(self).extends(old(self)),
            final(self).spec_grid().cells() == Seq::new(
                old(self).spec_grid().cells().len(),
                |i: int|
                    if crate::maze::grid::on_boundary(
                        old(self).spec_grid().spec_width(),
                        old(self).spec_grid().spec_height(),
                        i,
                    ) {
                        old(self).spec_grid().cells()[i]
                    } else {
                        GridCell::empty()
                    },
            ),
            final(self).spec_grid().emitted() == old(self).spec_grid().emitted()
                + crate::maze::grid::interior_updates(
                old(self).spec_grid().cells(),
                old(self).spec_grid().spec_width(),
                old(self).spec_grid().spec_height(),
                GridCell::empty(),
                old(self).spec_grid().cells().len(),
            ),
    {
        self.grid.fill_interior(GridCell::empty());
    }

    /// Raises a wall on every position inside the maze. The boundary
    /// stays.
    pub fn fill_walls(&mut self)
        requires
            old(self).wf(),
        ensures
            final(self).extends(old(self)),
            final(self).spec_grid().cells() == Seq::new(
                old(self).spec_grid().cells().len(),
                |i: int|
                    if crate::maze::grid::on_boundary(
                        old(self).spec_grid().spec_width(),
                        old(self).spec_grid().spec_height(),
                        i,
                    ) {
                        old(self).spec_grid().cells()[i]
                    } else {
                        GridCell::wall()
                    },
            ),
            final(self).spec_grid().emitted() == old(self).spec_grid().emitted()
                + crate::maze::grid::interior_updates(
                old(self).spec_grid().cells(),
                old(self).spec_grid().spec_width(),
                old(self).spec_grid().spec_height(),
                GridCell::wall(),
                old(self).spec_grid().cells().len(),
            ),
    {
        self.grid.fill_interior(GridCell::wall());
    }

    /// Raises a line of walls after row or column `from`, alongside the
    /// cells from `start` to `end`, both included: below row `from` for a
    /// horizontal line, right of column `from` for a vertical one. Nothing
    /// happens where `start` lies beyond `end`.
    pub fn insert_wall_line_after(&mut self, from: u8, start: u8, end: u8, orientation: Orientation)
        requires
            old(self).wf(),
            match orientation {
                Orientation::Horizontal => from + 1 < old(self).spec_height() && start < old(self).spec_width() && end < old(self).spec_width(),
                Orientation::Vertical => from + 1 < old(self).spec_width() && start < old(self).spec_height() && end < old(self).spec_height(),
            },
        ensures
            final(self).extends(old(self)),
            forall|c: (u16, u16)|
                old(self).spec_grid().contains(c) ==> #[trigger] final(self).spec_grid().spec_get(
                    c,
                ) == (if Grid::on_line(
                    c,
                    (2 * from + 2) as u16,
                    (2 * start + 1) as u16,
                    (2 * end + 1) as u16,
                    orientation,
                ) {
                    GridCell::wall()
                } else {
                    old(self).spec_grid().spec_get(c)
                }),
            final(self).spec_grid().emitted() == old(self).spec_grid().emitted()
                + crate::maze::grid::line_updates(
                old(self).spec_grid(),
                (2 * from + 2) as u16,
                (2 * start + 1) as u16,
                2 * end + 2,
                orientation,
                GridCell::wall(),
            ),
    {
        let fixed: u16 = from as u16 * 2 + 2;
        let first: u16 = start as u16 * 2 + 1;
        let last: u16 = end as u16 * 2 + 1;
        self.grid.fill_line(fixed, first, last, orientation, GridCell::wall());
    }
}

impl vstd::std_specs::core::IndexSpecImpl<(u8, u8)> for Maze {
    /// A maze is indexed by its cells.
    open spec fn index_req(&self, index: &(u8, u8)) -> bool {
        self.wf() && self.spec_in_bounds(*index)
    }
}

impl std::ops::Index<(u8, u8)> for Maze {
    type Output = GridCell;

    /// The maze cell at `index`.
    fn index(&self, index: (u8, u8)) -> (cell: &GridCell)
        ensures
            *cell == self.spec_cell(index),
    {
        self.cell_at(index)
    }
}

} // verus!
