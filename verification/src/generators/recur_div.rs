//! Recursive division: walls are raised across an open maze, each with one
//! hole, and the two sides are divided in turn.

use vstd::prelude::*;
use rand::rngs::StdRng;
use crate::generators::{
    all_joined,
    are_neighbors,
    boundary_kept,
    cell_after,
    gap_open,
    gaps_upto,
    lemma_filled_gaps,
    open_walls,
    row_gaps,
    distance,
    get_rng,
    hop,
    joined,
    leads,
    lemma_boundary_chain,
    lemma_filled_boundary,
    lemma_gap,
    on_edge,
    passable,
    random_half,
    random_u8_below,
    wall_between,
};
use crate::maze::cell::{GridCell, Orientation};
use crate::maze::grid::{line_updates, Grid, GridEvent};
use crate::maze::{cell_coord, is_cell_coord, wall_coord, Maze};

verus! {

/// Whether the region of `width` by `height` cells with `top_left` as its
/// first cell lies inside the maze.
pub open spec fn region_inside(maze: &Maze, top_left: (u8, u8), width: u8, height: u8) -> bool {
    top_left.0 + width <= maze.spec_width() && top_left.1 + height <= maze.spec_height()
}

/// Raises one dividing wall across a region and opens one hole in it. A
/// horizontal wall goes below row `top_left.1 + offset` and has its hole
/// in column `top_left.0 + hole`; a vertical wall goes right of column
/// `top_left.0 + offset` and has its hole in row `top_left.1 + hole`.
#[verifier::rlimit(50)]
pub fn divide_once(
    maze: &mut Maze,
    top_left: (u8, u8),
    width: u8,
    height: u8,
    orientation: Orientation,
    offset: u8,
    hole: u8,
)
    requires
        old(maze).wf(),
        region_inside(old(maze), top_left, width, height),
        width >= 1,
        height >= 1,
        match orientation {
            Orientation::Horizontal => offset + 1 < height && hole < width,
            Orientation::Vertical => offset + 1 < width && hole < height,
        },
    ensures
        final(maze).extends(old(maze)),
        forall|at: (u16, u16)|
            old(maze).spec_grid().contains(at) ==> #[trigger] final(maze).spec_grid().spec_get(at)
                == (if at == hole_coord(top_left, orientation, offset, hole) {
                GridCell::empty()
            } else if Grid::on_line(
                at,
                line_fixed(top_left, orientation, offset),
                line_start(top_left, orientation),
                line_end(top_left, width, height, orientation),
                orientation,
            ) {
                GridCell::wall()
            } else {
                old(maze).spec_grid().spec_get(at)
            }),
        final(maze).spec_grid().emitted() == old(maze).spec_grid().emitted() + line_updates(
            old(maze).spec_grid(),
            line_fixed(top_left, orientation, offset),
            line_start(top_left, orientation),
            line_end(top_left, width, height, orientation) + 1,
            orientation,
            GridCell::wall(),
        ) + seq![
            GridEvent::Update {
                coord: hole_coord(top_left, orientation, offset, hole),
                old: GridCell::wall(),
                new: GridCell::empty(),
            },
        ],
{
    let (x, y) = top_left;
    let ghost m0 = *maze;
    proof {
        m0.lemma_wf();
    }
    match orientation {
        Orientation::Horizontal => {
            let y_wall = y + offset;
            let x_hole = x + hole;
            maze.insert_wall_line_after(y_wall, x, x + width - 1, Orientation::Horizontal);
            let ghost m1 = *maze;
            proof {
                m1.lemma_wf();
                let at = wall_coord((x_hole, y_wall), Orientation::Horizontal);
                assert(at == crate::maze::grid::line_coord(
                    (2 * y_wall + 2) as u16,
                    (2 * x_hole + 1) as u16,
                    Orientation::Horizontal,
                ));
                assert(m1.spec_grid().spec_get(at) == GridCell::wall());
            }
            let removed = maze.remove_wall_cell_after((x_hole, y_wall), Orientation::Horizontal);
            proof {
                assert(removed);
                maze.spec_grid().lemma_put_cells(
                    m1.spec_grid(),
                    wall_coord((x_hole, y_wall), Orientation::Horizontal),
                    GridCell::empty(),
                );
                maze.lemma_extends_chain(&m1, &m0);
            }
        },
        Orientation::Vertical => {
            let x_wall = x + offset;
            let y_hole = y + hole;
            maze.insert_wall_line_after(x_wall, y, y + height - 1, Orientation::Vertical);
            let ghost m1 = *maze;
            proof {
                m1.lemma_wf();
                let at = wall_coord((x_wall, y_hole), Orientation::Vertical);
                assert(at == crate::maze::grid::line_coord(
                    (2 * x_wall + 2) as u16,
                    (2 * y_hole + 1) as u16,
                    Orientation::Vertical,
                ));
                assert(m1.spec_grid().spec_get(at) == GridCell::wall());
            }
            let removed = maze.remove_wall_cell_after((x_wall, y_hole), Orientation::Vertical);
            proof {
                assert(removed);
                maze.spec_grid().lemma_put_cells(
                    m1.spec_grid(),
                    wall_coord((x_wall, y_hole), Orientation::Vertical),
                    GridCell::empty(),
                );
                maze.lemma_extends_chain(&m1, &m0);
            }
        },
    }
}

/// Row or column of the grid that a dividing wall stands in.
pub open spec fn line_fixed(top_left: (u8, u8), orientation: Orientation, offset: u8) -> u16 {
    match orientation {
        Orientation::Horizontal => (2 * (top_left.1 + offset) + 2) as u16,
        Orientation::Vertical => (2 * (top_left.0 + offset) + 2) as u16,
    }
}

/// First position along a dividing wall.
pub open spec fn line_start(top_left: (u8, u8), orientation: Orientation) -> u16 {
    match orientation {
        Orientation::Horizontal => (2 * top_left.0 + 1) as u16,
        Orientation::Vertical => (2 * top_left.1 + 1) as u16,
    }
}

/// Last position along a dividing wall.
pub open spec fn line_end(top_left: (u8, u8), width: u8, height: u8, orientation: Orientation) -> u16 {
    match orientation {
        Orientation::Horizontal => (2 * (top_left.0 + width - 1) + 1) as u16,
        Orientation::Vertical => (2 * (top_left.1 + height - 1) + 1) as u16,
    }
}

/// Position in the grid of the hole in a dividing wall.
pub open spec fn hole_coord(top_left: (u8, u8), orientation: Orientation, offset: u8, hole: u8) -> (
    u16,
    u16,
) {
    match orientation {
        Orientation::Horizontal => wall_coord(
            ((top_left.0 + hole) as u8, (top_left.1 + offset) as u8),
            Orientation::Horizontal,
        ),
        Orientation::Vertical => wall_coord(
            ((top_left.0 + offset) as u8, (top_left.1 + hole) as u8),
            Orientation::Vertical,
        ),
    }
}

/// Whether the cell `c` lies in the region of `width` by `height` cells
/// with `top_left` as its first cell.
pub open spec fn in_region(c: (u8, u8), top_left: (u8, u8), width: u8, height: u8) -> bool {
    top_left.0 <= c.0 < top_left.0 + width && top_left.1 <= c.1 < top_left.1 + height
}

/// Whether the grid position `at` lies within the region: on one of its
/// cells or between two of them.
pub open spec fn within(at: (u16, u16), top_left: (u8, u8), width: u8, height: u8) -> bool {
    &&& 2 * top_left.0 + 1 <= at.0 <= 2 * (top_left.0 + width) - 1
    &&& 2 * top_left.1 + 1 <= at.1 <= 2 * (top_left.1 + height) - 1
}

/// Whether `way` leads from `a` to `b` by free steps without leaving the
/// region.
pub open spec fn leads_in(
    maze: &Maze,
    way: Seq<(u8, u8)>,
    a: (u8, u8),
    b: (u8, u8),
    top_left: (u8, u8),
    width: u8,
    height: u8,
) -> bool {
    &&& leads(maze, way, a, b)
    &&& forall|i: int| 0 <= i < way.len() ==> in_region(#[trigger] way[i], top_left, width, height)
}

/// Whether some way leads from `a` to `b` without leaving the region.
pub open spec fn joined_in(
    maze: &Maze,
    a: (u8, u8),
    b: (u8, u8),
    top_left: (u8, u8),
    width: u8,
    height: u8,
) -> bool {
    exists|way: Seq<(u8, u8)>| #[trigger] leads_in(maze, way, a, b, top_left, width, height)
}

/// Whether no wall stands between any two neighbouring cells of the
/// region.
pub open spec fn region_clear(maze: &Maze, top_left: (u8, u8), width: u8, height: u8) -> bool {
    forall|a: (u8, u8), b: (u8, u8)|
        in_region(a, top_left, width, height) && in_region(b, top_left, width, height)
            && #[trigger] are_neighbors(a, b) ==> passable(maze, a, b)
}

/// Whether every cell of the region is joined to every other by a way
/// that stays in the region.
pub open spec fn region_joined(maze: &Maze, top_left: (u8, u8), width: u8, height: u8) -> bool {
    forall|a: (u8, u8), b: (u8, u8)|
        in_region(a, top_left, width, height) && in_region(b, top_left, width, height)
            ==> #[trigger] joined_in(maze, a, b, top_left, width, height)
}

/// Whether the grid of `after` is as that of `before` everywhere but
/// within the region.
pub open spec fn kept_outside(
    before: &Maze,
    after: &Maze,
    top_left: (u8, u8),
    width: u8,
    height: u8,
) -> bool {
    forall|at: (u16, u16)|
        before.spec_grid().contains(at) && !within(at, top_left, width, height)
            ==> #[trigger] after.spec_grid().spec_get(at) == before.spec_grid().spec_get(at)
}

/// A free step between two cells of a region joins them in it.
pub proof fn lemma_joined_in_hop(
    maze: &Maze,
    a: (u8, u8),
    b: (u8, u8),
    top_left: (u8, u8),
    width: u8,
    height: u8,
)
    requires
        passable(maze, a, b),
        in_region(a, top_left, width, height),
        in_region(b, top_left, width, height),
    ensures
        joined_in(maze, a, b, top_left, width, height),
{
    let way = seq![a, b];
    assert forall|i: int| 0 <= i < way.len() - 1 implies passable(
        maze,
        (#[trigger] hop(way, i)).0,
        hop(way, i).1,
    ) by {
        assert(hop(way, i) == (a, b));
    }
    assert(leads_in(maze, way, a, b, top_left, width, height));
}

/// Where a way in the region leads from `a` to `b` and one from `b` to
/// `c`, one leads from `a` to `c`.
pub proof fn lemma_joined_in_on(
    maze: &Maze,
    a: (u8, u8),
    b: (u8, u8),
    c: (u8, u8),
    top_left: (u8, u8),
    width: u8,
    height: u8,
)
    requires
        joined_in(maze, a, b, top_left, width, height),
        joined_in(maze, b, c, top_left, width, height),
    ensures
        joined_in(maze, a, c, top_left, width, height),
{
    let first = choose|way: Seq<(u8, u8)>| #[trigger]
        leads_in(maze, way, a, b, top_left, width, height);
    let second = choose|way: Seq<(u8, u8)>| #[trigger]
        leads_in(maze, way, b, c, top_left, width, height);
    let way = first + second.subrange(1, second.len() as int);
    assert forall|i: int| 0 <= i < way.len() - 1 implies passable(
        maze,
        (#[trigger] hop(way, i)).0,
        hop(way, i).1,
    ) by {
        if i < first.len() - 1 {
            assert(hop(way, i) == hop(first, i));
        } else {
            let k = i - (first.len() - 1);
            assert(hop(way, i) == hop(second, k));
        }
    }
    assert forall|i: int| 0 <= i < way.len() implies in_region(
        #[trigger] way[i],
        top_left,
        width,
        height,
    ) by {
        if i < first.len() {
            assert(way[i] == first[i]);
        } else {
            assert(way[i] == second[i - first.len() + 1]);
        }
    }
    assert(leads_in(maze, way, a, c, top_left, width, height));
}

/// Cells joined in a part of a region are joined in the region.
pub proof fn lemma_joined_in_wider(
    maze: &Maze,
    a: (u8, u8),
    b: (u8, u8),
    part: ((u8, u8), u8, u8),
    top_left: (u8, u8),
    width: u8,
    height: u8,
)
    requires
        joined_in(maze, a, b, part.0, part.1, part.2),
        forall|c: (u8, u8)|
            in_region(c, part.0, part.1, part.2) ==> in_region(c, top_left, width, height),
    ensures
        joined_in(maze, a, b, top_left, width, height),
{
    let way = choose|way: Seq<(u8, u8)>| #[trigger]
        leads_in(maze, way, a, b, part.0, part.1, part.2);
    assert(leads_in(maze, way, a, b, top_left, width, height));
}

/// Cells joined in a region are joined in the maze.
pub proof fn lemma_joined_in_maze(
    maze: &Maze,
    a: (u8, u8),
    b: (u8, u8),
    top_left: (u8, u8),
    width: u8,
    height: u8,
)
    requires
        joined_in(maze, a, b, top_left, width, height),
    ensures
        joined(maze, a, b),
{
    let way = choose|way: Seq<(u8, u8)>| #[trigger]
        leads_in(maze, way, a, b, top_left, width, height);
    assert(leads(maze, way, a, b));
}

/// Cells joined in a region stay joined in it while nothing changes
/// within the region.
pub proof fn lemma_joined_in_persists(
    before: &Maze,
    after: &Maze,
    a: (u8, u8),
    b: (u8, u8),
    top_left: (u8, u8),
    width: u8,
    height: u8,
)
    requires
        before.wf(),
        after.spec_width() == before.spec_width(),
        after.spec_height() == before.spec_height(),
        joined_in(before, a, b, top_left, width, height),
        forall|at: (u16, u16)|
            before.spec_grid().contains(at) && within(at, top_left, width, height)
                ==> #[trigger] after.spec_grid().spec_get(at) == before.spec_grid().spec_get(at),
    ensures
        joined_in(after, a, b, top_left, width, height),
{
    let way = choose|way: Seq<(u8, u8)>| #[trigger]
        leads_in(before, way, a, b, top_left, width, height);
    assert forall|i: int| 0 <= i < way.len() - 1 implies passable(
        after,
        (#[trigger] hop(way, i)).0,
        hop(way, i).1,
    ) by {
        let from = hop(way, i).0;
        let to = hop(way, i).1;
        assert(passable(before, from, to));
        assert(in_region(way[i], top_left, width, height));
        assert(in_region(way[i + 1], top_left, width, height));
        lemma_gap(before, from, to);
        lemma_gap_within(from, to, top_left, width, height);
    }
    assert(leads_in(after, way, a, b, top_left, width, height));
}

/// The wall between two neighbouring cells of a region lies within the
/// region.
pub proof fn lemma_gap_within(
    a: (u8, u8),
    b: (u8, u8),
    top_left: (u8, u8),
    width: u8,
    height: u8,
)
    requires
        in_region(a, top_left, width, height),
        in_region(b, top_left, width, height),
        are_neighbors(a, b),
    ensures
        within(
            wall_coord(wall_between(a, b).0, wall_between(a, b).1),
            top_left,
            width,
            height,
        ),
{
}

/// In a region that no wall stands in, every cell is joined to every
/// other.
pub proof fn lemma_clear_joined(
    maze: &Maze,
    a: (u8, u8),
    b: (u8, u8),
    top_left: (u8, u8),
    width: u8,
    height: u8,
)
    requires
        maze.wf(),
        region_inside(maze, top_left, width, height),
        region_clear(maze, top_left, width, height),
        in_region(a, top_left, width, height),
        in_region(b, top_left, width, height),
    ensures
        joined_in(maze, a, b, top_left, width, height),
    decreases distance(a, b),
{
    if a == b {
        assert(leads_in(maze, seq![a], a, b, top_left, width, height));
    } else {
        let nearer: (u8, u8) = if b.0 > a.0 {
            ((b.0 - 1) as u8, b.1)
        } else if b.0 < a.0 {
            ((b.0 + 1) as u8, b.1)
        } else if b.1 > a.1 {
            (b.0, (b.1 - 1) as u8)
        } else {
            (b.0, (b.1 + 1) as u8)
        };
        lemma_clear_joined(maze, a, nearer, top_left, width, height);
        assert(are_neighbors(nearer, b));
        lemma_joined_in_hop(maze, nearer, b, top_left, width, height);
        lemma_joined_in_on(maze, a, nearer, b, top_left, width, height);
    }
}

/// Where a region falls into two parts, the cells of each part are joined
/// in it, and a free step leads from one part to the other, the cells of
/// the region are joined in it.
pub proof fn lemma_parts_joined(
    maze: &Maze,
    first: ((u8, u8), u8, u8),
    second: ((u8, u8), u8, u8),
    from: (u8, u8),
    to: (u8, u8),
    top_left: (u8, u8),
    width: u8,
    height: u8,
)
    requires
        maze.wf(),
        region_joined(maze, first.0, first.1, first.2),
        region_joined(maze, second.0, second.1, second.2),
        in_region(from, first.0, first.1, first.2),
        in_region(to, second.0, second.1, second.2),
        passable(maze, from, to),
        forall|c: (u8, u8)|
            in_region(c, top_left, width, height) <==> in_region(c, first.0, first.1, first.2)
                || in_region(c, second.0, second.1, second.2),
    ensures
        region_joined(maze, top_left, width, height),
{
    crate::generators::lemma_passable_back(maze, from, to);
    lemma_joined_in_hop(maze, from, to, top_left, width, height);
    lemma_joined_in_hop(maze, to, from, top_left, width, height);
    assert forall|a: (u8, u8), b: (u8, u8)|
        in_region(a, top_left, width, height) && in_region(
            b,
            top_left,
            width,
            height,
        ) implies #[trigger] joined_in(maze, a, b, top_left, width, height) by {
        let a_first = in_region(a, first.0, first.1, first.2);
        let b_first = in_region(b, first.0, first.1, first.2);
        if a_first && b_first {
            assert(joined_in(maze, a, b, first.0, first.1, first.2));
            lemma_joined_in_wider(maze, a, b, first, top_left, width, height);
        } else if !a_first && !b_first {
            assert(joined_in(maze, a, b, second.0, second.1, second.2));
            lemma_joined_in_wider(maze, a, b, second, top_left, width, height);
        } else if a_first {
            assert(joined_in(maze, a, from, first.0, first.1, first.2));
            assert(joined_in(maze, to, b, second.0, second.1, second.2));
            lemma_joined_in_wider(maze, a, from, first, top_left, width, height);
            lemma_joined_in_wider(maze, to, b, second, top_left, width, height);
            lemma_joined_in_on(maze, a, from, to, top_left, width, height);
            lemma_joined_in_on(maze, a, to, b, top_left, width, height);
        } else {
            assert(joined_in(maze, a, to, second.0, second.1, second.2));
            assert(joined_in(maze, from, b, first.0, first.1, first.2));
            lemma_joined_in_wider(maze, a, to, second, top_left, width, height);
            lemma_joined_in_wider(maze, from, b, first, top_left, width, height);
            lemma_joined_in_on(maze, a, to, from, top_left, width, height);
            lemma_joined_in_on(maze, a, from, b, top_left, width, height);
        }
    }
}

/// The side of a divided region that holds its first cell.
pub open spec fn first_side(
    top_left: (u8, u8),
    width: u8,
    height: u8,
    orientation: Orientation,
    offset: u8,
) -> ((u8, u8), u8, u8) {
    match orientation {
        Orientation::Horizontal => (top_left, width, (offset + 1) as u8),
        Orientation::Vertical => (top_left, (offset + 1) as u8, height),
    }
}

/// The side of a divided region beyond the dividing wall.
pub open spec fn second_side(
    top_left: (u8, u8),
    width: u8,
    height: u8,
    orientation: Orientation,
    offset: u8,
) -> ((u8, u8), u8, u8) {
    match orientation {
        Orientation::Horizontal => (
            (top_left.0, (top_left.1 + offset + 1) as u8),
            width,
            (height - offset - 1) as u8,
        ),
        Orientation::Vertical => (
            ((top_left.0 + offset + 1) as u8, top_left.1),
            (width - offset - 1) as u8,
            height,
        ),
    }
}

/// The two cells that the hole in a dividing wall lies between.
pub open spec fn hole_cells(
    top_left: (u8, u8),
    orientation: Orientation,
    offset: u8,
    hole: u8,
) -> ((u8, u8), (u8, u8)) {
    match orientation {
        Orientation::Horizontal => (
            ((top_left.0 + hole) as u8, (top_left.1 + offset) as u8),
            ((top_left.0 + hole) as u8, (top_left.1 + offset + 1) as u8),
        ),
        Orientation::Vertical => (
            ((top_left.0 + offset) as u8, (top_left.1 + hole) as u8),
            ((top_left.0 + offset + 1) as u8, (top_left.1 + hole) as u8),
        ),
    }
}

/// What a maze holds after one dividing wall with its hole was raised
/// across a region of `before`.
pub open spec fn divided_once(
    before: &Maze,
    after: &Maze,
    top_left: (u8, u8),
    width: u8,
    height: u8,
    orientation: Orientation,
    offset: u8,
    hole: u8,
) -> bool {
    forall|at: (u16, u16)|
        before.spec_grid().contains(at) ==> #[trigger] after.spec_grid().spec_get(at) == (if at
            == hole_coord(top_left, orientation, offset, hole) {
            GridCell::empty()
        } else if Grid::on_line(
            at,
            line_fixed(top_left, orientation, offset),
            line_start(top_left, orientation),
            line_end(top_left, width, height, orientation),
            orientation,
        ) {
            GridCell::wall()
        } else {
            before.spec_grid().spec_get(at)
        })
}

/// A dividing wall and its hole lie within the region, and on neither of
/// its two sides.
pub proof fn lemma_wall_place(
    top_left: (u8, u8),
    width: u8,
    height: u8,
    orientation: Orientation,
    offset: u8,
    hole: u8,
    at: (u16, u16),
)
    requires
        top_left.0 + width <= 255,
        top_left.1 + height <= 255,
        match orientation {
            Orientation::Horizontal => offset + 1 < height && hole < width,
            Orientation::Vertical => offset + 1 < width && hole < height,
        },
        at == hole_coord(top_left, orientation, offset, hole) || Grid::on_line(
            at,
            line_fixed(top_left, orientation, offset),
            line_start(top_left, orientation),
            line_end(top_left, width, height, orientation),
            orientation,
        ),
    ensures
        within(at, top_left, width, height),
        ({
            let first = first_side(top_left, width, height, orientation, offset);
            !within(at, first.0, first.1, first.2)
        }),
        ({
            let second = second_side(top_left, width, height, orientation, offset);
            !within(at, second.0, second.1, second.2)
        }),
{
}

/// Whether the wall after cell `c` lies on the dividing wall of a region,
/// the hole being left out.
pub open spec fn shut_by(
    top_left: (u8, u8),
    width: u8,
    height: u8,
    orientation: Orientation,
    offset: u8,
    hole: u8,
    c: (u8, u8),
    o: Orientation,
) -> bool {
    &&& o == orientation
    &&& c != hole_cells(top_left, orientation, offset, hole).0
    &&& match orientation {
        Orientation::Horizontal => c.1 == top_left.1 + offset && top_left.0 <= c.0 < top_left.0
            + width,
        Orientation::Vertical => c.0 == top_left.0 + offset && top_left.1 <= c.1 < top_left.1
            + height,
    }
}

/// Whether the walls between the cells of `after` are open where those of
/// `before` are, but for those on a dividing wall, which were open.
pub open spec fn line_shut(
    before: &Maze,
    after: &Maze,
    top_left: (u8, u8),
    width: u8,
    height: u8,
    orientation: Orientation,
    offset: u8,
    hole: u8,
) -> bool {
    forall|c: (u8, u8), o: Orientation|
        gap_open(before, c, o) == #[trigger] gap_open(after, c, o) + (if shut_by(
            top_left,
            width,
            height,
            orientation,
            offset,
            hole,
            c,
            o,
        ) {
            1nat
        } else {
            0nat
        })
}

/// A dividing wall across a region that no wall stood in shuts the walls
/// that it runs over, but for the hole, and no other.
pub proof fn lemma_line_shut(
    before: &Maze,
    after: &Maze,
    top_left: (u8, u8),
    width: u8,
    height: u8,
    orientation: Orientation,
    offset: u8,
    hole: u8,
)
    requires
        before.wf(),
        after.extends(before),
        region_inside(before, top_left, width, height),
        match orientation {
            Orientation::Horizontal => offset + 1 < height && hole < width,
            Orientation::Vertical => offset + 1 < width && hole < height,
        },
        region_clear(before, top_left, width, height),
        divided_once(before, after, top_left, width, height, orientation, offset, hole),
    ensures
        line_shut(before, after, top_left, width, height, orientation, offset, hole),
{
    before.lemma_wf();
    let gap = hole_coord(top_left, orientation, offset, hole);
    assert forall|c: (u8, u8), o: Orientation|
        gap_open(before, c, o) == #[trigger] gap_open(after, c, o) + (if shut_by(
            top_left,
            width,
            height,
            orientation,
            offset,
            hole,
            c,
            o,
        ) {
            1nat
        } else {
            0nat
        }) by {
        let shut = shut_by(top_left, width, height, orientation, offset, hole, c, o);
        let at = wall_coord(c, o);
        let lined = Grid::on_line(
            at,
            line_fixed(top_left, orientation, offset),
            line_start(top_left, orientation),
            line_end(top_left, width, height, orientation),
            orientation,
        );
        if before.has_cell_after(c, o) {
            assert(before.spec_grid().contains(at));
            let next = cell_after(c, o);
            if at == gap || lined {
                assert(o == orientation);
                assert(in_region(c, top_left, width, height));
                assert(in_region(next, top_left, width, height));
                assert(are_neighbors(c, next));
                assert(passable(before, c, next));
                assert(wall_between(c, next) == (c, o));
                assert(gap_open(before, c, o) == 1);
                assert(shut == (at != gap));
            } else {
                if shut {
                    match orientation {
                        Orientation::Horizontal => {
                            assert(at == crate::maze::grid::line_coord(
                                line_fixed(top_left, orientation, offset),
                                (2 * c.0 + 1) as u16,
                                orientation,
                            ));
                        },
                        Orientation::Vertical => {
                            assert(at == crate::maze::grid::line_coord(
                                line_fixed(top_left, orientation, offset),
                                (2 * c.1 + 1) as u16,
                                orientation,
                            ));
                        },
                    }
                    assert(false);
                }
            }
        } else {
            assert(!shut);
        }
    }
}

/// How many of the walls after the first `n` cells of row `y` a dividing
/// wall shuts.
pub open spec fn row_shut_by(
    top_left: (u8, u8),
    width: u8,
    height: u8,
    orientation: Orientation,
    offset: u8,
    hole: u8,
    y: u8,
    n: nat,
) -> nat
    decreases n,
{
    if n == 0 {
        0
    } else {
        row_shut_by(top_left, width, height, orientation, offset, hole, y, (n - 1) as nat) + (
        if shut_by(
            top_left,
            width,
            height,
            orientation,
            offset,
            hole,
            ((n - 1) as u8, y),
            orientation,
        ) {
            1nat
        } else {
            0nat
        })
    }
}

/// How many of the walls after the cells of the first `rows` rows of a
/// maze `across` cells wide a dividing wall shuts.
pub open spec fn rows_shut_by(
    top_left: (u8, u8),
    width: u8,
    height: u8,
    orientation: Orientation,
    offset: u8,
    hole: u8,
    across: nat,
    rows: nat,
) -> nat
    decreases rows,
{
    if rows == 0 {
        0
    } else {
        rows_shut_by(
            top_left,
            width,
            height,
            orientation,
            offset,
            hole,
            across,
            (rows - 1) as nat,
        ) + row_shut_by(
            top_left,
            width,
            height,
            orientation,
            offset,
            hole,
            (rows - 1) as u8,
            across,
        )
    }
}

proof fn lemma_row_line_shut(
    before: &Maze,
    after: &Maze,
    top_left: (u8, u8),
    width: u8,
    height: u8,
    orientation: Orientation,
    offset: u8,
    hole: u8,
    y: u8,
    n: nat,
)
    requires
        line_shut(before, after, top_left, width, height, orientation, offset, hole),
    ensures
        row_gaps(before, y, n) == row_gaps(after, y, n) + row_shut_by(
            top_left,
            width,
            height,
            orientation,
            offset,
            hole,
            y,
            n,
        ),
    decreases n,
{
    if n > 0 {
        lemma_row_line_shut(
            before,
            after,
            top_left,
            width,
            height,
            orientation,
            offset,
            hole,
            y,
            (n - 1) as nat,
        );
        let c = ((n - 1) as u8, y);
        assert(gap_open(before, c, Orientation::Vertical) == gap_open(
            after,
            c,
            Orientation::Vertical,
        ) + (if shut_by(
            top_left,
            width,
            height,
            orientation,
            offset,
            hole,
            c,
            Orientation::Vertical,
        ) {
            1nat
        } else {
            0nat
        }));
        assert(gap_open(before, c, Orientation::Horizontal) == gap_open(
            after,
            c,
            Orientation::Horizontal,
        ) + (if shut_by(
            top_left,
            width,
            height,
            orientation,
            offset,
            hole,
            c,
            Orientation::Horizontal,
        ) {
            1nat
        } else {
            0nat
        }));
    }
}

proof fn lemma_rows_line_shut(
    before: &Maze,
    after: &Maze,
    top_left: (u8, u8),
    width: u8,
    height: u8,
    orientation: Orientation,
    offset: u8,
    hole: u8,
    rows: nat,
)
    requires
        after.spec_width() == before.spec_width(),
        line_shut(before, after, top_left, width, height, orientation, offset, hole),
    ensures
        gaps_upto(before, rows) == gaps_upto(after, rows) + rows_shut_by(
            top_left,
            width,
            height,
            orientation,
            offset,
            hole,
            before.spec_width() as nat,
            rows,
        ),
    decreases rows,
{
    if rows > 0 {
        lemma_rows_line_shut(
            before,
            after,
            top_left,
            width,
            height,
            orientation,
            offset,
            hole,
            (rows - 1) as nat,
        );
        lemma_row_line_shut(
            before,
            after,
            top_left,
            width,
            height,
            orientation,
            offset,
            hole,
            (rows - 1) as u8,
            before.spec_width() as nat,
        );
    }
}

/// How many cells from `from` on, `count` of them, lie below `n`.
pub open spec fn below(n: nat, from: int, count: int) -> int {
    if n <= from {
        0
    } else if n >= from + count {
        count
    } else {
        n - from
    }
}

/// What a dividing wall shuts in a row: along a horizontal wall every
/// wall of the region's columns but the hole, across a vertical one the
/// one wall that it runs over, unless that is the hole.
proof fn lemma_row_shut_by(
    top_left: (u8, u8),
    width: u8,
    height: u8,
    orientation: Orientation,
    offset: u8,
    hole: u8,
    y: u8,
    n: nat,
)
    requires
        top_left.0 + width <= 255,
        top_left.1 + height <= 255,
        n <= 256,
        match orientation {
            Orientation::Horizontal => offset + 1 < height && hole < width,
            Orientation::Vertical => offset + 1 < width && hole < height,
        },
    ensures
        row_shut_by(top_left, width, height, orientation, offset, hole, y, n) == (
        match orientation {
            Orientation::Horizontal => if y == top_left.1 + offset {
                below(n, top_left.0 as int, width as int) - (if top_left.0 + hole < n {
                    1int
                } else {
                    0int
                })
            } else {
                0
            },
            Orientation::Vertical => if top_left.1 <= y < top_left.1 + height && y != top_left.1
                + hole && top_left.0 + offset < n {
                1
            } else {
                0
            },
        }),
    decreases n,
{
    if n > 0 {
        lemma_row_shut_by(top_left, width, height, orientation, offset, hole, y, (n - 1) as nat);
    }
}

/// What a dividing wall shuts in all: one wall fewer than the region is
/// wide, or high, along the wall.
proof fn lemma_rows_shut_by(
    top_left: (u8, u8),
    width: u8,
    height: u8,
    orientation: Orientation,
    offset: u8,
    hole: u8,
    across: nat,
    rows: nat,
)
    requires
        top_left.0 + width <= across <= 255,
        top_left.1 + height <= 255,
        rows <= 256,
        match orientation {
            Orientation::Horizontal => offset + 1 < height && hole < width,
            Orientation::Vertical => offset + 1 < width && hole < height,
        },
    ensures
        rows_shut_by(top_left, width, height, orientation, offset, hole, across, rows) == (
        match orientation {
            Orientation::Horizontal => if top_left.1 + offset < rows {
                width - 1
            } else {
                0
            },
            Orientation::Vertical => below(rows, top_left.1 as int, height as int) - (
            if top_left.1 + hole < rows {
                1int
            } else {
                0int
            }),
        }),
    decreases rows,
{
    if rows > 0 {
        lemma_rows_shut_by(
            top_left,
            width,
            height,
            orientation,
            offset,
            hole,
            across,
            (rows - 1) as nat,
        );
        lemma_row_shut_by(
            top_left,
            width,
            height,
            orientation,
            offset,
            hole,
            (rows - 1) as u8,
            across,
        );
    }
}

/// How many walls more are open in a region that no wall stands in than
/// in one whose cells are joined as a tree.
pub open spec fn spare_walls(width: u8, height: u8) -> int {
    (width - 1) * (height - 1)
}

/// How many walls a dividing wall across a region shuts.
pub open spec fn shut_in_all(width: u8, height: u8, orientation: Orientation) -> int {
    match orientation {
        Orientation::Horizontal => width - 1,
        Orientation::Vertical => height - 1,
    }
}

/// A dividing wall across a region that no wall stood in leaves one wall
/// fewer open for each cell alongside it but one.
pub proof fn lemma_divided_count(
    before: &Maze,
    after: &Maze,
    top_left: (u8, u8),
    width: u8,
    height: u8,
    orientation: Orientation,
    offset: u8,
    hole: u8,
)
    requires
        before.wf(),
        after.extends(before),
        region_inside(before, top_left, width, height),
        match orientation {
            Orientation::Horizontal => offset + 1 < height && hole < width,
            Orientation::Vertical => offset + 1 < width && hole < height,
        },
        region_clear(before, top_left, width, height),
        divided_once(before, after, top_left, width, height, orientation, offset, hole),
    ensures
        open_walls(before) == open_walls(after) + shut_in_all(width, height, orientation),
{
    lemma_line_shut(before, after, top_left, width, height, orientation, offset, hole);
    lemma_rows_line_shut(
        before,
        after,
        top_left,
        width,
        height,
        orientation,
        offset,
        hole,
        before.spec_height() as nat,
    );
    lemma_rows_shut_by(
        top_left,
        width,
        height,
        orientation,
        offset,
        hole,
        before.spec_width() as nat,
        before.spec_height() as nat,
    );
}

proof fn lemma_row_all_open(maze: &Maze, y: u8, n: nat)
    requires
        forall|c: (u8, u8), o: Orientation|
            maze.has_cell_after(c, o) ==> #[trigger] gap_open(maze, c, o) == 1,
        y < maze.spec_height(),
        n <= maze.spec_width(),
        maze.spec_width() > 0,
    ensures
        row_gaps(maze, y, n) == (if n == maze.spec_width() {
            n - 1
        } else {
            n as int
        }) + (if y + 1 < maze.spec_height() {
            n as int
        } else {
            0
        }),
    decreases n,
{
    if n > 0 {
        lemma_row_all_open(maze, y, (n - 1) as nat);
        let c = ((n - 1) as u8, y);
        assert(maze.spec_in_bounds(c));
        assert(gap_open(maze, c, Orientation::Vertical) == (if n < maze.spec_width() {
            1nat
        } else {
            0nat
        }));
        assert(gap_open(maze, c, Orientation::Horizontal) == (if y + 1 < maze.spec_height() {
            1nat
        } else {
            0nat
        }));
    }
}

proof fn lemma_rows_all_open(maze: &Maze, rows: nat)
    requires
        forall|c: (u8, u8), o: Orientation|
            maze.has_cell_after(c, o) ==> #[trigger] gap_open(maze, c, o) == 1,
        maze.spec_width() > 0,
        maze.spec_height() > 0,
        rows <= maze.spec_height(),
    ensures
        gaps_upto(maze, rows) == rows * (maze.spec_width() - 1) + maze.spec_width() * (if rows
            == maze.spec_height() {
            rows - 1
        } else {
            rows as int
        }),
    decreases rows,
{
    let w = maze.spec_width() as int;
    let r = rows as int;
    if rows > 0 {
        lemma_rows_all_open(maze, (rows - 1) as nat);
        lemma_row_all_open(maze, (rows - 1) as u8, maze.spec_width() as nat);
        assert((r - 1) * (w - 1) + (w - 1) == r * (w - 1)) by (nonlinear_arith);
        assert(w * (r - 1) + w == w * r) by (nonlinear_arith);
    } else {
        assert(r * (w - 1) == 0 && w * r == 0) by (nonlinear_arith)
            requires
                r == 0,
        ;
    }
}

/// Dividing a maze that no wall stood in, down to regions that cannot be
/// divided, leaves one wall fewer open than there are cells.
proof fn lemma_division_count(cleared: &Maze, done: &Maze)
    requires
        forall|c: (u8, u8), o: Orientation|
            cleared.has_cell_after(c, o) ==> #[trigger] gap_open(cleared, c, o) == 1,
        cleared.spec_width() > 0,
        cleared.spec_height() > 0,
        open_walls(cleared) == open_walls(done) + (cleared.spec_width() - 1) * (
        cleared.spec_height() - 1),
    ensures
        open_walls(done) + 1 == cleared.spec_width() * cleared.spec_height(),
{
    lemma_rows_all_open(cleared, cleared.spec_height() as nat);
    let w = cleared.spec_width() as int;
    let h = cleared.spec_height() as int;
    assert(h * (w - 1) + w * (h - 1) - (w - 1) * (h - 1) == w * h - 1) by (nonlinear_arith);
}

/// Dividing a region that no wall stands in, and then joining the cells
/// of each side, joins the cells of the region; and what lies outside the
/// region stays while the wall is raised and the sides are worked on.
pub proof fn lemma_divided(
    start: &Maze,
    walled: &Maze,
    half: &Maze,
    done: &Maze,
    top_left: (u8, u8),
    width: u8,
    height: u8,
    orientation: Orientation,
    offset: u8,
    hole: u8,
)
    requires
        start.wf(),
        region_inside(start, top_left, width, height),
        match orientation {
            Orientation::Horizontal => offset + 1 < height && hole < width,
            Orientation::Vertical => offset + 1 < width && hole < height,
        },
        walled.extends(start),
        half.extends(walled),
        done.extends(half),
        divided_once(start, walled, top_left, width, height, orientation, offset, hole),
        ({
            let first = first_side(top_left, width, height, orientation, offset);
            &&& kept_outside(walled, half, first.0, first.1, first.2)
            &&& region_clear(walled, first.0, first.1, first.2) ==> region_joined(
                half,
                first.0,
                first.1,
                first.2,
            ) && open_walls(walled) == open_walls(half) + spare_walls(first.1, first.2)
        }),
        ({
            let second = second_side(top_left, width, height, orientation, offset);
            &&& kept_outside(half, done, second.0, second.1, second.2)
            &&& region_clear(half, second.0, second.1, second.2) ==> region_joined(
                done,
                second.0,
                second.1,
                second.2,
            ) && open_walls(half) == open_walls(done) + spare_walls(second.1, second.2)
        }),
    ensures
        kept_outside(start, done, top_left, width, height),
        region_clear(start, top_left, width, height) ==> region_joined(
            done,
            top_left,
            width,
            height,
        ) && open_walls(start) == open_walls(done) + spare_walls(width, height),
{
    start.lemma_wf();
    walled.lemma_wf();
    half.lemma_wf();
    done.lemma_wf();
    let first = first_side(top_left, width, height, orientation, offset);
    let second = second_side(top_left, width, height, orientation, offset);
    let gap = hole_coord(top_left, orientation, offset, hole);
    assert forall|at: (u16, u16)|
        start.spec_grid().contains(at) && !within(
            at,
            top_left,
            width,
            height,
        ) implies #[trigger] done.spec_grid().spec_get(at) == start.spec_grid().spec_get(at) by {
        if at == gap || Grid::on_line(
            at,
            line_fixed(top_left, orientation, offset),
            line_start(top_left, orientation),
            line_end(top_left, width, height, orientation),
            orientation,
        ) {
            lemma_wall_place(top_left, width, height, orientation, offset, hole, at);
        }
        assert(walled.spec_grid().spec_get(at) == start.spec_grid().spec_get(at));
        assert(half.spec_grid().spec_get(at) == walled.spec_grid().spec_get(at));
    }
    if region_clear(start, top_left, width, height) {
        assert forall|a: (u8, u8), b: (u8, u8)|
            in_region(a, first.0, first.1, first.2) && in_region(b, first.0, first.1, first.2)
                && #[trigger] are_neighbors(a, b) implies passable(walled, a, b) by {
            assert(passable(start, a, b));
            lemma_gap(start, a, b);
            lemma_gap_within(a, b, first.0, first.1, first.2);
            let at = wall_coord(wall_between(a, b).0, wall_between(a, b).1);
            if at == gap || Grid::on_line(
                at,
                line_fixed(top_left, orientation, offset),
                line_start(top_left, orientation),
                line_end(top_left, width, height, orientation),
                orientation,
            ) {
                lemma_wall_place(top_left, width, height, orientation, offset, hole, at);
            }
        }
        assert forall|a: (u8, u8), b: (u8, u8)|
            in_region(a, second.0, second.1, second.2) && in_region(
                b,
                second.0,
                second.1,
                second.2,
            ) && #[trigger] are_neighbors(a, b) implies passable(half, a, b) by {
            assert(passable(start, a, b));
            lemma_gap(start, a, b);
            lemma_gap_within(a, b, second.0, second.1, second.2);
            let at = wall_coord(wall_between(a, b).0, wall_between(a, b).1);
            if at == gap || Grid::on_line(
                at,
                line_fixed(top_left, orientation, offset),
                line_start(top_left, orientation),
                line_end(top_left, width, height, orientation),
                orientation,
            ) {
                lemma_wall_place(top_left, width, height, orientation, offset, hole, at);
            }
            assert(walled.spec_grid().spec_get(at) == start.spec_grid().spec_get(at));
            assert(half.spec_grid().spec_get(at) == walled.spec_grid().spec_get(at));
        }
        assert forall|a: (u8, u8), b: (u8, u8)|
            in_region(a, first.0, first.1, first.2) && in_region(
                b,
                first.0,
                first.1,
                first.2,
            ) implies #[trigger] joined_in(done, a, b, first.0, first.1, first.2) by {
            assert(joined_in(half, a, b, first.0, first.1, first.2));
            lemma_joined_in_persists(half, done, a, b, first.0, first.1, first.2);
        }
        let (from, to) = hole_cells(top_left, orientation, offset, hole);
        lemma_wall_place(top_left, width, height, orientation, offset, hole, gap);
        assert(start.spec_grid().contains(gap));
        assert(walled.spec_grid().spec_get(gap) == GridCell::empty());
        assert(half.spec_grid().spec_get(gap) == walled.spec_grid().spec_get(gap));
        assert(done.spec_grid().spec_get(gap) == half.spec_grid().spec_get(gap));
        assert(wall_coord(wall_between(from, to).0, wall_between(from, to).1) == gap);
        assert(passable(done, from, to));
        lemma_parts_joined(done, first, second, from, to, top_left, width, height);
        lemma_divided_count(start, walled, top_left, width, height, orientation, offset, hole);
        let (w, h, a) = (width as int, height as int, offset as int);
        assert((w - 1) * a + (w - 1) * (h - a - 2) + (w - 1) == (w - 1) * (h - 1))
            by (nonlinear_arith);
        assert(a * (h - 1) + (w - a - 2) * (h - 1) + (h - 1) == (w - 1) * (h - 1))
            by (nonlinear_arith);
    }
}

/// Divides a region of the maze, and then each side, until a side is less
/// than two cells wide or high. The wall goes across the longer side; on a
/// square the direction is drawn, as are the wall's place and its hole.
///
/// Whatever is drawn, the grid only emits valid updates, no cell of the
/// maze changes, nothing changes outside the region, and where no wall
/// stood in the region before, every cell of it is still joined to every
/// other by a way inside it, while as many walls fewer are open as were
/// to spare.
#[verifier::rlimit(50)]
pub fn divide(maze: &mut Maze, top_left: (u8, u8), width: u8, height: u8, rng: &mut StdRng)
    requires
        old(maze).wf(),
        region_inside(old(maze), top_left, width, height),
    ensures
        final(maze).extends(old(maze)),
        forall|at: (u16, u16)|
            old(maze).spec_grid().contains(at) && is_cell_coord(at) ==> {
                #[trigger] final(maze).spec_grid().spec_get(at) == old(maze).spec_grid().spec_get(
                    at,
                )
            },
        kept_outside(old(maze), final(maze), top_left, width, height),
        region_clear(old(maze), top_left, width, height) ==> region_joined(
            final(maze),
            top_left,
            width,
            height,
        ),
        region_clear(old(maze), top_left, width, height) && width >= 1 && height >= 1
            ==> open_walls(old(maze)) == open_walls(final(maze)) + spare_walls(width, height),
    decreases width + height,
{
    if width < 2 || height < 2 {
        proof {
            maze.lemma_extends_self();
            if region_clear(maze, top_left, width, height) {
                assert forall|a: (u8, u8), b: (u8, u8)|
                    in_region(a, top_left, width, height) && in_region(
                        b,
                        top_left,
                        width,
                        height,
                    ) implies #[trigger] joined_in(maze, a, b, top_left, width, height) by {
                    lemma_clear_joined(maze, a, b, top_left, width, height);
                }
            }
            if width >= 1 && height >= 1 {
                assert((width - 1) * (height - 1) == 0) by (nonlinear_arith)
                    requires
                        width == 1 || height == 1,
                ;
            }
        }
        return ;
    }
    let (x, y) = top_left;
    let orientation = if width < height {
        Orientation::Horizontal
    } else if width > height {
        Orientation::Vertical
    } else if random_half(rng) {
        Orientation::Horizontal
    } else {
        Orientation::Vertical
    };
    let ghost m0 = *maze;
    proof {
        m0.lemma_wf();
    }
    match orientation {
        Orientation::Horizontal => {
            let diff = random_u8_below(rng, height - 1);
            let y_wall = y + diff;
            let hole = random_u8_below(rng, width);
            divide_once(maze, top_left, width, height, Orientation::Horizontal, diff, hole);
            let ghost m1 = *maze;
            let upper_height = diff + 1;
            let lower_height = height - upper_height;
            divide(maze, (x, y), width, upper_height, rng);
            let ghost m2 = *maze;
            divide(maze, (x, y_wall + 1), width, lower_height, rng);
            proof {
                m1.lemma_wf();
                m2.lemma_wf();
                m2.lemma_extends_chain(&m1, &m0);
                maze.lemma_extends_chain(&m2, &m0);
                assert forall|at: (u16, u16)|
                    m0.spec_grid().contains(at) && is_cell_coord(at) implies #[trigger] maze.spec_grid().spec_get(
                    at,
                ) == m0.spec_grid().spec_get(at) by {
                    lemma_cells_off_walls(top_left, width, height, orientation, diff, hole, at);
                    assert(m2.spec_grid().spec_get(at) == m1.spec_grid().spec_get(at));
                }
                assert(first_side(top_left, width, height, orientation, diff) == (
                    (x, y),
                    width,
                    upper_height,
                ));
                assert(second_side(top_left, width, height, orientation, diff) == (
                    (x, (y_wall + 1) as u8),
                    width,
                    lower_height,
                ));
                lemma_divided(&m0, &m1, &m2, maze, top_left, width, height, orientation, diff, hole);
            }
        },
        Orientation::Vertical => {
            let diff = random_u8_below(rng, width - 1);
            let x_wall = x + diff;
            let hole = random_u8_below(rng, height);
            divide_once(maze, top_left, width, height, Orientation::Vertical, diff, hole);
            let ghost m1 = *maze;
            let left_width = diff + 1;
            let right_width = width - left_width;
            divide(maze, (x, y), left_width, height, rng);
            let ghost m2 = *maze;
            divide(maze, (x_wall + 1, y), right_width, height, rng);
            proof {
                m1.lemma_wf();
                m2.lemma_wf();
                m2.lemma_extends_chain(&m1, &m0);
                maze.lemma_extends_chain(&m2, &m0);
                assert forall|at: (u16, u16)|
                    m0.spec_grid().contains(at) && is_cell_coord(at) implies #[trigger] maze.spec_grid().spec_get(
                    at,
                ) == m0.spec_grid().spec_get(at) by {
                    lemma_cells_off_walls(top_left, width, height, orientation, diff, hole, at);
                    assert(m2.spec_grid().spec_get(at) == m1.spec_grid().spec_get(at));
                }
                assert(first_side(top_left, width, height, orientation, diff) == (
                    (x, y),
                    left_width,
                    height,
                ));
                assert(second_side(top_left, width, height, orientation, diff) == (
                    ((x_wall + 1) as u8, y),
                    right_width,
                    height,
                ));
                lemma_divided(&m0, &m1, &m2, maze, top_left, width, height, orientation, diff, hole);
            }
        },
    }
}

/// No cell of the maze stands on a dividing wall or in its hole.
pub proof fn lemma_cells_off_walls(
    top_left: (u8, u8),
    width: u8,
    height: u8,
    orientation: Orientation,
    offset: u8,
    hole: u8,
    at: (u16, u16),
)
    requires
        is_cell_coord(at),
        top_left.0 + width <= 255,
        top_left.1 + height <= 255,
        match orientation {
            Orientation::Horizontal => offset + 1 < height && hole < width,
            Orientation::Vertical => offset + 1 < width && hole < height,
        },
    ensures
        at != hole_coord(top_left, orientation, offset, hole),
        !Grid::on_line(
            at,
            line_fixed(top_left, orientation, offset),
            line_start(top_left, orientation),
            line_end(top_left, width, height, orientation),
            orientation,
        ),
{
}

/// Generates a maze by recursive division: every wall inside the maze is
/// opened, and the open maze is divided until no side can be. A maze
/// without cells is left as it is.
///
/// Whatever is drawn, the grid only emits valid updates, beginning with
/// the opening of the walls, the boundary stays, and every cell of the maze
/// ends open and joined to every other by ways that no wall is in the way
/// of, with one wall fewer open than there are cells.
#[verifier::rlimit(50)]
pub fn recursive_division(maze: &mut Maze, seed: Option<u64>)
    requires
        old(maze).wf(),
    ensures
        final(maze).extends(old(maze)),
        (old(maze).spec_width() == 0 && old(maze).spec_height() == 0) ==> *final(maze) == *old(maze),
        (old(maze).spec_grid().emitted() + crate::maze::grid::interior_updates(
            old(maze).spec_grid().cells(),
            old(maze).spec_grid().spec_width(),
            old(maze).spec_grid().spec_height(),
            GridCell::empty(),
            old(maze).spec_grid().cells().len(),
        )).is_prefix_of(final(maze).spec_grid().emitted()) || (old(maze).spec_width() == 0 && old(maze).spec_height() == 0),
        forall|c: (u8, u8)|
            final(maze).spec_in_bounds(c) ==> #[trigger] final(maze).spec_cell(c)
                == GridCell::empty(),
        old(maze).spec_width() > 0 && old(maze).spec_height() > 0 ==> all_joined(final(maze)),
        old(maze).spec_width() > 0 && old(maze).spec_height() > 0 ==> open_walls(final(maze)) + 1
            == old(maze).spec_width() * old(maze).spec_height(),
        boundary_kept(old(maze), final(maze)),
{
    if maze.is_empty() {
        proof {
            maze.lemma_extends_self();
        }
        return ;
    }
    maze.clear_walls();
    let ghost cleared = *maze;
    let mut rng = get_rng(seed);
    let width = maze.width();
    let height = maze.height();
    divide(maze, (0, 0), width, height, &mut rng);
    proof {
        old(maze).lemma_wf();
        cleared.lemma_wf();
        maze.lemma_extends_chain(&cleared, old(maze));
        assert forall|c: (u8, u8)| maze.spec_in_bounds(c) implies #[trigger] maze.spec_cell(c)
            == GridCell::empty() by {
            let at = cell_coord(c);
            assert(cleared.spec_grid().contains(at) && is_cell_coord(at));
            cleared.spec_grid().lemma_index_in_range(at);
            let w = cleared.spec_grid().spec_width() as int;
            crate::maze::grid::lemma_row_major(w, at.0 as int, at.1 as int);
            assert(!crate::maze::grid::on_boundary(
                cleared.spec_grid().spec_width(),
                cleared.spec_grid().spec_height(),
                cleared.spec_grid().spec_ravel_index(at),
            ));
            assert(maze.spec_grid().spec_get(at) == cleared.spec_grid().spec_get(at));
        }
        lemma_filled_boundary(old(maze), &cleared, GridCell::empty());
        assert(boundary_kept(&cleared, maze)) by {
            assert forall|at: (u16, u16)|
                cleared.spec_grid().contains(at) && on_edge(
                    &cleared,
                    at,
                ) implies #[trigger] maze.spec_grid().spec_get(at) == cleared.spec_grid().spec_get(
                at,
            ) by {
                assert(!within(at, (0, 0), width, height));
            }
        }
        lemma_boundary_chain(old(maze), &cleared, maze);
        assert forall|a: (u8, u8), b: (u8, u8)|
            in_region(a, (0, 0), width, height) && in_region(b, (0, 0), width, height)
                && #[trigger] are_neighbors(a, b) implies passable(&cleared, a, b) by {
            lemma_gap(&cleared, a, b);
            let at = wall_coord(wall_between(a, b).0, wall_between(a, b).1);
            cleared.spec_grid().lemma_index_in_range(at);
            let w = cleared.spec_grid().spec_width() as int;
            crate::maze::grid::lemma_row_major(w, at.0 as int, at.1 as int);
            assert(!crate::maze::grid::on_boundary(
                cleared.spec_grid().spec_width(),
                cleared.spec_grid().spec_height(),
                cleared.spec_grid().spec_ravel_index(at),
            ));
        }
        if width > 0 && height > 0 {
            let from = (0u8, 0u8);
            assert forall|c: (u8, u8)| maze.spec_in_bounds(c) implies #[trigger] joined(
                maze,
                from,
                c,
            ) by {
                assert(joined_in(maze, from, c, (0, 0), width, height));
                lemma_joined_in_maze(maze, from, c, (0, 0), width, height);
            }
            assert(maze.spec_in_bounds(from));
            lemma_filled_gaps(old(maze), &cleared, GridCell::empty());
            assert forall|c: (u8, u8), o: Orientation|
                cleared.has_cell_after(c, o) implies #[trigger] gap_open(&cleared, c, o) == 1 by {
                assert(cleared.spec_grid().spec_get(wall_coord(c, o)) == GridCell::empty());
            }
            lemma_division_count(&cleared, maze);
        }
    }
}

} // verus!
