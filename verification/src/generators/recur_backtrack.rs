//! Recursive backtracking: a random depth-first walk that carves as it
//! goes.

use vstd::prelude::*;
use crate::generators::{
    all_joined,
    are_neighbors,
    boundary_kept,
    cells_among,
    joined,
    lemma_boundary_chain,
    lemma_joined_carve,
    lemma_joined_self,
    on_edge,
    open_cells_joined,
    passable,
    walls_only_opened,
    carved_as_tree,
    lemma_carved_as_tree,
    lemma_tree_begun,
    lemma_tree_done,
    no_open_walls,
    open_walls,
    walls_kept,
    fill_cells,
    get_rng,
    lemma_gap,
    lemma_open_spreads,
    lemma_put_walls,
    neighbors_holding,
    open_between,
    open_cells_closed,
    random_index,
    random_u8_below,
    wall_between,
    walls,
};
use crate::maze::cell::GridCell;
use crate::maze::grid::GridEvent;
use crate::maze::{cell_coord, is_cell_coord, wall_coord, Maze};

verus! {

/// Carves from `cell` into its neighbour `next`, a solid wall so far: the
/// neighbour is highlighted, if `highlight` asks for it, the wall between
/// the two is opened, and the neighbour becomes an open cell.
#[verifier::rlimit(50)]
pub fn carve(maze: &mut Maze, cell: (u8, u8), next: (u8, u8), highlight: bool)
    requires
        old(maze).wf(),
        old(maze).spec_in_bounds(cell),
        old(maze).spec_in_bounds(next),
        are_neighbors(cell, next),
        old(maze).spec_cell(next) == GridCell::wall(),
    ensures
        final(maze).extends(old(maze)),
        final(maze).spec_cell(next) == GridCell::empty(),
        forall|at: (u16, u16)|
            old(maze).spec_grid().contains(at) ==> #[trigger] final(maze).spec_grid().spec_get(at)
                == (if at == cell_coord(next) {
                GridCell::empty()
            } else if at == wall_coord(wall_between(cell, next).0, wall_between(cell, next).1)
                && old(maze).spec_grid().spec_get(at) is Wall {
                GridCell::empty()
            } else {
                old(maze).spec_grid().spec_get(at)
            }),
        final(maze).spec_grid().emitted() == old(maze).spec_grid().emitted() + (if highlight {
            seq![
                GridEvent::Update {
                    coord: cell_coord(next),
                    old: GridCell::wall(),
                    new: GridCell::mark(),
                },
            ]
        } else {
            Seq::empty()
        }) + (if old(maze).spec_is_wall_after(
            wall_between(cell, next).0,
            wall_between(cell, next).1,
        ) {
            seq![
                GridEvent::Update {
                    coord: wall_coord(wall_between(cell, next).0, wall_between(cell, next).1),
                    old: old(maze).spec_grid().spec_get(
                        wall_coord(wall_between(cell, next).0, wall_between(cell, next).1),
                    ),
                    new: GridCell::empty(),
                },
            ]
        } else {
            Seq::empty()
        }) + seq![
            GridEvent::Update {
                coord: cell_coord(next),
                old: if highlight {
                    GridCell::mark()
                } else {
                    GridCell::wall()
                },
                new: GridCell::empty(),
            },
        ],
        walls(final(maze).spec_grid().cells()) < walls(old(maze).spec_grid().cells()),
        forall|c: (u8, u8)|
            old(maze).spec_in_bounds(c) ==> #[trigger] final(maze).spec_cell(c) == (if c == next {
                GridCell::empty()
            } else {
                old(maze).spec_cell(c)
            }),
        walls_only_opened(old(maze), final(maze)),
        passable(final(maze), cell, next),
        boundary_kept(old(maze), final(maze)),
{
    let ghost m0 = *maze;
    proof {
        m0.lemma_wf();
    }
    if highlight {
        maze.set(next, GridCell::mark());
    }
    let ghost m1 = *maze;
    proof {
        m1.lemma_wf();
        if highlight {
            m1.spec_grid().lemma_put_cells(m0.spec_grid(), cell_coord(next), GridCell::mark());
            lemma_put_walls(m1.spec_grid(), m0.spec_grid(), cell_coord(next), GridCell::mark());
        }
    }
    let removed = open_between(maze, cell, next);
    let ghost m2 = *maze;
    let ghost gap = wall_coord(wall_between(cell, next).0, wall_between(cell, next).1);
    proof {
        m2.lemma_wf();
        assert(m1.spec_grid().contains(gap));
        if removed {
            m2.spec_grid().lemma_put_cells(m1.spec_grid(), gap, GridCell::empty());
            lemma_put_walls(m2.spec_grid(), m1.spec_grid(), gap, GridCell::empty());
        }
    }
    maze.set(next, GridCell::empty());
    proof {
        lemma_gap(&m0, cell, next);
        assert forall|c: (u8, u8)| m0.spec_in_bounds(c) implies #[trigger] maze.spec_cell(c) == (
        if c == next {
            GridCell::empty()
        } else {
            m0.spec_cell(c)
        }) by {
            assert(m0.spec_grid().contains(cell_coord(c)));
            assert(is_cell_coord(cell_coord(c)));
            maze.spec_grid().lemma_put_cells(
                m2.spec_grid(),
                cell_coord(next),
                GridCell::empty(),
            );
        }
        m1.lemma_extends_self();
        m2.lemma_extends_self();
        m2.lemma_extends_chain(&m1, &m0);
        maze.lemma_extends_chain(&m2, &m0);
        maze.lemma_wf();
        assert(m0.spec_grid().contains(gap) && !is_cell_coord(gap) && !on_edge(&m0, gap));
        assert(!on_edge(&m0, cell_coord(next)));
        maze.spec_grid().lemma_put_cells(m2.spec_grid(), cell_coord(next), GridCell::empty());
        lemma_put_walls(maze.spec_grid(), m2.spec_grid(), cell_coord(next), GridCell::empty());
        assert(maze.spec_grid().emitted() =~= old(maze).spec_grid().emitted() + (if highlight {
            seq![
                GridEvent::Update {
                    coord: cell_coord(next),
                    old: GridCell::wall(),
                    new: GridCell::mark(),
                },
            ]
        } else {
            Seq::empty()
        }) + (if old(maze).spec_is_wall_after(
            wall_between(cell, next).0,
            wall_between(cell, next).1,
        ) {
            seq![
                GridEvent::Update {
                    coord: gap,
                    old: old(maze).spec_grid().spec_get(gap),
                    new: GridCell::empty(),
                },
            ]
        } else {
            Seq::empty()
        }) + seq![
            GridEvent::Update {
                coord: cell_coord(next),
                old: if highlight {
                    GridCell::mark()
                } else {
                    GridCell::wall()
                },
                new: GridCell::empty(),
            },
        ]);
    }
}

/// Whether every open cell of the maze that is not on the stack has only
/// open cells for neighbours.
pub open spec fn settled_off(maze: &Maze, stack: Seq<(u8, u8)>) -> bool {
    forall|a: (u8, u8), b: (u8, u8)|
        maze.spec_in_bounds(a) && maze.spec_in_bounds(b) && #[trigger] are_neighbors(a, b)
            && maze.spec_cell(a) == GridCell::empty() && !stack.contains(a) ==> maze.spec_cell(b)
            == GridCell::empty()
}

/// A cell without solid neighbours may leave the stack.
proof fn lemma_settled_pop(maze: &Maze, stack: Seq<(u8, u8)>)
    requires
        settled_off(maze, stack),
        stack.len() > 0,
        forall|b: (u8, u8)|
            maze.spec_in_bounds(b) && #[trigger] are_neighbors(stack.last(), b) ==> maze.spec_cell(
                b,
            ) == GridCell::empty(),
    ensures
        settled_off(maze, stack.drop_last()),
{
    let rest = stack.drop_last();
    assert forall|a: (u8, u8), b: (u8, u8)|
        maze.spec_in_bounds(a) && maze.spec_in_bounds(b) && #[trigger] are_neighbors(a, b)
            && maze.spec_cell(a) == GridCell::empty() && !rest.contains(a) implies maze.spec_cell(
        b,
    ) == GridCell::empty() by {
        if a != stack.last() {
            if stack.contains(a) {
                let k = choose|k: int| 0 <= k < stack.len() && stack[k] == a;
                assert(rest[k] == a);
            }
        }
    }
}

/// Carving into a solid cell keeps the cells off the stack settled, with
/// the cell carved from and the cell carved into on the stack.
proof fn lemma_settled_carve(
    before: &Maze,
    after: &Maze,
    stack: Seq<(u8, u8)>,
    next: (u8, u8),
)
    requires
        settled_off(before, stack),
        stack.len() > 0,
        before.spec_cell(next) == GridCell::wall(),
        before.spec_in_bounds(next),
        after.spec_width() == before.spec_width(),
        after.spec_height() == before.spec_height(),
        forall|c: (u8, u8)|
            before.spec_in_bounds(c) ==> #[trigger] after.spec_cell(c) == (if c == next {
                GridCell::empty()
            } else {
                before.spec_cell(c)
            }),
    ensures
        settled_off(after, stack.drop_last().push(stack.last()).push(next)),
{
    let grown = stack.drop_last().push(stack.last()).push(next);
    assert(stack.drop_last().push(stack.last()) =~= stack);
    assert(grown[grown.len() - 1] == next);
    assert forall|a: (u8, u8), b: (u8, u8)|
        after.spec_in_bounds(a) && after.spec_in_bounds(b) && #[trigger] are_neighbors(a, b)
            && after.spec_cell(a) == GridCell::empty() && !grown.contains(a) implies after.spec_cell(
        b,
    ) == GridCell::empty() by {
        assert(a != next);
        if stack.contains(a) {
            let k = choose|k: int| 0 <= k < stack.len() && stack[k] == a;
            assert(grown[k] == a);
        }
        assert(before.spec_cell(a) == GridCell::empty());
        assert(before.spec_cell(b) == GridCell::empty());
    }
}

/// The walk itself, from a stack that holds the starting cell: as long as
/// the stack holds a cell, the cell on top is taken off; if it has
/// neighbours that are still solid, the walk carves into one of them,
/// picked at random, and both go back on the stack.
#[verifier::rlimit(50)]
pub(crate) fn walk(
    maze: &mut Maze,
    rng: &mut rand::rngs::StdRng,
    start: (u8, u8),
    highlight: bool,
)
    requires
        old(maze).wf(),
        old(maze).spec_in_bounds(start),
        old(maze).spec_cell(start) == GridCell::empty(),
        forall|c: (u8, u8)|
            old(maze).spec_in_bounds(c) && c != start ==> #[trigger] old(maze).spec_cell(c)
                == GridCell::wall(),
    ensures
        final(maze).extends(old(maze)),
        forall|c: (u8, u8)|
            final(maze).spec_in_bounds(c) ==> #[trigger] final(maze).spec_cell(c)
                == GridCell::empty(),
        forall|c: (u8, u8)| final(maze).spec_in_bounds(c) ==> #[trigger] joined(final(maze), start, c),
        boundary_kept(old(maze), final(maze)),
        carved_as_tree(old(maze)) ==> open_walls(final(maze)) + 1 == old(maze).spec_width()
            * old(maze).spec_height(),
{
    let mut stack: Vec<(u8, u8)> = Vec::new();
    stack.push(start);
    proof {
        maze.lemma_extends_self();
        assert(stack@[0] == start);
        assert(open_cells_joined(maze, start)) by {
            lemma_joined_self(maze, start);
        }
        assert forall|a: (u8, u8), b: (u8, u8)|
            maze.spec_in_bounds(a) && maze.spec_in_bounds(b) && #[trigger] are_neighbors(a, b)
                && maze.spec_cell(a) == GridCell::empty() && !stack@.contains(
                a,
            ) implies maze.spec_cell(b) == GridCell::empty() by {}
    }
    while stack.len() > 0
        invariant
            maze.extends(old(maze)),
            forall|i: int| 0 <= i < stack@.len() ==> maze.spec_in_bounds(#[trigger] stack@[i]),
            cells_among(maze, GridCell::wall(), GridCell::empty()),
            maze.spec_in_bounds(start),
            maze.spec_cell(start) == GridCell::empty(),
            settled_off(maze, stack@),
            forall|i: int|
                0 <= i < stack@.len() ==> maze.spec_cell(#[trigger] stack@[i]) == GridCell::empty(),
            open_cells_joined(maze, start),
            boundary_kept(old(maze), maze),
            old(maze).wf(),
            carved_as_tree(old(maze)) ==> carved_as_tree(maze),
        decreases walls(maze.spec_grid().cells()), stack@.len(),
    {
        let ghost waiting = stack@;
        let cell = stack.pop().unwrap();
        let neighbors = neighbors_holding(cell, maze, GridCell::wall());
        if neighbors.len() == 0 {
            proof {
                assert forall|b: (u8, u8)|
                    maze.spec_in_bounds(b) && #[trigger] are_neighbors(
                        waiting.last(),
                        b,
                    ) implies maze.spec_cell(b) == GridCell::empty() by {
                    if maze.spec_cell(b) == GridCell::wall() {
                        assert(neighbors@.contains(b));
                    }
                }
                lemma_settled_pop(maze, waiting);
            }
        }
        if neighbors.len() > 0 {
            let next = neighbors[random_index(rng, neighbors.len())];
            let ghost mid = *maze;
            carve(maze, cell, next, highlight);
            proof {
                maze.lemma_extends_chain(&mid, old(maze));
                assert forall|c: (u8, u8)| maze.spec_in_bounds(c) implies #[trigger] maze.spec_cell(
                    c,
                ) == GridCell::wall() || maze.spec_cell(c) == GridCell::empty() by {
                    assert(mid.spec_cell(c) == GridCell::wall() || mid.spec_cell(c)
                        == GridCell::empty());
                }
                lemma_settled_carve(&mid, maze, waiting, next);
                lemma_joined_carve(&mid, maze, start, cell, next);
                if carved_as_tree(&mid) {
                    mid.lemma_wf();
                    assert(neighbors@.contains(next));
                    lemma_carved_as_tree(&mid, maze, cell, next);
                }
                lemma_boundary_chain(old(maze), &mid, maze);
                assert forall|i: int| 0 <= i < waiting.len() - 1 implies maze.spec_cell(
                    #[trigger] waiting[i],
                ) == GridCell::empty() by {
                    assert(mid.spec_cell(waiting[i]) == GridCell::empty());
                }
            }
            stack.push(cell);
            stack.push(next);
        }
    }
    proof {
        assert(open_cells_closed(maze)) by {
            assert forall|a: (u8, u8), b: (u8, u8)|
                maze.spec_in_bounds(a) && maze.spec_in_bounds(b) && #[trigger] are_neighbors(a, b)
                    && maze.spec_cell(a) == GridCell::empty() implies maze.spec_cell(b)
                == GridCell::empty() by {
                assert(!stack@.contains(a));
            }
        }
        assert forall|c: (u8, u8)| maze.spec_in_bounds(c) implies #[trigger] maze.spec_cell(c)
            == GridCell::empty() by {
            lemma_open_spreads(maze, start, c);
        }
        assert forall|c: (u8, u8)| maze.spec_in_bounds(c) implies #[trigger] joined(
            maze,
            start,
            c,
        ) by {
            assert(maze.spec_cell(c) == GridCell::empty());
        }
        if carved_as_tree(maze) {
            lemma_tree_done(maze);
        }
    }
}

/// Generates a maze by recursive backtracking: every cell is walled in, a
/// random cell is opened, and a random walk carves from there, going back
/// where it is stuck. A maze without cells is left as it is.
///
/// Whatever the random choices, the grid only emits valid updates, every
/// cell of the maze ends open and joined to every other by ways that no
/// wall is in the way of, and the boundary of the grid stays as it was.
/// Where no wall between two cells was open before, one wall fewer is open
/// afterwards than there are cells.
pub fn recursive_backtrack(maze: &mut Maze, seed: Option<u64>)
    requires
        old(maze).wf(),
        (old(maze).spec_width() == 0) == (old(maze).spec_height() == 0),
    ensures
        final(maze).extends(old(maze)),
        old(maze).spec_width() == 0 ==> *final(maze) == *old(maze),
        old(maze).spec_width() > 0 ==> forall|c: (u8, u8)|
            final(maze).spec_in_bounds(c) ==> #[trigger] final(maze).spec_cell(c)
                == GridCell::empty(),
        old(maze).spec_width() > 0 ==> all_joined(final(maze)),
        old(maze).spec_width() > 0 && no_open_walls(old(maze)) ==> open_walls(final(maze)) + 1
            == old(maze).spec_width() * old(maze).spec_height(),
        boundary_kept(old(maze), final(maze)),
{
    if maze.is_empty() {
        proof {
            maze.lemma_extends_self();
        }
        return ;
    }
    let mut rng = get_rng(seed);
    fill_cells(maze, GridCell::wall());
    let start = (random_u8_below(&mut rng, maze.width()), random_u8_below(&mut rng, maze.height()));
    let ghost filled = *maze;
    maze.set(start, GridCell::empty());
    proof {
        filled.lemma_wf();
        old(maze).lemma_wf();
        maze.spec_grid().lemma_put_cells(filled.spec_grid(), cell_coord(start), GridCell::empty());
        assert forall|c: (u8, u8)| maze.spec_in_bounds(c) && c != start implies (
        #[trigger] maze.spec_cell(c)) == GridCell::wall() by {
            assert(old(maze).spec_grid().contains(cell_coord(c)));
            assert(filled.spec_grid().spec_get(cell_coord(c)) == GridCell::wall());
        }
    }
    let ghost opened = *maze;
    walk(maze, &mut rng, start, true);
    proof {
        opened.lemma_extends_chain(&filled, old(maze));
        maze.lemma_extends_chain(&opened, old(maze));
        assert(maze.spec_in_bounds(start));
        assert(boundary_kept(old(maze), &opened)) by {
            assert forall|at: (u16, u16)|
                old(maze).spec_grid().contains(at) && on_edge(
                    old(maze),
                    at,
                ) implies #[trigger] opened.spec_grid().spec_get(at) == old(maze).spec_grid().spec_get(at) by {
                assert(!is_cell_coord(at));
                assert(filled.spec_grid().spec_get(at) == old(maze).spec_grid().spec_get(at));
            }
        }
        opened.lemma_wf();
        lemma_boundary_chain(old(maze), &opened, maze);
        if no_open_walls(old(maze)) {
            assert(walls_kept(old(maze), &opened)) by {
                assert forall|at: (u16, u16)|
                    old(maze).spec_grid().contains(at) && !is_cell_coord(
                        at,
                    ) implies #[trigger] opened.spec_grid().spec_get(at) == old(maze).spec_grid().spec_get(at) by {
                    assert(filled.spec_grid().spec_get(at) == old(maze).spec_grid().spec_get(at));
                }
            }
            lemma_tree_begun(old(maze), &opened, start);
        }
    }
}

/// Generates a maze by a random depth-first walk, as
/// [`recursive_backtrack`] does, without highlighting the cell it carves
/// into.
pub fn randomized_dfs(maze: &mut Maze, seed: Option<u64>)
    requires
        old(maze).wf(),
        (old(maze).spec_width() == 0) == (old(maze).spec_height() == 0),
    ensures
        final(maze).extends(old(maze)),
        old(maze).spec_width() == 0 ==> *final(maze) == *old(maze),
        old(maze).spec_width() > 0 ==> forall|c: (u8, u8)|
            final(maze).spec_in_bounds(c) ==> #[trigger] final(maze).spec_cell(c)
                == GridCell::empty(),
        old(maze).spec_width() > 0 ==> all_joined(final(maze)),
        old(maze).spec_width() > 0 && no_open_walls(old(maze)) ==> open_walls(final(maze)) + 1
            == old(maze).spec_width() * old(maze).spec_height(),
        boundary_kept(old(maze), final(maze)),
{
    if maze.is_empty() {
        proof {
            maze.lemma_extends_self();
        }
        return ;
    }
    let mut rng = get_rng(seed);
    fill_cells(maze, GridCell::wall());
    let start = (random_u8_below(&mut rng, maze.width()), random_u8_below(&mut rng, maze.height()));
    let ghost filled = *maze;
    maze.set(start, GridCell::empty());
    proof {
        filled.lemma_wf();
        old(maze).lemma_wf();
        maze.spec_grid().lemma_put_cells(filled.spec_grid(), cell_coord(start), GridCell::empty());
        assert forall|c: (u8, u8)| maze.spec_in_bounds(c) && c != start implies (
        #[trigger] maze.spec_cell(c)) == GridCell::wall() by {
            assert(old(maze).spec_grid().contains(cell_coord(c)));
            assert(filled.spec_grid().spec_get(cell_coord(c)) == GridCell::wall());
        }
    }
    let ghost opened = *maze;
    walk(maze, &mut rng, start, false);
    proof {
        opened.lemma_extends_chain(&filled, old(maze));
        maze.lemma_extends_chain(&opened, old(maze));
        assert(maze.spec_in_bounds(start));
        assert(boundary_kept(old(maze), &opened)) by {
            assert forall|at: (u16, u16)|
                old(maze).spec_grid().contains(at) && on_edge(
                    old(maze),
                    at,
                ) implies #[trigger] opened.spec_grid().spec_get(at) == old(maze).spec_grid().spec_get(at) by {
                assert(!is_cell_coord(at));
                assert(filled.spec_grid().spec_get(at) == old(maze).spec_grid().spec_get(at));
            }
        }
        opened.lemma_wf();
        lemma_boundary_chain(old(maze), &opened, maze);
        if no_open_walls(old(maze)) {
            assert(walls_kept(old(maze), &opened)) by {
                assert forall|at: (u16, u16)|
                    old(maze).spec_grid().contains(at) && !is_cell_coord(
                        at,
                    ) implies #[trigger] opened.spec_grid().spec_get(at) == old(maze).spec_grid().spec_get(at) by {
                    assert(filled.spec_grid().spec_get(at) == old(maze).spec_grid().spec_get(at));
                }
            }
            lemma_tree_begun(old(maze), &opened, start);
        }
    }
}

} // verus!
