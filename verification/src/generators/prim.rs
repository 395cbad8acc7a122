//! Prim's algorithm on the cells of a maze, with a randomly sampled set of
//! frontier cells.

use vstd::prelude::*;
use std::hash::{BuildHasher, Hash, RandomState};
use rand_set::RandSet;
use crate::generators::{
    all_joined,
    are_neighbors,
    boundary_kept,
    joined,
    lemma_boundary_chain,
    lemma_joined_carve,
    lemma_joined_kept,
    lemma_joined_self,
    on_edge,
    open_cells_joined,
    passable,
    walls_kept,
    walls_only_opened,
    carved_as_tree,
    lemma_carved_as_tree,
    lemma_tree_begun,
    lemma_tree_done,
    lemma_tree_kept,
    no_open_walls,
    open_walls,
    fill_cells,
    get_rng,
    lemma_gap,
    lemma_open_spreads,
    lemma_put_walls,
    neighbors_holding,
    open_between,
    open_cells_closed,
    random_index,
    random_u8_below,
    wall_between,
    walls,
};
use crate::maze::cell::GridCell;
use crate::maze::grid::GridEvent;
use crate::maze::{cell_coord, is_cell_coord, wall_coord, Maze};

verus! {

/// The hash set with random access of the `rand_set` crate.
#[verifier::external_type_specification]
#[verifier::external_body]
#[verifier::reject_recursive_types(T)]
#[verifier::reject_recursive_types(S)]
pub struct ExRandSet<T: Hash + Eq + Clone, S: BuildHasher>(RandSet<T, S>);

/// The items that a set of frontier cells holds.
pub uninterp spec fn frontier_items(set: RandSet<(u8, u8), RandomState>) -> Set<(u8, u8)>;

/// An empty set of frontier cells.
///
/// Wraps `RandSet::new`, which makes a set without items.
#[verifier::external_body]
fn frontier_new() -> (set: RandSet<(u8, u8), RandomState>)
    ensures
        frontier_items(set) == Set::<(u8, u8)>::empty(),
{
    RandSet::new()
}

/// Adds a cell to the set; returns whether the cell is new to it.
///
/// Wraps `RandSet::insert`, which leaves the set alone and returns `false`
/// where it holds the item, and else adds the item and returns `true`.
#[verifier::external_body]
fn frontier_insert(set: &mut RandSet<(u8, u8), RandomState>, cell: (u8, u8)) -> (added: bool)
    ensures
        added == !frontier_items(*old(set)).contains(cell),
        frontier_items(*final(set)) == frontier_items(*old(set)).insert(cell),
{
    set.insert(cell)
}

/// Takes a cell out of the set; returns whether the set held it.
///
/// Wraps `RandSet::remove`, which returns `false` and changes nothing
/// where the set does not hold the item, and else removes just that item
/// and returns `true`.
#[verifier::external_body]
fn frontier_remove(set: &mut RandSet<(u8, u8), RandomState>, cell: (u8, u8)) -> (removed: bool)
    ensures
        removed == frontier_items(*old(set)).contains(cell),
        frontier_items(*final(set)) == frontier_items(*old(set)).remove(cell),
{
    set.remove(&cell)
}

/// Some cell of the set, picked at random; none where the set is empty.
///
/// Wraps `RandSet::get_rand`, which returns `None` for a set without items
/// and else one of its items, drawn with the thread's random number
/// generator.
#[verifier::external_body]
fn frontier_get_rand(set: &RandSet<(u8, u8), RandomState>) -> (picked: Option<(u8, u8)>)
    ensures
        match picked {
            Some(cell) => frontier_items(*set).contains(cell),
            None => frontier_items(*set) == Set::<(u8, u8)>::empty(),
        },
{
    set.get_rand().copied()
}

/// Whether every cell of the maze is a solid wall, a highlighted wall, or
/// open.
pub open spec fn cells_wall_mark_or_empty(maze: &Maze) -> bool {
    forall|c: (u8, u8)|
        maze.spec_in_bounds(c) ==> #[trigger] maze.spec_cell(c) == GridCell::wall()
            || maze.spec_cell(c) == GridCell::mark() || maze.spec_cell(c) == GridCell::empty()
}

/// Whether the highlighted cells of the maze are exactly the cells of the
/// frontier.
pub open spec fn marks_are_frontier(maze: &Maze, frontier: Set<(u8, u8)>) -> bool {
    &&& forall|c: (u8, u8)| #[trigger] frontier.contains(c) ==> maze.spec_in_bounds(c)
    &&& forall|c: (u8, u8)|
        maze.spec_in_bounds(c) ==> ((#[trigger] maze.spec_cell(c)) == GridCell::mark())
            == frontier.contains(c)
}

/// Whether no open cell of the maze, but perhaps `except`, has a solid
/// wall for a neighbour.
pub open spec fn open_cells_fenced(maze: &Maze, except: Option<(u8, u8)>) -> bool {
    forall|a: (u8, u8), b: (u8, u8)|
        maze.spec_in_bounds(a) && maze.spec_in_bounds(b) && #[trigger] are_neighbors(a, b)
            && maze.spec_cell(a) == GridCell::empty() && Some(a) != except ==> maze.spec_cell(b)
            != GridCell::wall()
}

/// Whether every cell of the frontier has an open neighbour.
pub open spec fn frontier_touches(maze: &Maze, frontier: Set<(u8, u8)>) -> bool {
    forall|c: (u8, u8)| #[trigger]
        frontier.contains(c) ==> exists|n: (u8, u8)|
            maze.spec_in_bounds(n) && #[trigger] are_neighbors(c, n) && maze.spec_cell(n)
                == GridCell::empty()
}

/// What Prim's algorithm keeps true of the maze and its frontier.
pub open spec fn prim_kept(maze: &Maze, frontier: Set<(u8, u8)>, except: Option<(u8, u8)>) -> bool {
    &&& frontier.finite()
    &&& cells_wall_mark_or_empty(maze)
    &&& marks_are_frontier(maze, frontier)
    &&& open_cells_fenced(maze, except)
    &&& frontier_touches(maze, frontier)
}

/// Joining a frontier cell to the maze keeps everything but the fence
/// around the cell itself.
proof fn lemma_kept_join(before: &Maze, after: &Maze, frontier: Set<(u8, u8)>, cell: (u8, u8))
    requires
        prim_kept(before, frontier, None),
        frontier.contains(cell),
        after.spec_width() == before.spec_width(),
        after.spec_height() == before.spec_height(),
        forall|c: (u8, u8)|
            before.spec_in_bounds(c) ==> #[trigger] after.spec_cell(c) == (if c == cell {
                GridCell::empty()
            } else {
                before.spec_cell(c)
            }),
    ensures
        prim_kept(after, frontier.remove(cell), Some(cell)),
{
    let rest = frontier.remove(cell);
    assert forall|c: (u8, u8)| #[trigger] rest.contains(c) implies exists|n: (u8, u8)|
        after.spec_in_bounds(n) && #[trigger] are_neighbors(c, n) && after.spec_cell(n)
            == GridCell::empty() by {
        assert(frontier.contains(c));
        let n = choose|n: (u8, u8)|
            before.spec_in_bounds(n) && #[trigger] are_neighbors(c, n) && before.spec_cell(n)
                == GridCell::empty();
        assert(after.spec_in_bounds(n) && are_neighbors(c, n) && after.spec_cell(n)
            == GridCell::empty());
    }
    assert forall|a: (u8, u8), b: (u8, u8)|
        after.spec_in_bounds(a) && after.spec_in_bounds(b) && #[trigger] are_neighbors(a, b)
            && after.spec_cell(a) == GridCell::empty() && Some(a) != Some(
            cell,
        ) implies after.spec_cell(b) != GridCell::wall() by {
        assert(before.spec_cell(a) == GridCell::empty());
        assert(before.spec_cell(b) != GridCell::wall());
    }
    assert forall|c: (u8, u8)| after.spec_in_bounds(c) implies ((
    #[trigger] after.spec_cell(c)) == GridCell::mark()) == rest.contains(c) by {
        assert((before.spec_cell(c) == GridCell::mark()) == frontier.contains(c));
    }
}

/// Highlighting a solid neighbour of the open cell `cell` and taking it
/// into the frontier keeps everything.
proof fn lemma_kept_mark(
    before: &Maze,
    after: &Maze,
    frontier: Set<(u8, u8)>,
    cell: (u8, u8),
    marked: (u8, u8),
)
    requires
        prim_kept(before, frontier, Some(cell)),
        before.spec_in_bounds(cell),
        before.spec_in_bounds(marked),
        before.spec_cell(cell) == GridCell::empty(),
        before.spec_cell(marked) == GridCell::wall(),
        are_neighbors(cell, marked),
        after.spec_width() == before.spec_width(),
        after.spec_height() == before.spec_height(),
        forall|c: (u8, u8)|
            before.spec_in_bounds(c) ==> #[trigger] after.spec_cell(c) == (if c == marked {
                GridCell::mark()
            } else {
                before.spec_cell(c)
            }),
    ensures
        prim_kept(after, frontier.insert(marked), Some(cell)),
        !frontier.contains(marked),
{
    let grown = frontier.insert(marked);
    assert((before.spec_cell(marked) == GridCell::mark()) == frontier.contains(marked));
    assert forall|c: (u8, u8)| #[trigger] grown.contains(c) implies exists|n: (u8, u8)|
        after.spec_in_bounds(n) && #[trigger] are_neighbors(c, n) && after.spec_cell(n)
            == GridCell::empty() by {
        if c == marked {
            assert(after.spec_in_bounds(cell) && are_neighbors(marked, cell) && after.spec_cell(
                cell,
            ) == GridCell::empty());
        } else {
            assert(frontier.contains(c));
            let n = choose|n: (u8, u8)|
                before.spec_in_bounds(n) && #[trigger] are_neighbors(c, n) && before.spec_cell(n)
                    == GridCell::empty();
            assert(after.spec_in_bounds(n) && are_neighbors(c, n) && after.spec_cell(n)
                == GridCell::empty());
        }
    }
    assert forall|a: (u8, u8), b: (u8, u8)|
        after.spec_in_bounds(a) && after.spec_in_bounds(b) && #[trigger] are_neighbors(a, b)
            && after.spec_cell(a) == GridCell::empty() && Some(a) != Some(
            cell,
        ) implies after.spec_cell(b) != GridCell::wall() by {
        assert(before.spec_cell(a) == GridCell::empty());
        assert(before.spec_cell(b) != GridCell::wall());
    }
    assert forall|c: (u8, u8)| after.spec_in_bounds(c) implies ((
    #[trigger] after.spec_cell(c)) == GridCell::mark()) == grown.contains(c) by {
        assert((before.spec_cell(c) == GridCell::mark()) == frontier.contains(c));
    }
    assert(cells_wall_mark_or_empty(after)) by {
        assert forall|c: (u8, u8)| after.spec_in_bounds(c) implies #[trigger] after.spec_cell(c)
            == GridCell::wall() || after.spec_cell(c) == GridCell::mark() || after.spec_cell(c)
            == GridCell::empty() by {
            assert(before.spec_cell(c) == GridCell::wall() || before.spec_cell(c)
                == GridCell::mark() || before.spec_cell(c) == GridCell::empty());
        }
    }
}

/// Joins the frontier cell `frontier` to the maze through its open
/// neighbour `neighbor`: the wall between the two is opened and the
/// frontier cell becomes open.
#[verifier::rlimit(50)]
pub fn join(maze: &mut Maze, frontier: (u8, u8), neighbor: (u8, u8))
    requires
        old(maze).wf(),
        old(maze).spec_in_bounds(frontier),
        old(maze).spec_in_bounds(neighbor),
        are_neighbors(frontier, neighbor),
    ensures
        final(maze).extends(old(maze)),
        forall|at: (u16, u16)|
            old(maze).spec_grid().contains(at) ==> #[trigger] final(maze).spec_grid().spec_get(at)
                == (if at == cell_coord(frontier) {
                GridCell::empty()
            } else if at == wall_coord(
                wall_between(frontier, neighbor).0,
                wall_between(frontier, neighbor).1,
            ) && old(maze).spec_grid().spec_get(at) is Wall {
                GridCell::empty()
            } else {
                old(maze).spec_grid().spec_get(at)
            }),
        final(maze).spec_grid().emitted() == old(maze).spec_grid().emitted() + (if old(maze).spec_is_wall_after(wall_between(frontier, neighbor).0, wall_between(frontier, neighbor).1) {
            seq![
                GridEvent::Update {
                    coord: wall_coord(
                        wall_between(frontier, neighbor).0,
                        wall_between(frontier, neighbor).1,
                    ),
                    old: old(maze).spec_grid().spec_get(
                        wall_coord(
                            wall_between(frontier, neighbor).0,
                            wall_between(frontier, neighbor).1,
                        ),
                    ),
                    new: GridCell::empty(),
                },
            ]
        } else {
            Seq::empty()
        }) + (if old(maze).spec_cell(frontier) != GridCell::empty() {
            seq![
                GridEvent::Update {
                    coord: cell_coord(frontier),
                    old: old(maze).spec_cell(frontier),
                    new: GridCell::empty(),
                },
            ]
        } else {
            Seq::empty()
        }),
        walls(final(maze).spec_grid().cells()) <= walls(old(maze).spec_grid().cells()),
        forall|c: (u8, u8)|
            old(maze).spec_in_bounds(c) ==> #[trigger] final(maze).spec_cell(c) == (if c
                == frontier {
                GridCell::empty()
            } else {
                old(maze).spec_cell(c)
            }),
        walls_only_opened(old(maze), final(maze)),
        passable(final(maze), neighbor, frontier),
        boundary_kept(old(maze), final(maze)),
{
    let ghost m0 = *maze;
    proof {
        m0.lemma_wf();
    }
    let removed = open_between(maze, frontier, neighbor);
    let ghost m1 = *maze;
    let ghost gap = wall_coord(
        wall_between(frontier, neighbor).0,
        wall_between(frontier, neighbor).1,
    );
    proof {
        m1.lemma_wf();
        m0.lemma_extends_self();
        assert(m0.spec_grid().contains(gap));
        if removed {
            m1.spec_grid().lemma_put_cells(m0.spec_grid(), gap, GridCell::empty());
            lemma_put_walls(m1.spec_grid(), m0.spec_grid(), gap, GridCell::empty());
        }
    }
    maze.set(frontier, GridCell::empty());
    proof {
        maze.lemma_extends_chain(&m1, &m0);
        maze.spec_grid().lemma_put_cells(m1.spec_grid(), cell_coord(frontier), GridCell::empty());
        lemma_put_walls(maze.spec_grid(), m1.spec_grid(), cell_coord(frontier), GridCell::empty());
        assert(m1.spec_cell(frontier) == m0.spec_cell(frontier));
        lemma_gap(&m0, frontier, neighbor);
        lemma_gap(&m0, neighbor, frontier);
        maze.lemma_wf();
        assert(m0.spec_grid().contains(gap) && !is_cell_coord(gap) && !on_edge(&m0, gap));
        assert(!on_edge(&m0, cell_coord(frontier)));
        assert forall|c: (u8, u8)| m0.spec_in_bounds(c) implies #[trigger] maze.spec_cell(c) == (
        if c == frontier {
            GridCell::empty()
        } else {
            m0.spec_cell(c)
        }) by {
            assert(m0.spec_grid().contains(cell_coord(c)));
            assert(is_cell_coord(cell_coord(c)));
        }
        assert(maze.spec_grid().emitted() =~= m0.spec_grid().emitted() + (if m0.spec_is_wall_after(
            wall_between(frontier, neighbor).0,
            wall_between(frontier, neighbor).1,
        ) {
            seq![
                GridEvent::Update {
                    coord: gap,
                    old: m0.spec_grid().spec_get(gap),
                    new: GridCell::empty(),
                },
            ]
        } else {
            Seq::empty()
        }) + (if m0.spec_cell(frontier) != GridCell::empty() {
            seq![
                GridEvent::Update {
                    coord: cell_coord(frontier),
                    old: m0.spec_cell(frontier),
                    new: GridCell::empty(),
                },
            ]
        } else {
            Seq::empty()
        }));
    }
}

/// Highlights the solid neighbours of the open cell `cell` and takes them
/// into the frontier: each that the frontier does not hold yet.
fn take_in(maze: &mut Maze, frontiers: &mut RandSet<(u8, u8), RandomState>, cell: (u8, u8))
    requires
        old(maze).wf(),
        old(maze).spec_in_bounds(cell),
        old(maze).spec_cell(cell) == GridCell::empty(),
        prim_kept(old(maze), frontier_items(*old(frontiers)), Some(cell)),
    ensures
        final(maze).extends(old(maze)),
        prim_kept(final(maze), frontier_items(*final(frontiers)), None),
        forall|c: (u8, u8)|
            old(maze).spec_in_bounds(c) ==> (#[trigger] final(maze).spec_cell(c)
                == GridCell::empty()) == (old(maze).spec_cell(c) == GridCell::empty()),
        walls_kept(old(maze), final(maze)),
        boundary_kept(old(maze), final(maze)),
        walls(final(maze).spec_grid().cells()) < walls(old(maze).spec_grid().cells()) || (walls(
            final(maze).spec_grid().cells(),
        ) == walls(old(maze).spec_grid().cells()) && frontier_items(*final(frontiers)).len()
            == frontier_items(*old(frontiers)).len()),
{
    let to_mark = neighbors_holding(cell, maze, GridCell::wall());
    let mut j: usize = 0;
    let ghost mut added: nat = 0;
    proof {
        maze.lemma_extends_self();
    }
    while j < to_mark.len()
        invariant
            j <= to_mark.len(),
            maze.extends(old(maze)),
            maze.spec_in_bounds(cell),
            maze.spec_cell(cell) == GridCell::empty(),
            prim_kept(maze, frontier_items(*frontiers), Some(cell)),
            to_mark@.no_duplicates(),
            forall|k: int|
                j <= k < to_mark@.len() ==> maze.spec_in_bounds(#[trigger] to_mark@[k])
                    && maze.spec_cell(to_mark@[k]) == GridCell::wall() && are_neighbors(
                    cell,
                    to_mark@[k],
                ),
            forall|b: (u8, u8)|
                maze.spec_in_bounds(b) && #[trigger] are_neighbors(cell, b) && maze.spec_cell(b)
                    == GridCell::wall() ==> exists|k: int|
                    j <= k < to_mark@.len() && to_mark@[k] == b,
            forall|c: (u8, u8)|
                old(maze).spec_in_bounds(c) ==> (#[trigger] maze.spec_cell(c) == GridCell::empty())
                    == (old(maze).spec_cell(c) == GridCell::empty()),
            old(maze).wf(),
            forall|at: (u16, u16)|
                old(maze).spec_grid().contains(at) && !is_cell_coord(
                    at,
                ) ==> #[trigger] maze.spec_grid().spec_get(at) == old(maze).spec_grid().spec_get(
                    at,
                ),
            frontier_items(*frontiers).len() == frontier_items(*old(frontiers)).len() + added,
            walls(maze.spec_grid().cells()) + added <= walls(old(maze).spec_grid().cells()),
        decreases to_mark.len() - j,
    {
        let coord = to_mark[j];
        let ghost before_set = frontier_items(*frontiers);
        let ghost mid = *maze;
        proof {
            assert((mid.spec_cell(coord) == GridCell::mark()) == before_set.contains(coord));
        }
        if frontier_insert(frontiers, coord) {
            maze.set(coord, GridCell::mark());
            proof {
                mid.lemma_wf();
                maze.lemma_extends_chain(&mid, old(maze));
                lemma_put_walls(
                    maze.spec_grid(),
                    mid.spec_grid(),
                    cell_coord(coord),
                    GridCell::mark(),
                );
                assert forall|c: (u8, u8)| mid.spec_in_bounds(c) implies #[trigger] maze.spec_cell(
                    c,
                ) == (if c == coord {
                    GridCell::mark()
                } else {
                    mid.spec_cell(c)
                }) by {
                    assert(mid.spec_grid().contains(cell_coord(c)));
                    maze.spec_grid().lemma_put_cells(
                        mid.spec_grid(),
                        cell_coord(coord),
                        GridCell::mark(),
                    );
                }
                lemma_kept_mark(&mid, maze, before_set, cell, coord);
                added = added + 1;
                old(maze).lemma_wf();
                maze.spec_grid().lemma_put_cells(
                    mid.spec_grid(),
                    cell_coord(coord),
                    GridCell::mark(),
                );
                assert forall|at: (u16, u16)|
                    old(maze).spec_grid().contains(at) && !is_cell_coord(
                        at,
                    ) implies #[trigger] maze.spec_grid().spec_get(at) == old(maze).spec_grid().spec_get(at) by {
                    assert(mid.spec_grid().spec_get(at) == old(maze).spec_grid().spec_get(at));
                }
                assert forall|c: (u8, u8)| old(maze).spec_in_bounds(c) implies ((
                #[trigger] maze.spec_cell(c)) == GridCell::empty()) == (old(maze).spec_cell(c)
                    == GridCell::empty()) by {
                    assert((mid.spec_cell(c) == GridCell::empty()) == (old(maze).spec_cell(c)
                        == GridCell::empty()));
                }
                assert forall|k: int| j < k < to_mark@.len() implies maze.spec_in_bounds(
                    #[trigger] to_mark@[k],
                ) && maze.spec_cell(to_mark@[k]) == GridCell::wall() && are_neighbors(
                    cell,
                    to_mark@[k],
                ) by {
                    assert(to_mark@[k] != to_mark@[j as int]);
                }
                assert forall|b: (u8, u8)|
                    maze.spec_in_bounds(b) && #[trigger] are_neighbors(cell, b) && maze.spec_cell(b)
                        == GridCell::wall() implies exists|k: int|
                    j + 1 <= k < to_mark@.len() && to_mark@[k] == b by {
                    assert(mid.spec_cell(b) == GridCell::wall());
                    let k = choose|k: int| j <= k < to_mark@.len() && to_mark@[k] == b;
                    assert(k != j);
                }
            }
        }
        j += 1;
    }
    proof {
        assert(boundary_kept(old(maze), maze)) by {
            assert forall|at: (u16, u16)|
                old(maze).spec_grid().contains(at) && on_edge(
                    old(maze),
                    at,
                ) implies #[trigger] maze.spec_grid().spec_get(at) == old(maze).spec_grid().spec_get(at) by {
                assert(!is_cell_coord(at));
            }
        }
        assert(open_cells_fenced(maze, None)) by {
            assert forall|a: (u8, u8), b: (u8, u8)|
                maze.spec_in_bounds(a) && maze.spec_in_bounds(b) && #[trigger] are_neighbors(a, b)
                    && maze.spec_cell(a) == GridCell::empty() implies maze.spec_cell(b)
                != GridCell::wall() by {
                if a != cell {
                    assert(Some(a) != Some(cell));
                }
            }
        }
    }
}

/// Generates a maze by Prim's algorithm: every cell is walled in, a random
/// cell is opened and its neighbours become the frontier. Then, as long as
/// the frontier holds a cell, one is drawn from it and joined to the maze
/// through one of its open neighbours, picked at random; its solid
/// neighbours join the frontier and are highlighted. A maze without cells
/// is left as it is.
///
/// Whatever is drawn, the grid only emits valid updates, every cell of
/// the maze ends open and joined to every other by ways that no wall is in
/// the way of, and the boundary of the grid stays as it was. Where no wall
/// between two cells was open before, one wall fewer is open afterwards
/// than there are cells.
#[verifier::rlimit(50)]
pub fn randomized_prim(maze: &mut Maze, seed: Option<u64>)
    requires
        old(maze).wf(),
        (old(maze).spec_width() == 0) == (old(maze).spec_height() == 0),
    ensures
        final(maze).extends(old(maze)),
        old(maze).spec_width() == 0 ==> *final(maze) == *old(maze),
        old(maze).spec_width() > 0 ==> forall|c: (u8, u8)|
            final(maze).spec_in_bounds(c) ==> #[trigger] final(maze).spec_cell(c)
                == GridCell::empty(),
        old(maze).spec_width() > 0 ==> all_joined(final(maze)),
        old(maze).spec_width() > 0 && no_open_walls(old(maze)) ==> open_walls(final(maze)) + 1
            == old(maze).spec_width() * old(maze).spec_height(),
        boundary_kept(old(maze), final(maze)),
{
    if maze.is_empty() {
        proof {
            maze.lemma_extends_self();
        }
        return ;
    }
    let mut rng = get_rng(seed);
    fill_cells(maze, GridCell::wall());
    let start = (random_u8_below(&mut rng, maze.width()), random_u8_below(&mut rng, maze.height()));
    let ghost filled = *maze;
    maze.set(start, GridCell::empty());
    let ghost opened = *maze;
    let mut frontiers = frontier_new();
    proof {
        filled.lemma_wf();
        old(maze).lemma_wf();
        maze.spec_grid().lemma_put_cells(filled.spec_grid(), cell_coord(start), GridCell::empty());
        opened.lemma_extends_chain(&filled, old(maze));
        assert forall|c: (u8, u8)| maze.spec_in_bounds(c) && c != start implies (
        #[trigger] maze.spec_cell(c)) == GridCell::wall() by {
            assert(old(maze).spec_grid().contains(cell_coord(c)));
            assert(filled.spec_grid().spec_get(cell_coord(c)) == GridCell::wall());
        }
        assert(prim_kept(maze, frontier_items(frontiers), Some(start)));
        assert(open_cells_joined(maze, start)) by {
            lemma_joined_self(maze, start);
        }
        assert(boundary_kept(old(maze), &opened)) by {
            assert forall|at: (u16, u16)|
                old(maze).spec_grid().contains(at) && on_edge(
                    old(maze),
                    at,
                ) implies #[trigger] opened.spec_grid().spec_get(at) == old(maze).spec_grid().spec_get(at) by {
                assert(!is_cell_coord(at));
                assert(filled.spec_grid().spec_get(at) == old(maze).spec_grid().spec_get(at));
            }
        }
        if no_open_walls(old(maze)) {
            assert(walls_kept(old(maze), &opened)) by {
                assert forall|at: (u16, u16)|
                    old(maze).spec_grid().contains(at) && !is_cell_coord(
                        at,
                    ) implies #[trigger] opened.spec_grid().spec_get(at) == old(maze).spec_grid().spec_get(at) by {
                    assert(filled.spec_grid().spec_get(at) == old(maze).spec_grid().spec_get(at));
                }
            }
            lemma_tree_begun(old(maze), &opened, start);
        }
    }
    let ghost as_tree = no_open_walls(old(maze));
    take_in(maze, &mut frontiers, start);
    proof {
        maze.lemma_extends_chain(&opened, old(maze));
        opened.lemma_wf();
        lemma_joined_kept(&opened, maze, start);
        lemma_boundary_chain(old(maze), &opened, maze);
        if as_tree {
            lemma_tree_kept(&opened, maze);
        }
    }
    loop
        invariant
            maze.extends(old(maze)),
            maze.spec_in_bounds(start),
            maze.spec_cell(start) == GridCell::empty(),
            prim_kept(maze, frontier_items(frontiers), None),
            open_cells_joined(maze, start),
            boundary_kept(old(maze), maze),
            old(maze).wf(),
            as_tree ==> carved_as_tree(maze),
        ensures
            maze.extends(old(maze)),
            maze.spec_in_bounds(start),
            maze.spec_cell(start) == GridCell::empty(),
            prim_kept(maze, frontier_items(frontiers), None),
            open_cells_joined(maze, start),
            boundary_kept(old(maze), maze),
            as_tree ==> carved_as_tree(maze),
            frontier_items(frontiers) == Set::<(u8, u8)>::empty(),
        decreases walls(maze.spec_grid().cells()), frontier_items(frontiers).len(),
    {
        let frontier = match frontier_get_rand(&frontiers) {
            Some(frontier) => frontier,
            None => {
                break ;
            },
        };
        let ghost before = frontier_items(frontiers);
        let ghost entry = *maze;
        frontier_remove(&mut frontiers, frontier);
        let empty_neighbors = neighbors_holding(frontier, maze, GridCell::empty());
        proof {
            let n = choose|n: (u8, u8)|
                maze.spec_in_bounds(n) && #[trigger] are_neighbors(frontier, n) && maze.spec_cell(n)
                    == GridCell::empty();
            assert(empty_neighbors@.contains(n));
        }
        if empty_neighbors.len() > 0 {
            let neighbor = empty_neighbors[random_index(&mut rng, empty_neighbors.len())];
            join(maze, frontier, neighbor);
            let ghost linked = *maze;
            proof {
                lemma_kept_join(&entry, &linked, before, frontier);
                maze.lemma_extends_chain(&entry, old(maze));
                entry.lemma_wf();
                lemma_joined_carve(&entry, &linked, start, neighbor, frontier);
                lemma_boundary_chain(old(maze), &entry, &linked);
                if as_tree {
                    lemma_gap(&entry, frontier, neighbor);
                    assert(empty_neighbors@.contains(neighbor));
                    assert(entry.spec_cell(frontier) == GridCell::mark());
                    lemma_carved_as_tree(&entry, &linked, neighbor, frontier);
                }
            }
            take_in(maze, &mut frontiers, frontier);
            proof {
                maze.lemma_extends_chain(&linked, old(maze));
                linked.lemma_wf();
                lemma_joined_kept(&linked, maze, start);
                lemma_boundary_chain(old(maze), &linked, maze);
                if as_tree {
                    lemma_tree_kept(&linked, maze);
                }
            }
        }
    }
    proof {
        assert(open_cells_closed(maze)) by {
            assert forall|a: (u8, u8), b: (u8, u8)|
                maze.spec_in_bounds(a) && maze.spec_in_bounds(b) && #[trigger] are_neighbors(a, b)
                    && maze.spec_cell(a) == GridCell::empty() implies maze.spec_cell(b)
                == GridCell::empty() by {
                assert(maze.spec_cell(b) != GridCell::wall());
                assert((maze.spec_cell(b) == GridCell::mark()) == frontier_items(
                    frontiers,
                ).contains(b));
            }
        }
        assert forall|c: (u8, u8)| maze.spec_in_bounds(c) implies #[trigger] maze.spec_cell(c)
            == GridCell::empty() by {
            lemma_open_spreads(maze, start, c);
        }
        assert forall|c: (u8, u8)| maze.spec_in_bounds(c) implies #[trigger] joined(
            maze,
            start,
            c,
        ) by {
            assert(maze.spec_cell(c) == GridCell::empty());
        }
        if as_tree {
            lemma_tree_done(maze);
        }
    }
}

} // verus!
