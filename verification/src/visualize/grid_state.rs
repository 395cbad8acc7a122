//! Compact snapshot of the grid: the initial fill and the cells that differ.

use vstd::prelude::*;
use std::collections::HashMap;
use vstd::std_specs::iter::IteratorSpec;
use crate::maze::cell::GridCell;
use crate::maze::grid::{is_producer_stream, stream_cell, Grid, GridEvent};
use crate::visualize::paint::{in_bounds, Canvas, Paint};

verus! {

broadcast use vstd::std_specs::hash::group_hash_axioms;

/// Mathematical content of a [`GridState`].
pub struct GridSnapshot {
    /// Fill cell, width and height of the grid declared last, if any.
    pub initial: Option<(GridCell, u16, u16)>,
    /// The cells that differ from the fill, by position (column, row).
    pub changes: Map<(u16, u16), GridCell>,
}

impl GridSnapshot {
    /// The state before any event.
    pub open spec fn empty() -> GridSnapshot {
        GridSnapshot { initial: None, changes: Map::empty() }
    }

    /// Only cells that differ from the fill are recorded, and none without
    /// a fill.
    pub open spec fn minimal(self) -> bool {
        forall|c: (u16, u16)| #[trigger]
            self.changes.contains_key(c) ==> self.initial.is_some() && self.changes[c]
                != self.initial.unwrap().0
    }

    /// The state after `event`. An `Initial` replaces the fill and forgets
    /// all differences. An `Update` records its new cell, or forgets the
    /// position when the new cell is the fill; before any `Initial` it is
    /// ignored. The `old` cell of an update plays no part.
    pub open spec fn applied(self, event: GridEvent) -> GridSnapshot {
        match event {
            GridEvent::Initial { cell, width, height } => GridSnapshot {
                initial: Some((cell, width, height)),
                changes: Map::empty(),
            },
            GridEvent::Update { coord, old, new } => match self.initial {
                None => self,
                Some((fill, _, _)) => if new == fill {
                    GridSnapshot { initial: self.initial, changes: self.changes.remove(coord) }
                } else {
                    GridSnapshot { initial: self.initial, changes: self.changes.insert(coord, new) }
                },
            },
        }
    }

    /// The state after the events of `stream`, applied in order to the
    /// empty state.
    pub open spec fn replayed(stream: Seq<GridEvent>) -> GridSnapshot
        decreases stream.len(),
    {
        if stream.len() == 0 {
            GridSnapshot::empty()
        } else {
            GridSnapshot::replayed(stream.drop_last()).applied(stream.last())
        }
    }

    /// The cell the grid holds at `coord`: the recorded difference, or else
    /// the fill.
    pub open spec fn cell_at(self, coord: (u16, u16)) -> GridCell
        recommends
            self.initial.is_some(),
    {
        if self.changes.contains_key(coord) {
            self.changes[coord]
        } else {
            self.initial.unwrap().0
        }
    }

    /// What a full redraw from this state shows: nothing without a fill;
    /// otherwise the grid of the declared size, and every recorded
    /// difference on top of it.
    pub open spec fn displayed(self) -> Canvas {
        match self.initial {
            None => Canvas::blank(),
            Some((fill, width, height)) => Canvas {
                dims: Some((width, height)),
                cells: Map::new(
                    |c: (u16, u16)| in_bounds(c, width, height) || self.changes.contains_key(c),
                    |c: (u16, u16)| self.cell_at(c),
                ),
            },
        }
    }
}

/// Applying an event keeps a minimal state minimal.
pub proof fn lemma_applied_minimal(state: GridSnapshot, event: GridEvent)
    requires
        state.minimal(),
    ensures
        state.applied(event).minimal(),
{
}

/// Replaying any stream gives a minimal state.
pub proof fn lemma_replayed_minimal(stream: Seq<GridEvent>)
    ensures
        GridSnapshot::replayed(stream).minimal(),
    decreases stream.len(),
{
    if stream.len() > 0 {
        lemma_replayed_minimal(stream.drop_last());
        lemma_applied_minimal(GridSnapshot::replayed(stream.drop_last()), stream.last());
    }
}

/// Folding an event into the compact state and painting it directly keep
/// the redraw and the screen in agreement on the grid.
pub proof fn lemma_applied_matches_painted(state: GridSnapshot, canvas: Canvas, event: GridEvent)
    requires
        state.displayed().same_grid(canvas),
    ensures
        state.applied(event).displayed().same_grid(canvas.painted(event)),
{
    let after = state.applied(event);
    let shown = canvas.painted(event);
    match event {
        GridEvent::Initial { cell, width, height } => {
            assert(after.displayed().same_grid(shown));
        },
        GridEvent::Update { coord, old, new } => {
            match state.initial {
                None => {
                    assert(after.displayed().same_grid(shown));
                },
                Some((fill, width, height)) => {
                    assert(state.displayed().dims == Some((width, height)));
                    assert(after.displayed().dims == Some((width, height)));
                    assert forall|c: (u16, u16)| #[trigger]
                        in_bounds(c, width, height) implies {
                        &&& after.displayed().cells.contains_key(c)
                        &&& shown.cells.contains_key(c)
                        &&& after.displayed().cells[c] == shown.cells[c]
                    } by {
                        assert(in_bounds(
                            c,
                            state.displayed().dims.unwrap().0,
                            state.displayed().dims.unwrap().1,
                        ));
                        assert(state.displayed().cells[c] == canvas.cells[c]);
                    }
                    assert(after.displayed().same_grid(shown));
                },
            }
        },
    }
}

/// Replaying a stream of events through the compact state and redrawing
/// from it shows the same grid as painting each event directly in order:
/// the same size, and the same cell at every position of the grid.
pub proof fn lemma_replay_matches_painting(stream: Seq<GridEvent>)
    ensures
        GridSnapshot::replayed(stream).displayed().same_grid(Canvas::painted_stream(stream)),
    decreases stream.len(),
{
    if stream.len() > 0 {
        lemma_replay_matches_painting(stream.drop_last());
        lemma_applied_matches_painted(
            GridSnapshot::replayed(stream.drop_last()),
            Canvas::painted_stream(stream.drop_last()),
            stream.last(),
        );
    }
}

/// An update that starts from the cell the grid holds, followed by its
/// inverse, restores the state exactly.
pub proof fn lemma_inverse_restores(state: GridSnapshot, event: GridEvent)
    requires
        state.minimal(),
        event is Update,
        state.initial.is_some() ==> state.cell_at(event->coord) == event->old,
    ensures
        state.applied(event).applied(event.spec_inverse()) == state,
{
    let after = state.applied(event).applied(event.spec_inverse());
    assert(after.changes =~= state.changes);
}

/// `paints` is a full redraw of `state`: nothing without a fill; otherwise
/// the fill first, then every recorded difference exactly once, in any
/// order.
pub open spec fn is_redraw_of(paints: Seq<Paint>, state: GridSnapshot) -> bool {
    match state.initial {
        None => paints.len() == 0,
        Some((fill, width, height)) => {
            &&& paints.len() >= 1
            &&& paints[0] == Paint::Fill { cell: fill, width, height }
            &&& forall|i: int|
                1 <= i < paints.len() ==> match #[trigger] paints[i] {
                    Paint::Cell { coord, cell } => state.changes.contains_key(coord)
                        && state.changes[coord] == cell,
                    Paint::Fill { .. } => false,
                }
            &&& forall|i: int, j: int|
                1 <= i < j < paints.len() ==> (#[trigger] paints[i])->Cell_coord != (
                #[trigger] paints[j])->Cell_coord
            &&& forall|c: (u16, u16)| #[trigger]
                state.changes.contains_key(c) ==> exists|i: int|
                    1 <= i < paints.len() && (#[trigger] paints[i])->Cell_coord == c
        },
    }
}

/// What the first `n` operations of a redraw show: the fill, and on top of
/// it the differences drawn so far.
spec fn partial_redraw(paints: Seq<Paint>, state: GridSnapshot, n: int) -> Canvas {
    let (fill, width, height) = state.initial.unwrap();
    Canvas {
        dims: Some((width, height)),
        cells: Map::new(
            |c: (u16, u16)|
                in_bounds(c, width, height) || exists|j: int|
                    1 <= j < n && (#[trigger] paints[j])->Cell_coord == c,
            |c: (u16, u16)|
                if exists|j: int| 1 <= j < n && (#[trigger] paints[j])->Cell_coord == c {
                    state.changes[c]
                } else {
                    fill
                },
        ),
    }
}

/// The first `n` operations of a redraw show the fill and the differences
/// drawn so far.
#[verifier::rlimit(50)]
proof fn lemma_partial_redraw(paints: Seq<Paint>, state: GridSnapshot, n: int)
    requires
        is_redraw_of(paints, state),
        state.initial.is_some(),
        1 <= n <= paints.len(),
    ensures
        Canvas::blank().drawn_all(paints.take(n)) == partial_redraw(paints, state, n),
    decreases n,
{
    let (fill, width, height) = state.initial.unwrap();
    let prefix = paints.take(n);
    assert(prefix.drop_last() =~= paints.take(n - 1));
    assert(prefix.last() == paints[n - 1]);
    let shown = Canvas::blank().drawn_all(prefix);
    let want = partial_redraw(paints, state, n);
    if n == 1 {
        assert(prefix.drop_last().len() == 0);
        assert(Canvas::blank().drawn_all(prefix.drop_last()) == Canvas::blank());
        assert(shown.cells =~= want.cells);
    } else {
        lemma_partial_redraw(paints, state, n - 1);
        let before = partial_redraw(paints, state, n - 1);
        let coord = paints[n - 1]->Cell_coord;
        let cell = paints[n - 1]->Cell_cell;
        assert(paints[n - 1] == Paint::Cell { coord, cell });
        assert(shown == before.drawn(paints[n - 1]));
        assert forall|c: (u16, u16)| shown.cells.contains_key(c) <==> want.cells.contains_key(
            c,
        ) by {
            if c == coord {
                assert(1 <= n - 1 < n && paints[n - 1]->Cell_coord == c);
            }
            if exists|j: int| 1 <= j < n && (#[trigger] paints[j])->Cell_coord == c {
                let j = choose|j: int| 1 <= j < n && (#[trigger] paints[j])->Cell_coord == c;
                if j < n - 1 {
                    assert(before.cells.contains_key(c));
                }
            }
        }
        assert forall|c: (u16, u16)| shown.cells.contains_key(c) implies shown.cells[c]
            == want.cells[c] by {
            if c == coord {
                assert(state.changes.contains_key(coord) && state.changes[coord] == cell);
                assert(1 <= n - 1 < n && paints[n - 1]->Cell_coord == c);
            } else {
                assert(before.cells.contains_key(c));
                if exists|j: int| 1 <= j < n && (#[trigger] paints[j])->Cell_coord == c {
                    let j = choose|j: int| 1 <= j < n && (#[trigger] paints[j])->Cell_coord == c;
                    assert(1 <= j < n - 1 && paints[j]->Cell_coord == c);
                }
            }
        }
        assert(shown.cells =~= want.cells);
    }
}

/// A full redraw, whatever the order of its single cells, shows exactly
/// what the state displays.
pub proof fn lemma_redraw_shows_displayed(paints: Seq<Paint>, state: GridSnapshot)
    requires
        is_redraw_of(paints, state),
    ensures
        Canvas::blank().drawn_all(paints) == state.displayed(),
{
    match state.initial {
        None => {},
        Some((fill, width, height)) => {
            lemma_partial_redraw(paints, state, paints.len() as int);
            assert(paints.take(paints.len() as int) =~= paints);
            let want = partial_redraw(paints, state, paints.len() as int);
            assert forall|c: (u16, u16)| want.cells.contains_key(c)
                <==> state.displayed().cells.contains_key(c) by {
                if state.changes.contains_key(c) {
                    let i = choose|i: int|
                        1 <= i < paints.len() && (#[trigger] paints[i])->Cell_coord == c;
                    assert(want.cells.contains_key(c));
                }
            }
            assert forall|c: (u16, u16)| want.cells.contains_key(c) implies want.cells[c]
                == state.displayed().cells[c] by {
                if state.changes.contains_key(c) {
                    let i = choose|i: int|
                        1 <= i < paints.len() && (#[trigger] paints[i])->Cell_coord == c;
                } else {
                    if exists|j: int|
                        1 <= j < paints.len() && (#[trigger] paints[j])->Cell_coord == c {
                        let j = choose|j: int|
                            1 <= j < paints.len() && (#[trigger] paints[j])->Cell_coord == c;
                        assert(paints[j] is Cell);
                    }
                }
            }
            assert(want.cells =~= state.displayed().cells);
        },
    }
}

/// Position of a cell as a single number: rows of 65536 columns.
pub open spec fn key_of(coord: (u16, u16)) -> u32 {
    (coord.1 as u32 * 65536 + coord.0 as u32) as u32
}

/// The position that a number stands for.
pub open spec fn coord_of(key: u32) -> (u16, u16) {
    ((key % 65536) as u16, (key / 65536) as u16)
}

/// The current grid in compact form: the fill that the grid started from
/// and the cells that differ from it.
pub struct GridState {
    initial: Option<(GridCell, u16, u16)>,
    changes: HashMap<u32, GridCell>,
}

impl View for GridState {
    type V = GridSnapshot;

    /// The fill and the differences, by position.
    closed spec fn view(&self) -> GridSnapshot {
        GridSnapshot {
            initial: self.initial,
            changes: Map::new(
                |c: (u16, u16)| self.changes@.contains_key(key_of(c)),
                |c: (u16, u16)| self.changes@[key_of(c)],
            ),
        }
    }
}

impl Default for GridState {
    /// The state before any event.
    fn default() -> (s: Self)
        ensures
            s.wf(),
            s@ == GridSnapshot::empty(),
    {
        GridState::new()
    }
}

impl GridState {
    /// The recorded differences are minimal.
    pub closed spec fn wf(&self) -> bool {
        self@.minimal()
    }

    /// A well-formed state is minimal.
    pub proof fn lemma_wf_minimal(&self)
        requires
            self.wf(),
        ensures
            self@.minimal(),
    {
    }

    /// The state before any event.
    pub fn new() -> (s: Self)
        ensures
            s.wf(),
            s@ == GridSnapshot::empty(),
    {
        let s = GridState { initial: None, changes: HashMap::new() };
        assert(s@.changes =~= Map::empty());
        s
    }

    /// Width and height of the grid declared last, if any.
    pub fn dims(&self) -> (r: Option<(u16, u16)>)
        ensures
            r == match self@.initial {
                Some((_, width, height)) => Some((width, height)),
                None => None,
            },
    {
        match self.initial {
            Some((_, w, h)) => Some((w, h)),
            None => None,
        }
    }

    /// The cell that the grid holds at `coord`, if a grid was declared: the
    /// recorded difference, or else the fill.
    pub fn cell_at(&self, coord: (u16, u16)) -> (cell: Option<GridCell>)
        ensures
            cell == (if self@.initial.is_some() {
                Some(self@.cell_at(coord))
            } else {
                None
            }),
    {
        match self.initial {
            None => None,
            Some((fill, _, _)) => {
                let key: u32 = coord.1 as u32 * 65536 + coord.0 as u32;
                match self.changes.get(&key) {
                    Some(cell) => Some(*cell),
                    None => Some(fill),
                }
            },
        }
    }

    /// Folds `event` into the state.
    pub fn add_event(&mut self, event: GridEvent)
        requires
            old(self).wf(),
        ensures
            final(self).wf(),
            final(self)@ == old(self)@.applied(event),
    {
        match event {
            GridEvent::Initial { cell, width, height } => {
                self.initial = Some((cell, width, height));
                self.changes.clear();
                assert(self@.changes =~= Map::empty());
            },
            GridEvent::Update { coord, old: _, new } => {
                if let Some((fill, _, _)) = self.initial {
                    let key: u32 = coord.1 as u32 * 65536 + coord.0 as u32;
                    assert(forall|c: (u16, u16)| key_of(c) == key ==> c == coord);
                    if new == fill {
                        self.changes.remove(&key);
                        assert(self@.changes =~= old(self)@.changes.remove(coord));
                    } else {
                        self.changes.insert(key, new);
                        assert(self@.changes =~= old(self)@.changes.insert(coord, new));
                    }
                }
            },
        }
        proof {
            lemma_applied_minimal(old(self)@, event);
        }
    }
}


impl GridState {
    /// The drawing operations of a full redraw: the fill of the whole grid,
    /// then every cell that differs from it, once each. The order of the
    /// single cells is not fixed; whatever it is, the result shows what the
    /// state displays. Without a fill there is nothing to draw.
    #[verifier::rlimit(50)]
    pub fn recover(&self) -> (paints: Vec<Paint>)
        ensures
            is_redraw_of(paints@, self@),
            Canvas::blank().drawn_all(paints@) == self@.displayed(),
    {
        let mut paints: Vec<Paint> = Vec::new();
        if let Some((fill, width, height)) = self.initial {
            paints.push(Paint::Fill { cell: fill, width, height });
            for pair in it: self.changes.iter()
                invariant
                    it.seq() == self.changes.iter().remaining(),
                    it.seq().no_duplicates(),
                    paints@.len() == 1 + it.index(),
                    paints@[0] == (Paint::Fill { cell: fill, width, height }),
                    forall|i: int|
                        1 <= i < paints@.len() ==> (#[trigger] paints@[i]) == (Paint::Cell {
                            coord: coord_of(*it.seq()[i - 1].0),
                            cell: *it.seq()[i - 1].1,
                        }),
            {
                let (k, v) = pair;
                let key: u32 = *k;
                paints.push(
                    Paint::Cell { coord: ((key % 65536) as u16, (key / 65536) as u16), cell: *v },
                );
            }
            proof {
                let entries = self.changes.iter().remaining();
                assert forall|i: int| 1 <= i < paints@.len() implies match #[trigger] paints@[i] {
                    Paint::Cell { coord, cell } => self@.changes.contains_key(coord)
                        && self@.changes[coord] == cell,
                    Paint::Fill { .. } => false,
                } by {
                    let key = *entries[i - 1].0;
                    assert(self.changes@.contains_key(key));
                    assert(key_of(coord_of(key)) == key);
                }
                assert forall|i: int, j: int| 1 <= i < j < paints@.len() implies (
                #[trigger] paints@[i])->Cell_coord != (#[trigger] paints@[j])->Cell_coord by {
                    let ki = *entries[i - 1].0;
                    let kj = *entries[j - 1].0;
                    assert(self.changes@.contains_key(ki) && self.changes@[ki] == *entries[i
                        - 1].1);
                    assert(self.changes@.contains_key(kj) && self.changes@[kj] == *entries[j
                        - 1].1);
                    assert(key_of(coord_of(ki)) == ki);
                    assert(key_of(coord_of(kj)) == kj);
                    if ki == kj {
                        assert(entries[i - 1] == entries[j - 1]);
                    }
                }
                assert forall|c: (u16, u16)| #[trigger]
                    self@.changes.contains_key(c) implies exists|i: int|
                    1 <= i < paints@.len() && (#[trigger] paints@[i])->Cell_coord == c by {
                    let key = key_of(c);
                    assert(self.changes@.contains_key(key));
                    let cell = self.changes@[key];
                    assert(entries.contains((&key, &cell)));
                    let j = choose|j: int| 0 <= j < entries.len() && entries[j] == (&key, &cell);
                    assert(coord_of(key) == c);
                    assert(paints@[j + 1]->Cell_coord == c);
                }
            }
        }
        proof {
            lemma_redraw_shows_displayed(paints@, self@);
        }
        paints
    }
}

/// Replaying the first `n` events of a producer's stream gives the grid
/// that the stream declares, holding at every position the cell that the
/// updates so far leave there.
pub proof fn lemma_replay_of_stream(
    stream: Seq<GridEvent>,
    fill: GridCell,
    width: u16,
    height: u16,
    n: int,
)
    requires
        is_producer_stream(stream, fill, width, height),
        1 <= n <= stream.len(),
    ensures
        GridSnapshot::replayed(stream.take(n)).initial == Some((fill, width, height)),
        GridSnapshot::replayed(stream.take(n)).minimal(),
        forall|c: (u16, u16)|
            #[trigger] GridSnapshot::replayed(stream.take(n)).cell_at(c) == stream_cell(
                stream.subrange(1, n),
                c,
                fill,
            ),
    decreases n,
{
    let prefix = stream.take(n);
    assert(prefix.drop_last() =~= stream.take(n - 1));
    assert(prefix.last() == stream[n - 1]);
    lemma_replayed_minimal(prefix);
    if n == 1 {
        assert(stream.take(0) =~= Seq::<GridEvent>::empty());
        assert(stream.subrange(1, 1) =~= Seq::<GridEvent>::empty());
    } else {
        lemma_replay_of_stream(stream, fill, width, height, n - 1);
        let earlier = GridSnapshot::replayed(stream.take(n - 1));
        let tail = stream.subrange(1, n);
        assert(tail.drop_last() =~= stream.subrange(1, n - 1));
        assert(tail.last() == stream[n - 1]);
        assert(stream[n - 1] is Update);
        assert forall|c: (u16, u16)|
            #[trigger] GridSnapshot::replayed(prefix).cell_at(c) == stream_cell(tail, c, fill) by {
            assert(earlier.cell_at(c) == stream_cell(stream.subrange(1, n - 1), c, fill));
        }
    }
}

/// Replaying what a grid has emitted through the compact state gives the
/// grid: its size and fill, and at every position the cell that the grid
/// holds there.
pub proof fn lemma_replay_of_grid(grid: &Grid)
    requires
        grid.wf(),
    ensures
        GridSnapshot::replayed(grid.emitted()).initial == Some(
            (grid.fill(), grid.spec_width(), grid.spec_height()),
        ),
        forall|c: (u16, u16)|
            grid.contains(c) ==> #[trigger] GridSnapshot::replayed(grid.emitted()).cell_at(c)
                == grid.spec_get(c),
{
    grid.lemma_wf();
    let stream = grid.emitted();
    lemma_replay_of_stream(
        stream,
        grid.fill(),
        grid.spec_width(),
        grid.spec_height(),
        stream.len() as int,
    );
    assert(stream.take(stream.len() as int) =~= stream);
    assert forall|c: (u16, u16)| grid.contains(c) implies #[trigger] GridSnapshot::replayed(
        grid.emitted(),
    ).cell_at(c) == grid.spec_get(c) by {
        assert(grid.spec_get(c) == stream_cell(
            stream.subrange(1, stream.len() as int),
            c,
            grid.fill(),
        ));
    }
}

} // verus!
