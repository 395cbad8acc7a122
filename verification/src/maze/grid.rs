//! The cell grid and the events it emits.

use vstd::prelude::*;
use std::sync::mpsc::SyncSender;
use crate::maze::cell::{GridCell, Orientation};

verus! {

/// One unit of grid mutation, as a producer emits it.
#[derive(Debug, Clone, Copy, PartialEq, Eq)]
pub enum GridEvent {
    /// A fresh grid of the given size, every cell holding `cell`.
    Initial { cell: GridCell, width: u16, height: u16 },
    /// The cell at `coord` (column, row) went from `old` to `new`.
    Update { coord: (u16, u16), old: GridCell, new: GridCell },
}

impl GridEvent {
    /// The event that undoes this one: an update with `old` and `new`
    /// exchanged. An `Initial` has no inverse and is returned unchanged.
    pub open spec fn spec_inverse(self) -> GridEvent {
        match self {
            GridEvent::Initial { .. } => self,
            GridEvent::Update { coord, old, new } => GridEvent::Update { coord, old: new, new: old },
        }
    }

    /// Synthesizes the inverse of an update by exchanging `old` and `new`.
    #[verifier::when_used_as_spec(spec_inverse)]
    pub fn inverse(self) -> (r: GridEvent)
        ensures
            r == self.spec_inverse(),
    {
        match self {
            GridEvent::Initial { .. } => self,
            GridEvent::Update { coord, old, new } => GridEvent::Update { coord, old: new, new: old },
        }
    }
}

/// The sending half of a bounded channel of the standard library. A send
/// waits while the channel is full.
#[verifier::external_type_specification]
#[verifier::external_body]
#[verifier::reject_recursive_types(T)]
pub struct ExSyncSender<T>(SyncSender<T>);

/// Hands `event` to the channel, waiting while the channel is full.
///
/// Wraps `SyncSender::send`. Whether the receiver is still there is not
/// reported: a send to a channel without receiver is dropped.
#[verifier::external_body]
fn send_event(sender: &SyncSender<GridEvent>, event: GridEvent) {
    let _ = sender.send(event);
}

/// The cell that a stream of events leaves at `coord`, given the cell
/// there before: the new cell of the last update of that position.
pub open spec fn stream_cell(stream: Seq<GridEvent>, coord: (u16, u16), before: GridCell) -> GridCell
    decreases stream.len(),
{
    if stream.len() == 0 {
        before
    } else {
        match stream.last() {
            GridEvent::Update { coord: c, old, new } if c == coord => new,
            _ => stream_cell(stream.drop_last(), coord, before),
        }
    }
}

/// A stream as a producer emits it for a grid of the given size and fill:
/// one `Initial` that declares them, then only updates, each inside the
/// grid, each naming as `old` the cell that its position held just before,
/// and none that changes nothing.
pub open spec fn is_producer_stream(stream: Seq<GridEvent>, fill: GridCell, width: u16, height: u16) -> bool {
    &&& stream.len() >= 1
    &&& stream[0] == GridEvent::Initial { cell: fill, width, height }
    &&& forall|i: int|
        1 <= i < stream.len() ==> match #[trigger] stream[i] {
            GridEvent::Update { coord, old, new } => {
                &&& coord.0 < width
                &&& coord.1 < height
                &&& old != new
                &&& old == stream_cell(stream.subrange(1, i), coord, fill)
            },
            GridEvent::Initial { .. } => false,
        }
}

/// A rectangular grid of cells that reports its own changes: it declares
/// itself when it is made, and every cell that changes is emitted as an
/// update, to the channel if the grid was given one.
pub struct Grid {
    data: Vec<GridCell>,
    width: u16,
    height: u16,
    fill: Ghost<GridCell>,
    emitted: Ghost<Seq<GridEvent>>,
    grid_event_tx: Option<SyncSender<GridEvent>>,
}

impl Grid {
    /// The cells, row by row.
    pub closed spec fn cells(&self) -> Seq<GridCell> {
        self.data@
    }

    /// Number of columns.
    pub closed spec fn spec_width(&self) -> u16 {
        self.width
    }

    /// Number of rows.
    pub closed spec fn spec_height(&self) -> u16 {
        self.height
    }

    /// The cell that the grid was filled with when it was made.
    pub closed spec fn fill(&self) -> GridCell {
        self.fill@
    }

    /// Every event the grid has emitted since it was made, in order.
    pub closed spec fn emitted(&self) -> Seq<GridEvent> {
        self.emitted@
    }

    /// Whether the grid emits to a channel.
    pub closed spec fn is_connected(&self) -> bool {
        self.grid_event_tx.is_some()
    }

    /// Position of `coord` (column, row) in the cells.
    pub open spec fn spec_ravel_index(&self, coord: (u16, u16)) -> int {
        coord.1 * self.spec_width() + coord.0
    }

    /// The cell at `coord` (column, row).
    pub open spec fn spec_get(&self, coord: (u16, u16)) -> GridCell
        recommends
            coord.0 < self.spec_width(),
            coord.1 < self.spec_height(),
    {
        self.cells()[self.spec_ravel_index(coord)]
    }

    /// Whether `coord` lies inside the grid.
    pub open spec fn contains(&self, coord: (u16, u16)) -> bool {
        coord.0 < self.spec_width() && coord.1 < self.spec_height()
    }

    /// The grid is `before` after some changes: well-formed, of the same
    /// size and fill, on the same channel, and what `before` had emitted is
    /// the beginning of what it has emitted.
    pub open spec fn extends(&self, before: &Grid) -> bool {
        &&& self.wf()
        &&& self.spec_width() == before.spec_width()
        &&& self.spec_height() == before.spec_height()
        &&& self.fill() == before.fill()
        &&& self.is_connected() == before.is_connected()
        &&& before.emitted().is_prefix_of(self.emitted())
    }

    /// The grid is `before` after `cell` was put at `coord`: only that
    /// position changed, and the change, if it is one, was emitted.
    pub open spec fn is_put(&self, before: &Grid, coord: (u16, u16), cell: GridCell) -> bool {
        &&& self.extends(before)
        &&& self.cells() == before.cells().update(before.spec_ravel_index(coord), cell)
        &&& self.emitted() == (if before.spec_get(coord) == cell {
            before.emitted()
        } else {
            before.emitted().push(
                GridEvent::Update { coord, old: before.spec_get(coord), new: cell },
            )
        })
    }

    /// After a put, the position holds the cell and every other position
    /// what it held.
    pub proof fn lemma_put_cells(&self, before: &Grid, coord: (u16, u16), cell: GridCell)
        requires
            before.wf(),
            before.contains(coord),
            self.is_put(before, coord, cell),
        ensures
            self.spec_get(coord) == cell,
            forall|c: (u16, u16)|
                before.contains(c) && c != coord ==> #[trigger] self.spec_get(c)
                    == before.spec_get(c),
    {
        before.lemma_index_in_range(coord);
        assert forall|c: (u16, u16)| before.contains(c) && c != coord implies #[trigger] self.spec_get(
            c,
        ) == before.spec_get(c) by {
            before.lemma_index_in_range(c);
            if before.spec_ravel_index(c) == before.spec_ravel_index(coord) {
                before.lemma_index_injective(c, coord);
            }
        }
    }

    /// There is a cell for every position, and what the grid has emitted
    /// is a producer's stream that leaves exactly these cells.
    pub closed spec fn wf(&self) -> bool {
        &&& self.data@.len() == self.width * self.height
        &&& is_producer_stream(self.emitted@, self.fill@, self.width, self.height)
        &&& forall|c: (u16, u16)|
            c.0 < self.width && c.1 < self.height ==> #[trigger] self.data@[c.1 * self.width + c.0]
                == stream_cell(self.emitted@.subrange(1, self.emitted@.len() as int), c, self.fill@)
    }

    /// What well-formedness says, in terms of the public specification.
    pub proof fn lemma_wf(&self)
        requires
            self.wf(),
        ensures
            self.cells().len() == self.spec_width() * self.spec_height(),
            is_producer_stream(self.emitted(), self.fill(), self.spec_width(), self.spec_height()),
            forall|c: (u16, u16)|
                self.contains(c) ==> #[trigger] self.spec_get(c) == stream_cell(
                    self.emitted().subrange(1, self.emitted().len() as int),
                    c,
                    self.fill(),
                ),
    {
    }

    /// A position inside the grid has a cell.
    pub proof fn lemma_index_in_range(&self, coord: (u16, u16))
        requires
            self.wf(),
            self.contains(coord),
        ensures
            0 <= self.spec_ravel_index(coord) < self.cells().len(),
    {
        let w = self.width as int;
        let h = self.height as int;
        let x = coord.0 as int;
        let y = coord.1 as int;
        assert(y * w + x < w * h) by (nonlinear_arith)
            requires
                0 <= x < w,
                0 <= y < h,
        ;
        assert(0 <= y * w + x) by (nonlinear_arith)
            requires
                0 <= x < w,
                0 <= y < h,
        ;
    }

    /// Two positions inside the grid that share a cell are the same.
    pub proof fn lemma_index_injective(&self, a: (u16, u16), b: (u16, u16))
        requires
            self.contains(a),
            self.contains(b),
            self.spec_ravel_index(a) == self.spec_ravel_index(b),
        ensures
            a == b,
    {
        let w = self.spec_width() as int;
        let (ax, ay, bx, by) = (a.0 as int, a.1 as int, b.0 as int, b.1 as int);
        assert(ay == by) by (nonlinear_arith)
            requires
                0 <= ax < w,
                0 <= bx < w,
                0 <= ay,
                0 <= by,
                ay * w + ax == by * w + bx,
        ;
    }

    /// A grid of `width` columns and `height` rows, every cell holding
    /// `cell`. The grid declares itself: the first event it emits is the
    /// `Initial` of its size and fill.
    pub fn new(
        width: u16,
        height: u16,
        cell: GridCell,
        grid_event_tx: Option<SyncSender<GridEvent>>,
    ) -> (g: Self)
        ensures
            g.wf(),
            g.spec_width() == width,
            g.spec_height() == height,
            g.fill() == cell,
            g.cells() == Seq::new((width * height) as nat, |i: int| cell),
            g.emitted() == seq![GridEvent::Initial { cell, width, height }],
            g.is_connected() == grid_event_tx.is_some(),
    {
        assert(width * height <= 65535 * 65535) by (nonlinear_arith)
            requires
                width <= 65535,
                height <= 65535,
        ;
        let n: usize = width as usize * height as usize;
        let mut data: Vec<GridCell> = Vec::new();
        let mut i: usize = 0;
        while i < n
            invariant
                i <= n,
                data@ == Seq::new(i as nat, |k: int| cell),
            decreases n - i,
        {
            data.push(cell);
            i += 1;
            assert(data@ =~= Seq::new(i as nat, |k: int| cell));
        }
        let event = GridEvent::Initial { cell, width, height };
        match &grid_event_tx {
            Some(sender) => send_event(sender, event),
            None => {},
        }
        let ghost log = seq![event];
        let g = Grid {
            data,
            width,
            height,
            fill: Ghost(cell),
            emitted: Ghost(log),
            grid_event_tx,
        };
        proof {
            assert(g.emitted@.subrange(1, 1) =~= Seq::<GridEvent>::empty());
            assert forall|c: (u16, u16)| c.0 < width && c.1 < height implies #[trigger] g.data@[c.1
                * width + c.0] == cell by {
                g.lemma_index_in_range_raw(c);
            }
        }
        g
    }

    /// A position inside the grid has a place among the cells.
    proof fn lemma_index_in_range_raw(&self, coord: (u16, u16))
        requires
            coord.0 < self.width,
            coord.1 < self.height,
        ensures
            0 <= coord.1 * self.width + coord.0 < self.width * self.height,
    {
        let w = self.width as int;
        let h = self.height as int;
        let x = coord.0 as int;
        let y = coord.1 as int;
        assert(0 <= y * w + x < w * h) by (nonlinear_arith)
            requires
                0 <= x < w,
                0 <= y < h,
        ;
    }

    /// Number of rows.
    pub fn height(&self) -> (h: u16)
        ensures
            h == self.spec_height(),
    {
        self.height
    }

    /// Number of columns.
    pub fn width(&self) -> (w: u16)
        ensures
            w == self.spec_width(),
    {
        self.width
    }

    /// Whether (`x`, `y`) lies on the first or last column or row.
    pub fn is_boundary(&self, x: u16, y: u16) -> (b: bool)
        ensures
            b == (x == 0 || y == 0 || x + 1 == self.spec_width() || y + 1 == self.spec_height()),
    {
        x == 0 || y == 0 || x as u32 + 1 == self.width as u32 || y as u32 + 1 == self.height as u32
    }

    /// Place of the position (`x`, `y`) among the cells, row by row.
    fn ravel_index(&self, x: u16, y: u16) -> (i: usize)
        requires
            self.wf(),
            self.contains((x, y)),
        ensures
            i == self.spec_ravel_index((x, y)),
            i < self.cells().len(),
    {
        proof {
            self.lemma_index_in_range((x, y));
            assert(y * self.width <= 65535 * 65535) by (nonlinear_arith)
                requires
                    y <= 65535,
                    self.width <= 65535,
            ;
        }
        y as usize * self.width as usize + x as usize
    }

    /// The cell at `coord` (column, row).
    pub fn get(&self, coord: (u16, u16)) -> (cell: &GridCell)
        requires
            self.wf(),
            self.contains(coord),
        ensures
            *cell == self.spec_get(coord),
    {
        let idx = self.ravel_index(coord.0, coord.1);
        &self.data[idx]
    }

    /// Puts `cell` at `coord` (column, row). A change is emitted as an
    /// update that names the cell held before; putting the cell that is
    /// already there emits nothing.
    #[verifier::rlimit(50)]
    pub fn set(&mut self, coord: (u16, u16), cell: GridCell)
        requires
            old(self).wf(),
            old(self).contains(coord),
        ensures
            final(self).is_put(old(self), coord, cell),
    {
        let idx = self.ravel_index(coord.0, coord.1);
        let previous = self.data[idx];
        if previous != cell {
            self.data.set(idx, cell);
            let event = GridEvent::Update { coord, old: previous, new: cell };
            match &self.grid_event_tx {
                Some(sender) => send_event(sender, event),
                None => {},
            }
            let ghost log = self.emitted@.push(event);
            self.emitted = Ghost(log);
            proof {
                let before = old(self).emitted@;
                let after = self.emitted@;
                let tail = after.subrange(1, after.len() as int);
                assert(tail.drop_last() =~= before.subrange(1, before.len() as int));
                assert(tail.last() == event);
                assert forall|i: int| 1 <= i < after.len() implies match #[trigger] after[i] {
                    GridEvent::Update { coord: c, old, new } => {
                        &&& c.0 < self.width
                        &&& c.1 < self.height
                        &&& old != new
                        &&& old == stream_cell(after.subrange(1, i), c, self.fill@)
                    },
                    GridEvent::Initial { .. } => false,
                } by {
                    if i < before.len() {
                        assert(after[i] == before[i]);
                        assert(after.subrange(1, i) =~= before.subrange(1, i));
                    } else {
                        assert(after.subrange(1, i) =~= before.subrange(1, before.len() as int));
                        assert(old(self).data@[coord.1 * old(self).width + coord.0] == previous);
                    }
                }
                assert forall|c: (u16, u16)|
                    c.0 < self.width && c.1 < self.height implies #[trigger] self.data@[c.1
                    * self.width + c.0] == stream_cell(tail, c, self.fill@) by {
                    if c == coord {
                    } else {
                        old(self).lemma_index_in_range(c);
                        if old(self).spec_ravel_index(c) == old(self).spec_ravel_index(coord) {
                            old(self).lemma_index_injective(c, coord);
                        }
                        assert(old(self).data@[c.1 * old(self).width + c.0] == stream_cell(
                            before.subrange(1, before.len() as int),
                            c,
                            self.fill@,
                        ));
                    }
                }
            }
        } else {
            assert(self.data@ =~= old(self).data@.update(idx as int, cell));
        }
    }
}

/// Whether position `i` of the cells of a grid `width` columns and
/// `height` rows large lies on the first or last column or row.
pub open spec fn on_boundary(width: u16, height: u16, i: int) -> bool
    recommends
        width > 0,
{
    i % (width as int) == 0 || i / (width as int) == 0 || i % (width as int) + 1 == width || i / (
    width as int) + 1 == height
}

/// The updates that a grid emits while the first `n` of its cells, row by
/// row, are set to `target` wherever they lie off the boundary: one for
/// each such cell that held something else, in order.
pub open spec fn interior_updates(
    before: Seq<GridCell>,
    width: u16,
    height: u16,
    target: GridCell,
    n: nat,
) -> Seq<GridEvent>
    recommends
        width > 0,
        n <= before.len(),
    decreases n,
{
    if n == 0 {
        Seq::empty()
    } else {
        let i = n - 1;
        let earlier = interior_updates(before, width, height, target, i as nat);
        if !on_boundary(width, height, i) && before[i] != target {
            earlier.push(
                GridEvent::Update {
                    coord: ((i % (width as int)) as u16, (i / (width as int)) as u16),
                    old: before[i],
                    new: target,
                },
            )
        } else {
            earlier
        }
    }
}

/// The position `y * width + x` is in row `y` and column `x`.
pub proof fn lemma_row_major(width: int, x: int, y: int)
    requires
        0 <= x < width,
        0 <= y,
    ensures
        (y * width + x) % width == x,
        (y * width + x) / width == y,
{
    vstd::arithmetic::div_mod::lemma_fundamental_div_mod_converse(y * width + x, width, y, x);
}

impl Grid {
    /// Sets every cell off the boundary to `cell`, row by row, emitting an
    /// update for each cell that changes. The boundary stays as it is.
    #[verifier::rlimit(50)]
    pub fn fill_interior(&mut self, cell: GridCell)
        requires
            old(self).wf(),
        ensures
            final(self).extends(old(self)),
            final(self).cells() == Seq::new(
                old(self).cells().len(),
                |i: int|
                    if on_boundary(old(self).spec_width(), old(self).spec_height(), i) {
                        old(self).cells()[i]
                    } else {
                        cell
                    },
            ),
            final(self).emitted() == old(self).emitted() + interior_updates(
                old(self).cells(),
                old(self).spec_width(),
                old(self).spec_height(),
                cell,
                old(self).cells().len(),
            ),
    {
        let ghost before = self.data@;
        let ghost log = self.emitted@;
        let width = self.width;
        let height = self.height;
        let mut y: u16 = 0;
        assert(log + interior_updates(before, width, height, cell, 0) =~= log);
        while y < height
            invariant
                self.extends(old(self)),
                width == self.width,
                height == self.height,
                before == old(self).data@,
                log == old(self).emitted@,
                y <= height,
                self.data@.len() == before.len(),
                forall|i: int|
                    0 <= i < before.len() ==> #[trigger] self.data@[i] == (if i < y * width
                        && !on_boundary(width, height, i) {
                        cell
                    } else {
                        before[i]
                    }),
                self.emitted@ == log + interior_updates(
                    before,
                    width,
                    height,
                    cell,
                    (y * width) as nat,
                ),
            decreases height - y,
        {
            let mut x: u16 = 0;
            while x < width
                invariant
                    self.extends(old(self)),
                    width == self.width,
                    height == self.height,
                    before == old(self).data@,
                    log == old(self).emitted@,
                    y < height,
                    x <= width,
                    self.data@.len() == before.len(),
                    forall|i: int|
                        0 <= i < before.len() ==> #[trigger] self.data@[i] == (if i < y * width + x
                            && !on_boundary(width, height, i) {
                            cell
                        } else {
                            before[i]
                        }),
                    self.emitted@ == log + interior_updates(
                        before,
                        width,
                        height,
                        cell,
                        (y * width + x) as nat,
                    ),
                decreases width - x,
            {
                let ghost i = y * width + x;
                proof {
                    lemma_row_major(width as int, x as int, y as int);
                    self.lemma_index_in_range((x, y));
                    assert(self.data@[i] == before[i]);
                }
                if !self.is_boundary(x, y) {
                    self.set((x, y), cell);
                    proof {
                        assert(self.emitted().is_prefix_of(self.emitted()));
                        assert(log.is_prefix_of(self.emitted@));
                    }
                }
                proof {
                    assert(self.emitted@ =~= log + interior_updates(
                        before,
                        width,
                        height,
                        cell,
                        (i + 1) as nat,
                    ));
                }
                x += 1;
            }
            proof {
                assert((y + 1) * width == y * width + width) by (nonlinear_arith);
            }
            y += 1;
        }
        proof {
            assert(height * width == width * height) by (nonlinear_arith);
            assert(self.data@ =~= Seq::new(
                before.len(),
                |i: int|
                    if on_boundary(width, height, i) {
                        before[i]
                    } else {
                        cell
                    },
            ));
        }
    }
}

/// Position `t` along a line of the grid: in row `fixed` for a horizontal
/// line, in column `fixed` for a vertical one.
pub open spec fn line_coord(fixed: u16, t: u16, orientation: Orientation) -> (u16, u16) {
    match orientation {
        Orientation::Horizontal => (t, fixed),
        Orientation::Vertical => (fixed, t),
    }
}

/// The updates that a grid emits while the positions from `start` up to,
/// not including, `stop` along a line are set to `target`: one for each
/// that held something else, in order.
pub open spec fn line_updates(
    before: &Grid,
    fixed: u16,
    start: u16,
    stop: int,
    orientation: Orientation,
    target: GridCell,
) -> Seq<GridEvent>
    decreases stop - start,
{
    if stop <= start {
        Seq::empty()
    } else {
        let at = line_coord(fixed, (stop - 1) as u16, orientation);
        let earlier = line_updates(before, fixed, start, stop - 1, orientation, target);
        if before.spec_get(at) != target {
            earlier.push(GridEvent::Update { coord: at, old: before.spec_get(at), new: target })
        } else {
            earlier
        }
    }
}

impl Grid {
    /// Whether `coord` lies on the line between `start` and `end`, both
    /// included.
    pub open spec fn on_line(
        coord: (u16, u16),
        fixed: u16,
        start: u16,
        end: u16,
        orientation: Orientation,
    ) -> bool {
        exists|t: u16| start <= t <= end && coord == #[trigger] line_coord(fixed, t, orientation)
    }

    /// Sets the positions from `start` to `end`, both included, along a
    /// line to `cell`, emitting an update for each that changes. Nothing
    /// happens where `start` lies beyond `end`.
    #[verifier::rlimit(50)]
    pub fn fill_line(&mut self, fixed: u16, start: u16, end: u16, orientation: Orientation, cell: GridCell)
        requires
            old(self).wf(),
            start <= end ==> old(self).contains(line_coord(fixed, start, orientation))
                && old(self).contains(line_coord(fixed, end, orientation)),
        ensures
            final(self).extends(old(self)),
            forall|c: (u16, u16)|
                old(self).contains(c) ==> #[trigger] final(self).spec_get(c) == (if Grid::on_line(
                    c,
                    fixed,
                    start,
                    end,
                    orientation,
                ) {
                    cell
                } else {
                    old(self).spec_get(c)
                }),
            final(self).emitted() == old(self).emitted() + line_updates(
                old(self),
                fixed,
                start,
                end + 1,
                orientation,
                cell,
            ),
    {
        let ghost log = self.emitted@;
        if start > end {
            assert(self.emitted@ =~= log + line_updates(
                old(self),
                fixed,
                start,
                end + 1,
                orientation,
                cell,
            ));
            assert forall|c: (u16, u16)| !Grid::on_line(c, fixed, start, end, orientation) by {}
            return ;
        }
        let mut t: u16 = start;
        let mut done = false;
        assert(log + line_updates(old(self), fixed, start, start as int, orientation, cell) =~= log);
        while !done
            invariant
                self.extends(old(self)),
                log == old(self).emitted@,
                start <= t <= end,
                old(self).contains(line_coord(fixed, start, orientation)),
                old(self).contains(line_coord(fixed, end, orientation)),
                forall|c: (u16, u16)|
                    old(self).contains(c) ==> #[trigger] self.spec_get(c) == (if Grid::on_line(
                        c,
                        fixed,
                        start,
                        end,
                        orientation,
                    ) && (done || c != line_coord(fixed, t, orientation)) && exists|u: u16|
                        start <= u <= t && c == #[trigger] line_coord(fixed, u, orientation) {
                        cell
                    } else {
                        old(self).spec_get(c)
                    }),
                self.emitted@ == log + line_updates(
                    old(self),
                    fixed,
                    start,
                    if done {
                        t + 1
                    } else {
                        t as int
                    },
                    orientation,
                    cell,
                ),
                done ==> t == end,
            decreases end - t + (if done {
                0int
            } else {
                1int
            }),
        {
            let at = match orientation {
                Orientation::Horizontal => (t, fixed),
                Orientation::Vertical => (fixed, t),
            };
            let ghost mid = *self;
            assert(self.spec_get(at) == old(self).spec_get(at));
            self.set(at, cell);
            proof {
                self.lemma_put_cells(&mid, at, cell);
                assert(self.emitted@ =~= log + line_updates(
                    old(self),
                    fixed,
                    start,
                    t + 1,
                    orientation,
                    cell,
                ));
                assert(log.is_prefix_of(self.emitted@));
                assert(at == line_coord(fixed, t, orientation));
            }
            if t == end {
                done = true;
            } else {
                t += 1;
            }
        }
        proof {
            assert forall|c: (u16, u16)| old(self).contains(c) implies #[trigger] self.spec_get(c)
                == (if Grid::on_line(c, fixed, start, end, orientation) {
                cell
            } else {
                old(self).spec_get(c)
            }) by {
                if Grid::on_line(c, fixed, start, end, orientation) {
                    let u = choose|u: u16|
                        start <= u <= end && c == #[trigger] line_coord(fixed, u, orientation);
                    assert(start <= u <= t && c == line_coord(fixed, u, orientation));
                }
            }
        }
    }
}

impl vstd::std_specs::core::IndexSpecImpl<(u16, u16)> for Grid {
    /// A grid is indexed by its positions.
    open spec fn index_req(&self, index: &(u16, u16)) -> bool {
        self.wf() && self.contains(*index)
    }
}

impl std::ops::Index<(u16, u16)> for Grid {
    type Output = GridCell;

    /// The cell at `index` (column, row).
    fn index(&self, index: (u16, u16)) -> (cell: &GridCell)
        ensures
            *cell == self.spec_get(index),
    {
        self.get(index)
    }
}

} // verus!
