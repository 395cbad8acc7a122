//! What the renderer asks to have drawn, and what the screen then shows.

use vstd::prelude::*;
use crate::maze::cell::GridCell;
use crate::maze::grid::GridEvent;

verus! {

/// One drawing operation on the grid area of the screen.
#[derive(Debug, Clone, Copy, PartialEq, Eq)]
pub enum Paint {
    /// Draw a `width` by `height` grid from the top-left corner, every
    /// position showing `cell`.
    Fill { cell: GridCell, width: u16, height: u16 },
    /// Draw `cell` at grid position `coord` (column, row).
    Cell { coord: (u16, u16), cell: GridCell },
}

/// What the screen shows: the cell drawn last at each grid position that was
/// ever drawn on, and the size of the grid drawn last, if any.
pub struct Canvas {
    pub dims: Option<(u16, u16)>,
    pub cells: Map<(u16, u16), GridCell>,
}

/// Whether `coord` lies inside a grid of the given size.
pub open spec fn in_bounds(coord: (u16, u16), width: u16, height: u16) -> bool {
    coord.0 < width && coord.1 < height
}

impl Canvas {
    /// A screen on which nothing was drawn.
    pub open spec fn blank() -> Canvas {
        Canvas { dims: None, cells: Map::empty() }
    }

    /// Two screens show the same grid: the same size, and the same cell at
    /// every position inside it.
    pub open spec fn same_grid(self, other: Canvas) -> bool {
        &&& self.dims == other.dims
        &&& match self.dims {
            None => true,
            Some((width, height)) => forall|c: (u16, u16)| #[trigger]
                in_bounds(c, width, height) ==> {
                    &&& self.cells.contains_key(c)
                    &&& other.cells.contains_key(c)
                    &&& self.cells[c] == other.cells[c]
                },
        }
    }

    /// The screen after one more drawing operation. A fill replaces
    /// everything; a single cell replaces what its position showed.
    pub open spec fn drawn(self, paint: Paint) -> Canvas {
        match paint {
            Paint::Fill { cell, width, height } => Canvas {
                dims: Some((width, height)),
                cells: Map::new(|c: (u16, u16)| in_bounds(c, width, height), |c: (u16, u16)| cell),
            },
            Paint::Cell { coord, cell } => Canvas {
                dims: self.dims,
                cells: self.cells.insert(coord, cell),
            },
        }
    }

    /// The screen after the operations of `paints`, in order.
    pub open spec fn drawn_all(self, paints: Seq<Paint>) -> Canvas
        decreases paints.len(),
    {
        if paints.len() == 0 {
            self
        } else {
            self.drawn_all(paints.drop_last()).drawn(paints.last())
        }
    }

    /// The screen after `event` is painted directly: an `Initial` fills the
    /// grid, an `Update` draws its new cell, and an `Update` that arrives
    /// before any grid was declared draws nothing.
    pub open spec fn painted(self, event: GridEvent) -> Canvas {
        match event {
            GridEvent::Initial { cell, width, height } => self.drawn(
                Paint::Fill { cell, width, height },
            ),
            GridEvent::Update { coord, old, new } => if self.dims.is_some() {
                self.drawn(Paint::Cell { coord, cell: new })
            } else {
                self
            },
        }
    }

    /// The screen after every event of `stream` is painted directly, in
    /// order, on a blank screen.
    pub open spec fn painted_stream(stream: Seq<GridEvent>) -> Canvas
        decreases stream.len(),
    {
        if stream.len() == 0 {
            Canvas::blank()
        } else {
            Canvas::painted_stream(stream.drop_last()).painted(stream.last())
        }
    }
}

} // verus!
