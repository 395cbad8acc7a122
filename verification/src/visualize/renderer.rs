//! The renderer as a state machine: from its state and one input to its
//! next state, what to draw, and what to wait for.

use vstd::prelude::*;
use crate::maze::grid::GridEvent;
use crate::visualize::grid_state::{
    is_redraw_of,
    lemma_inverse_restores,
    lemma_replayed_minimal,
    GridSnapshot,
    GridState,
};
use crate::visualize::history::{added, GridEventHistory};
use crate::visualize::input::UserActionEvent;
use crate::visualize::paint::Paint;
use crate::visualize::scale::{
    delay_micros,
    RenderRefreshTimeScale,
    MAX_DELTA_MICROS,
    MAX_LEVELS,
};

verus! {

/// How a render session ended.
#[derive(Debug, Clone, Copy, PartialEq, Eq, Structural)]
pub enum RendererStatus {
    /// The producer finished and everything was drawn.
    Completed,
    /// The operator, or the coordinator, cancelled.
    Cancelled,
}

/// Why an event is being painted; it decides whether the event is recorded
/// and what follows the painting.
#[derive(Debug, Clone, Copy, PartialEq, Eq, Structural)]
pub enum Origin {
    /// It arrived from the producer while running.
    Live,
    /// It is replayed from history on resume.
    Replay,
    /// The operator stepped forward onto it in history.
    Forward,
    /// The operator stepped forward past the present and it was waiting.
    Future,
    /// It undoes the event the operator stepped back over.
    Backward,
}

/// What a wait for a larger terminal interrupted.
#[derive(Debug, Clone, Copy, PartialEq, Eq)]
pub enum Held {
    /// A size check asked for by a resize, while paused or not.
    Check { paused: bool },
    /// The painting of an event.
    Event { event: GridEvent, origin: Origin },
}

/// Where the renderer stands.
#[derive(Debug, Clone, Copy, PartialEq, Eq)]
pub enum Phase {
    /// Not started.
    Idle,
    /// Running, about to look for an operator action.
    Running,
    /// Running, waiting for the next event of the producer.
    Live,
    /// Paused, waiting for an operator action.
    Paused,
    /// Paused, the operator stepped past the present: waiting to learn
    /// whether the producer has an event ready.
    Polling,
    /// Resumed, replaying the events the operator had stepped back over.
    Resuming,
    /// The terminal is too small for the grid: waiting for a resize.
    ResizeWait(Held),
    /// Ended by cancellation.
    Cancelled,
    /// Ended because the producer finished.
    Completed,
}

/// The state of the renderer, as the operator sees it.
#[derive(Debug, Clone, Copy, PartialEq, Eq, Structural)]
pub enum Stage {
    /// Drawing the producer's events as they come.
    Running,
    /// Halted by the operator, who may step through history.
    Paused,
    /// Waiting for a terminal with room for the grid.
    ResizeWait,
    /// Ended by cancellation.
    Cancelled,
    /// Ended because the producer finished.
    Completed,
}

impl Phase {
    /// The state that the phase belongs to.
    pub open spec fn spec_stage(self) -> Stage {
        match self {
            Phase::Idle => Stage::Running,
            Phase::Running => Stage::Running,
            Phase::Live => Stage::Running,
            Phase::Resuming => Stage::Running,
            Phase::Paused => Stage::Paused,
            Phase::Polling => Stage::Paused,
            Phase::ResizeWait(_) => Stage::ResizeWait,
            Phase::Cancelled => Stage::Cancelled,
            Phase::Completed => Stage::Completed,
        }
    }

    /// The state that the phase belongs to.
    #[verifier::when_used_as_spec(spec_stage)]
    pub fn stage(self) -> (stage: Stage)
        ensures
            stage == self.spec_stage(),
    {
        match self {
            Phase::Idle => Stage::Running,
            Phase::Running => Stage::Running,
            Phase::Live => Stage::Running,
            Phase::Resuming => Stage::Running,
            Phase::Paused => Stage::Paused,
            Phase::Polling => Stage::Paused,
            Phase::ResizeWait(_) => Stage::ResizeWait,
            Phase::Cancelled => Stage::Cancelled,
            Phase::Completed => Stage::Completed,
        }
    }
}

/// What the status line below the grid is to show.
#[derive(Debug, Clone, Copy, PartialEq, Eq)]
pub enum StatusLine {
    /// Nothing.
    Clear,
    /// The event just stepped onto.
    Stepped(GridEvent),
    /// The inverse event just painted.
    Reverted(GridEvent),
    /// The producer has no event ready.
    NoFutureEvent,
    /// The producer is gone; resuming will end the session.
    ChannelDisconnected,
    /// History is exhausted: there is no older event to step back to.
    AlreadyOldest,
    /// The cursor stands on a grid declaration, which cannot be undone.
    InitialReached,
    /// The speed gauge, `width` characters wide.
    Gauge { width: u16 },
}

/// One thing for the driver to do on the terminal, or a pause to take.
#[derive(Debug, Clone, Copy, PartialEq, Eq)]
pub enum RenderCommand {
    /// Clear the whole screen.
    ClearScreen,
    /// Hide the cursor.
    HideCursor,
    /// Draw on the grid.
    Draw(Paint),
    /// Replace the status line.
    Status(StatusLine),
    /// Clear the screen and tell the operator that the terminal is too
    /// small for a grid of this size.
    TooSmall { width: u16, height: u16 },
    /// Put the cursor at the start of the given row.
    MoveBelow { row: u16 },
    /// Sleep for so many microseconds.
    Pace { micros: u64 },
}

/// What the driver is to hand in next.
#[derive(Debug, Clone, Copy, PartialEq, Eq, Structural)]
pub enum Await {
    /// The cancellation flag if it is set, else the result of a
    /// non-blocking look at the action channel.
    PollAction,
    /// The next event of the producer, waiting for it.
    Grid,
    /// The next operator action, waiting for it.
    Action,
    /// The result of a non-blocking look at the producer's channel.
    TryGrid,
    /// Nothing: a tick.
    Tick,
    /// Nothing more: the session has ended.
    Finished(RendererStatus),
}

/// One input to the renderer.
#[derive(Debug, Clone, Copy, PartialEq, Eq)]
pub enum RenderInput {
    /// Nothing happened.
    Tick,
    /// The shared cancellation flag is set.
    CancelRequested,
    /// An operator action arrived.
    Action(UserActionEvent),
    /// A non-blocking look found no operator action.
    NoAction,
    /// The action channel is disconnected.
    ActionsClosed,
    /// An event of the producer arrived.
    Grid(GridEvent),
    /// A non-blocking look found no event of the producer.
    NoGrid,
    /// The producer's channel is disconnected.
    GridClosed,
}

/// Rows at the bottom of the terminal that are kept for the status line.
pub const NUM_LOG_ROWS: u16 = 1;

/// Whether a terminal of the given columns and rows has room for a grid of
/// the given size, each cell two columns wide, and the status line. No
/// grid fits any terminal.
pub open spec fn fits(dims: Option<(u16, u16)>, terminal: (u16, u16)) -> bool {
    match dims {
        None => true,
        Some((width, height)) => {
            &&& terminal.0 >= 2 * width
            &&& (if terminal.1 >= NUM_LOG_ROWS {
                terminal.1 - NUM_LOG_ROWS
            } else {
                0
            }) >= height
        },
    }
}

/// The drawing operation that paints `event`.
pub open spec fn paint_of(event: GridEvent) -> Paint {
    match event {
        GridEvent::Initial { cell, width, height } => Paint::Fill { cell, width, height },
        GridEvent::Update { coord, old, new } => Paint::Cell { coord, cell: new },
    }
}

/// Whether an event painted for this reason is recorded in history.
pub open spec fn saves(origin: Origin) -> bool {
    origin == Origin::Live || origin == Origin::Future
}

/// Columns of a grid `width` cells wide, at most the largest column count.
pub open spec fn columns_of(width: u16) -> u16 {
    if width > 32767 {
        u16::MAX
    } else {
        (2 * width) as u16
    }
}

/// State of a [`Renderer`], as mathematics.
pub struct RendererModel {
    /// History: retained events, most recent first.
    pub events: Seq<GridEvent>,
    /// History: steps into the past.
    pub cursor: nat,
    /// History: the most events retained.
    pub capacity: nat,
    /// The compact grid.
    pub grid: GridSnapshot,
    /// Speed scale: base delay in microseconds.
    pub delta: nat,
    /// Speed scale: number of levels.
    pub levels: nat,
    /// Speed scale: current level.
    pub level: nat,
    /// Where the renderer stands.
    pub phase: Phase,
}

/// What the renderer answers to one input: its next state, what the driver
/// is to do in order, whether a full redraw of the grid comes before that,
/// and what to hand in next.
pub struct Reaction {
    pub state: RendererModel,
    pub redraws: bool,
    pub commands: Seq<RenderCommand>,
    pub next: Await,
}

impl RendererModel {
    /// The parts fit together: the history cursor is in range, the grid
    /// records only differences, the level is on the scale.
    pub open spec fn wf(self) -> bool {
        &&& self.events.len() <= self.capacity
        &&& (self.cursor == 0 || self.cursor < self.events.len())
        &&& self.grid.minimal()
        &&& self.level < self.levels <= MAX_LEVELS
        &&& 0 < self.delta <= MAX_DELTA_MICROS
    }

    /// The same state in another phase.
    pub open spec fn at(self, phase: Phase) -> RendererModel {
        RendererModel { phase, ..self }
    }

    /// Size of the grid declared last, if any.
    pub open spec fn dims(self) -> Option<(u16, u16)> {
        match self.grid.initial {
            Some((_, width, height)) => Some((width, height)),
            None => None,
        }
    }

    /// What the renderer waits for in its phase.
    pub open spec fn awaited(self) -> Await {
        match self.phase {
            Phase::Idle => Await::Tick,
            Phase::Running => Await::PollAction,
            Phase::Live => Await::Grid,
            Phase::Paused => Await::Action,
            Phase::Polling => Await::TryGrid,
            Phase::Resuming => Await::Tick,
            Phase::ResizeWait(_) => Await::Action,
            Phase::Cancelled => Await::Finished(RendererStatus::Cancelled),
            Phase::Completed => Await::Finished(RendererStatus::Completed),
        }
    }

    /// Nothing changes and nothing is drawn.
    pub open spec fn stay(self) -> Reaction {
        Reaction { state: self, redraws: false, commands: Seq::empty(), next: self.awaited() }
    }

    /// Moves to `phase`, drawing `commands`.
    pub open spec fn go(self, phase: Phase, commands: Seq<RenderCommand>) -> Reaction {
        Reaction {
            state: self.at(phase),
            redraws: false,
            commands,
            next: self.at(phase).awaited(),
        }
    }

    /// The delay per event at the current level, in microseconds.
    pub open spec fn delay(self) -> nat {
        delay_micros(self.delta, self.levels, self.level)
    }

    /// Whether painting `event` draws anything: an update is drawn only on
    /// a declared grid.
    pub open spec fn draws(self, event: GridEvent) -> bool {
        event is Initial || self.grid.initial.is_some()
    }

    /// The state after `event` is folded into the grid and, if `save`, into
    /// history.
    pub open spec fn folded(self, event: GridEvent, save: bool) -> RendererModel {
        RendererModel {
            grid: self.grid.applied(event),
            events: if save {
                added(self.events, self.capacity, event)
            } else {
                self.events
            },
            cursor: if save && self.capacity > 0 {
                0
            } else {
                self.cursor
            },
            ..self
        }
    }

    /// Paints `event` with no regard to the terminal's size: draws it,
    /// folds it into the grid, records it if its origin asks for that, and
    /// goes on as the origin says: a live or replayed event is followed by
    /// the pacing delay, a stepped one by its description on the status
    /// line.
    pub open spec fn settled(self, event: GridEvent, origin: Origin) -> Reaction {
        let drawn: Seq<RenderCommand> = if self.draws(event) {
            seq![RenderCommand::Draw(paint_of(event))]
        } else {
            Seq::empty()
        };
        let state = self.folded(event, saves(origin));
        match origin {
            Origin::Live => state.go(
                Phase::Running,
                drawn.push(RenderCommand::Pace { micros: self.delay() as u64 }),
            ),
            Origin::Replay => state.go(
                Phase::Resuming,
                drawn.push(RenderCommand::Pace { micros: self.delay() as u64 }),
            ),
            Origin::Forward => state.go(
                Phase::Paused,
                drawn.push(RenderCommand::Status(StatusLine::Stepped(event))),
            ),
            Origin::Future => state.go(
                Phase::Paused,
                drawn.push(RenderCommand::Status(StatusLine::Stepped(event))),
            ),
            Origin::Backward => state.go(
                Phase::Paused,
                drawn.push(RenderCommand::Status(StatusLine::Reverted(event))),
            ),
        }
    }

    /// The notice that the terminal is too small for the declared grid.
    pub open spec fn too_small(self) -> RenderCommand {
        RenderCommand::TooSmall { width: self.dims().unwrap().0, height: self.dims().unwrap().1 }
    }

    /// Paints `event`, unless it would draw on a terminal too small for the
    /// grid declared so far: then the renderer says so and waits for a
    /// resize with the event in hand.
    pub open spec fn presented(self, event: GridEvent, origin: Origin, terminal: (u16, u16)) -> Reaction {
        if self.draws(event) && !fits(self.dims(), terminal) {
            self.go(Phase::ResizeWait(Held::Event { event, origin }), seq![self.too_small()])
        } else {
            self.settled(event, origin)
        }
    }

    /// Checks the terminal's size on a resize: if the grid no longer fits,
    /// the renderer says so and waits; else it goes on where it was.
    pub open spec fn checked(self, paused: bool, terminal: (u16, u16)) -> Reaction {
        if !fits(self.dims(), terminal) {
            self.go(Phase::ResizeWait(Held::Check { paused }), seq![self.too_small()])
        } else if paused {
            self.go(Phase::Paused, Seq::empty())
        } else {
            self.go(Phase::Live, Seq::empty())
        }
    }

    /// One step of the replay on resume: the next event toward the present
    /// is painted; at the present the renderer goes live.
    pub open spec fn replayed(self, terminal: (u16, u16)) -> Reaction {
        if self.cursor == 0 {
            self.go(Phase::Live, Seq::empty())
        } else {
            RendererModel { cursor: (self.cursor - 1) as nat, ..self }.presented(
                self.events[self.cursor - 1],
                Origin::Replay,
                terminal,
            )
        }
    }

    /// With `commands` drawn before everything else.
    pub open spec fn after(commands: Seq<RenderCommand>, reaction: Reaction) -> Reaction {
        Reaction { commands: commands + reaction.commands, ..reaction }
    }

    /// The gauge on the status line: as wide as the grid's columns, or as
    /// the terminal where no grid is declared.
    pub open spec fn gauge(self, terminal: (u16, u16)) -> RenderCommand {
        RenderCommand::Status(
            StatusLine::Gauge {
                width: match self.dims() {
                    Some((width, _)) => columns_of(width),
                    None => terminal.0,
                },
            },
        )
    }

    /// One level faster, if there is one.
    pub open spec fn faster(self) -> RendererModel {
        RendererModel {
            level: if self.level + 1 < self.levels {
                self.level + 1
            } else {
                self.level
            },
            ..self
        }
    }

    /// One level slower, if there is one.
    pub open spec fn slower(self) -> RendererModel {
        RendererModel {
            level: if self.level > 0 {
                (self.level - 1) as nat
            } else {
                0
            },
            ..self
        }
    }
}

/// The nearest grid declaration at or beyond position `from` of a history,
/// looking toward the past.
pub open spec fn older_initial(events: Seq<GridEvent>, from: int) -> Option<int>
    decreases events.len() - from,
{
    if from < 0 || from >= events.len() {
        None
    } else if events[from] is Initial {
        Some(from)
    } else {
        older_initial(events, from + 1)
    }
}

/// The grid after the updates among the history positions from `hi - 1`
/// down to `lo` are applied to `grid`, oldest first; grid declarations in
/// between are passed over.
pub open spec fn rewound_grid(events: Seq<GridEvent>, hi: int, lo: int, grid: GridSnapshot) -> GridSnapshot
    decreases hi - lo,
{
    if hi <= lo {
        grid
    } else if events[hi - 1] is Update {
        rewound_grid(events, hi - 1, lo, grid.applied(events[hi - 1]))
    } else {
        rewound_grid(events, hi - 1, lo, grid)
    }
}

/// The drawing of the updates among the history positions from `hi - 1`
/// down to `lo`, oldest first.
pub open spec fn rewound_paints(events: Seq<GridEvent>, hi: int, lo: int) -> Seq<RenderCommand>
    decreases hi - lo,
{
    if hi <= lo {
        Seq::empty()
    } else if events[hi - 1] is Update {
        seq![RenderCommand::Draw(paint_of(events[hi - 1]))] + rewound_paints(events, hi - 1, lo)
    } else {
        rewound_paints(events, hi - 1, lo)
    }
}

impl RendererModel {
    /// The operator steps back while paused. Over an update, its inverse is
    /// painted and the cursor moves one event into the past. A grid
    /// declaration cannot be undone, and at the oldest retained event, or
    /// on an empty history, there is nothing to step back to: then only the
    /// status line changes.
    pub open spec fn stepped_back(self, terminal: (u16, u16)) -> Reaction {
        if self.cursor >= self.events.len() {
            self.go(Phase::Paused, seq![RenderCommand::Status(StatusLine::AlreadyOldest)])
        } else {
            match self.events[self.cursor as int] {
                GridEvent::Initial { .. } => self.go(
                    Phase::Paused,
                    seq![RenderCommand::Status(StatusLine::InitialReached)],
                ),
                GridEvent::Update { coord, old, new } => if self.cursor + 1
                    >= self.events.len() {
                    self.go(Phase::Paused, seq![RenderCommand::Status(StatusLine::AlreadyOldest)])
                } else {
                    RendererModel { cursor: self.cursor + 1, ..self }.presented(
                        GridEvent::Update { coord, old: new, new: old },
                        Origin::Backward,
                        terminal,
                    )
                },
            }
        }
    }

    /// The operator steps forward while paused: onto the next event of
    /// history, or at the present into the future, if the producer has an
    /// event ready.
    pub open spec fn stepped_forward(self, terminal: (u16, u16)) -> Reaction {
        if self.cursor == 0 {
            self.go(Phase::Polling, Seq::empty())
        } else {
            RendererModel { cursor: (self.cursor - 1) as nat, ..self }.presented(
                self.events[self.cursor - 1],
                Origin::Forward,
                terminal,
            )
        }
    }

    /// An operator action while paused.
    pub open spec fn handled(self, action: UserActionEvent, terminal: (u16, u16)) -> Reaction {
        match action {
            UserActionEvent::Resume => RendererModel::after(
                seq![RenderCommand::Status(StatusLine::Clear)],
                self.replayed(terminal),
            ),
            UserActionEvent::Pause => self.stay(),
            UserActionEvent::Forward => self.stepped_forward(terminal),
            UserActionEvent::Backward => self.stepped_back(terminal),
            UserActionEvent::SpeedUp => self.faster().go(
                Phase::Paused,
                seq![self.gauge(terminal)],
            ),
            UserActionEvent::SlowDown => self.slower().go(
                Phase::Paused,
                seq![self.gauge(terminal)],
            ),
            UserActionEvent::Resize => self.checked(true, terminal),
            UserActionEvent::Cancel => self.go(
                Phase::Cancelled,
                seq![RenderCommand::Status(StatusLine::Clear)],
            ),
        }
    }

    /// What ends a session whose producer has finished: the status line is
    /// cleared and the cursor put below the grid.
    pub open spec fn finished(self) -> Reaction {
        self.go(
            Phase::Completed,
            match self.dims() {
                Some((_, height)) => seq![
                    RenderCommand::Status(StatusLine::Clear),
                    RenderCommand::MoveBelow { row: height },
                ],
                None => seq![RenderCommand::Status(StatusLine::Clear)],
            },
        )
    }

    /// An operator action found while running: a pause is entered, speed
    /// changes, resizes and cancellation are served at once, anything else
    /// is dropped; then the renderer turns to the producer.
    pub open spec fn polled(self, action: UserActionEvent, terminal: (u16, u16)) -> Reaction {
        match action {
            UserActionEvent::Pause => self.go(Phase::Paused, Seq::empty()),
            UserActionEvent::SpeedUp => self.faster().go(Phase::Live, seq![self.gauge(terminal)]),
            UserActionEvent::SlowDown => self.slower().go(Phase::Live, seq![self.gauge(terminal)]),
            UserActionEvent::Resize => self.checked(false, terminal),
            UserActionEvent::Cancel => self.go(
                Phase::Cancelled,
                seq![RenderCommand::Status(StatusLine::Clear)],
            ),
            _ => self.go(Phase::Live, Seq::empty()),
        }
    }

    /// A resize while waiting for a larger terminal: once the grid fits, it
    /// is redrawn in full and what the wait interrupted is taken up.
    pub open spec fn resized(self, held: Held, terminal: (u16, u16)) -> Reaction {
        if !fits(self.dims(), terminal) {
            self.stay()
        } else {
            let resumed = match held {
                Held::Check { paused } => if paused {
                    self.go(Phase::Paused, Seq::empty())
                } else {
                    self.go(Phase::Live, Seq::empty())
                },
                Held::Event { event, origin } => self.settled(event, origin),
            };
            Reaction { redraws: true, ..resumed }
        }
    }

    /// An operator action in a phase that waits for something else: the
    /// speed changes at once and the gauge is shown, a cancellation ends
    /// the session, and anything else is dropped.
    pub open spec fn served(self, action: UserActionEvent, terminal: (u16, u16)) -> Reaction {
        match action {
            UserActionEvent::SpeedUp => self.faster().go(self.phase, seq![self.gauge(terminal)]),
            UserActionEvent::SlowDown => self.slower().go(self.phase, seq![self.gauge(terminal)]),
            UserActionEvent::Cancel => self.go(Phase::Cancelled, Seq::empty()),
            _ => self.stay(),
        }
    }

    /// The renderer's answer to `input` on a terminal of the given columns
    /// and rows. A session that has ended stays ended; before that, a
    /// cancellation ends it from every phase and a speed change is served
    /// in every phase. Any other input that the phase does not wait for
    /// changes nothing.
    pub open spec fn reacts(self, input: RenderInput, terminal: (u16, u16)) -> Reaction {
        match self.phase {
            Phase::Cancelled => self.stay(),
            Phase::Completed => self.stay(),
            Phase::Idle => match input {
                RenderInput::Tick => self.go(
                    Phase::Running,
                    seq![RenderCommand::ClearScreen, RenderCommand::HideCursor],
                ),
                RenderInput::CancelRequested => self.go(Phase::Cancelled, Seq::empty()),
                RenderInput::Action(action) => self.served(action, terminal),
                _ => self.stay(),
            },
            Phase::Running => match input {
                RenderInput::CancelRequested => self.go(Phase::Cancelled, Seq::empty()),
                RenderInput::Action(action) => self.polled(action, terminal),
                RenderInput::NoAction => self.go(Phase::Live, Seq::empty()),
                RenderInput::ActionsClosed => self.go(Phase::Live, Seq::empty()),
                _ => self.stay(),
            },
            Phase::Live => match input {
                RenderInput::Grid(event) => self.presented(event, Origin::Live, terminal),
                RenderInput::GridClosed => self.finished(),
                RenderInput::CancelRequested => self.go(Phase::Cancelled, Seq::empty()),
                RenderInput::Action(action) => self.served(action, terminal),
                _ => self.stay(),
            },
            Phase::Paused => match input {
                RenderInput::Action(action) => self.handled(action, terminal),
                RenderInput::ActionsClosed => self.go(Phase::Live, Seq::empty()),
                RenderInput::CancelRequested => self.go(Phase::Cancelled, Seq::empty()),
                _ => self.stay(),
            },
            Phase::Polling => match input {
                RenderInput::Grid(event) => self.presented(event, Origin::Future, terminal),
                RenderInput::NoGrid => self.go(
                    Phase::Paused,
                    seq![RenderCommand::Status(StatusLine::NoFutureEvent)],
                ),
                RenderInput::GridClosed => self.go(
                    Phase::Paused,
                    seq![RenderCommand::Status(StatusLine::ChannelDisconnected)],
                ),
                RenderInput::CancelRequested => self.go(Phase::Cancelled, Seq::empty()),
                RenderInput::Action(action) => self.served(action, terminal),
                _ => self.stay(),
            },
            Phase::Resuming => match input {
                RenderInput::Tick => self.replayed(terminal),
                RenderInput::CancelRequested => self.go(Phase::Cancelled, Seq::empty()),
                RenderInput::Action(action) => self.served(action, terminal),
                _ => self.stay(),
            },
            Phase::ResizeWait(held) => match input {
                RenderInput::Action(UserActionEvent::Resize) => self.resized(held, terminal),
                RenderInput::Action(action) => self.served(action, terminal),
                RenderInput::ActionsClosed => self.go(Phase::Cancelled, Seq::empty()),
                RenderInput::CancelRequested => self.go(Phase::Cancelled, Seq::empty()),
                _ => self.stay(),
            },
        }
    }
}

/// What [`Renderer::render`] hands back.
pub struct RenderOutput {
    /// A full redraw of the grid, to be drawn before `commands`; empty
    /// unless the grid had to be recovered.
    pub redraw: Vec<Paint>,
    /// What to do, in order.
    pub commands: Vec<RenderCommand>,
    /// What to hand in next.
    pub next: Await,
}

/// The renderer: history, compact grid, speed scale, and the phase it is
/// in.
pub struct Renderer {
    history: GridEventHistory,
    grid_state: GridState,
    render_refresh_time_scale: RenderRefreshTimeScale,
    phase: Phase,
}

impl View for Renderer {
    type V = RendererModel;

    /// The state of the renderer's parts and its phase.
    closed spec fn view(&self) -> RendererModel {
        RendererModel {
            events: self.history.events(),
            cursor: self.history.cursor(),
            capacity: self.history.capacity(),
            grid: self.grid_state@,
            delta: self.render_refresh_time_scale.delta(),
            levels: self.render_refresh_time_scale.levels(),
            level: self.render_refresh_time_scale.level(),
            phase: self.phase,
        }
    }
}

impl Renderer {
    /// Every part is well-formed.
    pub closed spec fn wf(&self) -> bool {
        &&& self.history.wf()
        &&& self.grid_state.wf()
        &&& self.render_refresh_time_scale.wf()
    }

    /// The state of a well-formed renderer is well-formed.
    pub proof fn lemma_wf_model(&self)
        requires
            self.wf(),
        ensures
            self@.wf(),
    {
        self.history.lemma_wf_bounds();
        self.grid_state.lemma_wf_minimal();
        self.render_refresh_time_scale.lemma_wf_bounds();
    }

    /// A renderer that has not started, with an empty history of the given
    /// capacity, no grid, and the speed scale calibrated to the maze's
    /// size, or the default scale where the size is not known.
    pub fn new(max_history_grid_events: usize, maze_dims: Option<(u8, u8)>) -> (r: Self)
        ensures
            r.wf(),
            r@.events == Seq::<GridEvent>::empty(),
            r@.cursor == 0,
            r@.capacity == max_history_grid_events,
            r@.grid == GridSnapshot::empty(),
            r@.delta == 10,
            r@.levels == 20,
            r@.level == match maze_dims {
                Some((width, height)) => crate::visualize::scale::calibrated_level(
                    if width >= height {
                        width as nat
                    } else {
                        height as nat
                    },
                    20,
                ),
                None => 10,
            },
            r@.phase == Phase::Idle,
    {
        Renderer {
            history: GridEventHistory::new(max_history_grid_events),
            grid_state: GridState::new(),
            render_refresh_time_scale: match maze_dims {
                Some((width, height)) => RenderRefreshTimeScale::calibrated(width, height),
                None => RenderRefreshTimeScale::new(),
            },
            phase: Phase::Idle,
        }
    }

    /// Where the renderer stands.
    pub fn phase(&self) -> (p: Phase)
        ensures
            p == self@.phase,
    {
        self.phase
    }

    /// The history of painted events.
    pub fn history(&self) -> (h: &GridEventHistory)
        ensures
            h.events() == self@.events,
            h.cursor() == self@.cursor,
            h.capacity() == self@.capacity,
            self.wf() ==> h.wf(),
    {
        &self.history
    }

    /// The compact grid.
    pub fn grid_state(&self) -> (g: &GridState)
        ensures
            g@ == self@.grid,
            self.wf() ==> g.wf(),
    {
        &self.grid_state
    }

    /// The speed scale.
    pub fn scale(&self) -> (s: &RenderRefreshTimeScale)
        ensures
            s.delta() == self@.delta,
            s.levels() == self@.levels,
            s.level() == self@.level,
            self.wf() ==> s.wf(),
    {
        &self.render_refresh_time_scale
    }

    /// Whether the terminal has room for the grid declared so far and the
    /// status line.
    pub fn check_resize(&self, terminal: (u16, u16)) -> (ok: bool)
        ensures
            ok == fits(self@.dims(), terminal),
    {
        match self.grid_state.dims() {
            None => true,
            Some((width, height)) => {
                let rows: u16 = if terminal.1 >= NUM_LOG_ROWS {
                    terminal.1 - NUM_LOG_ROWS
                } else {
                    0
                };
                terminal.0 as u32 >= 2 * (width as u32) && rows >= height
            },
        }
    }

    /// Width of the status gauge: the columns of the grid, or of the
    /// terminal where no grid is declared.
    pub fn get_width(&self, terminal: (u16, u16)) -> (w: u16)
        ensures
            self@.gauge(terminal) == RenderCommand::Status(StatusLine::Gauge { width: w }),
    {
        match self.grid_state.dims() {
            Some((width, _)) => if width > 32767 {
                u16::MAX
            } else {
                2 * width
            },
            None => terminal.0,
        }
    }

    /// Row of the status line: the row below the grid, or the first row
    /// where no grid is declared.
    pub fn status_row(&self) -> (row: u16)
        ensures
            row == match self@.dims() {
                Some((_, height)) => height,
                None => 0,
            },
    {
        match self.grid_state.dims() {
            Some((_, height)) => height,
            None => 0,
        }
    }

    /// The text of the speed gauge, `width` characters wide.
    pub fn gauge_text(&self, width: u16) -> (bar: String)
        requires
            self.wf(),
        ensures
            bar@ == crate::visualize::scale::gauge(width as nat, self@.levels, self@.level),
    {
        self.render_refresh_time_scale.make_scale_bar(width)
    }
}

impl Renderer {
    /// What the renderer waits for in its phase.
    fn awaited(&self) -> (next: Await)
        ensures
            next == self@.awaited(),
    {
        match self.phase {
            Phase::Idle => Await::Tick,
            Phase::Running => Await::PollAction,
            Phase::Live => Await::Grid,
            Phase::Paused => Await::Action,
            Phase::Polling => Await::TryGrid,
            Phase::Resuming => Await::Tick,
            Phase::ResizeWait(_) => Await::Action,
            Phase::Cancelled => Await::Finished(RendererStatus::Cancelled),
            Phase::Completed => Await::Finished(RendererStatus::Completed),
        }
    }

    /// Moves to `phase` and says what the renderer waits for there.
    fn go(&mut self, phase: Phase) -> (next: Await)
        ensures
            final(self)@ == old(self)@.at(phase),
            final(self).wf() == old(self).wf(),
            next == old(self)@.at(phase).awaited(),
    {
        self.phase = phase;
        self.awaited()
    }

    /// Draws `event`, folds it into the grid and, for a live or future
    /// event, into history; then paces or reports as the origin asks.
    fn settle(&mut self, event: GridEvent, origin: Origin, out: &mut Vec<RenderCommand>) -> (next:
        Await)
        requires
            old(self).wf(),
        ensures
            final(self).wf(),
            final(self)@ == old(self)@.settled(event, origin).state,
            final(out)@ == old(out)@ + old(self)@.settled(event, origin).commands,
            next == old(self)@.settled(event, origin).next,
    {
        let draws = match event {
            GridEvent::Initial { .. } => true,
            GridEvent::Update { .. } => self.grid_state.dims().is_some(),
        };
        if draws {
            let paint = match event {
                GridEvent::Initial { cell, width, height } => Paint::Fill { cell, width, height },
                GridEvent::Update { coord, old: _, new } => Paint::Cell { coord, cell: new },
            };
            out.push(RenderCommand::Draw(paint));
        }
        self.grid_state.add_event(event);
        let save = match origin {
            Origin::Live => true,
            Origin::Future => true,
            _ => false,
        };
        if save {
            self.history.add_event(event);
        }
        let next = match origin {
            Origin::Live => {
                out.push(RenderCommand::Pace { micros: self.render_refresh_time_scale.current() });
                self.go(Phase::Running)
            },
            Origin::Replay => {
                out.push(RenderCommand::Pace { micros: self.render_refresh_time_scale.current() });
                self.go(Phase::Resuming)
            },
            Origin::Forward => {
                out.push(RenderCommand::Status(StatusLine::Stepped(event)));
                self.go(Phase::Paused)
            },
            Origin::Future => {
                out.push(RenderCommand::Status(StatusLine::Stepped(event)));
                self.go(Phase::Paused)
            },
            Origin::Backward => {
                out.push(RenderCommand::Status(StatusLine::Reverted(event)));
                self.go(Phase::Paused)
            },
        };
        assert(out@ =~= old(out)@ + old(self)@.settled(event, origin).commands);
        next
    }

    /// Tells the operator that the terminal is too small and waits for a
    /// resize with `held` in hand.
    fn wait_for_resize(&mut self, held: Held, out: &mut Vec<RenderCommand>) -> (next: Await)
        requires
            old(self)@.dims().is_some(),
        ensures
            final(self).wf() == old(self).wf(),
            final(self)@ == old(self)@.at(Phase::ResizeWait(held)),
            final(out)@ == old(out)@ + seq![old(self)@.too_small()],
            next == Await::Action,
    {
        match self.grid_state.dims() {
            Some((width, height)) => {
                out.push(RenderCommand::TooSmall { width, height });
            },
            None => {},
        }
        assert(out@ =~= old(out)@ + seq![old(self)@.too_small()]);
        self.go(Phase::ResizeWait(held))
    }

    /// Paints one event, after making sure that the terminal has room for
    /// the grid wherever the event draws on it.
    fn render_grid_event(
        &mut self,
        event: GridEvent,
        origin: Origin,
        terminal: (u16, u16),
        out: &mut Vec<RenderCommand>,
    ) -> (next: Await)
        requires
            old(self).wf(),
        ensures
            final(self).wf(),
            final(self)@ == old(self)@.presented(event, origin, terminal).state,
            final(out)@ == old(out)@ + old(self)@.presented(event, origin, terminal).commands,
            next == old(self)@.presented(event, origin, terminal).next,
            !old(self)@.presented(event, origin, terminal).redraws,
    {
        let draws = match event {
            GridEvent::Initial { .. } => true,
            GridEvent::Update { .. } => self.grid_state.dims().is_some(),
        };
        if draws && !self.check_resize(terminal) {
            self.wait_for_resize(Held::Event { event, origin }, out)
        } else {
            self.settle(event, origin, out)
        }
    }

    /// Serves a resize: waits for a larger terminal where the grid does
    /// not fit, and goes on otherwise.
    fn serve_resize(&mut self, paused: bool, terminal: (u16, u16), out: &mut Vec<RenderCommand>) -> (next:
        Await)
        ensures
            final(self).wf() == old(self).wf(),
            final(self)@ == old(self)@.checked(paused, terminal).state,
            final(out)@ == old(out)@ + old(self)@.checked(paused, terminal).commands,
            next == old(self)@.checked(paused, terminal).next,
    {
        if !self.check_resize(terminal) {
            self.wait_for_resize(Held::Check { paused }, out)
        } else {
            assert(out@ =~= old(out)@ + Seq::<RenderCommand>::empty());
            if paused {
                self.go(Phase::Paused)
            } else {
                self.go(Phase::Live)
            }
        }
    }

    /// One step of the replay on resume.
    fn replay(&mut self, terminal: (u16, u16), out: &mut Vec<RenderCommand>) -> (next: Await)
        requires
            old(self).wf(),
        ensures
            final(self).wf(),
            final(self)@ == old(self)@.replayed(terminal).state,
            final(out)@ == old(out)@ + old(self)@.replayed(terminal).commands,
            next == old(self)@.replayed(terminal).next,
            !old(self)@.replayed(terminal).redraws,
    {
        let stepped = match self.history.history_forward() {
            Some(event) => Some(*event),
            None => None,
        };
        match stepped {
            Some(event) => self.render_grid_event(event, Origin::Replay, terminal, out),
            None => {
                assert(out@ =~= old(out)@ + Seq::<RenderCommand>::empty());
                self.go(Phase::Live)
            },
        }
    }

    /// Changes the speed by one level and shows the gauge.
    fn change_speed(
        &mut self,
        up: bool,
        phase: Phase,
        terminal: (u16, u16),
        out: &mut Vec<RenderCommand>,
    ) -> (next: Await)
        requires
            old(self).wf(),
        ensures
            final(self).wf(),
            final(self)@ == (if up {
                old(self)@.faster()
            } else {
                old(self)@.slower()
            }).at(phase),
            final(out)@ == old(out)@ + seq![old(self)@.gauge(terminal)],
            next == old(self)@.at(phase).awaited(),
    {
        if up {
            self.render_refresh_time_scale.speed_up();
        } else {
            self.render_refresh_time_scale.slow_down();
        }
        let width = self.get_width(terminal);
        out.push(RenderCommand::Status(StatusLine::Gauge { width }));
        assert(out@ =~= old(out)@ + seq![old(self)@.gauge(terminal)]);
        self.go(phase)
    }

    /// Shows `line` on the status line and stays paused.
    fn report(&mut self, line: StatusLine, out: &mut Vec<RenderCommand>) -> (next: Await)
        ensures
            final(self).wf() == old(self).wf(),
            final(self)@ == old(self)@.at(Phase::Paused),
            final(out)@ == old(out)@ + seq![RenderCommand::Status(line)],
            next == Await::Action,
    {
        out.push(RenderCommand::Status(line));
        assert(out@ =~= old(out)@ + seq![RenderCommand::Status(line)]);
        self.go(Phase::Paused)
    }
}

/// Looking for an older grid declaration gives the same answer from any
/// position that no declaration lies before.
proof fn lemma_older_initial_skips(events: Seq<GridEvent>, from: int)
    requires
        0 <= from < events.len(),
        !(events[from] is Initial),
    ensures
        older_initial(events, from) == older_initial(events, from + 1),
{
}

impl Renderer {
    /// Rebuilds the grid as it was at the cursor by replaying history: from
    /// the nearest grid declaration older than the event under the cursor,
    /// the updates up to that event are applied and drawn again. Returns
    /// whether such a declaration is retained; if none is, nothing
    /// changes. No transition of the renderer takes this way: the grid is
    /// recovered from the compact state, which is always at hand.
    #[verifier::rlimit(50)]
    pub fn recover_from_history(&mut self, out: &mut Vec<RenderCommand>) -> (found: bool)
        requires
            old(self).wf(),
        ensures
            final(self).wf(),
            found == older_initial(old(self)@.events, old(self)@.cursor as int + 1).is_some(),
            !found ==> final(self)@ == old(self)@ && final(out)@ == old(out)@,
            found ==> {
                let k = older_initial(old(self)@.events, old(self)@.cursor as int + 1).unwrap();
                &&& final(self)@ == RendererModel {
                    grid: rewound_grid(
                        old(self)@.events,
                        k,
                        old(self)@.cursor as int,
                        old(self)@.grid.applied(old(self)@.events[k]),
                    ),
                    ..old(self)@
                }
                &&& final(out)@ == old(out)@ + seq![
                    RenderCommand::Draw(paint_of(old(self)@.events[k])),
                ] + rewound_paints(old(self)@.events, k, old(self)@.cursor as int)
            },
    {
        let ghost events = self@.events;
        let ghost start = self@.cursor as int;
        let mut counter: usize = 0;
        let mut base: Option<GridEvent> = None;
        let mut exhausted = false;
        proof {
            self.history.lemma_wf_bounds();
        }
        while base.is_none() && !exhausted
            invariant
                self.wf(),
                self@ == (RendererModel { cursor: (start + counter) as nat, ..old(self)@ }),
                events == old(self)@.events,
                start == old(self)@.cursor,
                start + counter <= events.len(),
                counter == 0 || start + counter < events.len(),
                out@ == old(out)@,
                !exhausted && base.is_none() ==> older_initial(events, start + 1) == older_initial(
                    events,
                    start + counter + 1,
                ),
                exhausted ==> base.is_none() && older_initial(events, start + 1).is_none(),
                base.is_some() ==> {
                    &&& older_initial(events, start + 1) == Some(start + counter)
                    &&& counter > 0
                    &&& events[start + counter] == base.unwrap()
                    &&& base.unwrap() is Initial
                },
            decreases events.len() - (start + counter) + (if exhausted || base.is_some() {
                0int
            } else {
                1int
            }),
        {
            proof {
                self.history.lemma_wf_bounds();
            }
            let stepped = match self.history.history_backward() {
                Some(event) => Some(*event),
                None => None,
            };
            match stepped {
                Some(event) => {
                    counter += 1;
                    match event {
                        GridEvent::Initial { .. } => {
                            base = Some(event);
                        },
                        GridEvent::Update { .. } => {
                            proof {
                                lemma_older_initial_skips(events, start + counter);
                            }
                        },
                    }
                },
                None => {
                    exhausted = true;
                },
            }
        }
        match base {
            None => {
                while counter > 0
                    invariant
                        self.wf(),
                        self@ == (RendererModel {
                            cursor: (start + counter) as nat,
                            ..old(self)@
                        }),
                        start == old(self)@.cursor,
                        out@ == old(out)@,
                    decreases counter,
                {
                    self.history.history_forward();
                    counter -= 1;
                }
                false
            },
            Some(declared) => {
                let ghost k = start + counter;
                let paint = match declared {
                    GridEvent::Initial { cell, width, height } => Paint::Fill { cell, width, height },
                    GridEvent::Update { coord, old: _, new } => Paint::Cell { coord, cell: new },
                };
                out.push(RenderCommand::Draw(paint));
                self.grid_state.add_event(declared);
                let ghost head = old(out)@ + seq![RenderCommand::Draw(paint_of(events[k]))];
                assert(out@ =~= head);
                while counter > 0
                    invariant
                        self.wf(),
                        events == old(self)@.events,
                        start == old(self)@.cursor,
                        start + counter <= k < events.len(),
                        self@ == (RendererModel {
                            cursor: (start + counter) as nat,
                            grid: self@.grid,
                            ..old(self)@
                        }),
                        rewound_grid(events, start + counter, start, self@.grid) == rewound_grid(
                            events,
                            k,
                            start,
                            old(self)@.grid.applied(events[k]),
                        ),
                        out@ + rewound_paints(events, start + counter, start) == head
                            + rewound_paints(events, k, start),
                    decreases counter,
                {
                    let ghost before = out@;
                    let stepped = match self.history.history_forward() {
                        Some(event) => Some(*event),
                        None => None,
                    };
                    match stepped {
                        Some(GridEvent::Update { coord, old, new }) => {
                            out.push(RenderCommand::Draw(Paint::Cell { coord, cell: new }));
                            self.grid_state.add_event(GridEvent::Update { coord, old, new });
                            assert(before + rewound_paints(events, start + counter, start)
                                =~= out@ + rewound_paints(events, start + counter - 1, start));
                        },
                        _ => {},
                    }
                    counter -= 1;
                }
                assert(out@ =~= head + rewound_paints(events, k, start));
                true
            },
        }
    }

    /// The operator steps back while paused.
    fn step_back(&mut self, terminal: (u16, u16), out: &mut Vec<RenderCommand>) -> (next: Await)
        requires
            old(self).wf(),
        ensures
            final(self).wf(),
            final(self)@ == old(self)@.stepped_back(terminal).state,
            final(out)@ == old(out)@ + old(self)@.stepped_back(terminal).commands,
            next == old(self)@.stepped_back(terminal).next,
            !old(self)@.stepped_back(terminal).redraws,
    {
        proof {
            self.history.lemma_wf_bounds();
        }
        let current = match self.history.current_event() {
            Some(event) => Some(*event),
            None => None,
        };
        match current {
            None => self.report(StatusLine::AlreadyOldest, out),
            Some(GridEvent::Initial { .. }) => self.report(StatusLine::InitialReached, out),
            Some(GridEvent::Update { coord, old, new }) => {
                if self.history.history_backward().is_none() {
                    self.report(StatusLine::AlreadyOldest, out)
                } else {
                    self.render_grid_event(
                        GridEvent::Update { coord, old: new, new: old },
                        Origin::Backward,
                        terminal,
                        out,
                    )
                }
            },
        }
    }

    /// The operator steps forward while paused.
    fn step_forward(&mut self, terminal: (u16, u16), out: &mut Vec<RenderCommand>) -> (next: Await)
        requires
            old(self).wf(),
        ensures
            final(self).wf(),
            final(self)@ == old(self)@.stepped_forward(terminal).state,
            final(out)@ == old(out)@ + old(self)@.stepped_forward(terminal).commands,
            next == old(self)@.stepped_forward(terminal).next,
            !old(self)@.stepped_forward(terminal).redraws,
    {
        let stepped = match self.history.history_forward() {
            Some(event) => Some(*event),
            None => None,
        };
        match stepped {
            Some(event) => self.render_grid_event(event, Origin::Forward, terminal, out),
            None => {
                assert(out@ =~= old(out)@ + Seq::<RenderCommand>::empty());
                self.go(Phase::Polling)
            },
        }
    }

    /// Serves one operator action while paused.
    fn handle_user_action_event(
        &mut self,
        event: UserActionEvent,
        terminal: (u16, u16),
        out: &mut Vec<RenderCommand>,
    ) -> (next: Await)
        requires
            old(self).wf(),
        ensures
            final(self).wf(),
            final(self)@ == old(self)@.handled(event, terminal).state,
            final(out)@ == old(out)@ + old(self)@.handled(event, terminal).commands,
            next == old(self)@.handled(event, terminal).next,
            !old(self)@.handled(event, terminal).redraws,
    {
        match event {
            UserActionEvent::Resume => {
                out.push(RenderCommand::Status(StatusLine::Clear));
                let next = self.replay(terminal, out);
                assert(out@ =~= old(out)@ + old(self)@.handled(event, terminal).commands);
                next
            },
            UserActionEvent::Pause => {
                assert(out@ =~= old(out)@ + Seq::<RenderCommand>::empty());
                self.awaited()
            },
            UserActionEvent::Forward => self.step_forward(terminal, out),
            UserActionEvent::Backward => self.step_back(terminal, out),
            UserActionEvent::SpeedUp => self.change_speed(true, Phase::Paused, terminal, out),
            UserActionEvent::SlowDown => self.change_speed(false, Phase::Paused, terminal, out),
            UserActionEvent::Resize => self.serve_resize(true, terminal, out),
            UserActionEvent::Cancel => {
                out.push(RenderCommand::Status(StatusLine::Clear));
                assert(out@ =~= old(out)@ + seq![RenderCommand::Status(StatusLine::Clear)]);
                self.go(Phase::Cancelled)
            },
        }
    }
}

impl Renderer {
    /// Serves an operator action found while running.
    fn poll(&mut self, action: UserActionEvent, terminal: (u16, u16), out: &mut Vec<RenderCommand>) -> (next:
        Await)
        requires
            old(self).wf(),
        ensures
            final(self).wf(),
            final(self)@ == old(self)@.polled(action, terminal).state,
            final(out)@ == old(out)@ + old(self)@.polled(action, terminal).commands,
            next == old(self)@.polled(action, terminal).next,
            !old(self)@.polled(action, terminal).redraws,
    {
        match action {
            UserActionEvent::Pause => {
                assert(out@ =~= old(out)@ + Seq::<RenderCommand>::empty());
                self.go(Phase::Paused)
            },
            UserActionEvent::SpeedUp => self.change_speed(true, Phase::Live, terminal, out),
            UserActionEvent::SlowDown => self.change_speed(false, Phase::Live, terminal, out),
            UserActionEvent::Resize => self.serve_resize(false, terminal, out),
            UserActionEvent::Cancel => {
                out.push(RenderCommand::Status(StatusLine::Clear));
                assert(out@ =~= old(out)@ + seq![RenderCommand::Status(StatusLine::Clear)]);
                self.go(Phase::Cancelled)
            },
            _ => {
                assert(out@ =~= old(out)@ + Seq::<RenderCommand>::empty());
                self.go(Phase::Live)
            },
        }
    }

    /// Serves an operator action in a phase that waits for something else.
    fn serve(&mut self, action: UserActionEvent, terminal: (u16, u16), out: &mut Vec<RenderCommand>) -> (next:
        Await)
        requires
            old(self).wf(),
        ensures
            final(self).wf(),
            final(self)@ == old(self)@.served(action, terminal).state,
            final(out)@ == old(out)@ + old(self)@.served(action, terminal).commands,
            next == old(self)@.served(action, terminal).next,
            !old(self)@.served(action, terminal).redraws,
    {
        let phase = self.phase;
        match action {
            UserActionEvent::SpeedUp => self.change_speed(true, phase, terminal, out),
            UserActionEvent::SlowDown => self.change_speed(false, phase, terminal, out),
            UserActionEvent::Cancel => {
                assert(out@ =~= old(out)@ + Seq::<RenderCommand>::empty());
                self.go(Phase::Cancelled)
            },
            _ => {
                assert(out@ =~= old(out)@ + Seq::<RenderCommand>::empty());
                self.awaited()
            },
        }
    }

    /// Ends the session after the producer has finished.
    fn finish(&mut self, out: &mut Vec<RenderCommand>) -> (next: Await)
        ensures
            final(self).wf() == old(self).wf(),
            final(self)@ == old(self)@.finished().state,
            final(out)@ == old(out)@ + old(self)@.finished().commands,
            next == old(self)@.finished().next,
    {
        out.push(RenderCommand::Status(StatusLine::Clear));
        match self.grid_state.dims() {
            Some((_, height)) => {
                out.push(RenderCommand::MoveBelow { row: height });
            },
            None => {},
        }
        assert(out@ =~= old(out)@ + old(self)@.finished().commands);
        self.go(Phase::Completed)
    }

    /// Waits while the operator has the animation paused: serves one
    /// action, and goes live when the action channel is gone.
    fn listen_to_user_action_events(
        &mut self,
        input: RenderInput,
        terminal: (u16, u16),
        out: &mut Vec<RenderCommand>,
    ) -> (next: Await)
        requires
            old(self).wf(),
            old(self)@.phase == Phase::Paused,
        ensures
            final(self).wf(),
            final(self)@ == old(self)@.reacts(input, terminal).state,
            final(out)@ == old(out)@ + old(self)@.reacts(input, terminal).commands,
            next == old(self)@.reacts(input, terminal).next,
            !old(self)@.reacts(input, terminal).redraws,
    {
        match input {
            RenderInput::Action(action) => self.handle_user_action_event(action, terminal, out),
            RenderInput::ActionsClosed => {
                assert(out@ =~= old(out)@ + Seq::<RenderCommand>::empty());
                self.go(Phase::Live)
            },
            RenderInput::CancelRequested => {
                assert(out@ =~= old(out)@ + Seq::<RenderCommand>::empty());
                self.go(Phase::Cancelled)
            },
            _ => {
                assert(out@ =~= old(out)@ + Seq::<RenderCommand>::empty());
                self.awaited()
            },
        }
    }

    /// The renderer's answer to one input, on a terminal of the given
    /// columns and rows: the state moves as [`RendererModel::reacts`] says,
    /// and the driver is told what to draw and what to hand in next. Where
    /// the grid is recovered after a wait for a larger terminal, a full
    /// redraw of it comes first; the order of its single cells is open.
    #[verifier::rlimit(50)]
    pub fn render(&mut self, input: RenderInput, terminal: (u16, u16)) -> (out: RenderOutput)
        requires
            old(self).wf(),
        ensures
            final(self).wf(),
            final(self)@ == old(self)@.reacts(input, terminal).state,
            out.commands@ == old(self)@.reacts(input, terminal).commands,
            out.next == old(self)@.reacts(input, terminal).next,
            old(self)@.reacts(input, terminal).redraws ==> is_redraw_of(
                out.redraw@,
                old(self)@.grid,
            ),
            !old(self)@.reacts(input, terminal).redraws ==> out.redraw@.len() == 0,
    {
        let mut redraw: Vec<Paint> = Vec::new();
        let mut commands: Vec<RenderCommand> = Vec::new();
        let ghost want = self@.reacts(input, terminal);
        let next = match self.phase {
            Phase::Idle => match input {
                RenderInput::Tick => {
                    commands.push(RenderCommand::ClearScreen);
                    commands.push(RenderCommand::HideCursor);
                    self.go(Phase::Running)
                },
                RenderInput::CancelRequested => self.go(Phase::Cancelled),
                RenderInput::Action(action) => self.serve(action, terminal, &mut commands),
                _ => self.awaited(),
            },
            Phase::Running => match input {
                RenderInput::CancelRequested => self.go(Phase::Cancelled),
                RenderInput::Action(action) => self.poll(action, terminal, &mut commands),
                RenderInput::NoAction => self.go(Phase::Live),
                RenderInput::ActionsClosed => self.go(Phase::Live),
                _ => self.awaited(),
            },
            Phase::Live => match input {
                RenderInput::Grid(event) => self.render_grid_event(
                    event,
                    Origin::Live,
                    terminal,
                    &mut commands,
                ),
                RenderInput::GridClosed => self.finish(&mut commands),
                RenderInput::CancelRequested => self.go(Phase::Cancelled),
                RenderInput::Action(action) => self.serve(action, terminal, &mut commands),
                _ => self.awaited(),
            },
            Phase::Paused => self.listen_to_user_action_events(input, terminal, &mut commands),
            Phase::Polling => match input {
                RenderInput::Grid(event) => self.render_grid_event(
                    event,
                    Origin::Future,
                    terminal,
                    &mut commands,
                ),
                RenderInput::NoGrid => self.report(StatusLine::NoFutureEvent, &mut commands),
                RenderInput::GridClosed => self.report(
                    StatusLine::ChannelDisconnected,
                    &mut commands,
                ),
                RenderInput::CancelRequested => self.go(Phase::Cancelled),
                RenderInput::Action(action) => self.serve(action, terminal, &mut commands),
                _ => self.awaited(),
            },
            Phase::Resuming => match input {
                RenderInput::Tick => self.replay(terminal, &mut commands),
                RenderInput::CancelRequested => self.go(Phase::Cancelled),
                RenderInput::Action(action) => self.serve(action, terminal, &mut commands),
                _ => self.awaited(),
            },
            Phase::ResizeWait(held) => match input {
                RenderInput::Action(UserActionEvent::Resize) => {
                    if !self.check_resize(terminal) {
                        self.awaited()
                    } else {
                        redraw = self.grid_state.recover();
                        match held {
                            Held::Check { paused } => if paused {
                                self.go(Phase::Paused)
                            } else {
                                self.go(Phase::Live)
                            },
                            Held::Event { event, origin } => self.settle(
                                event,
                                origin,
                                &mut commands,
                            ),
                        }
                    }
                },
                RenderInput::Action(action) => self.serve(action, terminal, &mut commands),
                RenderInput::ActionsClosed => self.go(Phase::Cancelled),
                RenderInput::CancelRequested => self.go(Phase::Cancelled),
                _ => self.awaited(),
            },
            Phase::Cancelled => self.awaited(),
            Phase::Completed => self.awaited(),
        };
        assert(commands@ =~= want.commands);
        RenderOutput { redraw, commands, next }
    }
}

/// A session that has ended stays ended: whatever comes in, nothing
/// changes and nothing is drawn.
pub proof fn lemma_ended_stays(state: RendererModel, input: RenderInput, terminal: (u16, u16))
    requires
        state.phase == Phase::Cancelled || state.phase == Phase::Completed,
    ensures
        state.reacts(input, terminal).state == state,
        state.reacts(input, terminal).commands == Seq::<RenderCommand>::empty(),
        state.reacts(input, terminal).next is Finished,
{
}

/// In every state but the two that end a session, a cancellation, by the
/// operator or by the cancellation flag, ends the session as cancelled; so
/// does the loss of the operator while waiting for a larger terminal.
pub proof fn lemma_cancel_ends(state: RendererModel, terminal: (u16, u16))
    requires
        state.phase != Phase::Cancelled,
        state.phase != Phase::Completed,
    ensures
        state.reacts(RenderInput::Action(UserActionEvent::Cancel), terminal).state.phase
            == Phase::Cancelled,
        state.reacts(RenderInput::CancelRequested, terminal).state.phase == Phase::Cancelled,
        state.phase is ResizeWait ==> state.reacts(
            RenderInput::ActionsClosed,
            terminal,
        ).state.phase == Phase::Cancelled,
{
}

/// In every state but the two that end a session, a speed change moves the
/// scale by one level at once, shows the gauge, and changes neither the
/// state nor anything else.
pub proof fn lemma_speed_changes_anywhere(state: RendererModel, up: bool, terminal: (u16, u16))
    requires
        state.phase != Phase::Cancelled,
        state.phase != Phase::Completed,
    ensures
        ({
            let action = if up {
                UserActionEvent::SpeedUp
            } else {
                UserActionEvent::SlowDown
            };
            let reaction = state.reacts(RenderInput::Action(action), terminal);
            &&& reaction.state.level == (if up {
                state.faster().level
            } else {
                state.slower().level
            })
            &&& reaction.state.phase.spec_stage() == state.phase.spec_stage()
            &&& reaction.commands == seq![state.gauge(terminal)]
            &&& !reaction.redraws
            &&& reaction.state.events == state.events
            &&& reaction.state.cursor == state.cursor
            &&& reaction.state.grid == state.grid
        }),
{
}

/// Stepping back at a grid declaration, at the oldest retained event, or
/// on an empty history moves nothing: only the status line changes.
pub proof fn lemma_history_exhaustion_is_a_no_op(state: RendererModel, terminal: (u16, u16))
    requires
        state.phase == Phase::Paused,
        state.cursor + 1 >= state.events.len() || state.events[state.cursor as int] is Initial,
    ensures
        ({
            let reaction = state.reacts(RenderInput::Action(UserActionEvent::Backward), terminal);
            &&& reaction.state == state
            &&& reaction.commands.len() == 1
            &&& reaction.commands[0] is Status
            &&& !reaction.redraws
        }),
{
}

/// When the producer is gone, a running renderer completes, and draws
/// nothing on the grid.
pub proof fn lemma_disconnection_completes(state: RendererModel, terminal: (u16, u16))
    requires
        state.phase == Phase::Live,
    ensures
        state.reacts(RenderInput::GridClosed, terminal).state.phase == Phase::Completed,
        state.reacts(RenderInput::GridClosed, terminal).state.grid == state.grid,
        state.reacts(RenderInput::GridClosed, terminal).state.events == state.events,
        forall|i: int|
            0 <= i < state.reacts(RenderInput::GridClosed, terminal).commands.len() ==> !(
            #[trigger] state.reacts(RenderInput::GridClosed, terminal).commands[i] is Draw),
{
}

/// Stepping back over an update and forward again, on a terminal with
/// room for the grid, leaves the grid and the cursor as they were,
/// provided the grid holds what the update put there.
pub proof fn lemma_back_and_forth(state: RendererModel, terminal: (u16, u16))
    requires
        state.wf(),
        state.phase == Phase::Paused,
        state.cursor + 1 < state.events.len(),
        state.events[state.cursor as int] is Update,
        state.grid.initial.is_some(),
        state.grid.cell_at(state.events[state.cursor as int]->coord)
            == state.events[state.cursor as int]->new,
        fits(state.dims(), terminal),
    ensures
        ({
            let back = state.reacts(RenderInput::Action(UserActionEvent::Backward), terminal).state;
            let forth = back.reacts(RenderInput::Action(UserActionEvent::Forward), terminal).state;
            &&& back.phase == Phase::Paused
            &&& back.cursor == state.cursor + 1
            &&& back.grid == state.grid.applied(state.events[state.cursor as int].spec_inverse())
            &&& forth.phase == Phase::Paused
            &&& forth.cursor == state.cursor
            &&& forth.events == state.events
            &&& forth.grid == state.grid
        }),
{
    let event = state.events[state.cursor as int];
    let undo = event.spec_inverse();
    let back = state.reacts(RenderInput::Action(UserActionEvent::Backward), terminal).state;
    assert(back.grid == state.grid.applied(undo));
    assert(back.dims() == state.dims());
    lemma_inverse_restores(state.grid, undo);
    assert(undo.spec_inverse() == event);
}

/// The events of a history that are in effect at a cursor, oldest first:
/// those from the event under the cursor back to the oldest retained.
pub open spec fn in_effect(events: Seq<GridEvent>, cursor: int) -> Seq<GridEvent>
    recommends
        0 <= cursor <= events.len(),
{
    Seq::new((events.len() - cursor) as nat, |i: int| events[events.len() - 1 - i])
}

/// Whether every retained update names as its old cell what the grid held
/// when the update came, as far as the retained events tell.
pub open spec fn faithful(events: Seq<GridEvent>) -> bool {
    forall|i: int|
        0 <= i < events.len() ==> match #[trigger] events[i] {
            GridEvent::Update { coord, old, new } => {
                let before = GridSnapshot::replayed(in_effect(events, i + 1));
                before.initial.is_some() ==> before.cell_at(coord) == old
            },
            GridEvent::Initial { .. } => true,
        }
}

impl RendererModel {
    /// Whether the grid is what the events in effect at the cursor make of
    /// an empty grid. It is while no event that the grid rests on has been
    /// evicted from history.
    pub open spec fn synced(self) -> bool {
        self.grid == GridSnapshot::replayed(in_effect(self.events, self.cursor as int))
    }
}

/// The events in effect at a cursor are those in effect one step further
/// back, and then the event under the cursor.
pub proof fn lemma_in_effect_step(events: Seq<GridEvent>, cursor: int)
    requires
        0 <= cursor < events.len(),
    ensures
        in_effect(events, cursor) == in_effect(events, cursor + 1).push(events[cursor]),
        GridSnapshot::replayed(in_effect(events, cursor)) == GridSnapshot::replayed(
            in_effect(events, cursor + 1),
        ).applied(events[cursor]),
{
    let here = in_effect(events, cursor);
    let before = in_effect(events, cursor + 1);
    assert(here =~= before.push(events[cursor]));
    assert(here.drop_last() =~= before);
    assert(here.last() == events[cursor]);
}

/// A live event keeps the grid in step with history, as long as history
/// has room for it.
pub proof fn lemma_live_keeps_synced(state: RendererModel, event: GridEvent, terminal: (u16, u16))
    requires
        state.wf(),
        state.phase == Phase::Live,
        state.synced(),
        state.cursor == 0,
        state.events.len() < state.capacity,
        !state.draws(event) || fits(state.dims(), terminal),
    ensures
        state.reacts(RenderInput::Grid(event), terminal).state.synced(),
        state.reacts(RenderInput::Grid(event), terminal).state.events == seq![event]
            + state.events,
        state.reacts(RenderInput::Grid(event), terminal).state.grid == state.grid.applied(event),
        state.reacts(RenderInput::Grid(event), terminal).state.cursor == 0,
{
    let after = state.reacts(RenderInput::Grid(event), terminal).state;
    assert(after.events =~= seq![event] + state.events);
    lemma_in_effect_step(after.events, 0);
    assert(in_effect(after.events, 1) =~= in_effect(state.events, 0));
}

/// Stepping back over an update keeps the grid in step with history.
pub proof fn lemma_backward_keeps_synced(state: RendererModel, terminal: (u16, u16))
    requires
        state.wf(),
        state.phase == Phase::Paused,
        state.synced(),
        faithful(state.events),
        state.cursor + 1 < state.events.len(),
        state.events[state.cursor as int] is Update,
        fits(state.dims(), terminal),
    ensures
        ({
            let after = state.reacts(RenderInput::Action(UserActionEvent::Backward), terminal).state;
            &&& after.synced()
            &&& after.events == state.events
            &&& after.cursor == state.cursor + 1
            &&& after.phase == Phase::Paused
        }),
{
    let event = state.events[state.cursor as int];
    let before = GridSnapshot::replayed(in_effect(state.events, state.cursor as int + 1));
    lemma_in_effect_step(state.events, state.cursor as int);
    lemma_replayed_minimal(in_effect(state.events, state.cursor as int + 1));
    lemma_inverse_restores(before, event);
}

/// Stepping forward in history keeps the grid in step with it.
pub proof fn lemma_forward_keeps_synced(state: RendererModel, terminal: (u16, u16))
    requires
        state.wf(),
        state.phase == Phase::Paused,
        state.synced(),
        state.cursor > 0,
        !state.draws(state.events[state.cursor - 1]) || fits(state.dims(), terminal),
    ensures
        ({
            let after = state.reacts(RenderInput::Action(UserActionEvent::Forward), terminal).state;
            &&& after.synced()
            &&& after.events == state.events
            &&& after.cursor == state.cursor - 1
            &&& after.phase == Phase::Paused
        }),
{
    lemma_in_effect_step(state.events, state.cursor - 1);
}

/// Each step of the replay on resume keeps the grid in step with history
/// and brings the cursor one event closer to the present; at the present
/// the renderer goes live.
pub proof fn lemma_replay_keeps_synced(state: RendererModel, terminal: (u16, u16))
    requires
        state.wf(),
        state.phase == Phase::Resuming,
        state.synced(),
        state.cursor > 0 ==> !state.draws(state.events[state.cursor - 1]) || fits(
            state.dims(),
            terminal,
        ),
    ensures
        ({
            let after = state.reacts(RenderInput::Tick, terminal).state;
            &&& after.synced()
            &&& after.events == state.events
            &&& state.cursor > 0 ==> after.cursor == state.cursor - 1 && after.phase
                == Phase::Resuming
            &&& state.cursor == 0 ==> after == state.at(Phase::Live)
        }),
{
    if state.cursor > 0 {
        lemma_in_effect_step(state.events, state.cursor - 1);
    }
}

/// However the operator has stepped through history in between: once the
/// cursor is back at the present and history holds the same events, the
/// grid is what it was.
pub proof fn lemma_scrubbing_returns(before: RendererModel, after: RendererModel)
    requires
        before.synced(),
        after.synced(),
        before.events == after.events,
        before.cursor == 0,
        after.cursor == 0,
    ensures
        after.grid == before.grid,
{
}

/// A live update that names as its old cell what the grid holds keeps
/// history faithful; so does any declaration.
pub proof fn lemma_live_keeps_faithful(state: RendererModel, event: GridEvent)
    requires
        state.synced(),
        state.cursor == 0,
        faithful(state.events),
        match event {
            GridEvent::Update { coord, old, new } => state.grid.initial.is_some()
                ==> state.grid.cell_at(coord) == old,
            GridEvent::Initial { .. } => true,
        },
    ensures
        faithful(seq![event] + state.events),
{
    let after = seq![event] + state.events;
    assert forall|i: int| 0 <= i < after.len() implies match #[trigger] after[i] {
        GridEvent::Update { coord, old, new } => {
            let before = GridSnapshot::replayed(in_effect(after, i + 1));
            before.initial.is_some() ==> before.cell_at(coord) == old
        },
        GridEvent::Initial { .. } => true,
    } by {
        assert(in_effect(after, i + 1) =~= in_effect(state.events, i));
        if i > 0 {
            assert(after[i] == state.events[i - 1]);
        }
    }
}

} // verus!
