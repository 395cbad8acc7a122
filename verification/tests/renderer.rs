use mazest::maze::cell::GridCell;
use mazest::maze::grid::GridEvent;
use mazest::visualize::input::UserActionEvent;
use mazest::visualize::paint::Paint;
use mazest::visualize::renderer::{
    Await, Held, Origin, Phase, RenderCommand, RenderInput, RenderOutput, Renderer,
    RendererStatus, Stage, StatusLine,
};

const WIDE: (u16, u16) = (80, 24);
const NARROW: (u16, u16) = (8, 4);

fn declare(width: u16, height: u16) -> GridEvent {
    GridEvent::Initial { cell: GridCell::wall(), width, height }
}

fn open(x: u16, y: u16) -> GridEvent {
    GridEvent::Update { coord: (x, y), old: GridCell::wall(), new: GridCell::empty() }
}

fn snapshot(renderer: &Renderer) -> Vec<Option<GridCell>> {
    let mut cells = Vec::new();
    for y in 0..6 {
        for x in 0..6 {
            cells.push(renderer.grid_state().cell_at((x, y)));
        }
    }
    cells
}

/// Starts a renderer and feeds it the events while it runs.
fn running(capacity: usize, events: &[GridEvent]) -> Renderer {
    let mut renderer = Renderer::new(capacity, Some((2, 2)));
    let out = renderer.render(RenderInput::Tick, WIDE);
    assert_eq!(out.commands, vec![RenderCommand::ClearScreen, RenderCommand::HideCursor]);
    assert_eq!(out.next, Await::PollAction);
    for event in events {
        assert_eq!(renderer.render(RenderInput::NoAction, WIDE).next, Await::Grid);
        assert_eq!(renderer.render(RenderInput::Grid(*event), WIDE).next, Await::PollAction);
    }
    renderer
}

fn act(renderer: &mut Renderer, action: UserActionEvent) -> RenderOutput {
    renderer.render(RenderInput::Action(action), WIDE)
}

#[test]
fn a_new_renderer_has_not_started() {
    let mut renderer = Renderer::new(100, None);
    assert_eq!(renderer.phase(), Phase::Idle);
    assert_eq!(renderer.scale().get_level(), 10);
    assert_eq!(renderer.history().len(), 0);
    assert_eq!(renderer.grid_state().dims(), None);
    let out = renderer.render(RenderInput::Grid(declare(5, 5)), WIDE);
    assert_eq!(out.next, Await::Tick);
    assert!(out.commands.is_empty());
    assert_eq!(renderer.phase(), Phase::Idle);
    assert_eq!(Renderer::new(100, Some((255, 3))).scale().get_level(), 19);
}

#[test]
fn live_events_are_drawn_recorded_and_paced() {
    let mut renderer = running(100, &[]);
    renderer.render(RenderInput::NoAction, WIDE);
    let out = renderer.render(RenderInput::Grid(declare(5, 5)), WIDE);
    let delay = renderer.scale().current();
    assert_eq!(
        out.commands,
        vec![
            RenderCommand::Draw(Paint::Fill { cell: GridCell::wall(), width: 5, height: 5 }),
            RenderCommand::Pace { micros: delay },
        ]
    );
    assert!(out.redraw.is_empty());
    renderer.render(RenderInput::NoAction, WIDE);
    let out = renderer.render(RenderInput::Grid(open(1, 1)), WIDE);
    assert_eq!(
        out.commands,
        vec![
            RenderCommand::Draw(Paint::Cell { coord: (1, 1), cell: GridCell::empty() }),
            RenderCommand::Pace { micros: delay },
        ]
    );
    assert_eq!(renderer.history().len(), 2);
    assert_eq!(renderer.history().current_event().copied(), Some(open(1, 1)));
    assert_eq!(renderer.grid_state().cell_at((1, 1)), Some(GridCell::empty()));
    assert_eq!(renderer.phase(), Phase::Running);
}

#[test]
fn an_update_before_any_grid_is_recorded_but_not_drawn() {
    let mut renderer = running(100, &[]);
    renderer.render(RenderInput::NoAction, WIDE);
    let out = renderer.render(RenderInput::Grid(open(1, 1)), NARROW);
    assert_eq!(out.commands, vec![RenderCommand::Pace { micros: renderer.scale().current() }]);
    assert_eq!(renderer.history().len(), 1);
    assert_eq!(renderer.grid_state().dims(), None);
}

#[test]
fn pause_step_back_twice_forward_twice_and_resume_restores_the_grid() {
    let events = [declare(5, 5), open(1, 1), open(3, 1)];
    let mut renderer = running(100, &events);
    let before = snapshot(&renderer);

    assert_eq!(act(&mut renderer, UserActionEvent::Pause).next, Await::Action);
    assert_eq!(renderer.phase(), Phase::Paused);

    let undo = open(3, 1).inverse();
    let out = act(&mut renderer, UserActionEvent::Backward);
    assert_eq!(
        out.commands,
        vec![
            RenderCommand::Draw(Paint::Cell { coord: (3, 1), cell: GridCell::wall() }),
            RenderCommand::Status(StatusLine::Reverted(undo)),
        ]
    );
    assert_eq!(renderer.grid_state().cell_at((3, 1)), Some(GridCell::wall()));
    let out = act(&mut renderer, UserActionEvent::Backward);
    assert_eq!(
        out.commands[0],
        RenderCommand::Draw(Paint::Cell { coord: (1, 1), cell: GridCell::wall() })
    );
    assert_eq!(renderer.history().index(), 2);
    assert_ne!(snapshot(&renderer), before);

    let out = act(&mut renderer, UserActionEvent::Forward);
    assert_eq!(
        out.commands,
        vec![
            RenderCommand::Draw(Paint::Cell { coord: (1, 1), cell: GridCell::empty() }),
            RenderCommand::Status(StatusLine::Stepped(open(1, 1))),
        ]
    );
    let out = act(&mut renderer, UserActionEvent::Forward);
    assert_eq!(out.next, Await::Action);
    assert_eq!(renderer.history().index(), 0);

    let out = act(&mut renderer, UserActionEvent::Resume);
    assert_eq!(out.commands, vec![RenderCommand::Status(StatusLine::Clear)]);
    assert_eq!(out.next, Await::Grid);
    assert_eq!(renderer.phase(), Phase::Live);
    assert_eq!(snapshot(&renderer), before);
    assert_eq!(renderer.history().len(), 3);
}

#[test]
fn resume_replays_what_was_stepped_back_over() {
    let events = [declare(5, 5), open(1, 1), open(3, 1)];
    let mut renderer = running(100, &events);
    let before = snapshot(&renderer);
    act(&mut renderer, UserActionEvent::Pause);
    act(&mut renderer, UserActionEvent::Backward);
    act(&mut renderer, UserActionEvent::Backward);

    let delay = renderer.scale().current();
    let out = act(&mut renderer, UserActionEvent::Resume);
    assert_eq!(
        out.commands,
        vec![
            RenderCommand::Status(StatusLine::Clear),
            RenderCommand::Draw(Paint::Cell { coord: (1, 1), cell: GridCell::empty() }),
            RenderCommand::Pace { micros: delay },
        ]
    );
    assert_eq!(out.next, Await::Tick);
    assert_eq!(renderer.phase(), Phase::Resuming);
    let out = renderer.render(RenderInput::Tick, WIDE);
    assert_eq!(
        out.commands,
        vec![
            RenderCommand::Draw(Paint::Cell { coord: (3, 1), cell: GridCell::empty() }),
            RenderCommand::Pace { micros: delay },
        ]
    );
    let out = renderer.render(RenderInput::Tick, WIDE);
    assert!(out.commands.is_empty());
    assert_eq!(out.next, Await::Grid);
    assert_eq!(snapshot(&renderer), before);
    assert_eq!(renderer.history().len(), 3);
    assert_eq!(renderer.history().index(), 0);
}

#[test]
fn cancel_while_waiting_for_a_larger_terminal_ends_as_cancelled() {
    let mut renderer = running(100, &[declare(5, 5)]);
    renderer.render(RenderInput::NoAction, WIDE);
    let out = renderer.render(RenderInput::Grid(open(1, 1)), NARROW);
    assert_eq!(out.commands, vec![RenderCommand::TooSmall { width: 5, height: 5 }]);
    assert_eq!(out.next, Await::Action);
    assert_eq!(
        renderer.phase(),
        Phase::ResizeWait(Held::Event { event: open(1, 1), origin: Origin::Live })
    );
    assert_eq!(renderer.history().len(), 1);

    let out = renderer.render(RenderInput::Action(UserActionEvent::Cancel), NARROW);
    assert_eq!(out.next, Await::Finished(RendererStatus::Cancelled));
    assert_eq!(renderer.phase(), Phase::Cancelled);
    assert!(out.commands.is_empty());
    // The event in hand was never painted.
    assert_eq!(renderer.grid_state().cell_at((1, 1)), Some(GridCell::wall()));
    assert_eq!(
        renderer.render(RenderInput::Grid(open(2, 2)), WIDE).next,
        Await::Finished(RendererStatus::Cancelled)
    );
}

#[test]
fn losing_the_operator_while_waiting_for_a_larger_terminal_cancels() {
    let mut renderer = running(100, &[declare(5, 5)]);
    assert_eq!(
        renderer.render(RenderInput::Action(UserActionEvent::Resize), NARROW).next,
        Await::Action
    );
    assert_eq!(renderer.phase(), Phase::ResizeWait(Held::Check { paused: false }));
    let out = renderer.render(RenderInput::ActionsClosed, NARROW);
    assert_eq!(out.next, Await::Finished(RendererStatus::Cancelled));
}

#[test]
fn a_sufficient_resize_redraws_the_grid_and_takes_up_the_event_in_hand() {
    let mut renderer = running(100, &[declare(5, 5), open(1, 1)]);
    renderer.render(RenderInput::NoAction, WIDE);
    renderer.render(RenderInput::Grid(open(3, 3)), NARROW);

    // Other actions are dropped while waiting, and a resize that is still
    // too small changes nothing.
    let out = renderer.render(RenderInput::Action(UserActionEvent::Pause), WIDE);
    assert!(out.commands.is_empty() && out.redraw.is_empty());
    let out = renderer.render(RenderInput::Action(UserActionEvent::Resize), (10, 5));
    assert!(out.commands.is_empty() && out.redraw.is_empty());
    assert_eq!(out.next, Await::Action);

    let out = renderer.render(RenderInput::Action(UserActionEvent::Resize), (10, 6));
    assert_eq!(
        out.redraw,
        vec![
            Paint::Fill { cell: GridCell::wall(), width: 5, height: 5 },
            Paint::Cell { coord: (1, 1), cell: GridCell::empty() },
        ]
    );
    assert_eq!(
        out.commands,
        vec![
            RenderCommand::Draw(Paint::Cell { coord: (3, 3), cell: GridCell::empty() }),
            RenderCommand::Pace { micros: renderer.scale().current() },
        ]
    );
    assert_eq!(out.next, Await::PollAction);
    assert_eq!(renderer.history().len(), 3);
    assert_eq!(renderer.grid_state().cell_at((3, 3)), Some(GridCell::empty()));
}

#[test]
fn room_for_the_grid_means_two_columns_a_cell_and_a_status_row() {
    let renderer = running(100, &[declare(5, 5)]);
    assert!(renderer.check_resize((10, 6)));
    assert!(!renderer.check_resize((9, 6)));
    assert!(!renderer.check_resize((10, 5)));
    assert!(!renderer.check_resize((0, 0)));
    assert!(Renderer::new(1, None).check_resize((0, 0)));
    assert_eq!(renderer.get_width((80, 24)), 10);
    assert_eq!(renderer.status_row(), 5);
    assert_eq!(Renderer::new(1, None).status_row(), 0);
    assert_eq!(Renderer::new(1, None).get_width((80, 24)), 80);
}

#[test]
fn a_producer_that_is_gone_at_once_completes_the_session() {
    let mut renderer = running(100, &[]);
    assert_eq!(renderer.render(RenderInput::NoAction, WIDE).next, Await::Grid);
    let out = renderer.render(RenderInput::GridClosed, WIDE);
    assert_eq!(out.commands, vec![RenderCommand::Status(StatusLine::Clear)]);
    assert_eq!(out.next, Await::Finished(RendererStatus::Completed));
    assert_eq!(renderer.phase(), Phase::Completed);
    assert_eq!(renderer.history().len(), 0);
}

#[test]
fn a_producer_that_finishes_leaves_the_cursor_below_the_grid() {
    let mut renderer = running(100, &[declare(5, 7)]);
    renderer.render(RenderInput::NoAction, WIDE);
    let out = renderer.render(RenderInput::GridClosed, WIDE);
    assert_eq!(
        out.commands,
        vec![RenderCommand::Status(StatusLine::Clear), RenderCommand::MoveBelow { row: 7 }]
    );
    assert_eq!(out.next, Await::Finished(RendererStatus::Completed));
}

#[test]
fn the_cancellation_flag_cancels_a_running_session() {
    let mut renderer = running(100, &[declare(5, 5)]);
    let out = renderer.render(RenderInput::CancelRequested, WIDE);
    assert!(out.commands.is_empty());
    assert_eq!(out.next, Await::Finished(RendererStatus::Cancelled));
}

#[test]
fn cancel_clears_the_status_line_while_running_or_paused() {
    let mut renderer = running(100, &[declare(5, 5)]);
    let out = act(&mut renderer, UserActionEvent::Cancel);
    assert_eq!(out.commands, vec![RenderCommand::Status(StatusLine::Clear)]);
    assert_eq!(out.next, Await::Finished(RendererStatus::Cancelled));

    let mut renderer = running(100, &[declare(5, 5)]);
    act(&mut renderer, UserActionEvent::Pause);
    let out = act(&mut renderer, UserActionEvent::Cancel);
    assert_eq!(out.commands, vec![RenderCommand::Status(StatusLine::Clear)]);
    assert_eq!(renderer.phase(), Phase::Cancelled);
}

#[test]
fn speed_changes_show_the_gauge_and_keep_the_phase() {
    let mut renderer = running(100, &[declare(5, 5)]);
    let level = renderer.scale().get_level();
    let out = act(&mut renderer, UserActionEvent::SpeedUp);
    assert_eq!(out.commands, vec![RenderCommand::Status(StatusLine::Gauge { width: 10 })]);
    assert_eq!(out.next, Await::Grid);
    assert_eq!(renderer.scale().get_level(), level + 1);
    assert_eq!(renderer.gauge_text(10), renderer.scale().make_scale_bar(10));

    renderer.render(RenderInput::Grid(open(1, 1)), WIDE);
    act(&mut renderer, UserActionEvent::Pause);
    let out = act(&mut renderer, UserActionEvent::SlowDown);
    assert_eq!(out.commands, vec![RenderCommand::Status(StatusLine::Gauge { width: 10 })]);
    assert_eq!(out.next, Await::Action);
    assert_eq!(renderer.scale().get_level(), level);
    assert_eq!(renderer.phase(), Phase::Paused);
}

#[test]
fn stepping_actions_are_dropped_while_running() {
    let mut renderer = running(100, &[declare(5, 5), open(1, 1)]);
    for action in [UserActionEvent::Resume, UserActionEvent::Forward, UserActionEvent::Backward] {
        let out = act(&mut renderer, action);
        assert!(out.commands.is_empty());
        assert_eq!(out.next, Await::Grid);
        assert_eq!(renderer.history().index(), 0);
        renderer.render(RenderInput::Grid(open(2, 2)), WIDE);
    }
}

#[test]
fn stepping_forward_at_the_present_asks_the_producer() {
    let mut renderer = running(100, &[declare(5, 5)]);
    act(&mut renderer, UserActionEvent::Pause);

    assert_eq!(act(&mut renderer, UserActionEvent::Forward).next, Await::TryGrid);
    assert_eq!(renderer.phase(), Phase::Polling);
    let out = renderer.render(RenderInput::NoGrid, WIDE);
    assert_eq!(out.commands, vec![RenderCommand::Status(StatusLine::NoFutureEvent)]);
    assert_eq!(out.next, Await::Action);

    act(&mut renderer, UserActionEvent::Forward);
    let out = renderer.render(RenderInput::Grid(open(2, 2)), WIDE);
    assert_eq!(
        out.commands,
        vec![
            RenderCommand::Draw(Paint::Cell { coord: (2, 2), cell: GridCell::empty() }),
            RenderCommand::Status(StatusLine::Stepped(open(2, 2))),
        ]
    );
    assert_eq!(renderer.phase(), Phase::Paused);
    assert_eq!(renderer.history().len(), 2);

    act(&mut renderer, UserActionEvent::Forward);
    let out = renderer.render(RenderInput::GridClosed, WIDE);
    assert_eq!(out.commands, vec![RenderCommand::Status(StatusLine::ChannelDisconnected)]);
    assert_eq!(renderer.phase(), Phase::Paused);
}

#[test]
fn stepping_back_at_a_declaration_only_reports() {
    let mut renderer = running(100, &[declare(5, 5), open(1, 1)]);
    act(&mut renderer, UserActionEvent::Pause);
    act(&mut renderer, UserActionEvent::Backward);
    let before = snapshot(&renderer);
    for _ in 0..2 {
        let out = act(&mut renderer, UserActionEvent::Backward);
        assert_eq!(out.commands, vec![RenderCommand::Status(StatusLine::InitialReached)]);
        assert_eq!(out.next, Await::Action);
        assert_eq!(renderer.history().index(), 1);
        assert_eq!(snapshot(&renderer), before);
    }
}

#[test]
fn stepping_back_over_a_later_declaration_is_refused_too() {
    let second = GridEvent::Initial { cell: GridCell::empty(), width: 4, height: 2 };
    let mut renderer = running(100, &[declare(3, 3), open(0, 0), open(1, 1), second]);
    act(&mut renderer, UserActionEvent::Pause);
    let before = snapshot(&renderer);
    let out = act(&mut renderer, UserActionEvent::Backward);
    assert_eq!(out.commands, vec![RenderCommand::Status(StatusLine::InitialReached)]);
    assert_eq!(renderer.history().index(), 0);
    assert_eq!(snapshot(&renderer), before);
    assert_eq!(renderer.grid_state().dims(), Some((4, 2)));
}

#[test]
fn stepping_back_at_the_oldest_event_only_reports() {
    let mut renderer = running(1, &[declare(5, 5), open(1, 1)]);
    act(&mut renderer, UserActionEvent::Pause);
    for _ in 0..2 {
        let out = act(&mut renderer, UserActionEvent::Backward);
        assert_eq!(out.commands, vec![RenderCommand::Status(StatusLine::AlreadyOldest)]);
        assert_eq!(renderer.history().index(), 0);
        assert_eq!(renderer.grid_state().cell_at((1, 1)), Some(GridCell::empty()));
    }

    let mut renderer = running(0, &[declare(5, 5)]);
    act(&mut renderer, UserActionEvent::Pause);
    let out = act(&mut renderer, UserActionEvent::Backward);
    assert_eq!(out.commands, vec![RenderCommand::Status(StatusLine::AlreadyOldest)]);
    assert_eq!(out.next, Await::Action);
    assert_eq!(renderer.phase(), Phase::Paused);
}

#[test]
fn recovering_from_history_replays_from_the_nearest_older_declaration() {
    let first = declare(3, 3);
    let second = GridEvent::Initial { cell: GridCell::empty(), width: 4, height: 2 };
    let mark = GridEvent::Update { coord: (2, 0), old: GridCell::wall(), new: GridCell::mark() };
    let mut renderer = running(100, &[first, open(0, 0), mark, open(1, 1), second]);
    let mut drawn = Vec::new();
    assert!(renderer.recover_from_history(&mut drawn));
    assert_eq!(
        drawn,
        vec![
            RenderCommand::Draw(Paint::Fill { cell: GridCell::wall(), width: 3, height: 3 }),
            RenderCommand::Draw(Paint::Cell { coord: (0, 0), cell: GridCell::empty() }),
            RenderCommand::Draw(Paint::Cell { coord: (2, 0), cell: GridCell::mark() }),
            RenderCommand::Draw(Paint::Cell { coord: (1, 1), cell: GridCell::empty() }),
        ]
    );
    assert_eq!(renderer.history().index(), 0);
    assert_eq!(renderer.history().len(), 5);
    assert_eq!(renderer.grid_state().dims(), Some((3, 3)));
    assert_eq!(renderer.grid_state().cell_at((2, 0)), Some(GridCell::mark()));
    assert_eq!(renderer.grid_state().cell_at((1, 1)), Some(GridCell::empty()));
    assert_eq!(renderer.grid_state().cell_at((2, 2)), Some(GridCell::wall()));
}

#[test]
fn recovering_from_history_without_an_older_declaration_changes_nothing() {
    let second = GridEvent::Initial { cell: GridCell::empty(), width: 4, height: 2 };
    let mut renderer = running(3, &[declare(3, 3), open(0, 0), open(1, 1), second]);
    let before = snapshot(&renderer);
    let mut drawn = Vec::new();
    assert!(!renderer.recover_from_history(&mut drawn));
    assert!(drawn.is_empty());
    assert_eq!(renderer.history().index(), 0);
    assert_eq!(snapshot(&renderer), before);
    assert_eq!(renderer.grid_state().dims(), Some((4, 2)));
}

#[test]
fn speed_changes_and_cancellation_are_served_in_every_phase() {
    // While waiting for a larger terminal.
    let mut renderer = running(100, &[declare(5, 5)]);
    renderer.render(RenderInput::Action(UserActionEvent::Resize), NARROW);
    let level = renderer.scale().get_level();
    let out = renderer.render(RenderInput::Action(UserActionEvent::SpeedUp), NARROW);
    assert_eq!(out.commands, vec![RenderCommand::Status(StatusLine::Gauge { width: 10 })]);
    assert_eq!(out.next, Await::Action);
    assert_eq!(renderer.scale().get_level(), level + 1);
    assert_eq!(renderer.phase(), Phase::ResizeWait(Held::Check { paused: false }));
    assert_eq!(renderer.phase().stage(), Stage::ResizeWait);

    // While waiting for the producer.
    let mut renderer = running(100, &[declare(5, 5)]);
    renderer.render(RenderInput::NoAction, WIDE);
    act(&mut renderer, UserActionEvent::SpeedUp);
    act(&mut renderer, UserActionEvent::SpeedUp);
    let out = act(&mut renderer, UserActionEvent::SlowDown);
    assert_eq!(out.commands, vec![RenderCommand::Status(StatusLine::Gauge { width: 10 })]);
    assert_eq!(out.next, Await::Grid);
    assert_eq!(renderer.scale().get_level(), level + 1);
    assert_eq!(renderer.phase().stage(), Stage::Running);
    let out = act(&mut renderer, UserActionEvent::Pause);
    assert!(out.commands.is_empty());
    assert_eq!(renderer.phase(), Phase::Live);
    let out = act(&mut renderer, UserActionEvent::Cancel);
    assert_eq!(out.next, Await::Finished(RendererStatus::Cancelled));

    // While replaying on resume, and while asking the producer.
    let mut renderer = running(100, &[declare(5, 5), open(1, 1)]);
    act(&mut renderer, UserActionEvent::Pause);
    act(&mut renderer, UserActionEvent::Backward);
    act(&mut renderer, UserActionEvent::Resume);
    assert_eq!(renderer.phase(), Phase::Resuming);
    assert_eq!(
        renderer.render(RenderInput::CancelRequested, WIDE).next,
        Await::Finished(RendererStatus::Cancelled)
    );
    let mut renderer = running(100, &[declare(5, 5)]);
    act(&mut renderer, UserActionEvent::Pause);
    act(&mut renderer, UserActionEvent::Forward);
    assert_eq!(renderer.phase().stage(), Stage::Paused);
    act(&mut renderer, UserActionEvent::SpeedUp);
    assert_eq!(renderer.phase(), Phase::Polling);
    assert_eq!(
        act(&mut renderer, UserActionEvent::Cancel).next,
        Await::Finished(RendererStatus::Cancelled)
    );
    assert_eq!(renderer.phase().stage(), Stage::Cancelled);
}

#[test]
fn a_pause_ends_when_the_operator_is_gone() {
    let mut renderer = running(100, &[declare(5, 5)]);
    act(&mut renderer, UserActionEvent::Pause);
    assert_eq!(act(&mut renderer, UserActionEvent::Pause).next, Await::Action);
    let out = renderer.render(RenderInput::ActionsClosed, WIDE);
    assert_eq!(out.next, Await::Grid);
    assert_eq!(renderer.phase(), Phase::Live);
}

#[test]
fn a_resize_while_paused_comes_back_to_the_pause() {
    let mut renderer = running(100, &[declare(5, 5), open(1, 1)]);
    act(&mut renderer, UserActionEvent::Pause);
    let out = renderer.render(RenderInput::Action(UserActionEvent::Resize), NARROW);
    assert_eq!(out.commands, vec![RenderCommand::TooSmall { width: 5, height: 5 }]);
    assert_eq!(renderer.phase(), Phase::ResizeWait(Held::Check { paused: true }));
    let out = renderer.render(RenderInput::Action(UserActionEvent::Resize), WIDE);
    assert_eq!(out.redraw.len(), 2);
    assert!(out.commands.is_empty());
    assert_eq!(out.next, Await::Action);
    assert_eq!(renderer.phase(), Phase::Paused);
    let out = renderer.render(RenderInput::Action(UserActionEvent::Resize), WIDE);
    assert!(out.redraw.is_empty() && out.commands.is_empty());
    assert_eq!(renderer.phase(), Phase::Paused);
}

#[test]
fn a_new_declaration_is_checked_against_the_grid_before_it() {
    let mut renderer = running(100, &[declare(2, 2)]);
    renderer.render(RenderInput::NoAction, WIDE);
    // A terminal with room for the old grid takes the new one unchecked.
    let out = renderer.render(RenderInput::Grid(declare(30, 30)), (4, 3));
    assert_eq!(
        out.commands[0],
        RenderCommand::Draw(Paint::Fill { cell: GridCell::wall(), width: 30, height: 30 })
    );
    assert_eq!(renderer.grid_state().dims(), Some((30, 30)));
}
