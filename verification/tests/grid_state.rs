use mazest::maze::cell::GridCell;
use mazest::maze::grid::GridEvent;
use mazest::visualize::grid_state::GridState;
use mazest::visualize::paint::Paint;

fn paint_directly(events: &[GridEvent]) -> Option<Vec<Vec<GridCell>>> {
    let mut screen: Option<Vec<Vec<GridCell>>> = None;
    for event in events {
        match *event {
            GridEvent::Initial { cell, width, height } => {
                screen = Some(vec![vec![cell; width as usize]; height as usize]);
            }
            GridEvent::Update { coord, new, .. } => {
                if let Some(rows) = screen.as_mut() {
                    rows[coord.1 as usize][coord.0 as usize] = new;
                }
            }
        }
    }
    screen
}

fn draw(paints: &[Paint]) -> Option<Vec<Vec<GridCell>>> {
    let mut screen: Option<Vec<Vec<GridCell>>> = None;
    for paint in paints {
        match *paint {
            Paint::Fill { cell, width, height } => {
                screen = Some(vec![vec![cell; width as usize]; height as usize]);
            }
            Paint::Cell { coord, cell } => {
                screen.as_mut().unwrap()[coord.1 as usize][coord.0 as usize] = cell;
            }
        }
    }
    screen
}

fn sample_stream() -> Vec<GridEvent> {
    vec![
        GridEvent::Update { coord: (0, 0), old: GridCell::wall(), new: GridCell::mark() },
        GridEvent::Initial { cell: GridCell::wall(), width: 4, height: 3 },
        GridEvent::Update { coord: (1, 1), old: GridCell::wall(), new: GridCell::empty() },
        GridEvent::Update { coord: (2, 1), old: GridCell::wall(), new: GridCell::mark() },
        GridEvent::Update { coord: (2, 1), old: GridCell::mark(), new: GridCell::empty() },
        GridEvent::Update { coord: (1, 1), old: GridCell::empty(), new: GridCell::wall() },
        GridEvent::Update { coord: (3, 2), old: GridCell::wall(), new: GridCell::goal() },
    ]
}

#[test]
fn recover_shows_what_direct_painting_shows() {
    let events = sample_stream();
    for n in 0..=events.len() {
        let mut state = GridState::new();
        for event in &events[..n] {
            state.add_event(*event);
        }
        assert_eq!(draw(&state.recover()), paint_directly(&events[..n]), "after {} events", n);
    }
}

#[test]
fn recover_draws_the_fill_first_and_each_difference_once() {
    let mut state = GridState::new();
    for event in sample_stream() {
        state.add_event(event);
    }
    let paints = state.recover();
    assert_eq!(paints.len(), 3);
    assert_eq!(paints[0], Paint::Fill { cell: GridCell::wall(), width: 4, height: 3 });
    let mut overlay: Vec<Paint> = paints[1..].to_vec();
    overlay.sort_by_key(|p| match p {
        Paint::Cell { coord, .. } => *coord,
        Paint::Fill { .. } => (0, 0),
    });
    assert_eq!(
        overlay,
        vec![
            Paint::Cell { coord: (2, 1), cell: GridCell::empty() },
            Paint::Cell { coord: (3, 2), cell: GridCell::goal() },
        ]
    );
}

#[test]
fn recover_without_a_grid_draws_nothing() {
    let mut state = GridState::new();
    assert_eq!(state.recover(), Vec::<Paint>::new());
    state.add_event(GridEvent::Update {
        coord: (0, 0),
        old: GridCell::wall(),
        new: GridCell::empty(),
    });
    assert_eq!(state.recover(), Vec::<Paint>::new());
    assert_eq!(state.dims(), None);
    assert_eq!(state.cell_at((0, 0)), None);
}

#[test]
fn dims_follow_the_last_declaration() {
    let mut state = GridState::new();
    assert_eq!(state.dims(), None);
    state.add_event(GridEvent::Initial { cell: GridCell::wall(), width: 7, height: 5 });
    assert_eq!(state.dims(), Some((7, 5)));
    state.add_event(GridEvent::Initial { cell: GridCell::empty(), width: 2, height: 9 });
    assert_eq!(state.dims(), Some((2, 9)));
}

#[test]
fn a_new_declaration_forgets_all_differences() {
    let mut state = GridState::new();
    state.add_event(GridEvent::Initial { cell: GridCell::wall(), width: 3, height: 3 });
    state.add_event(GridEvent::Update {
        coord: (1, 1),
        old: GridCell::wall(),
        new: GridCell::empty(),
    });
    assert_eq!(state.cell_at((1, 1)), Some(GridCell::empty()));
    state.add_event(GridEvent::Initial { cell: GridCell::mark(), width: 3, height: 3 });
    assert_eq!(state.cell_at((1, 1)), Some(GridCell::mark()));
    assert_eq!(state.recover().len(), 1);
}

#[test]
fn an_update_to_the_fill_removes_the_difference() {
    let mut state = GridState::new();
    state.add_event(GridEvent::Initial { cell: GridCell::wall(), width: 3, height: 3 });
    state.add_event(GridEvent::Update {
        coord: (1, 1),
        old: GridCell::wall(),
        new: GridCell::empty(),
    });
    assert_eq!(state.recover().len(), 2);
    state.add_event(GridEvent::Update {
        coord: (1, 1),
        old: GridCell::empty(),
        new: GridCell::wall(),
    });
    assert_eq!(state.recover().len(), 1);
    assert_eq!(state.cell_at((1, 1)), Some(GridCell::wall()));
}

#[test]
fn an_update_and_its_inverse_restore_the_state() {
    let cases = [
        (GridCell::wall(), GridCell::empty()),
        (GridCell::empty(), GridCell::wall()),
        (GridCell::empty(), GridCell::visited()),
        (GridCell::wall(), GridCell::wall()),
    ];
    for (old, new) in cases {
        let mut state = GridState::new();
        state.add_event(GridEvent::Initial { cell: GridCell::wall(), width: 3, height: 3 });
        state.add_event(GridEvent::Update { coord: (0, 2), old: GridCell::wall(), new: GridCell::goal() });
        if old != GridCell::wall() {
            state.add_event(GridEvent::Update { coord: (1, 1), old: GridCell::wall(), new: old });
        }
        let mut before = state.recover();
        before[1..].sort_by_key(|p| match p {
            Paint::Cell { coord, .. } => *coord,
            Paint::Fill { .. } => (0, 0),
        });
        let event = GridEvent::Update { coord: (1, 1), old, new };
        state.add_event(event);
        assert_eq!(state.cell_at((1, 1)), Some(new));
        state.add_event(event.inverse());
        let mut after = state.recover();
        after[1..].sort_by_key(|p| match p {
            Paint::Cell { coord, .. } => *coord,
            Paint::Fill { .. } => (0, 0),
        });
        assert_eq!(after, before);
        assert_eq!(state.cell_at((1, 1)), Some(old));
    }
}

#[test]
fn positions_in_far_columns_and_rows_do_not_collide() {
    let mut state = GridState::new();
    state.add_event(GridEvent::Initial { cell: GridCell::wall(), width: 65535, height: 65535 });
    state.add_event(GridEvent::Update {
        coord: (65534, 0),
        old: GridCell::wall(),
        new: GridCell::empty(),
    });
    state.add_event(GridEvent::Update {
        coord: (0, 65534),
        old: GridCell::wall(),
        new: GridCell::goal(),
    });
    state.add_event(GridEvent::Update { coord: (0, 1), old: GridCell::wall(), new: GridCell::start() });
    assert_eq!(state.cell_at((65534, 0)), Some(GridCell::empty()));
    assert_eq!(state.cell_at((0, 65534)), Some(GridCell::goal()));
    assert_eq!(state.cell_at((0, 1)), Some(GridCell::start()));
    assert_eq!(state.cell_at((1, 0)), Some(GridCell::wall()));
    let mut overlay: Vec<Paint> = state.recover()[1..].to_vec();
    overlay.sort_by_key(|p| match p {
        Paint::Cell { coord, .. } => *coord,
        Paint::Fill { .. } => (0, 0),
    });
    assert_eq!(
        overlay,
        vec![
            Paint::Cell { coord: (0, 1), cell: GridCell::start() },
            Paint::Cell { coord: (0, 65534), cell: GridCell::goal() },
            Paint::Cell { coord: (65534, 0), cell: GridCell::empty() },
        ]
    );
}
