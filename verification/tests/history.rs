use mazest::maze::cell::GridCell;
use mazest::maze::grid::GridEvent;
use mazest::visualize::history::GridEventHistory;

fn update(i: u16) -> GridEvent {
    GridEvent::Update { coord: (i, 0), old: GridCell::wall(), new: GridCell::empty() }
}

#[test]
fn history_keeps_the_most_recent_events_in_order() {
    let mut history = GridEventHistory::new(3);
    for i in 0..5 {
        history.add_event(update(i));
    }
    assert_eq!(history.len(), 3);
    assert_eq!(history.index(), 0);
    assert_eq!(history.current_event().copied(), Some(update(4)));
    assert_eq!(history.history_backward().copied(), Some(update(3)));
    assert_eq!(history.history_backward().copied(), Some(update(2)));
    assert_eq!(history.history_backward().copied(), None);
    assert_eq!(history.index(), 2);
}

#[test]
fn history_below_capacity_keeps_everything() {
    let mut history = GridEventHistory::new(10);
    history.add_event(update(0));
    history.add_event(update(1));
    assert_eq!(history.len(), 2);
    assert_eq!(history.max_num_events(), 10);
    assert_eq!(history.current_event().copied(), Some(update(1)));
    assert_eq!(history.history_backward().copied(), Some(update(0)));
}

#[test]
fn history_of_capacity_zero_records_nothing() {
    let mut history = GridEventHistory::new(0);
    history.add_event(update(0));
    history.add_event(update(1));
    assert_eq!(history.len(), 0);
    assert_eq!(history.index(), 0);
    assert_eq!(history.current_event(), None);
    assert_eq!(history.history_backward(), None);
    assert_eq!(history.history_forward(), None);
}

#[test]
fn history_of_capacity_one_keeps_the_last_event() {
    let mut history = GridEventHistory::new(1);
    history.add_event(update(0));
    history.add_event(update(1));
    assert_eq!(history.len(), 1);
    assert_eq!(history.current_event().copied(), Some(update(1)));
    assert_eq!(history.history_backward(), None);
}

#[test]
fn forward_at_the_present_returns_none_and_keeps_the_cursor() {
    let mut history = GridEventHistory::new(4);
    history.add_event(update(0));
    history.add_event(update(1));
    for _ in 0..3 {
        assert_eq!(history.history_forward(), None);
        assert_eq!(history.index(), 0);
    }
    assert_eq!(history.current_event().copied(), Some(update(1)));
}

#[test]
fn backward_at_the_oldest_event_returns_none_and_keeps_the_cursor() {
    let mut history = GridEventHistory::new(4);
    history.add_event(update(0));
    history.add_event(update(1));
    assert_eq!(history.history_backward().copied(), Some(update(0)));
    for _ in 0..3 {
        assert_eq!(history.history_backward(), None);
        assert_eq!(history.index(), 1);
    }
    assert_eq!(history.current_event().copied(), Some(update(0)));
}

#[test]
fn stepping_back_and_forth_walks_the_same_events() {
    let mut history = GridEventHistory::new(4);
    for i in 0..4 {
        history.add_event(update(i));
    }
    assert_eq!(history.history_backward().copied(), Some(update(2)));
    assert_eq!(history.history_backward().copied(), Some(update(1)));
    assert_eq!(history.history_forward().copied(), Some(update(2)));
    assert_eq!(history.history_forward().copied(), Some(update(3)));
    assert_eq!(history.history_forward(), None);
}

#[test]
fn adding_an_event_resets_the_cursor() {
    let mut history = GridEventHistory::new(4);
    history.add_event(update(0));
    history.add_event(update(1));
    history.history_backward();
    assert_eq!(history.index(), 1);
    history.add_event(update(2));
    assert_eq!(history.index(), 0);
    assert_eq!(history.current_event().copied(), Some(update(2)));
}

#[test]
fn eviction_may_drop_the_declaration() {
    let mut history = GridEventHistory::new(2);
    history.add_event(GridEvent::Initial { cell: GridCell::wall(), width: 3, height: 3 });
    history.add_event(update(0));
    history.add_event(update(1));
    assert_eq!(history.len(), 2);
    assert_eq!(history.history_backward().copied(), Some(update(0)));
    assert_eq!(history.history_backward(), None);
}

#[test]
fn inverse_exchanges_old_and_new() {
    let event = GridEvent::Update { coord: (2, 1), old: GridCell::wall(), new: GridCell::start() };
    assert_eq!(
        event.inverse(),
        GridEvent::Update { coord: (2, 1), old: GridCell::start(), new: GridCell::wall() }
    );
    assert_eq!(event.inverse().inverse(), event);
    let declared = GridEvent::Initial { cell: GridCell::wall(), width: 3, height: 3 };
    assert_eq!(declared.inverse(), declared);
}
