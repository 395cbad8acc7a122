use mazest::visualize::input::{
    ends_listening, Coordinator, Dispatch, Key, UserActionEvent, UserInputEvent,
};

#[test]
fn enter_toggles_between_pause_and_resume() {
    let mut coordinator = Coordinator::new();
    assert!(!coordinator.is_paused());
    assert_eq!(
        coordinator.dispatch(UserInputEvent::KeyPress(Key::Enter)),
        Dispatch::Send(UserActionEvent::Pause)
    );
    assert!(coordinator.is_paused());
    assert_eq!(
        coordinator.dispatch(UserInputEvent::KeyPress(Key::Enter)),
        Dispatch::Send(UserActionEvent::Resume)
    );
    assert!(!coordinator.is_paused());
}

#[test]
fn stepping_keys_count_only_while_paused() {
    let mut coordinator = Coordinator::new();
    assert_eq!(coordinator.dispatch(UserInputEvent::KeyPress(Key::Left)), Dispatch::Ignore);
    assert_eq!(coordinator.dispatch(UserInputEvent::KeyPress(Key::Right)), Dispatch::Ignore);
    coordinator.dispatch(UserInputEvent::KeyPress(Key::Enter));
    assert_eq!(
        coordinator.dispatch(UserInputEvent::KeyPress(Key::Left)),
        Dispatch::Send(UserActionEvent::Backward)
    );
    assert_eq!(
        coordinator.dispatch(UserInputEvent::KeyPress(Key::Right)),
        Dispatch::Send(UserActionEvent::Forward)
    );
    assert!(coordinator.is_paused());
}

#[test]
fn speed_keys_and_resizes_always_pass() {
    for paused in [false, true] {
        let mut coordinator = Coordinator::new();
        if paused {
            coordinator.dispatch(UserInputEvent::KeyPress(Key::Enter));
        }
        assert_eq!(
            coordinator.dispatch(UserInputEvent::KeyPress(Key::Up)),
            Dispatch::Send(UserActionEvent::SpeedUp)
        );
        assert_eq!(
            coordinator.dispatch(UserInputEvent::KeyPress(Key::Down)),
            Dispatch::Send(UserActionEvent::SlowDown)
        );
        assert_eq!(
            coordinator.dispatch(UserInputEvent::Resize),
            Dispatch::Send(UserActionEvent::Resize)
        );
        assert_eq!(coordinator.dispatch(UserInputEvent::KeyPress(Key::Other)), Dispatch::Ignore);
        assert_eq!(coordinator.is_paused(), paused);
    }
}

#[test]
fn esc_stops_the_session() {
    let mut coordinator = Coordinator::new();
    assert_eq!(coordinator.dispatch(UserInputEvent::KeyPress(Key::Esc)), Dispatch::Stop);
    assert!(!coordinator.is_paused());
    assert!(ends_listening(UserInputEvent::KeyPress(Key::Esc)));
    assert!(!ends_listening(UserInputEvent::KeyPress(Key::Enter)));
    assert!(!ends_listening(UserInputEvent::Resize));
}
