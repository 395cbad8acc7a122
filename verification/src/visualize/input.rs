//! Operator input: keys, the actions they stand for, and the pause toggle.

use vstd::prelude::*;

verus! {

/// What the operator asks of the renderer.
#[derive(Debug, Clone, Copy, PartialEq, Eq, Structural)]
pub enum UserActionEvent {
    /// Pause the animation.
    Pause,
    /// Resume the animation.
    Resume,
    /// Step forward in history, or into the future, while paused.
    Forward,
    /// Step backward in history while paused.
    Backward,
    /// The terminal was resized.
    Resize,
    /// Play faster.
    SpeedUp,
    /// Play slower.
    SlowDown,
    /// Stop rendering.
    Cancel,
}

/// The keys the visualizer tells apart.
#[derive(Debug, Clone, Copy, PartialEq, Eq, Structural)]
pub enum Key {
    Esc,
    Enter,
    Left,
    Right,
    Up,
    Down,
    /// Any other key.
    Other,
}

/// What the input listener reports.
#[derive(Debug, Clone, Copy, PartialEq, Eq, Structural)]
pub enum UserInputEvent {
    /// A key was pressed.
    KeyPress(Key),
    /// The terminal was resized.
    Resize,
}

/// What the coordinator does with one report of the input listener.
#[derive(Debug, Clone, Copy, PartialEq, Eq, Structural)]
pub enum Dispatch {
    /// Nothing.
    Ignore,
    /// Forward the action to the renderer and go on.
    Send(UserActionEvent),
    /// Forward `Cancel` to the renderer, raise the stop signal and leave
    /// the loop.
    Stop,
}

/// The action that a report stands for while the animation is paused or
/// not: Esc stops; Enter toggles between pause and resume; Left and Right
/// step, but only while paused; Up and Down change the speed; a resize is
/// passed on; every other key is ignored.
pub open spec fn dispatch_of(paused: bool, event: UserInputEvent) -> Dispatch {
    match event {
        UserInputEvent::Resize => Dispatch::Send(UserActionEvent::Resize),
        UserInputEvent::KeyPress(key) => match key {
            Key::Esc => Dispatch::Stop,
            Key::Enter => Dispatch::Send(
                if paused {
                    UserActionEvent::Resume
                } else {
                    UserActionEvent::Pause
                },
            ),
            Key::Left => if paused {
                Dispatch::Send(UserActionEvent::Backward)
            } else {
                Dispatch::Ignore
            },
            Key::Right => if paused {
                Dispatch::Send(UserActionEvent::Forward)
            } else {
                Dispatch::Ignore
            },
            Key::Up => Dispatch::Send(UserActionEvent::SpeedUp),
            Key::Down => Dispatch::Send(UserActionEvent::SlowDown),
            Key::Other => Dispatch::Ignore,
        },
    }
}

/// Whether the animation is paused after the report: only Enter changes it.
pub open spec fn paused_after(paused: bool, event: UserInputEvent) -> bool {
    if event == UserInputEvent::KeyPress(Key::Enter) {
        !paused
    } else {
        paused
    }
}

/// The coordinator's view of the session: whether it has asked the
/// renderer to pause.
pub struct Coordinator {
    is_paused: bool,
}

impl Coordinator {
    /// Whether the coordinator has the animation paused.
    pub closed spec fn paused(&self) -> bool {
        self.is_paused
    }

    /// A coordinator for a session that starts playing.
    pub fn new() -> (c: Self)
        ensures
            !c.paused(),
    {
        Coordinator { is_paused: false }
    }

    /// Whether the coordinator has the animation paused.
    pub fn is_paused(&self) -> (r: bool)
        ensures
            r == self.paused(),
    {
        self.is_paused
    }

    /// Decides what to do with one report of the input listener, and
    /// remembers a pause toggle.
    pub fn dispatch(&mut self, event: UserInputEvent) -> (d: Dispatch)
        ensures
            d == dispatch_of(old(self).paused(), event),
            final(self).paused() == paused_after(old(self).paused(), event),
    {
        match event {
            UserInputEvent::Resize => Dispatch::Send(UserActionEvent::Resize),
            UserInputEvent::KeyPress(key) => match key {
                Key::Esc => Dispatch::Stop,
                Key::Enter => {
                    let action = if self.is_paused {
                        UserActionEvent::Resume
                    } else {
                        UserActionEvent::Pause
                    };
                    self.is_paused = !self.is_paused;
                    Dispatch::Send(action)
                },
                Key::Left => if self.is_paused {
                    Dispatch::Send(UserActionEvent::Backward)
                } else {
                    Dispatch::Ignore
                },
                Key::Right => if self.is_paused {
                    Dispatch::Send(UserActionEvent::Forward)
                } else {
                    Dispatch::Ignore
                },
                Key::Up => Dispatch::Send(UserActionEvent::SpeedUp),
                Key::Down => Dispatch::Send(UserActionEvent::SlowDown),
                Key::Other => Dispatch::Ignore,
            },
        }
    }
}

/// Whether the input listener leaves its loop after reporting `event`: it
/// does so on Esc.
pub fn ends_listening(event: UserInputEvent) -> (leave: bool)
    ensures
        leave == (event == UserInputEvent::KeyPress(Key::Esc)),
{
    match event {
        UserInputEvent::KeyPress(Key::Esc) => true,
        _ => false,
    }
}

} // verus!
