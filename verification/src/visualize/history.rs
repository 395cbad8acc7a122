//! Bounded, scrubbable log of grid events.

use vstd::prelude::*;
use std::collections::VecDeque;
use crate::maze::grid::GridEvent;

verus! {

/// What a history of capacity `capacity` holds after `event` is added to one
/// holding `events` (most recent first): nothing changes at capacity zero;
/// otherwise the event goes to the front and only the `capacity - 1` most
/// recent of the earlier events stay behind it.
pub open spec fn added(events: Seq<GridEvent>, capacity: nat, event: GridEvent) -> Seq<GridEvent> {
    if capacity == 0 {
        events
    } else if events.len() < capacity {
        seq![event] + events
    } else {
        seq![event] + events.take(capacity - 1)
    }
}

/// Contents of a history of the given capacity, most recent first, after the
/// events of `stream` were added to an empty one in stream order.
pub open spec fn recorded(stream: Seq<GridEvent>, capacity: nat) -> Seq<GridEvent>
    decreases stream.len(),
{
    if stream.len() == 0 {
        Seq::empty()
    } else {
        added(recorded(stream.drop_last(), capacity), capacity, stream.last())
    }
}

/// The `n` most recent events of `stream`, most recent first (all of them
/// when the stream is shorter).
pub open spec fn most_recent(stream: Seq<GridEvent>, n: nat) -> Seq<GridEvent> {
    let k = if stream.len() < n { stream.len() } else { n };
    Seq::new(k, |i: int| stream[stream.len() - 1 - i])
}

/// A bounded history retains exactly the most recent events, in order:
/// whatever was added, and however many more than the capacity, what remains
/// is the `capacity` most recent events of the stream.
pub proof fn lemma_history_retains_most_recent(stream: Seq<GridEvent>, capacity: nat)
    ensures
        recorded(stream, capacity) == most_recent(stream, capacity),
        recorded(stream, capacity).len() <= capacity,
    decreases stream.len(),
{
    if stream.len() == 0 {
        assert(recorded(stream, capacity) =~= most_recent(stream, capacity));
    } else {
        let earlier = stream.drop_last();
        lemma_history_retains_most_recent(earlier, capacity);
        assert(recorded(stream, capacity) =~= most_recent(stream, capacity));
    }
}

/// Event log of bounded capacity with a cursor for stepping back and forth.
///
/// Events are kept most recent first. The cursor counts steps into the
/// past: `0` is the present.
pub struct GridEventHistory {
    event_history: VecDeque<GridEvent>,
    history_index: usize,
    max_num_events: usize,
}

impl GridEventHistory {
    /// The retained events, most recent first.
    pub closed spec fn events(&self) -> Seq<GridEvent> {
        self.event_history@
    }

    /// How many steps into the past the cursor stands.
    pub closed spec fn cursor(&self) -> nat {
        self.history_index as nat
    }

    /// The most events the history will retain.
    pub closed spec fn capacity(&self) -> nat {
        self.max_num_events as nat
    }

    /// The cursor is a valid index, or zero on an empty history, and the
    /// history holds no more than its capacity.
    pub closed spec fn wf(&self) -> bool {
        &&& self.event_history@.len() <= self.max_num_events
        &&& (self.history_index == 0 || self.history_index < self.event_history@.len())
    }

    /// The event under the cursor, if any.
    pub open spec fn spec_current(&self) -> Option<&GridEvent> {
        if self.cursor() < self.events().len() {
            Some(&self.events()[self.cursor() as int])
        } else {
            None
        }
    }

    /// In a well-formed history the cursor is zero or the index of an event,
    /// and the events are no more than the capacity, which fits a machine
    /// word.
    pub proof fn lemma_wf_bounds(&self)
        requires
            self.wf(),
        ensures
            self.events().len() <= self.capacity() <= usize::MAX,
            self.cursor() == 0 || self.cursor() < self.events().len(),
    {
    }

    /// An empty history that will retain at most `max_num_events` events.
    pub fn new(max_num_events: usize) -> (h: Self)
        ensures
            h.wf(),
            h.events() == Seq::<GridEvent>::empty(),
            h.cursor() == 0,
            h.capacity() == max_num_events,
    {
        GridEventHistory { event_history: VecDeque::new(), history_index: 0, max_num_events }
    }

    /// Steps one event toward the present and returns the event now under
    /// the cursor; at the present it returns `None` and moves nothing.
    pub fn history_forward(&mut self) -> (r: Option<&GridEvent>)
        requires
            old(self).wf(),
        ensures
            final(self).wf(),
            final(self).events() == old(self).events(),
            final(self).capacity() == old(self).capacity(),
            old(self).cursor() == 0 ==> r.is_none() && final(self).cursor() == 0,
            old(self).cursor() > 0 ==> {
                &&& final(self).cursor() == old(self).cursor() - 1
                &&& r == Some(&old(self).events()[old(self).cursor() - 1])
            },
    {
        if self.history_index == 0 {
            None
        } else {
            self.history_index -= 1;
            Some(&self.event_history[self.history_index])
        }
    }

    /// Steps one event into the past and returns the event now under the
    /// cursor; at the oldest retained event it returns `None` and moves
    /// nothing.
    pub fn history_backward(&mut self) -> (r: Option<&GridEvent>)
        requires
            old(self).wf(),
        ensures
            final(self).wf(),
            final(self).events() == old(self).events(),
            final(self).capacity() == old(self).capacity(),
            old(self).cursor() + 1 >= old(self).events().len() ==> {
                &&& r.is_none()
                &&& final(self).cursor() == old(self).cursor()
            },
            old(self).cursor() + 1 < old(self).events().len() ==> {
                &&& final(self).cursor() == old(self).cursor() + 1
                &&& r == Some(&old(self).events()[old(self).cursor() as int + 1])
            },
    {
        let len: usize = self.event_history.len();
        if len == 0 || self.history_index >= len - 1 {
            None
        } else {
            self.history_index += 1;
            Some(&self.event_history[self.history_index])
        }
    }

    /// Records `current_event` as the most recent event and puts the cursor
    /// on it, evicting the oldest events beyond the capacity. A history of
    /// capacity zero records nothing.
    pub fn add_event(&mut self, current_event: GridEvent)
        requires
            old(self).wf(),
        ensures
            final(self).wf(),
            final(self).capacity() == old(self).capacity(),
            final(self).events() == added(old(self).events(), old(self).capacity(), current_event),
            old(self).capacity() == 0 ==> final(self).cursor() == old(self).cursor(),
            old(self).capacity() > 0 ==> final(self).cursor() == 0,
    {
        if self.max_num_events != 0 {
            self.event_history.truncate(self.max_num_events - 1);
            self.event_history.push_front(current_event);
            self.history_index = 0;
            assert(self.event_history@ =~= added(
                old(self).events(),
                old(self).capacity(),
                current_event,
            ));
        }
    }

    /// Number of retained events.
    pub fn len(&self) -> (n: usize)
        ensures
            n == self.events().len(),
    {
        self.event_history.len()
    }

    /// How many steps into the past the cursor stands.
    pub fn index(&self) -> (i: usize)
        ensures
            i == self.cursor(),
    {
        self.history_index
    }

    /// The most events the history will retain.
    pub fn max_num_events(&self) -> (n: usize)
        ensures
            n == self.capacity(),
    {
        self.max_num_events
    }

    /// The event under the cursor, without moving it.
    pub fn current_event(&self) -> (r: Option<&GridEvent>)
        requires
            self.wf(),
        ensures
            r == self.spec_current(),
    {
        if self.history_index < self.event_history.len() {
            Some(&self.event_history[self.history_index])
        } else {
            None
        }
    }
}

} // verus!
