//! Scheduled firings of objects and the queue that holds them.

use vstd::prelude::*;

verus! {

/// A pending firing of object `object_index` of player `owner`, `delta` ticks from now.
#[derive(Clone, Copy, Debug, PartialEq, Eq)]
pub struct Event {
    pub object_index: usize,
    pub owner: [u64; 2],
    pub delta: usize,
}

impl Event {
    /// Whether the event fires in the next tick.
    pub open spec fn due(self) -> bool {
        self.delta == 0
    }

    /// The event one tick later.
    pub open spec fn aged(self) -> Event {
        Event { delta: if self.delta == 0 { 0usize } else { (self.delta - 1) as usize }, ..self }
    }
}

/// The logical clock and the pending events, oldest first. Events that fall due in the
/// same tick fire in the order in which they were scheduled.
#[derive(Debug)]
pub struct EventQueue {
    pub counter: u64,
    pub list: Vec<Event>,
}

/// The mathematical value of an `EventQueue`.
#[verifier::ext_equal]
pub struct QueueView {
    pub counter: u64,
    pub list: Seq<Event>,
}

impl View for EventQueue {
    type V = QueueView;

    open spec fn view(&self) -> QueueView {
        QueueView { counter: self.counter, list: self.list@ }
    }
}

impl EventQueue {
    /// An empty queue at tick 0.
    pub fn new() -> (q: Self)
        ensures
            q@ == (QueueView { counter: 0, list: Seq::empty() }),
    {
        EventQueue { counter: 0, list: Vec::new() }
    }

    /// Schedules `event` behind everything already pending.
    pub fn insert(&mut self, event: Event)
        ensures
            final(self)@ == (QueueView { list: old(self)@.list.push(event), ..old(self)@ }),
    {
        self.list.push(event);
    }
}

} // verus!
