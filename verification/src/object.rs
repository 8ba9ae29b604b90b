//! Production objects: a ring of card slots cycled by the scheduler.

use vstd::prelude::*;

verus! {

/// Number of slots in an object's ring.
pub const RING_SIZE: usize = 8;

/// Where an object stands in its production cycle.
#[derive(Clone, Copy, Debug, PartialEq, Eq, Structural)]
pub enum ObjectState {
    /// Applies the card under the cursor when it next fires.
    Running,
    /// Stopped after a card could not be applied; only a restart leaves this state.
    Halted,
    /// Starts over from the first slot when it next fires.
    Restarting,
}

/// A production machine owned by one player.
///
/// `attributes` holds feature level, speed, reduce and productivity in its first four
/// places; `cards` is the ring of indices into the owner's cards; `modifier_index` is the
/// cursor into the ring; `counter` is the tick at which the current slot was entered.
#[derive(Clone, Copy, Debug, PartialEq, Eq)]
pub struct Object {
    pub cards: [u8; 8],
    pub attributes: [u8; 8],
    pub state: ObjectState,
    pub modifier_index: u8,
    pub counter: u64,
}

impl Object {
    /// The cursor points into the ring.
    pub open spec fn wf(self) -> bool {
        self.modifier_index < RING_SIZE
    }

    /// The new object with ring `cards`, as a value.
    pub open spec fn fresh(cards: [u8; 8]) -> Self {
        Object {
            cards,
            attributes: vstd::array::spec_array_fill_for_copy_type::<u8, 8>(0),
            state: ObjectState::Running,
            modifier_index: 0,
            counter: 0,
        }
    }

    /// A running object at the first slot of `cards`, with all attributes zero.
    pub fn new(cards: [u8; 8]) -> (o: Self)
        ensures
            o == Self::fresh(cards),
            forall|i: int| 0 <= i < 8 ==> o.attributes[i] == 0,
            o.wf(),
    {
        Object {
            cards,
            attributes: [0; 8],
            state: ObjectState::Running,
            modifier_index: 0,
            counter: 0,
        }
    }

    /// Stops the object where it stands.
    pub fn halt(&mut self)
        ensures
            *final(self) == (Object { state: ObjectState::Halted, ..*old(self) }),
    {
        self.state = ObjectState::Halted;
    }

    /// Whether the object is halted.
    pub fn is_halted(&self) -> (b: bool)
        ensures
            b == (self.state == ObjectState::Halted),
    {
        match self.state {
            ObjectState::Halted => true,
            _ => false,
        }
    }

    /// Whether the object starts over when it next fires.
    pub fn is_restarting(&self) -> (b: bool)
        ensures
            b == (self.state == ObjectState::Restarting),
    {
        match self.state {
            ObjectState::Restarting => true,
            _ => false,
        }
    }

    /// The cursor: the ring slot that the object stands at.
    pub fn get_modifier_index(&self) -> (i: u64)
        ensures
            i == self.modifier_index,
    {
        self.modifier_index as u64
    }

    /// Enters slot `modifier_index` at tick `counter` and runs.
    pub fn start_new_modifier(&mut self, modifier_index: usize, counter: u64)
        requires
            modifier_index < RING_SIZE,
        ensures
            *final(self) == old(self).started(modifier_index as int, counter),
    {
        self.state = ObjectState::Running;
        self.modifier_index = modifier_index as u8;
        self.counter = counter;
    }

    /// The object after `start_new_modifier`.
    pub open spec fn started(self, modifier_index: int, counter: u64) -> Self {
        Object {
            state: ObjectState::Running,
            modifier_index: modifier_index as u8,
            counter,
            ..self
        }
    }

    /// Leaves any state for `Restarting` at the first slot.
    pub fn restart(&mut self, counter: u64)
        ensures
            *final(self) == old(self).restarted(counter),
    {
        self.state = ObjectState::Restarting;
        self.modifier_index = 0;
        self.counter = counter;
    }

    /// The object after `restart`.
    pub open spec fn restarted(self, counter: u64) -> Self {
        Object { state: ObjectState::Restarting, modifier_index: 0, counter, ..self }
    }

    /// Replaces the ring.
    pub fn reset_modifier(&mut self, modifiers: [u8; 8])
        ensures
            *final(self) == (Object { cards: modifiers, ..*old(self) }),
    {
        self.cards = modifiers;
    }

    /// Marks the object to start over at its next firing; cursor and tick stay.
    pub fn reset_halt_bit_to_restart(&mut self)
        ensures
            *final(self) == (Object { state: ObjectState::Restarting, ..*old(self) }),
    {
        self.state = ObjectState::Restarting;
    }
}

} // verus!
