//! The object automaton: what a firing does to an object and to the resources of its
//! owner, and how an object is restarted.

use vstd::prelude::*;
use crate::card::Card;
use crate::card::MAX_DURATION;
use crate::config::LOCAL_ATTRIBUTES_SIZE;
use crate::math::floor_log2;
use crate::math::log2;
use crate::object::Object;
use crate::object::ObjectState;
use crate::player::non_negative;
use crate::player::ring_points_at;
use crate::player::PlayerData;
use crate::player::PlayerDataView;

verus! {

/// What reduce takes off a cost: attribute 2 of the object.
pub open spec fn reduce_of(o: Object) -> int {
    o.attributes[2] as int
}

/// What productivity adds to a gain: the logarithm of attribute 3 of the object.
pub open spec fn bonus_of(o: Object) -> int {
    log2((o.attributes[3] + 1) as nat) as int
}

/// The speed of an object: the logarithm of attribute 1, at most 9.
pub open spec fn speed_of(o: Object) -> int {
    let s = log2((o.attributes[1] + 1) as nat) as int;
    if s > 9 {
        9
    } else {
        s
    }
}

/// A resource after a card's delta `b` is applied to it. A cost is lowered by `reduce`
/// and vanishes when `reduce` covers it; a gain is raised by `bonus`.
pub open spec fn modified_component(a: i64, b: i8, reduce: int, bonus: int) -> int {
    if b < 0 {
        if b + reduce < 0 {
            a + b + reduce
        } else {
            a as int
        }
    } else if b > 0 {
        a + b + bonus
    } else {
        a as int
    }
}

/// Whether a card may be applied: no resource plus its delta plus `reduce` is negative.
pub open spec fn modifier_accepted(local: Seq<i64>, m: Card, reduce: int) -> bool {
    forall|i: int| 0 <= i < LOCAL_ATTRIBUTES_SIZE ==> local[i] + #[trigger] m.attributes[i] + reduce >= 0
}

/// Whether every gain of the card fits the resource it goes to.
pub open spec fn modifier_fits(local: Seq<i64>, m: Card, bonus: int) -> bool {
    forall|i: int|
        0 <= i < LOCAL_ATTRIBUTES_SIZE ==> modified_component(
            local[i],
            #[trigger] m.attributes[i],
            0,
            bonus,
        ) <= i64::MAX
}

/// The resources after a card is applied.
pub open spec fn modified(local: Seq<i64>, m: Card, reduce: int, bonus: int) -> Seq<i64> {
    Seq::new(
        LOCAL_ATTRIBUTES_SIZE as nat,
        |i: int| modified_component(local[i], m.attributes[i], reduce, bonus) as i64,
    )
}

/// Applying a card that is accepted to resources none of which is negative leaves none
/// negative.
pub proof fn lemma_modified_non_negative(local: Seq<i64>, m: Card, reduce: int, bonus: int)
    requires
        local.len() == LOCAL_ATTRIBUTES_SIZE,
        non_negative(local),
        modifier_accepted(local, m, reduce),
        modifier_fits(local, m, bonus),
        0 <= reduce,
        0 <= bonus,
    ensures
        non_negative(modified(local, m, reduce, bonus)),
{
    assert forall|i: int| 0 <= i < 8 implies modified(local, m, reduce, bonus)[i] >= 0 by {
        let b = m.attributes[i];
        assert(local[i] + b + reduce >= 0);
        assert(modified_component(local[i], b, 0, bonus) <= i64::MAX);
    }
}

impl PlayerDataView {
    /// Whether object `o` of this player can apply card `m`.
    pub open spec fn accepts(self, m: Card, o: Object) -> bool {
        modifier_accepted(self.local, m, reduce_of(o))
    }

    /// The player after object `o` applied card `m`.
    pub open spec fn modified_by(self, m: Card, o: Object) -> Self {
        PlayerDataView { local: modified(self.local, m, reduce_of(o), bonus_of(o)), ..self }
    }

    /// The delay before a running object fires again from ring slot `slot`: the
    /// card's duration, shortened by a tenth for each step of speed.
    pub open spec fn scaled_duration(self, o: Object, slot: int) -> int {
        self.cards[o.cards[slot] as int].duration * (10 - speed_of(o)) / 10
    }

    /// The player with object `i` replaced by `o`.
    pub open spec fn with_object(self, i: int, o: Object) -> Self {
        PlayerDataView { objects: self.objects.update(i, o), ..self }
    }

    /// The card under the cursor of object `i`.
    pub open spec fn current_card(self, i: int) -> Card {
        let o = self.objects[i];
        self.cards[o.cards[o.modifier_index as int] as int]
    }

    /// Whether firing object `i` produces only numbers that fit.
    pub open spec fn fire_fits(self, i: int) -> bool {
        let o = self.objects[i];
        o.state == ObjectState::Running && self.accepts(self.current_card(i), o)
            ==> modifier_fits(self.local, self.current_card(i), bonus_of(o))
    }

    /// The player after object `i` fired at tick `counter`.
    ///
    /// A halted object does nothing. A restarting object enters its first slot and
    /// runs. A running object applies the card under its cursor: if the card is
    /// accepted the cursor moves on around the ring, else the object halts.
    pub open spec fn fired(self, i: int, counter: u64) -> Self {
        let o = self.objects[i];
        match o.state {
            ObjectState::Halted => self,
            ObjectState::Restarting => self.with_object(i, o.started(0, counter)),
            ObjectState::Running => {
                if self.accepts(self.current_card(i), o) {
                    self.modified_by(self.current_card(i), o).with_object(
                        i,
                        o.started((o.modifier_index + 1) % 8, counter),
                    )
                } else {
                    self.with_object(i, Object { state: ObjectState::Halted, ..o })
                }
            },
        }
    }

    /// The delay after which object `i`, fired now, is to fire again, if at all.
    pub open spec fn fire_delay(self, i: int) -> Option<usize> {
        let o = self.objects[i];
        match o.state {
            ObjectState::Halted => None,
            ObjectState::Restarting => Some(self.scaled_duration(o, 0) as usize),
            ObjectState::Running => {
                if self.accepts(self.current_card(i), o) {
                    Some(self.scaled_duration(o, (o.modifier_index + 1) % 8) as usize)
                } else {
                    None
                }
            },
        }
    }

    /// The player after object `i` was given the ring `ring` at tick `counter`: a halted
    /// object restarts at once; any other only takes the ring and starts over at its
    /// next firing.
    pub open spec fn ring_replaced(self, i: int, ring: [u8; 8], counter: u64) -> Self {
        let o = Object { cards: ring, ..self.objects[i] };
        if self.objects[i].state == ObjectState::Halted {
            self.with_object(i, o.restarted(counter))
        } else {
            self.with_object(i, Object { state: ObjectState::Restarting, ..o })
        }
    }

    /// The delay that a restart of object `i` with `ring` asks to be scheduled.
    pub open spec fn restart_delay(self, i: int, ring: [u8; 8]) -> Option<usize> {
        if self.objects[i].state == ObjectState::Halted {
            Some(self.cards[ring[0] as int].duration as usize)
        } else {
            None
        }
    }
}

impl PlayerData {
    /// Applies card `m` through object `o` to the resources, all or nothing.
    pub fn apply_modifier(&mut self, m: &Card, o: &Object) -> (ok: bool)
        requires
            old(self)@.wf(),
            old(self)@.accepts(*m, *o) ==> modifier_fits(old(self)@.local, *m, bonus_of(*o)),
        ensures
            ok == old(self)@.accepts(*m, *o),
            ok ==> final(self)@ == old(self)@.modified_by(*m, *o),
            !ok ==> final(self)@ == old(self)@,
            final(self)@.wf(),
            non_negative(final(self)@.local),
            final(self)@.local.len() == old(self)@.local.len(),
    {
        let reduce: i64 = o.attributes[2] as i64;
        let bonus: i64 = floor_log2(o.attributes[3] as u64 + 1) as i64;
        let mut i: usize = 0;
        while i < 8
            invariant
                i <= 8,
                self@ == old(self)@,
                self@.wf(),
                reduce == reduce_of(*o),
                forall|k: int| 0 <= k < i ==> self@.local[k] + #[trigger] m.attributes[k] + reduce >= 0,
            decreases 8 - i,
        {
            if (self.local.0[i] as i128) + (m.attributes[i] as i128) + (reduce as i128) < 0 {
                return false;
            }
            i = i + 1;
        }
        let mut j: usize = 0;
        while j < 8
            invariant
                j <= 8,
                old(self)@.wf(),
                reduce == reduce_of(*o),
                bonus == bonus_of(*o),
                0 <= bonus <= 63,
                modifier_accepted(old(self)@.local, *m, reduce as int),
                modifier_fits(old(self)@.local, *m, bonus as int),
                self@ == (PlayerDataView { local: self@.local, ..old(self)@ }),
                self@.local.len() == 8,
                forall|k: int|
                    0 <= k < j ==> self@.local[k] == modified_component(
                        old(self)@.local[k],
                        #[trigger] m.attributes[k],
                        reduce as int,
                        bonus as int,
                    ),
                forall|k: int| j <= k < 8 ==> self@.local[k] == old(self)@.local[k],
            decreases 8 - j,
        {
            let b: i64 = m.attributes[j] as i64;
            assert(old(self)@.local[j as int] + m.attributes[j as int] + reduce >= 0);
            assert(modified_component(old(self)@.local[j as int], m.attributes[j as int], 0, bonus as int)
                <= i64::MAX);
            if b < 0 {
                let g: i64 = b + reduce;
                if g < 0 {
                    self.local.0[j] = self.local.0[j] + g;
                }
            } else if b > 0 {
                self.local.0[j] = self.local.0[j] + (b + bonus);
            }
            j = j + 1;
        }
        proof {
            assert(self@.local =~= modified(old(self)@.local, *m, reduce as int, bonus as int));
            lemma_modified_non_negative(old(self)@.local, *m, reduce as int, bonus as int);
        }
        true
    }

    fn speed(o: &Object) -> (s: u64)
        ensures
            s == speed_of(*o),
            s <= 9,
    {
        let s: u64 = floor_log2(o.attributes[1] as u64 + 1) as u64;
        if s > 9 {
            9
        } else {
            s
        }
    }

    fn duration_from(&self, o: &Object, slot: usize, speed: u64) -> (d: usize)
        requires
            self@.wf(),
            slot < 8,
            ring_points_at(self@.cards, o.cards),
            speed == speed_of(*o),
        ensures
            d == self@.scaled_duration(*o, slot as int),
            d <= MAX_DURATION,
    {
        let c: usize = o.cards[slot] as usize;
        let duration: u64 = self.cards[c].duration;
        let tenths: u64 = 10 - speed;
        assert(duration * tenths <= MAX_DURATION * 10) by (nonlinear_arith)
            requires
                duration <= MAX_DURATION,
                tenths <= 10,
        ;
        (duration * tenths / 10) as usize
    }

    /// Whether firing object `object_index` produces only numbers that fit.
    pub fn fire_fits(&self, object_index: usize) -> (b: bool)
        requires
            self@.wf(),
            object_index < self@.objects.len(),
        ensures
            b == self@.fire_fits(object_index as int),
    {
        let object: Object = self.objects[object_index];
        match object.state {
            ObjectState::Running => {},
            _ => {
                return true;
            },
        }
        assert(self@.objects[object_index as int].wf());
        let card: Card = self.cards[object.cards[object.modifier_index as usize] as usize];
        assert(card == self@.current_card(object_index as int));
        let reduce: i128 = object.attributes[2] as i128;
        let bonus: i128 = floor_log2(object.attributes[3] as u64 + 1) as i128;
        let mut i: usize = 0;
        while i < 8
            invariant
                i <= 8,
                self@.local.len() == 8,
                object_index < self@.objects.len(),
                object == self@.objects[object_index as int],
                object.state == ObjectState::Running,
                card == self@.current_card(object_index as int),
                reduce == reduce_of(object),
                forall|k: int|
                    0 <= k < i ==> self@.local[k] + #[trigger] card.attributes[k] + reduce >= 0,
            decreases 8 - i,
        {
            if (self.local.0[i] as i128) + (card.attributes[i] as i128) + reduce < 0 {
                assert(!(self@.local[i as int] + card.attributes[i as int] + reduce_of(object)
                    >= 0));
                assert(!modifier_accepted(self@.local, card, reduce_of(object)));
                return true;
            }
            i = i + 1;
        }
        assert(modifier_accepted(self@.local, card, reduce_of(object)));
        let mut j: usize = 0;
        while j < 8
            invariant
                j <= 8,
                self@.local.len() == 8,
                object_index < self@.objects.len(),
                object == self@.objects[object_index as int],
                object.state == ObjectState::Running,
                card == self@.current_card(object_index as int),
                modifier_accepted(self@.local, card, reduce_of(object)),
                bonus == bonus_of(object),
                0 <= bonus <= 63,
                forall|k: int|
                    0 <= k < j ==> modified_component(
                        self@.local[k],
                        #[trigger] card.attributes[k],
                        0,
                        bonus as int,
                    ) <= i64::MAX,
            decreases 8 - j,
        {
            let b: i128 = card.attributes[j] as i128;
            if b > 0 && (self.local.0[j] as i128) + b + bonus > i64::MAX as i128 {
                assert(modified_component(
                    self@.local[j as int],
                    card.attributes[j as int],
                    0,
                    bonus as int,
                ) > i64::MAX);
                assert(!modifier_fits(self@.local, card, bonus_of(object)));
                return false;
            }
            j = j + 1;
        }
        true
    }

    /// Fires object `object_index` at tick `counter` and returns the delay after which
    /// it is to fire again, or `None` when it does not go on.
    pub fn apply_object_card(&mut self, object_index: usize, counter: u64) -> (r: Option<usize>)
        requires
            old(self)@.wf(),
            object_index < old(self)@.objects.len(),
            old(self)@.fire_fits(object_index as int),
        ensures
            final(self)@ == old(self)@.fired(object_index as int, counter),
            r == old(self)@.fire_delay(object_index as int),
            old(self)@.objects[object_index as int].state == ObjectState::Halted ==> r is None
                && final(self)@ == old(self)@,
            final(self)@.wf(),
    {
        let object: Object = self.objects[object_index];
        let speed: u64 = Self::speed(&object);
        let current_index: usize = object.get_modifier_index() as usize;
        if object.is_halted() {
            None
        } else if object.is_restarting() {
            let duration: usize = self.duration_from(&object, 0, speed);
            self.objects[object_index].start_new_modifier(0, counter);
            Some(duration)
        } else {
            let card: Card = self.cards[object.cards[current_index] as usize];
            let applied: bool = self.apply_modifier(&card, &object);
            if applied {
                let next_index: usize = (current_index + 1) % 8;
                let duration: usize = self.duration_from(&object, next_index, speed);
                self.objects[object_index].start_new_modifier(next_index, counter);
                Some(duration)
            } else {
                self.objects[object_index].halt();
                None
            }
        }
    }

    /// Whether every slot of `ring` points at an unlisted card of this player.
    pub fn ring_ok(&self, ring: &[u8; 8]) -> (b: bool)
        ensures
            b == self@.ring_ok(*ring),
    {
        let mut k: usize = 0;
        while k < 8
            invariant
                k <= 8,
                forall|a: int|
                    0 <= a < k ==> (#[trigger] ring[a] as int) < self@.cards.len()
                        && self@.cards[ring[a] as int].marketid == 0,
            decreases 8 - k,
        {
            let c: usize = ring[k] as usize;
            if c >= self.cards.len() || self.cards[c].marketid != 0 {
                return false;
            }
            k = k + 1;
        }
        true
    }

    /// Gives object `object_index` the ring `data`. A halted object restarts at tick
    /// `counter` and the delay of its first card is returned for scheduling; any other
    /// object keeps its pending firing and starts the new ring over when it fires.
    pub fn restart_object_card(&mut self, object_index: usize, data: [u8; 8], counter: u64) -> (r:
        Option<usize>)
        requires
            old(self)@.wf(),
            object_index < old(self)@.objects.len(),
            old(self)@.ring_ok(data),
        ensures
            final(self)@ == old(self)@.ring_replaced(object_index as int, data, counter),
            r == old(self)@.restart_delay(object_index as int, data),
            r is Some <==> old(self)@.objects[object_index as int].state == ObjectState::Halted,
            final(self)@.wf(),
    {
        let first: usize = data[0] as usize;
        let duration: u64 = self.cards[first].duration;
        let object = &mut self.objects[object_index];
        let halted: bool = object.is_halted();
        if halted {
            object.reset_modifier(data);
            object.restart(counter);
            Some(duration as usize)
        } else {
            object.reset_modifier(data);
            object.reset_halt_bit_to_restart();
            None
        }
    }
}

/// No resource is ever negative after a card: whatever the card and the object, a card
/// that is applied to resources none of which is negative leaves none negative, and a
/// card that is refused leaves them as they were. That the gains fit their fields is
/// needed only for the stored form to be the number itself.
pub proof fn law_modifier_never_negative(d: PlayerDataView, m: Card, o: Object)
    requires
        d.local.len() == LOCAL_ATTRIBUTES_SIZE,
        non_negative(d.local),
    ensures
        d.accepts(m, o) ==> forall|i: int|
            0 <= i < LOCAL_ATTRIBUTES_SIZE ==> modified_component(
                d.local[i],
                #[trigger] m.attributes[i],
                reduce_of(o),
                bonus_of(o),
            ) >= 0,
        d.accepts(m, o) && modifier_fits(d.local, m, bonus_of(o)) ==> non_negative(
            d.modified_by(m, o).local,
        ) && d.modified_by(m, o).local.len() == d.local.len(),
{
    if d.accepts(m, o) {
        assert forall|i: int| 0 <= i < LOCAL_ATTRIBUTES_SIZE implies modified_component(
            d.local[i],
            #[trigger] m.attributes[i],
            reduce_of(o),
            bonus_of(o),
        ) >= 0 by {
            assert(d.local[i] + m.attributes[i] + reduce_of(o) >= 0);
            assert(d.local[i] >= 0);
        }
        if modifier_fits(d.local, m, bonus_of(o)) {
            lemma_modified_non_negative(d.local, m, reduce_of(o), bonus_of(o));
        }
    }
}

} // verus!
