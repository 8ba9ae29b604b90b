//! The tick: the clock moves on by one and every event that is due fires.

use vstd::prelude::*;
use vstd::arithmetic::power2::lemma2_to64;
use crate::events::Event;
use crate::events::QueueView;
use crate::math::lemma_log2_below;
use crate::object::ObjectState;
use crate::automaton::bonus_of;
use crate::player::PlayerDataView;
use crate::steps::lemma_wf_with_data;
use crate::world::lemma_extended;
use crate::world::StateView;
use crate::world::World;
use crate::world::WorldView;

verus! {

impl WorldView {
    /// The world after the object that `e` names fired.
    pub open spec fn fired(self, e: Event) -> Self {
        let i = self.index_of(e.owner);
        self.with_data(i, self.players[i].data.fired(e.object_index as int, self.counter()))
    }

    /// The event that follows `e` when its object, fired now, goes on: the delay of the
    /// next card, less the tick that is passing.
    pub open spec fn respawned(self, e: Event) -> Option<Event> {
        match self.data_of(e.owner).fire_delay(e.object_index as int) {
            Some(delay) => Some((Event { delta: delay, ..e }).aged()),
            None => None,
        }
    }

    /// The world after those of the first `n` pending events that are due fired, in order.
    pub open spec fn run(self, n: int) -> Self
        decreases n,
    {
        if n <= 0 {
            self
        } else {
            let before = self.run(n - 1);
            let e = self.state.queue.list[n - 1];
            if e.due() {
                before.fired(e)
            } else {
                before
            }
        }
    }

    /// Those of the first `n` pending events that are not due, one tick later.
    pub open spec fn kept(self, n: int) -> Seq<Event>
        decreases n,
    {
        if n <= 0 {
            Seq::empty()
        } else {
            let e = self.state.queue.list[n - 1];
            if e.due() {
                self.kept(n - 1)
            } else {
                self.kept(n - 1).push(e.aged())
            }
        }
    }

    /// The events that follow those of the first `n` pending events that are due.
    pub open spec fn spawned(self, n: int) -> Seq<Event>
        decreases n,
    {
        if n <= 0 {
            Seq::empty()
        } else {
            let e = self.state.queue.list[n - 1];
            let earlier = self.spawned(n - 1);
            if e.due() {
                match self.run(n - 1).respawned(e) {
                    Some(next) => earlier.push(next),
                    None => earlier,
                }
            } else {
                earlier
            }
        }
    }

    /// The world after a tick: every due event fired once, in the order of scheduling;
    /// the events that were not due are one tick nearer; the events that follow the
    /// fired ones stand behind them; the clock shows the next tick.
    pub open spec fn ticked(self) -> Self {
        let n = self.state.queue.list.len() as int;
        WorldView {
            players: self.run(n).players,
            state: StateView {
                queue: QueueView {
                    counter: (self.counter() + 1) as u64,
                    list: self.kept(n) + self.spawned(n),
                },
                ..self.state
            },
            ..self
        }
    }

    /// Whether a tick produces only numbers that fit: the next tick fits 32 bits, and no
    /// firing overflows a resource.
    pub open spec fn tick_fits(self) -> bool {
        &&& self.counter() < u32::MAX
        &&& forall|n: int|
            0 <= n < self.state.queue.list.len() && (#[trigger] self.state.queue.list[n]).due()
                ==> self.run(n).data_of(self.state.queue.list[n].owner).fire_fits(
                self.state.queue.list[n].object_index as int,
            )
    }
}

/// Firing an event that names an existing object keeps a valid world valid, and leaves
/// everything but the owner's data as it was.
pub proof fn lemma_fired_wf(w: WorldView, e: Event)
    requires
        w.wf(),
        w.event_ok(e),
        w.data_of(e.owner).fire_fits(e.object_index as int),
    ensures
        w.fired(e).wf(),
        w.extended_by(w.fired(e)),
        w.fired(e).state == w.state,
        w.fired(e).market == w.market,
        w.fired(e).events == w.events,
        w.fired(e).withdrawals == w.withdrawals,
        w.fired(e).admin == w.admin,
        w.fired(e).players.len() == w.players.len(),
{
    let i = w.index_of(e.owner);
    let d = w.players[i].data;
    let d1 = d.fired(e.object_index as int, w.counter());
    assert(d.wf());
    lemma_fired_data_wf(d, e.object_index as int, w.counter());
    assert forall|c: int| 0 <= c < d1.cards.len() implies (#[trigger] d1.cards[c]).marketid
        <= w.market.len() by {
        assert(w.players[i].data.cards[c].marketid <= w.market.len());
    }
    lemma_wf_with_data(w, i, d1);
}

/// A firing keeps a valid player valid, with the same cards and as many objects.
pub proof fn lemma_fired_data_wf(d: PlayerDataView, i: int, counter: u64)
    requires
        d.wf(),
        0 <= i < d.objects.len(),
        d.fire_fits(i),
    ensures
        d.fired(i, counter).wf(),
        d.fired(i, counter).cards == d.cards,
        d.fired(i, counter).objects.len() == d.objects.len(),
{
    let o = d.objects[i];
    let q = d.fired(i, counter);
    assert(o.wf());
    assert forall|k: int| 0 <= k < q.objects.len() implies (#[trigger] q.objects[k]).wf()
        && crate::player::ring_points_at(q.cards, q.objects[k].cards) by {
        assert(d.objects[k].wf());
    }
    if o.state == ObjectState::Running && d.accepts(d.current_card(i), o) {
        lemma2_to64();
        lemma_log2_below((o.attributes[3] + 1) as nat, 9);
        crate::automaton::lemma_modified_non_negative(
            d.local,
            d.current_card(i),
            crate::automaton::reduce_of(o),
            bonus_of(o),
        );
    }
}

/// What a run leaves alone, and that it keeps a valid world valid.
pub proof fn lemma_run(w: WorldView, n: int)
    requires
        w.wf(),
        0 <= n <= w.state.queue.list.len(),
        forall|k: int|
            0 <= k < n && (#[trigger] w.state.queue.list[k]).due() ==> w.run(k).data_of(
                w.state.queue.list[k].owner,
            ).fire_fits(w.state.queue.list[k].object_index as int),
    ensures
        w.run(n).wf(),
        w.extended_by(w.run(n)),
        w.run(n).state == w.state,
        w.run(n).market == w.market,
        w.run(n).events == w.events,
        w.run(n).withdrawals == w.withdrawals,
        w.run(n).admin == w.admin,
        w.run(n).players.len() == w.players.len(),
    decreases n,
{
    if n > 0 {
        lemma_run(w, n - 1);
        let before = w.run(n - 1);
        let e = w.state.queue.list[n - 1];
        if e.due() {
            assert(w.event_ok(e));
            lemma_extended(w, before);
            lemma_fired_wf(before, e);
        }
    }
}

impl World {
    /// Whether a tick produces only numbers that fit.
    pub fn can_tick(&self) -> (b: bool)
        requires
            self@.wf(),
        ensures
            b == self@.tick_fits(),
    {
        if self.state.queue.counter >= 0xffff_ffff {
            return false;
        }
        let mut trial: World = self.duplicate();
        trial.try_tick()
    }

    /// Ticks if the tick fits, and says whether it did. A tick that does not fit is
    /// broken off at the first firing that does not; the events before it have fired
    /// then, and the clock and the queue are as they were.
    fn try_tick(&mut self) -> (done: bool)
        requires
            old(self)@.wf(),
            old(self)@.counter() < u32::MAX,
        ensures
            done == old(self)@.tick_fits(),
            done ==> final(self)@ == old(self)@.ticked(),
            final(self)@.wf(),
    {
        let ghost w = old(self)@;
        let counter: u64 = self.state.queue.counter;
        let n: usize = self.state.queue.list.len();
        let mut kept: Vec<Event> = Vec::new();
        let mut spawned: Vec<Event> = Vec::new();
        let mut k: usize = 0;
        while k < n
            invariant
                k <= n,
                n == w.state.queue.list.len(),
                counter == w.counter(),
                w == old(self)@,
                w.wf(),
                forall|a: int|
                    0 <= a < k && (#[trigger] w.state.queue.list[a]).due() ==> w.run(a).data_of(
                        w.state.queue.list[a].owner,
                    ).fire_fits(w.state.queue.list[a].object_index as int),
                self@ == w.run(k as int),
                kept@ == w.kept(k as int),
                spawned@ == w.spawned(k as int),
            decreases n - k,
        {
            proof {
                lemma_run(w, k as int);
            }
            let e: Event = self.state.queue.list[k];
            assert(e == w.state.queue.list[k as int]);
            assert(w.event_ok(e));
            if e.delta == 0 {
                proof {
                    lemma_extended(w, self@);
                }
                let i: usize = self.place_of(&e.owner);
                assert(self@.players[i as int].data.wf());
                if !self.players[i].data.fire_fits(e.object_index) {
                    proof {
                        assert(self@.data_of(e.owner) == self@.players[i as int].data);
                        assert(w.state.queue.list[k as int].due());
                        assert(!w.run(k as int).data_of(w.state.queue.list[k as int].owner).fire_fits(
                            w.state.queue.list[k as int].object_index as int,
                        ));
                        assert(!w.tick_fits());
                    }
                    return false;
                }
                proof {
                    lemma_fired_wf(self@, e);
                }
                let next: Option<usize> = self.players[i].data.apply_object_card(
                    e.object_index,
                    counter,
                );
                assert(self@ =~= w.run(k as int).fired(e));
                match next {
                    Some(delay) => {
                        let delta: usize = if delay == 0 {
                            0
                        } else {
                            delay - 1
                        };
                        spawned.push(Event { delta, ..e });
                    },
                    None => {},
                }
            } else {
                kept.push(Event { delta: e.delta - 1, ..e });
            }
            k = k + 1;
        }
        proof {
            lemma_run(w, n as int);
        }
        kept.append(&mut spawned);
        self.state.queue.list = kept;
        self.state.queue.counter = counter + 1;
        proof {
            assert(self@ =~= w.ticked());
            crate::validity::lemma_ticked_wf(w);
        }
        true
    }

    /// Moves the clock on by one tick and fires every event that is due.
    pub fn tick(&mut self)
        requires
            old(self)@.wf(),
            old(self)@.tick_fits(),
        ensures
            final(self)@ == old(self)@.ticked(),
            final(self)@.wf(),
    {
        let done: bool = self.try_tick();
    }
}

} // verus!
