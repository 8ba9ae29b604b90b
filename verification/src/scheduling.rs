//! One pending event for every object that runs, none for one that is halted: what the
//! scheduler and the commands keep true of the queue.

use vstd::prelude::*;
use crate::card::Card;
use crate::card::MarketCard;
use crate::config::INSTALL_OBJECT_COST;
use crate::validity::admitted;
use crate::validity::after;
use crate::validity::law_validity_always;
use crate::validity::Step;
use crate::events::Event;
use crate::inventory::first_stamped;
use crate::inventory::stamped_at;
use crate::object::ObjectState;
use crate::player::PlayerData;
use crate::player::PlayerDataView;
use crate::scheduler::lemma_run;
use crate::state::BidCard;
use crate::state::Command;
use crate::state::Transaction;
use crate::world::lemma_extended;
use crate::world::lemma_index_of;
use crate::world::StateView;
use crate::world::WorldView;

verus! {

/// 1 where `e` is for object `o` of the player `pid`, else 0.
pub open spec fn aims_at(e: Event, pid: [u64; 2], o: int) -> nat {
    if e.owner == pid && e.object_index == o {
        1
    } else {
        0
    }
}

/// Number of events of `list` that are for object `o` of the player `pid`.
pub open spec fn pending(list: Seq<Event>, pid: [u64; 2], o: int) -> nat
    decreases list.len(),
{
    if list.len() == 0 {
        0
    } else {
        pending(list.drop_last(), pid, o) + aims_at(list.last(), pid, o)
    }
}

/// 0 for a halted object, 1 for any other.
pub open spec fn due_events(s: ObjectState) -> nat {
    if s == ObjectState::Halted {
        0
    } else {
        1
    }
}

impl WorldView {
    /// Whether every object that is not halted has exactly one pending event, and every
    /// halted object none.
    pub open spec fn scheduled_once(self) -> bool {
        forall|k: int, o: int|
            0 <= k < self.players.len() && 0 <= o < self.players[k].data.objects.len() ==> pending(
                self.state.queue.list,
                self.players[k].player_id,
                o,
            ) == due_events((#[trigger] self.players[k].data.objects[o]).state)
    }
}

/// Counting after an event was scheduled.
pub proof fn lemma_pending_push(list: Seq<Event>, e: Event, pid: [u64; 2], o: int)
    ensures
        pending(list.push(e), pid, o) == pending(list, pid, o) + aims_at(e, pid, o),
{
    assert(list.push(e).drop_last() =~= list);
}

/// Counting over two lists, one behind the other.
pub proof fn lemma_pending_add(a: Seq<Event>, b: Seq<Event>, pid: [u64; 2], o: int)
    ensures
        pending(a + b, pid, o) == pending(a, pid, o) + pending(b, pid, o),
    decreases b.len(),
{
    if b.len() == 0 {
        assert(a + b =~= a);
    } else {
        lemma_pending_add(a, b.drop_last(), pid, o);
        assert((a + b).drop_last() =~= a + b.drop_last());
    }
}

/// Counting from the front.
pub proof fn lemma_pending_skip(list: Seq<Event>, m: int, pid: [u64; 2], o: int)
    requires
        0 <= m < list.len(),
    ensures
        pending(list.skip(m), pid, o) == aims_at(list[m], pid, o) + pending(
            list.skip(m + 1),
            pid,
            o,
        ),
{
    let head = seq![list[m]];
    assert(list.skip(m) =~= head + list.skip(m + 1));
    lemma_pending_add(head, list.skip(m + 1), pid, o);
    assert(head.drop_last() =~= Seq::<Event>::empty());
    assert(pending(Seq::<Event>::empty(), pid, o) == 0);
    assert(pending(head, pid, o) == aims_at(list[m], pid, o));
}

/// No event is pending for an object that does not exist yet.
pub proof fn lemma_pending_none(w: WorldView, k: int, n: int)
    requires
        w.wf(),
        0 <= k < w.players.len(),
        0 <= n <= w.state.queue.list.len(),
    ensures
        pending(
            w.state.queue.list.take(n),
            w.players[k].player_id,
            w.players[k].data.objects.len() as int,
        ) == 0,
    decreases n,
{
    if n > 0 {
        lemma_pending_none(w, k, n - 1);
        let e = w.state.queue.list[n - 1];
        assert(w.event_ok(e));
        if e.owner == w.players[k].player_id {
            lemma_index_of(w, k);
        }
        assert(w.state.queue.list.take(n).drop_last() =~= w.state.queue.list.take(n - 1));
    }
}

/// Whether `v` has the queue of `w` and every object of `w` in the state it was in.
pub open spec fn states_kept(w: WorldView, v: WorldView) -> bool {
    &&& v.state.queue.list == w.state.queue.list
    &&& w.players.len() <= v.players.len()
    &&& forall|k: int|
        0 <= k < w.players.len() ==> (#[trigger] v.players[k]).player_id == w.players[k].player_id
            && v.players[k].data.objects.len() == w.players[k].data.objects.len()
    &&& forall|k: int|
        w.players.len() <= k < v.players.len() ==> (#[trigger] v.players[k]).data.objects.len() == 0
    &&& forall|k: int, o: int|
        0 <= k < w.players.len() && 0 <= o < w.players[k].data.objects.len() ==> (
        #[trigger] v.players[k].data.objects[o]).state == w.players[k].data.objects[o].state
}

/// Where queue and states are kept, objects are scheduled as they were.
pub proof fn lemma_states_kept(w: WorldView, v: WorldView)
    requires
        w.scheduled_once(),
        states_kept(w, v),
    ensures
        v.scheduled_once(),
{
    assert forall|k: int, o: int|
        0 <= k < v.players.len() && 0 <= o < v.players[k].data.objects.len() implies pending(
        v.state.queue.list,
        v.players[k].player_id,
        o,
    ) == due_events((#[trigger] v.players[k].data.objects[o]).state) by {
        assert(k < w.players.len());
        assert(v.players[k].player_id == w.players[k].player_id);
        assert(w.players[k].data.objects[o].state == v.players[k].data.objects[o].state);
    }
}

/// States kept twice are states kept.
pub proof fn lemma_states_kept_then(a: WorldView, b: WorldView, c: WorldView)
    requires
        states_kept(a, b),
        states_kept(b, c),
    ensures
        states_kept(a, c),
{
    assert forall|k: int| 0 <= k < a.players.len() implies (#[trigger] c.players[k]).player_id
        == a.players[k].player_id && c.players[k].data.objects.len()
        == a.players[k].data.objects.len() by {
        assert(b.players[k].player_id == a.players[k].player_id);
    }
    assert forall|k: int| a.players.len() <= k < c.players.len() implies (
    #[trigger] c.players[k]).data.objects.len() == 0 by {
        if k < b.players.len() {
            assert(b.players[k].data.objects.len() == 0);
            assert(c.players[k].data.objects.len() == b.players[k].data.objects.len());
        }
    }
    assert forall|k: int, o: int|
        0 <= k < a.players.len() && 0 <= o < a.players[k].data.objects.len() implies (
    #[trigger] c.players[k].data.objects[o]).state == a.players[k].data.objects[o].state by {
        assert(b.players[k].data.objects.len() == a.players[k].data.objects.len());
        assert(b.players[k].data.objects[o].state == a.players[k].data.objects[o].state);
    }
}

/// Replacing a player's data by data with the objects in the states they were in keeps
/// the states.
pub proof fn lemma_states_kept_with_data(w: WorldView, i: int, d: PlayerDataView)
    requires
        0 <= i < w.players.len(),
        d.objects.len() == w.players[i].data.objects.len(),
        forall|o: int|
            0 <= o < d.objects.len() ==> (#[trigger] d.objects[o]).state
                == w.players[i].data.objects[o].state,
    ensures
        states_kept(w, w.with_data(i, d)),
{
}

/// Replacing a player's data by data with the same objects keeps the states.
pub proof fn lemma_states_kept_same_objects(w: WorldView, i: int, d: PlayerDataView)
    requires
        0 <= i < w.players.len(),
        d.objects == w.players[i].data.objects,
    ensures
        states_kept(w, w.with_data(i, d)),
{
}

/// A removal leaves every object in its state.
pub proof fn lemma_removed_keeps_states(d: PlayerDataView, c: int)
    requires
        0 <= c < d.cards.len(),
    ensures
        d.removed(c).objects.len() == d.objects.len(),
        forall|o: int|
            0 <= o < d.objects.len() ==> (#[trigger] d.removed(c).objects[o]).state
                == d.objects[o].state,
{
}

/// A credit keeps the states.
pub proof fn lemma_states_kept_credited(w: WorldView, j: int, amount: int)
    requires
        0 <= j < w.players.len(),
    ensures
        states_kept(w, w.credited(j, amount)),
{
    let d = w.players[j].data;
    lemma_states_kept_same_objects(w, j, d.with_balance(d.balance() + amount));
}

/// Taking a stamped card keeps the states.
pub proof fn lemma_states_kept_unstamped(w: WorldView, j: int, id: u64)
    requires
        0 <= j < w.players.len(),
    ensures
        states_kept(w, w.unstamped(j, id)),
{
    let d = w.players[j].data;
    match first_stamped(d.cards, id) {
        Some(c) => {
            assert(stamped_at(d.cards, id, c));
            lemma_removed_keeps_states(d, c);
            lemma_states_kept_with_data(w, j, d.removed(c));
        },
        None => {},
    }
}

/// A bid keeps queue and states.
pub proof fn lemma_bid_keeps_states(c: BidCard, w: WorldView, pid: [u64; 2])
    requires
        w.wf(),
        w.has_player(pid),
        1 <= c.marketindex <= w.market.len(),
    ensures
        states_kept(w, c.applied(w, pid)),
{
    let i = w.index_of(pid);
    let l = c.target(w);
    assert(w.listing_ok(c.marketindex - 1));
    let o = w.index_of(l.owner);
    let w1 = c.refunded(w, pid);
    match l.bid {
        Some(b) => {
            lemma_states_kept_credited(w, w.index_of(b.bidder), b.bidprice as int);
        },
        None => {},
    }
    assert(states_kept(w, w1));
    let w2 = c.placed(w, pid);
    lemma_states_kept_credited(w1, i, -c.charge(w, pid));
    lemma_states_kept_then(w, w1, w2);
    let moved = if c.immediate(l) {
        c.settled(w, pid)
    } else {
        w2
    };
    if c.immediate(l) {
        let w3 = c.handed_over(w, pid);
        lemma_states_kept_same_objects(w2, i, w2.players[i].data.with_card(c.delivered(w)));
        lemma_states_kept_then(w, w2, w3);
        let w4 = w3.credited(o, c.price as int);
        lemma_states_kept_credited(w3, o, c.price as int);
        lemma_states_kept_then(w, w3, w4);
        lemma_states_kept_unstamped(w4, o, l.marketid);
        lemma_states_kept_then(w, w4, moved);
    }
    let w6 = moved.with_listing(c.marketindex - 1, c.updated(w, pid));
    assert(states_kept(moved, w6));
    lemma_states_kept_then(w, moved, w6);
    let w7 = w6.emitted(c.updated(w, pid));
    assert(states_kept(w6, w7));
    lemma_states_kept_then(w, w6, w7);
    assert(states_kept(w7, w7.advanced(i)));
    lemma_states_kept_then(w, w7, w7.advanced(i));
}

/// A run installs and removes no object.
pub proof fn lemma_run_objects(w: WorldView, n: int)
    requires
        w.wf(),
        0 <= n <= w.state.queue.list.len(),
        forall|k: int|
            0 <= k < n && (#[trigger] w.state.queue.list[k]).due() ==> w.run(k).data_of(
                w.state.queue.list[k].owner,
            ).fire_fits(w.state.queue.list[k].object_index as int),
    ensures
        w.run(n).players.len() == w.players.len(),
        forall|k: int|
            0 <= k < w.players.len() ==> (#[trigger] w.run(n).players[k]).data.objects.len()
                == w.players[k].data.objects.len() && w.run(n).players[k].player_id
                == w.players[k].player_id,
    decreases n,
{
    if n > 0 {
        lemma_run_objects(w, n - 1);
        lemma_run(w, n - 1);
        let before = w.run(n - 1);
        let e = w.state.queue.list[n - 1];
        if e.due() {
            assert(w.event_ok(e));
            lemma_extended(w, before);
            let i = before.index_of(e.owner);
            assert forall|k: int| 0 <= k < w.players.len() implies (
            #[trigger] w.run(n).players[k]).data.objects.len() == w.players[k].data.objects.len()
                && w.run(n).players[k].player_id == w.players[k].player_id by {
                assert(before.players[k].data.objects.len() == w.players[k].data.objects.len());
            }
        }
    }
}

/// What a tick has done with the first `m` pending events: every object has as many
/// events kept, spawned and still to come as it has due.
pub open spec fn tick_balance(w: WorldView, m: int) -> bool {
    forall|k: int, o: int|
        0 <= k < w.players.len() && 0 <= o < w.players[k].data.objects.len() ==> pending(
            w.kept(m),
            w.players[k].player_id,
            o,
        ) + pending(w.spawned(m), w.players[k].player_id, o) + pending(
            w.state.queue.list.skip(m),
            w.players[k].player_id,
            o,
        ) == due_events((#[trigger] w.run(m).players[k].data.objects[o]).state)
}

/// A tick keeps the balance event by event.
pub proof fn lemma_tick_balance(w: WorldView, m: int)
    requires
        w.wf(),
        w.scheduled_once(),
        0 <= m <= w.state.queue.list.len(),
        forall|k: int|
            0 <= k < m && (#[trigger] w.state.queue.list[k]).due() ==> w.run(k).data_of(
                w.state.queue.list[k].owner,
            ).fire_fits(w.state.queue.list[k].object_index as int),
    ensures
        tick_balance(w, m),
    decreases m,
{
    let list = w.state.queue.list;
    if m == 0 {
        assert(list.skip(0) =~= list);
        assert forall|k: int, o: int|
            0 <= k < w.players.len() && 0 <= o < w.players[k].data.objects.len() implies pending(
            w.kept(0),
            w.players[k].player_id,
            o,
        ) + pending(w.spawned(0), w.players[k].player_id, o) + pending(
            list.skip(0),
            w.players[k].player_id,
            o,
        ) == due_events((#[trigger] w.run(0).players[k].data.objects[o]).state) by {
            assert(w.players[k].data.objects[o].state == w.run(0).players[k].data.objects[o].state);
        }
    } else {
        lemma_tick_balance(w, m - 1);
        lemma_run(w, m - 1);
        lemma_run(w, m);
        lemma_run_objects(w, m - 1);
        lemma_run_objects(w, m);
        let before = w.run(m - 1);
        let after = w.run(m);
        let e = list[m - 1];
        assert(w.event_ok(e));
        lemma_extended(w, before);
        let k0 = w.index_of(e.owner);
        let o0 = e.object_index as int;
        lemma_index_of(w, k0);
        assert forall|k: int, o: int|
            0 <= k < w.players.len() && 0 <= o < w.players[k].data.objects.len() implies pending(
            w.kept(m),
            w.players[k].player_id,
            o,
        ) + pending(w.spawned(m), w.players[k].player_id, o) + pending(
            list.skip(m),
            w.players[k].player_id,
            o,
        ) == due_events((#[trigger] after.players[k].data.objects[o]).state) by {
            let pid = w.players[k].player_id;
            lemma_pending_skip(list, m - 1, pid, o);
            assert(before.players[k].data.objects.len() == w.players[k].data.objects.len());
            let was = before.players[k].data.objects[o].state;
            assert(pending(w.kept(m - 1), pid, o) + pending(w.spawned(m - 1), pid, o) + pending(
                list.skip(m - 1),
                pid,
                o,
            ) == due_events(was));
            if e.owner == pid {
                lemma_index_of(w, k);
                assert(k == k0);
            }
            if !e.due() {
                lemma_pending_push(w.kept(m - 1), e.aged(), pid, o);
                assert(aims_at(e.aged(), pid, o) == aims_at(e, pid, o));
            } else {
                let d = before.players[k0].data;
                assert(before.index_of(e.owner) == k0);
                match before.respawned(e) {
                    Some(next) => {
                        lemma_pending_push(w.spawned(m - 1), next, pid, o);
                        assert(aims_at(next, pid, o) == aims_at(e, pid, o));
                    },
                    None => {},
                }
                if k == k0 && o == o0 {
                    assert(aims_at(e, pid, o) == 1);
                    assert(was != ObjectState::Halted);
                } else {
                    assert(aims_at(e, pid, o) == 0);
                    assert(after.players[k].data.objects[o].state == was);
                }
            }
        }
    }
}

/// A tick leaves every object scheduled once.
pub proof fn lemma_ticked_scheduled_once(w: WorldView)
    requires
        w.wf(),
        w.scheduled_once(),
        w.tick_fits(),
    ensures
        w.ticked().scheduled_once(),
{
    let n = w.state.queue.list.len() as int;
    lemma_tick_balance(w, n);
    lemma_run(w, n);
    lemma_run_objects(w, n);
    let v = w.ticked();
    assert(w.state.queue.list.skip(n) =~= Seq::<Event>::empty());
    assert forall|k: int, o: int|
        0 <= k < v.players.len() && 0 <= o < v.players[k].data.objects.len() implies pending(
        v.state.queue.list,
        v.players[k].player_id,
        o,
    ) == due_events((#[trigger] v.players[k].data.objects[o]).state) by {
        let pid = w.players[k].player_id;
        lemma_pending_add(w.kept(n), w.spawned(n), pid, o);
        assert(w.run(n).players[k].data.objects[o].state == v.players[k].data.objects[o].state);
        assert(pending(w.kept(n), pid, o) + pending(w.spawned(n), pid, o) + pending(
            w.state.queue.list.skip(n),
            pid,
            o,
        ) == due_events(w.run(n).players[k].data.objects[o].state));
    }
}

/// One event for every object that runs, none for one that is halted: a command that
/// meets a world of which this holds leaves a world of which it holds.
pub proof fn law_scheduled_once_kept(
    t: Transaction,
    w: WorldView,
    pkey: [u64; 4],
    pid: [u64; 2],
    rand: [u64; 4],
)
    requires
        w.wf(),
        w.scheduled_once(),
        t.admits(w, pkey, pid),
    ensures
        t.processed(w, pid, rand).scheduled_once(),
{
    let v = t.processed(w, pid, rand);
    if t.result(w, pid) is Ok {
        let i = w.index_of(pid);
        match t.command {
            Command::Tick => {
                lemma_ticked_scheduled_once(w);
            },
            Command::InstallPlayer => {
                crate::player::PlayerData::lemma_new_view();
                assert(states_kept(w, v));
                lemma_states_kept(w, v);
            },
            Command::CollectEnergy => {
                assert(states_kept(w, v));
                lemma_states_kept(w, v);
            },
            Command::BidCard(c) => {
                lemma_bid_keeps_states(c, w, pid);
                lemma_states_kept(w, v);
            },
            Command::SellCard(c) => {
                let d = w.data_of(pid);
                let l = d.sale(c.card_index as int, w.market)->Ok_0;
                let b = l.bid->0;
                let d0 = d.with_balance(d.balance() + b.bidprice);
                lemma_removed_keeps_states(d0, c.card_index as int);
                let d1 = d.sold(c.card_index as int, b.bidprice);
                lemma_states_kept_with_data(w, i, d1);
                let w1 = w.with_data(i, d1);
                let id = w.players[i].data.cards[c.card_index as int].marketid;
                assert(id <= w.market.len());
                assert(w.listing_ok(id - 1));
                let j = w.index_of(b.bidder);
                let card = Card { marketid: 0, ..l.object };
                let w2 = w1.given_card(j, card);
                lemma_states_kept_same_objects(w1, j, w1.players[j].data.with_card(card));
                lemma_states_kept_then(w, w1, w2);
                let closed = MarketCard { settleinfo: crate::card::SETTLE_DONE, object: card, ..l };
                let w3 = w2.with_listing(l.marketid - 1, closed);
                assert(states_kept(w2, w3));
                lemma_states_kept_then(w, w2, w3);
                let w4 = w3.emitted(closed);
                assert(states_kept(w3, w4));
                lemma_states_kept_then(w, w3, w4);
                assert(states_kept(w4, w4.advanced(i)));
                lemma_states_kept_then(w, w4, w4.advanced(i));
                lemma_states_kept(w, v);
            },
            Command::ListCardInMarket(c) => {
                let l = c.listing(w, pid);
                let w1 = w.listed(l);
                assert(states_kept(w, w1));
                let d = w.data_of(pid).listed(c.card_index as int, w.state.market_id).paid(0);
                lemma_states_kept_same_objects(w1, i, d);
                let w2 = w1.with_data(i, d);
                lemma_states_kept_then(w, w1, w2);
                let w3 = w2.announced(l);
                assert(states_kept(w2, w3));
                lemma_states_kept_then(w, w2, w3);
                assert(states_kept(w3, w3.advanced(i)));
                lemma_states_kept_then(w, w3, w3.advanced(i));
                lemma_states_kept(w, v);
            },
            Command::Deposit(c) => {
                let x = c.with_target(w);
                crate::player::PlayerData::lemma_new_view();
                if !w.has_player(c.target()) {
                    assert(x.players[w.players.len() as int].player_id == c.target());
                }
                assert(states_kept(w, x));
                assert(x.has_player(c.target()));
                let tix = x.index_of(c.target());
                let d = x.players[tix].data;
                let moved = WorldView {
                    state: StateView {
                        bounty_pool: (w.state.bounty_pool + c.amount()) as u64,
                        ..x.state
                    },
                    ..x
                };
                assert(states_kept(x, moved));
                lemma_states_kept_then(w, x, moved);
                let d1 = d.with_balance(d.balance() - c.amount()).stamped(w.counter());
                lemma_states_kept_same_objects(moved, tix, d1);
                let m2 = moved.with_data(tix, d1);
                lemma_states_kept_then(w, moved, m2);
                assert(states_kept(m2, m2.advanced(i)));
                lemma_states_kept_then(w, m2, m2.advanced(i));
                lemma_states_kept(w, v);
            },
            Command::RestartObject(c) => {
                let paid = w.data_of(pid).paid(0);
                let oi = c.object_index as int;
                let d = paid.ring_replaced(oi, c.modifiers, w.counter());
                let w1 = w.with_data(i, d);
                lemma_index_of(w, i);
                let halted = w.players[i].data.objects[oi].state == ObjectState::Halted;
                assert forall|k: int, o: int|
                    0 <= k < v.players.len() && 0 <= o < v.players[k].data.objects.len() implies pending(
                    v.state.queue.list,
                    v.players[k].player_id,
                    o,
                ) == due_events((#[trigger] v.players[k].data.objects[o]).state) by {
                    let was = w.players[k].data.objects[o].state;
                    assert(pending(w.state.queue.list, w.players[k].player_id, o) == due_events(
                        was,
                    ));
                    if w.players[k].player_id == pid {
                        lemma_index_of(w, k);
                    }
                    match paid.restart_delay(oi, c.modifiers) {
                        Some(delay) => {
                            let e = Event { object_index: c.object_index, owner: pid, delta: delay };
                            lemma_pending_push(w.state.queue.list, e, w.players[k].player_id, o);
                        },
                        None => {},
                    }
                }
            },
            Command::InstallObject(c) => {
                let paid = w.data_of(pid).paid(INSTALL_OBJECT_COST);
                let d = paid.with_new_object(c.installed(w.counter()));
                let e = c.first_event(w, pid);
                lemma_index_of(w, i);
                let n = w.state.queue.list.len() as int;
                lemma_pending_none(w, i, n);
                assert(w.state.queue.list.take(n) =~= w.state.queue.list);
                assert forall|k: int, o: int|
                    0 <= k < v.players.len() && 0 <= o < v.players[k].data.objects.len() implies pending(
                    v.state.queue.list,
                    v.players[k].player_id,
                    o,
                ) == due_events((#[trigger] v.players[k].data.objects[o]).state) by {
                    lemma_pending_push(w.state.queue.list, e, w.players[k].player_id, o);
                    if w.players[k].player_id == pid {
                        lemma_index_of(w, k);
                    }
                    if !(k == i && o == w.players[i].data.objects.len()) {
                        let was = w.players[k].data.objects[o].state;
                        assert(pending(w.state.queue.list, w.players[k].player_id, o)
                            == due_events(was));
                    }
                }
            },
            Command::UpgradeObject(c) => {
                let d = w.data_of(pid).paid(0).upgraded(
                    c.object_index as int,
                    c.feature_index as int,
                );
                lemma_states_kept_with_data(w, i, d);
                assert(states_kept(w.with_data(i, d), v));
                lemma_states_kept_then(w, w.with_data(i, d), v);
                lemma_states_kept(w, v);
            },
            Command::Withdraw(c) => {
                assert(states_kept(w, v));
                lemma_states_kept(w, v);
            },
            Command::InstallCard(c) => {
                assert(states_kept(w, v));
                lemma_states_kept(w, v);
            },
            Command::Bounty(c) => {
                assert(states_kept(w, v));
                lemma_states_kept(w, v);
            },
        }
    }
}

/// At most one pending event for every object: in a world in which every object is
/// scheduled once, no object has two events pending.
pub proof fn law_at_most_one_event(w: WorldView, k: int, o: int)
    requires
        w.scheduled_once(),
        0 <= k < w.players.len(),
        0 <= o < w.players[k].data.objects.len(),
    ensures
        pending(w.state.queue.list, w.players[k].player_id, o) <= 1,
        w.players[k].data.objects[o].state == ObjectState::Halted ==> pending(
            w.state.queue.list,
            w.players[k].player_id,
            o,
        ) == 0,
{
    assert(pending(w.state.queue.list, w.players[k].player_id, o) == due_events(
        w.players[k].data.objects[o].state,
    ));
}

/// One event for every running object over time: after any sequence of commands that
/// a valid world in which every object was scheduled once admitted one after the
/// other, every object is scheduled once.
pub proof fn law_scheduled_once_always(w: WorldView, log: Seq<Step>)
    requires
        w.wf(),
        w.scheduled_once(),
        admitted(w, log),
    ensures
        after(w, log).scheduled_once(),
    decreases log.len(),
{
    if log.len() > 0 {
        law_scheduled_once_always(w, log.drop_last());
        law_validity_always(w, log.drop_last());
        let s = log.last();
        law_scheduled_once_kept(s.t, after(w, log.drop_last()), s.pkey, s.pid, s.rand);
    }
}

} // verus!
