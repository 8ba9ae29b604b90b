//! Valid worlds stay valid: every command that is admitted to a valid world leaves a
//! valid world.

use vstd::prelude::*;
use crate::card::Card;
use crate::card::MarketCard;
use crate::card::MAX_DURATION;
use crate::config::INSTALL_OBJECT_COST;
use crate::config::INTEREST_BOUNTY_INDEX;
use crate::events::Event;
use crate::inventory::first_stamped;
use crate::inventory::lemma_listed_card_unused;
use crate::inventory::lemma_listed_wf;
use crate::player::lemma_pushed_object_wf;
use crate::inventory::lemma_pushed_wf;
use crate::inventory::lemma_removed_cards;
use crate::inventory::lemma_removed_wf;
use crate::player::non_negative;
use crate::player::ring_points_at;
use crate::inventory::stamped_at;
use crate::player::PlayerData;
use crate::player::PlayerDataView;
use crate::scheduler::lemma_run;
use crate::state::BidCard;
use crate::state::Command;
use crate::state::Deposit;
use crate::state::ListCardInMarket;
use crate::state::SellCard;
use crate::state::Transaction;
use crate::steps::lemma_wf_advanced;
use crate::steps::lemma_wf_frame;
use crate::steps::lemma_wf_joined;
use crate::steps::lemma_wf_listed;
use crate::steps::lemma_wf_scheduled;
use crate::steps::lemma_wf_step;
use crate::steps::lemma_wf_with_data;
use crate::steps::lemma_wf_with_listing;
use crate::world::lemma_extended;
use crate::world::lemma_index_of;
use crate::world::lemma_resources_non_negative;
use crate::world::PlayerView;
use crate::world::StateView;
use crate::world::WorldView;

verus! {

/// Whether `e` is as valid as `d` as far as resources go, and has the objects and
/// cards of `d`.
pub open spec fn same_holdings(d: PlayerDataView, e: PlayerDataView) -> bool {
    e.objects == d.objects && e.cards == d.cards
}

/// Data that differ from valid data only in resources that are not negative, and in
/// level, energy, stamps and the like, are valid.
pub proof fn lemma_wf_same_holdings(d: PlayerDataView, e: PlayerDataView)
    requires
        d.wf(),
        same_holdings(d, e),
        e.local.len() == d.local.len(),
        non_negative(e.local),
        e.cost_info >= 1,
    ensures
        e.wf(),
{
}

/// Setting the balance to a value that is not negative keeps a player valid.
pub proof fn lemma_with_balance_wf(d: PlayerDataView, b: int)
    requires
        d.wf(),
        0 <= b <= i64::MAX,
    ensures
        d.with_balance(b).wf(),
        same_holdings(d, d.with_balance(b)),
        d.with_balance(b).balance() == b,
{
    let e = d.with_balance(b);
    assert forall|i: int| 0 <= i < e.local.len() implies e.local[i] >= 0 by {
        if i != d.local.len() - 1 {
            assert(d.local[i] >= 0);
        }
    }
    lemma_wf_same_holdings(d, e);
}

/// A payment keeps a player valid.
pub proof fn lemma_paid_wf(d: PlayerDataView, base: u64)
    requires
        d.wf(),
        d.can_pay(base),
    ensures
        d.paid(base).wf(),
        same_holdings(d, d.paid(base)),
{
    assert(d.local[d.local.len() - 1] >= 0);
    lemma_with_balance_wf(d, d.balance() - (d.current_cost + base));
    let e = d.paid(base);
    lemma_wf_same_holdings(d.with_balance(d.balance() - (d.current_cost + base)), e);
}

/// An upgrade keeps a player valid.
pub proof fn lemma_upgraded_wf(d: PlayerDataView, o: int, f: int)
    requires
        d.wf(),
        0 <= o < d.objects.len(),
    ensures
        d.upgraded(o, f).wf(),
        d.upgraded(o, f).cards == d.cards,
        d.upgraded(o, f).objects.len() == d.objects.len(),
{
    let e = d.upgraded(o, f);
    assert forall|k: int| 0 <= k < e.objects.len() implies (#[trigger] e.objects[k]).wf()
        && ring_points_at(e.cards, e.objects[k].cards) by {
        assert(d.objects[k].wf());
    }
}

/// A new ring that points at unlisted cards keeps a player valid.
pub proof fn lemma_ring_replaced_wf(d: PlayerDataView, o: int, ring: [u8; 8], counter: u64)
    requires
        d.wf(),
        0 <= o < d.objects.len(),
        d.ring_ok(ring),
    ensures
        d.ring_replaced(o, ring, counter).wf(),
        d.ring_replaced(o, ring, counter).cards == d.cards,
        d.ring_replaced(o, ring, counter).objects.len() == d.objects.len(),
{
    let e = d.ring_replaced(o, ring, counter);
    assert(d.objects[o].wf());
    assert forall|k: int| 0 <= k < e.objects.len() implies (#[trigger] e.objects[k]).wf()
        && ring_points_at(e.cards, e.objects[k].cards) by {
        assert(d.objects[k].wf());
    }
}

/// Redeeming a bounty keeps a player valid.
pub proof fn lemma_redeemed_wf(d: PlayerDataView, i: int)
    requires
        d.wf(),
        0 <= i < 7,
        d.bounty_open(i),
        d.bounty_fits(i),
    ensures
        d.redeemed(i).wf(),
        same_holdings(d, d.redeemed(i)),
{
    let spent = PlayerDataView {
        local: d.local.update(i, (d.local[i] - crate::config::bounty_cost(d.redeem_info[i])) as i64),
        redeem_info: crate::player::bumped(d.redeem_info, i),
        ..d
    };
    assert forall|c: int| 0 <= c < spent.local.len() implies spent.local[c] >= 0 by {
        assert(d.local[c] >= 0);
    }
    lemma_wf_same_holdings(d, spent);
    assert(spent.balance() == d.balance());
    lemma_with_balance_wf(
        spent,
        spent.balance() + crate::config::bounty_reward(d.redeem_info[i]),
    );
    lemma_wf_same_holdings(
        spent.with_balance(spent.balance() + crate::config::bounty_reward(d.redeem_info[i])),
        d.redeemed(i),
    );
}

/// Collecting interest keeps a player valid.
pub proof fn lemma_interest_collected_wf(d: PlayerDataView, counter: u64)
    requires
        d.wf(),
        0 <= d.balance_after_interest(counter) <= i64::MAX,
    ensures
        d.interest_collected(counter).wf(),
        same_holdings(d, d.interest_collected(counter)),
{
    lemma_with_balance_wf(d, d.balance_after_interest(counter));
    lemma_wf_same_holdings(
        d.with_balance(d.balance_after_interest(counter)),
        d.interest_collected(counter),
    );
}

/// Collecting energy keeps a player valid.
pub proof fn lemma_energy_collected_wf(d: PlayerDataView, counter: u64)
    requires
        d.wf(),
        d.balance() >= crate::config::ENERGY_FEE,
    ensures
        d.energy_collected(counter).wf(),
        same_holdings(d, d.energy_collected(counter)),
{
    lemma_with_balance_wf(d, d.balance() - crate::config::ENERGY_FEE);
    lemma_wf_same_holdings(
        d.with_balance(d.balance() - crate::config::ENERGY_FEE),
        d.energy_collected(counter),
    );
}

/// Replacing valid data by valid data with the same cards and no fewer objects keeps
/// a valid world valid.
pub proof fn lemma_wf_same_cards(w: WorldView, i: int, d: PlayerDataView)
    requires
        w.wf(),
        0 <= i < w.players.len(),
        d.wf(),
        d.cards == w.players[i].data.cards,
        d.objects.len() >= w.players[i].data.objects.len(),
    ensures
        w.with_data(i, d).wf(),
{
    assert forall|j: int| 0 <= j < d.cards.len() implies (#[trigger] d.cards[j]).marketid
        <= w.market.len() by {
        assert(w.players[i].data.cards[j].marketid <= w.market.len());
    }
    lemma_wf_with_data(w, i, d);
}

/// A credit that fits keeps a valid world valid.
pub proof fn lemma_wf_credited(w: WorldView, j: int, amount: int)
    requires
        w.wf(),
        0 <= j < w.players.len(),
        0 <= w.players[j].data.balance() + amount <= i64::MAX,
    ensures
        w.credited(j, amount).wf(),
        w.extended_by(w.credited(j, amount)),
        w.credited(j, amount).market == w.market,
        w.credited(j, amount).state == w.state,
{
    let d = w.players[j].data;
    assert(d.wf());
    lemma_with_balance_wf(d, d.balance() + amount);
    lemma_wf_same_cards(w, j, d.with_balance(d.balance() + amount));
}

/// Handing an unlisted card of a valid duration to a player keeps a valid world valid.
pub proof fn lemma_wf_given(w: WorldView, j: int, c: Card)
    requires
        w.wf(),
        0 <= j < w.players.len(),
        c.marketid == 0,
        c.duration <= MAX_DURATION,
    ensures
        w.given_card(j, c).wf(),
        w.extended_by(w.given_card(j, c)),
        w.given_card(j, c).market == w.market,
        w.given_card(j, c).state == w.state,
{
    let d = w.players[j].data;
    assert(d.wf());
    lemma_pushed_wf(d, c);
    let d1 = d.with_card(c);
    assert forall|k: int| 0 <= k < d1.cards.len() implies (#[trigger] d1.cards[k]).marketid
        <= w.market.len() by {
        if k < d.cards.len() {
            assert(w.players[j].data.cards[k].marketid <= w.market.len());
        }
    }
    lemma_wf_with_data(w, j, d1);
}

/// Taking the card with a stamp from a player keeps a valid world valid.
pub proof fn lemma_wf_unstamped(w: WorldView, j: int, id: u64)
    requires
        w.wf(),
        0 <= j < w.players.len(),
        id != 0,
    ensures
        w.unstamped(j, id).wf(),
        w.extended_by(w.unstamped(j, id)),
        w.unstamped(j, id).market == w.market,
        w.unstamped(j, id).state == w.state,
{
    let d = w.players[j].data;
    assert(d.wf());
    match first_stamped(d.cards, id) {
        Some(c) => {
            assert(stamped_at(d.cards, id, c));
            lemma_listed_card_unused(d, c);
            lemma_removed_wf(d, c);
            lemma_removed_cards(d, c);
            let d1 = d.removed(c);
            assert forall|k: int| 0 <= k < d1.cards.len() implies (
            #[trigger] d1.cards[k]).marketid <= w.market.len() by {
                let from = if k == c {
                    d.cards.len() - 1
                } else {
                    k
                };
                assert(w.players[j].data.cards[from].marketid <= w.market.len());
            }
            lemma_wf_with_data(w, j, d1);
        },
        None => {
            lemma_wf_frame(w, w);
        },
    }
}

/// A sale leaves a valid world valid.
pub proof fn lemma_sale_wf(c: SellCard, w: WorldView, pid: [u64; 2])
    requires
        w.wf(),
        w.has_player(pid),
        gate_open(w, pid),
        c.admits(w, pid, w.player_of(pid).nonce),
        c.result(w, pid) is Ok,
    ensures
        c.applied(w, pid).wf(),
{
    let i = w.index_of(pid);
    let d = w.data_of(pid);
    assert(d.wf());
    let l = d.sale(c.card_index as int, w.market)->Ok_0;
    let b = l.bid->0;
    let id = w.players[i].data.cards[c.card_index as int].marketid;
    assert(id <= w.market.len());
    assert(w.listing_ok(id - 1));
    lemma_with_balance_wf(d, d.balance() + b.bidprice);
    let d0 = d.with_balance(d.balance() + b.bidprice);
    lemma_listed_card_unused(d0, c.card_index as int);
    lemma_removed_wf(d0, c.card_index as int);
    lemma_removed_cards(d0, c.card_index as int);
    let d1 = d.sold(c.card_index as int, b.bidprice);
    assert forall|k: int| 0 <= k < d1.cards.len() implies (#[trigger] d1.cards[k]).marketid
        <= w.market.len() by {
        let from = if k == c.card_index {
            d0.cards.len() - 1
        } else {
            k
        };
        assert(w.players[i].data.cards[from].marketid <= w.market.len());
    }
    lemma_wf_with_data(w, i, d1);
    let w1 = w.with_data(i, d1);
    lemma_extended(w, w1);
    let j = w.index_of(b.bidder);
    let card = Card { marketid: 0, ..l.object };
    lemma_wf_given(w1, j, card);
    let w2 = w1.given_card(j, card);
    lemma_extended(w1, w2);
    let closed = MarketCard { settleinfo: crate::card::SETTLE_DONE, object: card, ..l };
    lemma_wf_with_listing(w2, id - 1, closed);
    let w3 = w2.with_listing(id - 1, closed);
    let w4 = w3.emitted(closed);
    lemma_wf_frame(w3, w4);
    lemma_wf_advanced(w4, i);
}

/// Whether the player `pid` can count its nonce up.
pub open spec fn gate_open(w: WorldView, pid: [u64; 2]) -> bool {
    w.player_of(pid).nonce < u64::MAX
}

/// A listing leaves a valid world valid.
pub proof fn lemma_listing_wf(c: ListCardInMarket, w: WorldView, pid: [u64; 2])
    requires
        w.wf(),
        w.has_player(pid),
        c.admits(w, pid, w.player_of(pid).nonce),
        c.result(w, pid) is Ok,
    ensures
        c.applied(w, pid).wf(),
{
    let i = w.index_of(pid);
    let l = c.listing(w, pid);
    let id = w.state.market_id;
    let d0 = w.data_of(pid);
    assert(d0.wf());
    assert(d0.cards[c.card_index as int].duration <= MAX_DURATION);
    lemma_wf_listed(w, l);
    let w1 = w.listed(l);
    lemma_listed_wf(d0, c.card_index as int, id);
    let dl = d0.listed(c.card_index as int, id);
    lemma_paid_wf(dl, 0);
    let d = dl.paid(0);
    assert forall|k: int| 0 <= k < d.cards.len() implies (#[trigger] d.cards[k]).marketid
        <= w1.market.len() by {
        if k != c.card_index {
            assert(w.players[i].data.cards[k].marketid <= w.market.len());
        }
    }
    lemma_wf_with_data(w1, i, d);
    let w2 = w1.with_data(i, d);
    let w3 = w2.announced(l);
    lemma_wf_frame(w2, w3);
    lemma_wf_advanced(w3, i);
}

/// A bid leaves a valid world valid.
pub proof fn lemma_bid_wf(c: BidCard, w: WorldView, pid: [u64; 2])
    requires
        w.wf(),
        w.has_player(pid),
        c.admits(w, pid, w.player_of(pid).nonce),
        c.result(w, pid) is Ok,
    ensures
        c.applied(w, pid).wf(),
{
    let i = w.index_of(pid);
    let l = c.target(w);
    let m = c.marketindex - 1;
    assert(w.listing_ok(m));
    let o = w.index_of(l.owner);
    assert(w.players[i].data.wf());
    let w1 = c.refunded(w, pid);
    lemma_wf_frame(w, w);
    match l.bid {
        Some(b) => {
            if b.bidder != pid {
                let pb = w.index_of(b.bidder);
                assert(w.players[pb].data.wf());
                assert(w.players[pb].data.balance() >= 0);
                lemma_wf_credited(w, pb, b.bidprice as int);
                crate::market::lemma_credited(w, pb, b.bidprice as int);
                assert(pb != i);
            }
        },
        None => {},
    }
    assert(w1.players[i].data.wf());
    assert(w1.players[i].data.balance() == w.players[i].data.balance());
    lemma_wf_credited(w1, i, -c.charge(w, pid));
    let w2 = c.placed(w, pid);
    lemma_extended(w, w1);
    lemma_extended(w1, w2);
    let moved = if c.immediate(l) {
        c.settled(w, pid)
    } else {
        w2
    };
    if c.immediate(l) {
        lemma_wf_given(w2, i, c.delivered(w));
        let w3 = c.handed_over(w, pid);
        assert(w3.players[o].data.wf());
        assert(w3.players[o].data.balance() >= 0);
        lemma_wf_credited(w3, o, c.price as int);
        let w4 = w3.credited(o, c.price as int);
        lemma_wf_unstamped(w4, o, l.marketid);
        lemma_extended(w2, w3);
        lemma_extended(w3, w4);
        lemma_extended(w4, moved);
    }
    let updated = c.updated(w, pid);
    lemma_wf_with_listing(moved, m, updated);
    let w6 = moved.with_listing(m, updated);
    let w7 = w6.emitted(updated);
    lemma_wf_frame(w6, w7);
    lemma_extended(w, w7);
    lemma_wf_advanced(w7, i);
}

/// A deposit leaves a valid world valid.
pub proof fn lemma_deposit_wf(c: Deposit, w: WorldView, pid: [u64; 2])
    requires
        w.wf(),
        c.admits(w, pid, w.player_of(pid).nonce),
        c.result(w, pid) is Ok,
    ensures
        c.applied(w, pid).wf(),
{
    let a = w.index_of(pid);
    let x = c.with_target(w);
    if !w.has_player(c.target()) {
        PlayerData::lemma_new_view();
        let p = PlayerView { player_id: c.target(), nonce: 0, data: PlayerData::new_view() };
        lemma_new_player_wf();
        lemma_wf_joined(w, p);
    } else {
        lemma_wf_frame(w, w);
    }
    assert(x.wf());
    lemma_extended(w, x);
    let t = x.index_of(c.target());
    let d = x.players[t].data;
    assert(d.wf());
    let moved = WorldView {
        state: StateView { bounty_pool: (w.state.bounty_pool + c.amount()) as u64, ..x.state },
        ..x
    };
    lemma_wf_frame(x, moved);
    lemma_with_balance_wf(d, d.balance() - c.amount());
    let d1 = d.with_balance(d.balance() - c.amount()).stamped(w.counter());
    lemma_wf_same_holdings(d.with_balance(d.balance() - c.amount()), d1);
    lemma_wf_same_cards(moved, t, d1);
    let m2 = moved.with_data(t, d1);
    lemma_wf_advanced(m2, a);
}

/// The new player is valid.
pub proof fn lemma_new_player_wf()
    ensures
        PlayerData::new_view().wf(),
{
    PlayerData::lemma_new_view();
}

/// The events that a tick keeps name existing objects.
pub proof fn lemma_kept_ok(w: WorldView, n: int)
    requires
        w.wf(),
        0 <= n <= w.state.queue.list.len(),
    ensures
        forall|j: int| 0 <= j < w.kept(n).len() ==> w.event_ok(#[trigger] w.kept(n)[j]),
    decreases n,
{
    if n > 0 {
        lemma_kept_ok(w, n - 1);
        let e = w.state.queue.list[n - 1];
        assert(w.event_ok(e));
        assert(w.event_ok(e.aged()));
        assert forall|j: int| 0 <= j < w.kept(n).len() implies w.event_ok(
            #[trigger] w.kept(n)[j],
        ) by {
            if j < w.kept(n - 1).len() {
                assert(w.event_ok(w.kept(n - 1)[j]));
            }
        }
    }
}

/// The events that follow the fired ones name existing objects.
pub proof fn lemma_spawned_ok(w: WorldView, n: int)
    requires
        w.wf(),
        0 <= n <= w.state.queue.list.len(),
    ensures
        forall|j: int| 0 <= j < w.spawned(n).len() ==> w.event_ok(#[trigger] w.spawned(n)[j]),
    decreases n,
{
    if n > 0 {
        lemma_spawned_ok(w, n - 1);
        let e = w.state.queue.list[n - 1];
        assert(w.event_ok(e));
        assert forall|j: int| 0 <= j < w.spawned(n).len() implies w.event_ok(
            #[trigger] w.spawned(n)[j],
        ) by {
            if j < w.spawned(n - 1).len() {
                assert(w.event_ok(w.spawned(n - 1)[j]));
            } else {
                let next = w.run(n - 1).respawned(e)->0;
                assert(next.owner == e.owner && next.object_index == e.object_index);
            }
        }
    }
}

/// A tick leaves a valid world valid.
pub proof fn lemma_ticked_wf(w: WorldView)
    requires
        w.wf(),
        w.tick_fits(),
    ensures
        w.ticked().wf(),
{
    let n = w.state.queue.list.len() as int;
    lemma_run(w, n);
    lemma_kept_ok(w, n);
    lemma_spawned_ok(w, n);
    let r = w.run(n);
    let v = w.ticked();
    lemma_extended(w, r);
    lemma_extended(r, v);
    assert forall|j: int| 0 <= j < v.state.queue.list.len() implies v.event_ok(
        #[trigger] v.state.queue.list[j],
    ) by {
        let x = v.state.queue.list[j];
        if j < w.kept(n).len() {
            assert(w.event_ok(w.kept(n)[j]));
        } else {
            assert(w.event_ok(w.spawned(n)[j - w.kept(n).len()]));
        }
        assert(w.event_ok(x));
    }
    assert forall|a: int| 0 <= a < v.players.len() implies (#[trigger] v.players[a]).data.wf() by {
        assert(r.players[a].data.wf());
    }
    assert forall|a: int, c: int|
        0 <= a < v.players.len() && 0 <= c < v.players[a].data.cards.len() implies (
    #[trigger] v.players[a].data.cards[c]).marketid <= v.market.len() by {
        assert(r.players[a].data.cards[c].marketid <= r.market.len());
    }
    lemma_wf_step(r, v);
}

/// Valid worlds stay valid: a command that is admitted to a valid world leaves a valid
/// world, whether it succeeds or fails.
pub proof fn law_validity_kept(
    t: Transaction,
    w: WorldView,
    pkey: [u64; 4],
    pid: [u64; 2],
    rand: [u64; 4],
)
    requires
        w.wf(),
        t.admits(w, pkey, pid),
    ensures
        t.processed(w, pid, rand).wf(),
{
    let v = t.processed(w, pid, rand);
    if t.result(w, pid) is Ok {
        let i = w.index_of(pid);
        if w.has_player(pid) {
            assert(w.players[i].data.wf());
        }
        match t.command {
            Command::Tick => {
                lemma_ticked_wf(w);
            },
            Command::InstallPlayer => {
                lemma_new_player_wf();
                PlayerData::lemma_new_view();
                let d = PlayerData::new_view();
                lemma_wf_same_holdings(d, d.stamped(w.counter()));
                lemma_wf_joined(
                    w,
                    PlayerView { player_id: pid, nonce: 0, data: d.stamped(w.counter()) },
                );
            },
            Command::CollectEnergy => {
                let d = w.data_of(pid);
                if d.energy_due(w.counter()) {
                    lemma_energy_collected_wf(d, w.counter());
                    lemma_wf_same_cards(w, i, d.energy_collected(w.counter()));
                }
            },
            Command::BidCard(c) => {
                lemma_bid_wf(c, w, pid);
            },
            Command::SellCard(c) => {
                lemma_sale_wf(c, w, pid);
            },
            Command::ListCardInMarket(c) => {
                lemma_listing_wf(c, w, pid);
            },
            Command::Deposit(c) => {
                lemma_deposit_wf(c, w, pid);
            },
            Command::RestartObject(c) => {
                let d0 = w.data_of(pid);
                lemma_paid_wf(d0, 0);
                let paid = d0.paid(0);
                lemma_ring_replaced_wf(paid, c.object_index as int, c.modifiers, w.counter());
                let d = paid.ring_replaced(c.object_index as int, c.modifiers, w.counter());
                lemma_wf_same_cards(w, i, d);
                let w1 = w.with_data(i, d);
                lemma_index_of(w1, i);
                match paid.restart_delay(c.object_index as int, c.modifiers) {
                    Some(delay) => {
                        let e = Event { object_index: c.object_index, owner: pid, delta: delay };
                        assert(w1.event_ok(e));
                        lemma_wf_scheduled(w1, e);
                        lemma_wf_advanced(w1.scheduled(e), i);
                    },
                    None => {
                        lemma_wf_advanced(w1, i);
                    },
                }
            },
            Command::InstallObject(c) => {
                let d0 = w.data_of(pid);
                lemma_paid_wf(d0, INSTALL_OBJECT_COST);
                let paid = d0.paid(INSTALL_OBJECT_COST);
                let o = c.installed(w.counter());
                lemma_pushed_object_wf(paid, o);
                let d = paid.with_new_object(o);
                lemma_wf_same_cards(w, i, d);
                let w1 = w.with_data(i, d);
                lemma_index_of(w1, i);
                let e = c.first_event(w, pid);
                assert(w1.event_ok(e));
                lemma_wf_scheduled(w1, e);
                lemma_wf_advanced(w1.scheduled(e), i);
            },
            Command::UpgradeObject(c) => {
                let d0 = w.data_of(pid);
                lemma_paid_wf(d0, 0);
                lemma_upgraded_wf(d0.paid(0), c.object_index as int, c.feature_index as int);
                let d = d0.paid(0).upgraded(c.object_index as int, c.feature_index as int);
                lemma_wf_same_cards(w, i, d);
                lemma_wf_advanced(w.with_data(i, d), i);
            },
            Command::Withdraw(c) => {
                let d0 = w.data_of(pid);
                let debited = WorldView {
                    state: StateView {
                        bounty_pool: (w.state.bounty_pool - c.amount()) as u64,
                        ..w.state
                    },
                    withdrawals: w.withdrawals.push(c.data),
                    ..w
                };
                lemma_wf_frame(w, debited);
                lemma_with_balance_wf(d0, d0.balance() - c.amount());
                let d = d0.with_balance(d0.balance() - c.amount()).stamped(w.counter());
                lemma_wf_same_holdings(d0.with_balance(d0.balance() - c.amount()), d);
                lemma_wf_same_cards(debited, i, d);
                lemma_wf_advanced(debited.with_data(i, d), i);
            },
            Command::InstallCard(c) => {
                let d0 = w.data_of(pid);
                lemma_paid_wf(d0, 0);
                let paid = d0.paid(0);
                crate::config::lemma_random_card(paid.level as i64, paid.local, rand[1]);
                let card = paid.generated(rand[1]);
                lemma_pushed_wf(paid, card);
                let d = paid.with_card(card);
                assert forall|j: int| 0 <= j < d.cards.len() implies (
                #[trigger] d.cards[j]).marketid <= w.market.len() by {
                    if j < paid.cards.len() {
                        assert(w.players[i].data.cards[j].marketid <= w.market.len());
                    }
                }
                lemma_wf_with_data(w, i, d);
                lemma_wf_advanced(w.with_data(i, d), i);
            },
            Command::Bounty(c) => {
                let d0 = w.data_of(pid);
                if c.bounty_index < INTEREST_BOUNTY_INDEX {
                    lemma_redeemed_wf(d0, c.bounty_index as int);
                    lemma_wf_same_cards(w, i, d0.redeemed(c.bounty_index as int));
                    lemma_wf_advanced(w.with_data(i, d0.redeemed(c.bounty_index as int)), i);
                } else {
                    lemma_interest_collected_wf(d0, w.counter());
                    lemma_wf_same_cards(w, i, d0.interest_collected(w.counter()));
                    lemma_wf_advanced(w.with_data(i, d0.interest_collected(w.counter())), i);
                }
            },
        }
    }
}

/// No resource is ever negative: whatever command is admitted to a valid world, no
/// resource of any player is negative afterwards.
pub proof fn law_resources_never_negative(
    t: Transaction,
    w: WorldView,
    pkey: [u64; 4],
    pid: [u64; 2],
    rand: [u64; 4],
)
    requires
        w.wf(),
        t.admits(w, pkey, pid),
    ensures
        t.processed(w, pid, rand).resources_non_negative(),
{
    law_validity_kept(t, w, pkey, pid, rand);
    lemma_resources_non_negative(t.processed(w, pid, rand));
}

/// One command as it was processed: what was sent, by whom, with which seed.
pub struct Step {
    pub t: Transaction,
    pub pkey: [u64; 4],
    pub pid: [u64; 2],
    pub rand: [u64; 4],
}

/// The world after the commands of `log` were processed in order.
pub open spec fn after(w: WorldView, log: Seq<Step>) -> WorldView
    decreases log.len(),
{
    if log.len() == 0 {
        w
    } else {
        let s = log.last();
        s.t.processed(after(w, log.drop_last()), s.pid, s.rand)
    }
}

/// Whether every command of `log` was admitted by the world it met.
pub open spec fn admitted(w: WorldView, log: Seq<Step>) -> bool
    decreases log.len(),
{
    if log.len() == 0 {
        true
    } else {
        let s = log.last();
        admitted(w, log.drop_last()) && s.t.admits(after(w, log.drop_last()), s.pkey, s.pid)
    }
}

/// Validity over time: a valid world is valid after any sequence of commands that it
/// admitted one after the other, and no resource of any player is negative.
pub proof fn law_validity_always(w: WorldView, log: Seq<Step>)
    requires
        w.wf(),
        admitted(w, log),
    ensures
        after(w, log).wf(),
        after(w, log).resources_non_negative(),
    decreases log.len(),
{
    if log.len() > 0 {
        law_validity_always(w, log.drop_last());
        let s = log.last();
        law_validity_kept(s.t, after(w, log.drop_last()), s.pkey, s.pid, s.rand);
    }
    lemma_resources_non_negative(after(w, log));
}

} // verus!
