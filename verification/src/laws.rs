//! What holds of every command, whatever the world it meets.

use vstd::prelude::*;
use crate::card::BidInfo;
use crate::card::MarketCard;
use crate::events::Event;
use crate::object::ObjectState;
use crate::player::PlayerData;
use crate::player::PlayerDataView;
use crate::scheduler::lemma_run;
use crate::state::BidCard;
use crate::state::Command;
use crate::state::Transaction;
use crate::world::lemma_extended;
use crate::world::lemma_index_of;
use crate::world::WorldView;

verus! {

impl Transaction {
    /// Whether the command carries a nonce that is checked against its sender's.
    pub open spec fn carries_nonce(self) -> bool {
        !(self.command is InstallPlayer || self.command is CollectEnergy || self.command is Tick)
    }

    /// Whether the command restarts object `object_index` of the player at place `k`.
    pub open spec fn restarts(self, w: WorldView, pid: [u64; 2], k: int, object_index: int) -> bool {
        self.command matches Command::RestartObject(c) && c.object_index == object_index
            && w.has_player(pid) && w.index_of(pid) == k
    }
}

/// Whether every object of `d` is still there in `e`, and every one that was halted,
/// but for object `except`, still is.
pub open spec fn halted_stay(d: PlayerDataView, e: PlayerDataView, except: int) -> bool {
    &&& d.objects.len() <= e.objects.len()
    &&& forall|o: int|
        0 <= o < d.objects.len() && o != except && d.objects[o].state == ObjectState::Halted ==> (
        #[trigger] e.objects[o]).state == ObjectState::Halted
}

/// Whether `v` has every player of `w` at the same place under the same identity, with
/// the same nonce but for player `sender`, whose nonce is one more, and with every
/// halted object still halted but for object `except` of player `sender`.
pub open spec fn stepped(w: WorldView, v: WorldView, sender: int, except: int) -> bool {
    &&& w.players.len() <= v.players.len()
    &&& forall|k: int|
        0 <= k < w.players.len() ==> {
            &&& (#[trigger] v.players[k]).player_id == w.players[k].player_id
            &&& v.players[k].nonce == w.players[k].nonce + (if k == sender {
                1int
            } else {
                0int
            })
            &&& halted_stay(
                w.players[k].data,
                v.players[k].data,
                if k == sender {
                    except
                } else {
                    -1
                },
            )
        }
}

/// Whether `v` has every player of `w` as it was, as far as identity, nonce and halted
/// objects go.
pub open spec fn quiet(w: WorldView, v: WorldView) -> bool {
    stepped(w, v, -1, -1)
}

/// Replacing a player's data by data in which the halted objects stayed halted is quiet.
pub proof fn lemma_quiet_with_data(w: WorldView, i: int, d: PlayerDataView)
    requires
        0 <= i < w.players.len(),
        halted_stay(w.players[i].data, d, -1),
    ensures
        quiet(w, w.with_data(i, d)),
{
}

/// Two quiet steps make a quiet step.
pub proof fn lemma_quiet_then(a: WorldView, b: WorldView, c: WorldView, sender: int, except: int)
    requires
        quiet(a, b),
        stepped(b, c, sender, except),
        sender < a.players.len(),
    ensures
        stepped(a, c, sender, except),
{
    assert forall|k: int| 0 <= k < a.players.len() implies {
        &&& (#[trigger] c.players[k]).player_id == a.players[k].player_id
        &&& c.players[k].nonce == a.players[k].nonce + (if k == sender {
            1int
        } else {
            0int
        })
        &&& halted_stay(
            a.players[k].data,
            c.players[k].data,
            if k == sender {
                except
            } else {
                -1
            },
        )
    } by {
        assert(b.players[k].player_id == a.players[k].player_id);
        assert(halted_stay(a.players[k].data, b.players[k].data, -1));
        let x = if k == sender {
            except
        } else {
            -1
        };
        assert(halted_stay(b.players[k].data, c.players[k].data, x));
        assert forall|o: int|
            0 <= o < a.players[k].data.objects.len() && o != x && a.players[k].data.objects[o].state
                == ObjectState::Halted implies (#[trigger] c.players[k].data.objects[o]).state
            == ObjectState::Halted by {
            assert(b.players[k].data.objects[o].state == ObjectState::Halted);
        }
    }
}

/// Using up a nonce steps the sender and nobody else.
pub proof fn lemma_stepped_advanced(w: WorldView, i: int)
    requires
        0 <= i < w.players.len(),
        w.players[i].nonce < u64::MAX,
    ensures
        stepped(w, w.advanced(i), i, -1),
{
}

/// A quiet step, then the sender's nonce.
pub proof fn lemma_stepped(w: WorldView, x: WorldView, i: int)
    requires
        quiet(w, x),
        0 <= i < w.players.len(),
        w.players[i].nonce < u64::MAX,
    ensures
        stepped(w, x.advanced(i), i, -1),
{
    lemma_stepped_advanced(x, i);
    lemma_quiet_then(w, x, x.advanced(i), i, -1);
}

/// Removing a card leaves every object in the state it was in.
pub proof fn lemma_removed_states(d: PlayerDataView, card_index: int)
    requires
        0 <= card_index < d.cards.len(),
    ensures
        halted_stay(d, d.removed(card_index), -1),
        d.removed(card_index).local == d.local,
{
}

/// A firing leaves every halted object halted.
pub proof fn lemma_fired_states(d: PlayerDataView, i: int, counter: u64)
    requires
        0 <= i < d.objects.len(),
    ensures
        halted_stay(d, d.fired(i, counter), -1),
{
}

/// A credit is quiet.
pub proof fn lemma_quiet_credited(w: WorldView, j: int, amount: int)
    requires
        0 <= j < w.players.len(),
    ensures
        quiet(w, w.credited(j, amount)),
{
    let d = w.players[j].data;
    lemma_quiet_with_data(w, j, d.with_balance(d.balance() + amount));
}

/// Losing a stamped card is quiet.
pub proof fn lemma_quiet_unstamped(w: WorldView, j: int, id: u64)
    requires
        0 <= j < w.players.len(),
    ensures
        quiet(w, w.unstamped(j, id)),
{
    let d = w.players[j].data;
    match crate::inventory::first_stamped(d.cards, id) {
        Some(c) => {
            assert(crate::inventory::stamped_at(d.cards, id, c));
            lemma_removed_states(d, c);
            lemma_quiet_with_data(w, j, d.removed(c));
        },
        None => {},
    }
}

/// A world in which only listings, events, ledger or queue moved is quiet.
pub proof fn lemma_quiet_same_players(w: WorldView, v: WorldView)
    requires
        v.players == w.players,
    ensures
        quiet(w, v),
{
}

/// What a bid does to the players: the bidder's nonce steps, and nothing else that
/// identity, nonce or halted objects are about moves.
pub proof fn lemma_bid_stepped(c: BidCard, w: WorldView, pid: [u64; 2])
    requires
        w.wf(),
        w.has_player(pid),
        w.player_of(pid).nonce < u64::MAX,
        1 <= c.marketindex <= w.market.len(),
    ensures
        stepped(w, c.applied(w, pid), w.index_of(pid), -1),
{
    let i = w.index_of(pid);
    let l = c.target(w);
    assert(w.listing_ok(c.marketindex - 1));
    let o = w.index_of(l.owner);
    let w1 = c.refunded(w, pid);
    match l.bid {
        Some(b) => {
            lemma_quiet_credited(w, w.index_of(b.bidder), b.bidprice as int);
        },
        None => {},
    }
    assert(quiet(w, w1));
    let w2 = c.placed(w, pid);
    lemma_quiet_credited(w1, i, -c.charge(w, pid));
    lemma_quiet_then(w, w1, w2, -1, -1);
    let moved = if c.immediate(l) {
        c.settled(w, pid)
    } else {
        w2
    };
    if c.immediate(l) {
        let w3 = c.handed_over(w, pid);
        lemma_quiet_with_data(w2, i, w2.players[i].data.with_card(c.delivered(w)));
        lemma_quiet_then(w, w2, w3, -1, -1);
        let w4 = w3.credited(o, c.price as int);
        lemma_quiet_credited(w3, o, c.price as int);
        lemma_quiet_then(w, w3, w4, -1, -1);
        lemma_quiet_unstamped(w4, o, l.marketid);
        lemma_quiet_then(w, w4, moved, -1, -1);
    }
    let w6 = moved.with_listing(c.marketindex - 1, c.updated(w, pid));
    lemma_quiet_same_players(moved, w6);
    lemma_quiet_then(w, moved, w6, -1, -1);
    let w7 = w6.emitted(c.updated(w, pid));
    lemma_quiet_same_players(w6, w7);
    lemma_quiet_then(w, w6, w7, -1, -1);
    lemma_stepped(w, w7, i);
}

/// What a tick does to the players: nothing that identity, nonce or halted objects
/// are about moves.
pub proof fn lemma_run_quiet(w: WorldView, n: int)
    requires
        w.wf(),
        0 <= n <= w.state.queue.list.len(),
        forall|k: int|
            0 <= k < n && (#[trigger] w.state.queue.list[k]).due() ==> w.run(k).data_of(
                w.state.queue.list[k].owner,
            ).fire_fits(w.state.queue.list[k].object_index as int),
    ensures
        quiet(w, w.run(n)),
    decreases n,
{
    if n > 0 {
        lemma_run_quiet(w, n - 1);
        lemma_run(w, n - 1);
        let before = w.run(n - 1);
        let e = w.state.queue.list[n - 1];
        if e.due() {
            assert(w.event_ok(e));
            lemma_extended(w, before);
            let i = before.index_of(e.owner);
            lemma_fired_states(before.players[i].data, e.object_index as int, before.counter());
            lemma_quiet_with_data(
                before,
                i,
                before.players[i].data.fired(e.object_index as int, before.counter()),
            );
            lemma_quiet_then(w, before, before.fired(e), -1, -1);
        }
    }
}

/// What any command does to the players: where it succeeds and carries a nonce, the
/// sender's nonce steps by one; no other nonce moves; no player changes place or
/// identity; and every halted object stays halted unless the command restarts it.
pub proof fn lemma_processed_stepped(
    t: Transaction,
    w: WorldView,
    pkey: [u64; 4],
    pid: [u64; 2],
    rand: [u64; 4],
)
    requires
        w.wf(),
        t.admits(w, pkey, pid),
    ensures
        stepped(
            w,
            t.processed(w, pid, rand),
            if t.carries_nonce() && t.result(w, pid) is Ok {
                w.index_of(pid)
            } else {
                -1
            },
            if let Command::RestartObject(c) = t.command {
                c.object_index as int
            } else {
                -1
            },
        ),
{
    let v = t.processed(w, pid, rand);
    if t.result(w, pid) is Ok {
        let i = w.index_of(pid);
        match t.command {
            Command::Tick => {
                lemma_run_quiet(w, w.state.queue.list.len() as int);
            },
            Command::InstallPlayer => {},
            Command::CollectEnergy => {},
            Command::BidCard(c) => {
                lemma_bid_stepped(c, w, pid);
            },
            Command::SellCard(c) => {
                let d = w.data_of(pid);
                let l = d.sale(c.card_index as int, w.market)->Ok_0;
                let b = l.bid->0;
                let d0 = d.with_balance(d.balance() + b.bidprice);
                lemma_removed_states(d0, c.card_index as int);
                let w1 = w.with_data(i, d.sold(c.card_index as int, b.bidprice));
                lemma_quiet_with_data(w, i, d.sold(c.card_index as int, b.bidprice));
                let id = w.players[i].data.cards[c.card_index as int].marketid;
                assert(id <= w.market.len());
                assert(w.listing_ok(id - 1));
                lemma_extended(w, w1);
                let j = w.index_of(b.bidder);
                let card = crate::card::Card { marketid: 0, ..l.object };
                let w2 = w1.given_card(j, card);
                lemma_quiet_with_data(w1, j, w1.players[j].data.with_card(card));
                lemma_quiet_then(w, w1, w2, -1, -1);
                let closed = MarketCard { settleinfo: crate::card::SETTLE_DONE, object: card, ..l };
                let w3 = w2.with_listing(l.marketid - 1, closed);
                lemma_quiet_same_players(w2, w3);
                lemma_quiet_then(w, w2, w3, -1, -1);
                let w4 = w3.emitted(closed);
                lemma_quiet_same_players(w3, w4);
                lemma_quiet_then(w, w3, w4, -1, -1);
                lemma_stepped(w, w4, i);
            },
            Command::ListCardInMarket(c) => {
                let l = c.listing(w, pid);
                let w1 = w.listed(l);
                lemma_quiet_same_players(w, w1);
                let d = w.data_of(pid).listed(c.card_index as int, w.state.market_id).paid(0);
                let w2 = w1.with_data(i, d);
                lemma_quiet_with_data(w1, i, d);
                lemma_quiet_then(w, w1, w2, -1, -1);
                let w3 = w2.announced(l);
                lemma_quiet_same_players(w2, w3);
                lemma_quiet_then(w, w2, w3, -1, -1);
                lemma_stepped(w, w3, i);
            },
            Command::Deposit(c) => {
                let x = c.with_target(w);
                if !w.has_player(c.target()) {
                    let p = crate::world::PlayerView {
                        player_id: c.target(),
                        nonce: 0,
                        data: PlayerData::new_view(),
                    };
                    assert(x == w.joined(p));
                    assert(x.players[w.players.len() as int].player_id == c.target());
                }
                assert(quiet(w, x));
                let tix = x.index_of(c.target());
                assert(x.has_player(c.target())) by {
                    if !w.has_player(c.target()) {
                        assert(x.players[w.players.len() as int].player_id == c.target());
                    }
                }
                let d = x.players[tix].data;
                let moved = WorldView {
                    state: crate::world::StateView {
                        bounty_pool: (w.state.bounty_pool + c.amount()) as u64,
                        ..x.state
                    },
                    ..x
                };
                lemma_quiet_same_players(x, moved);
                lemma_quiet_then(w, x, moved, -1, -1);
                let d1 = d.with_balance(d.balance() - c.amount()).stamped(w.counter());
                let m2 = moved.with_data(tix, d1);
                lemma_quiet_with_data(moved, tix, d1);
                lemma_quiet_then(w, moved, m2, -1, -1);
                lemma_stepped(w, m2, i);
            },
            Command::RestartObject(c) => {
                let paid = w.data_of(pid).paid(0);
                let d = paid.ring_replaced(c.object_index as int, c.modifiers, w.counter());
                let w1 = w.with_data(i, d);
                assert(halted_stay(w.players[i].data, d, c.object_index as int));
                assert(stepped(w1, w1.advanced(i), i, -1));
                match paid.restart_delay(c.object_index as int, c.modifiers) {
                    Some(delay) => {
                        let e = Event { object_index: c.object_index, owner: pid, delta: delay };
                        let w2 = w1.scheduled(e);
                        assert(w2.players == w1.players);
                        assert(v == w2.advanced(i));
                    },
                    None => {
                        assert(v == w1.advanced(i));
                    },
                }
            },
            Command::InstallObject(c) => {
                let d = w.data_of(pid).paid(crate::config::INSTALL_OBJECT_COST).with_new_object(
                    c.installed(w.counter()),
                );
                let w1 = w.with_data(i, d);
                lemma_quiet_with_data(w, i, d);
                let w2 = w1.scheduled(c.first_event(w, pid));
                lemma_quiet_same_players(w1, w2);
                lemma_quiet_then(w, w1, w2, -1, -1);
                lemma_stepped(w, w2, i);
            },
            Command::UpgradeObject(c) => {
                let d = w.data_of(pid).paid(0).upgraded(
                    c.object_index as int,
                    c.feature_index as int,
                );
                lemma_quiet_with_data(w, i, d);
                lemma_stepped(w, w.with_data(i, d), i);
            },
            Command::Withdraw(c) => {
                let d0 = w.data_of(pid);
                let debited = WorldView {
                    state: crate::world::StateView {
                        bounty_pool: (w.state.bounty_pool - c.amount()) as u64,
                        ..w.state
                    },
                    withdrawals: w.withdrawals.push(c.data),
                    ..w
                };
                lemma_quiet_same_players(w, debited);
                let d = d0.with_balance(d0.balance() - c.amount()).stamped(w.counter());
                lemma_quiet_with_data(debited, i, d);
                lemma_quiet_then(w, debited, debited.with_data(i, d), -1, -1);
                lemma_stepped(w, debited.with_data(i, d), i);
            },
            Command::InstallCard(c) => {
                let paid = w.data_of(pid).paid(0);
                let d = paid.with_card(paid.generated(rand[1]));
                lemma_quiet_with_data(w, i, d);
                lemma_stepped(w, w.with_data(i, d), i);
            },
            Command::Bounty(c) => {
                let d = if c.bounty_index < crate::config::INTEREST_BOUNTY_INDEX {
                    w.data_of(pid).redeemed(c.bounty_index as int)
                } else {
                    w.data_of(pid).interest_collected(w.counter())
                };
                lemma_quiet_with_data(w, i, d);
                lemma_stepped(w, w.with_data(i, d), i);
            },
        }
    }
}

/// Nonces only grow: no command lowers the nonce of any player, and a command that
/// carries a nonce and succeeds raises the nonce of its sender by exactly one.
pub proof fn law_nonce_strictly_increasing(
    t: Transaction,
    w: WorldView,
    pkey: [u64; 4],
    pid: [u64; 2],
    rand: [u64; 4],
)
    requires
        w.wf(),
        t.admits(w, pkey, pid),
    ensures
        forall|k: int|
            0 <= k < w.players.len() ==> (#[trigger] t.processed(w, pid, rand).players[k]).nonce
                >= w.players[k].nonce && t.processed(w, pid, rand).players[k].player_id
                == w.players[k].player_id,
        t.carries_nonce() && t.result(w, pid) is Ok ==> w.has_player(pid) && t.nonce
            == w.player_of(pid).nonce && t.processed(w, pid, rand).has_player(pid) && t.processed(
            w,
            pid,
            rand,
        ).player_of(pid).nonce == t.nonce + 1,
{
    lemma_processed_stepped(t, w, pkey, pid, rand);
    crate::validity::law_validity_kept(t, w, pkey, pid, rand);
    if t.carries_nonce() && t.result(w, pid) is Ok {
        let v = t.processed(w, pid, rand);
        let i = w.index_of(pid);
        assert(w.has_player(pid));
        assert(v.players[i].player_id == pid);
        lemma_index_of(v, i);
    }
}

/// A nonce is good for one command: once a command that carries a nonce has succeeded,
/// no command of the same sender that carries that nonce, or a smaller one, is admitted.
pub proof fn law_replay_rejected(
    t: Transaction,
    replay: Transaction,
    w: WorldView,
    pkey: [u64; 4],
    pid: [u64; 2],
    rand: [u64; 4],
)
    requires
        w.wf(),
        t.admits(w, pkey, pid),
        t.carries_nonce(),
        t.result(w, pid) is Ok,
        replay.carries_nonce(),
        replay.nonce <= t.nonce,
    ensures
        !replay.admits(t.processed(w, pid, rand), pkey, pid),
{
    let v = t.processed(w, pid, rand);
    crate::validity::law_validity_kept(t, w, pkey, pid, rand);
    lemma_processed_stepped(t, w, pkey, pid, rand);
    let i = w.index_of(pid);
    assert(w.has_player(pid));
    assert(t.nonce == w.players[i].nonce);
    assert(v.players[i].player_id == pid);
    lemma_index_of(v, i);
    assert(v.player_of(pid).nonce == t.nonce + 1);
}

/// A halted object never fires: firing it changes nothing and schedules nothing.
pub proof fn law_halted_never_fires(d: PlayerDataView, i: int, counter: u64)
    requires
        0 <= i < d.objects.len(),
        d.objects[i].state == ObjectState::Halted,
    ensures
        d.fired(i, counter) == d,
        d.fire_delay(i) is None,
{
}

/// Only a restart leaves the halted state: whatever command is processed, an object
/// that was halted is halted afterwards, unless the command is its owner's restart of
/// that very object.
pub proof fn law_only_restart_exits_halted(
    t: Transaction,
    w: WorldView,
    pkey: [u64; 4],
    pid: [u64; 2],
    rand: [u64; 4],
    k: int,
    o: int,
)
    requires
        w.wf(),
        t.admits(w, pkey, pid),
        0 <= k < w.players.len(),
        0 <= o < w.players[k].data.objects.len(),
        w.players[k].data.objects[o].state == ObjectState::Halted,
        !t.restarts(w, pid, k, o),
    ensures
        o < t.processed(w, pid, rand).players[k].data.objects.len(),
        t.processed(w, pid, rand).players[k].data.objects[o].state == ObjectState::Halted,
{
    lemma_processed_stepped(t, w, pkey, pid, rand);
    let v = t.processed(w, pid, rand);
    assert(v.players[k].player_id == w.players[k].player_id);
}

/// What a command does to listing `m`: a bid on it replaces it by the updated
/// listing, a sale of its card closes it, and nothing else touches it.
pub proof fn lemma_processed_listing(
    t: Transaction,
    w: WorldView,
    pkey: [u64; 4],
    pid: [u64; 2],
    rand: [u64; 4],
    m: int,
)
    requires
        w.wf(),
        t.admits(w, pkey, pid),
        0 <= m < w.market.len(),
    ensures
        m < t.processed(w, pid, rand).market.len(),
        t.processed(w, pid, rand).market[m] == w.market[m] || !t.processed(
            w,
            pid,
            rand,
        ).market[m].is_open() || (t.command matches Command::BidCard(c) && c.result(w, pid) is Ok
            && m == c.marketindex - 1 && t.processed(w, pid, rand).market[m] == c.updated(w, pid)),
{
    let v = t.processed(w, pid, rand);
    if t.result(w, pid) is Ok {
        let i = w.index_of(pid);
        match t.command {
            Command::Tick => {
                lemma_run(w, w.state.queue.list.len() as int);
            },
            Command::SellCard(c) => {
                let id = w.players[i].data.cards[c.card_index as int].marketid;
                assert(id <= w.market.len());
                assert(w.listing_ok(id - 1));
            },
            _ => {},
        }
    }
}

/// The recorded bid on a listing never goes down while the listing is open: if a
/// listing with a bid is open before and after a command, it carries a bid afterwards
/// that is no lower.
pub proof fn law_bid_never_decreases(
    t: Transaction,
    w: WorldView,
    pkey: [u64; 4],
    pid: [u64; 2],
    rand: [u64; 4],
    m: int,
)
    requires
        w.wf(),
        t.admits(w, pkey, pid),
        0 <= m < w.market.len(),
        w.market[m].is_open(),
        w.market[m].bid is Some,
        t.processed(w, pid, rand).market[m].is_open(),
    ensures
        t.processed(w, pid, rand).market[m].bid is Some,
        t.processed(w, pid, rand).market[m].bid->0.bidprice >= w.market[m].bid->0.bidprice,
{
    lemma_processed_listing(t, w, pkey, pid, rand, m);
}

/// Whoever is outbid gets the whole bid back before the new bid counts. The world on
/// which a successful bid of another player is placed is the one in which the holder
/// of the previous bid was credited that bid in full; the new bidder pays the new
/// price; the listing records the new bidder and the new price. What the owner of the
/// listing receives when the bid buys the card comes on top.
pub proof fn law_replaced_bidder_refunded(c: BidCard, w: WorldView, pid: [u64; 2])
    requires
        w.wf(),
        w.has_player(pid),
        1 <= c.marketindex <= w.market.len(),
        c.result(w, pid) is Ok,
        c.fits(w, pid),
        c.target(w).bid is Some,
        c.target(w).bid->0.bidder != pid,
    ensures
        c.price > c.target(w).bid->0.bidprice,
        c.refunded(w, pid).players[w.index_of(c.target(w).bid->0.bidder)].data.balance()
            == w.data_of(c.target(w).bid->0.bidder).balance() + c.target(w).bid->0.bidprice,
        c.placed(w, pid) == c.refunded(w, pid).credited(w.index_of(pid), -(c.price as int)),
        c.applied(w, pid).market[c.marketindex - 1].bid == Some(
            BidInfo { bidprice: c.price, bidder: pid },
        ),
        !c.immediate(c.target(w)) || c.target(w).owner != c.target(w).bid->0.bidder ==> c.applied(
            w,
            pid,
        ).players[w.index_of(c.target(w).bid->0.bidder)].data.balance() == w.data_of(
            c.target(w).bid->0.bidder,
        ).balance() + c.target(w).bid->0.bidprice,
        !c.immediate(c.target(w)) || c.target(w).owner != pid ==> c.applied(
            w,
            pid,
        ).players[w.index_of(pid)].data.balance() == w.data_of(pid).balance() - c.price,
{
    let l = c.target(w);
    let b = l.bid->0;
    assert(w.listing_ok(c.marketindex - 1));
    let pb = w.index_of(b.bidder);
    let i = w.index_of(pid);
    let o = w.index_of(l.owner);
    assert(pb != i);
    assert(w.players[pb].data.wf());
    assert(w.players[i].data.wf());
    assert(w.players[o].data.wf());
    crate::market::lemma_credited(w, pb, b.bidprice as int);
    let w1 = c.refunded(w, pid);
    assert(w1.players[i].data.local.len() == 8);
    crate::market::lemma_credited(w1, i, -(c.price as int));
    let w2 = c.placed(w, pid);
    if c.immediate(l) {
        let w3 = c.handed_over(w, pid);
        assert forall|k: int| 0 <= k < w.players.len() implies (
        #[trigger] w3.players[k]).data.balance() == w2.players[k].data.balance()
            && w3.players[k].data.local.len() == 8 by {
            assert(w.players[k].data.wf());
        }
        crate::market::lemma_credited(w3, o, c.price as int);
        let w4 = w3.credited(o, c.price as int);
        let w5 = c.settled(w, pid);
        match crate::inventory::first_stamped(w4.players[o].data.cards, l.marketid) {
            Some(x) => {
                assert(crate::inventory::stamped_at(w4.players[o].data.cards, l.marketid, x));
                lemma_removed_states(w4.players[o].data, x);
            },
            None => {},
        }
        assert forall|k: int| 0 <= k < w.players.len() implies (
        #[trigger] w5.players[k]).data.balance() == w4.players[k].data.balance() by {}
    }
}

/// A bid of another player that does not beat the bid on an open listing fails and
/// changes nothing; one that succeeds is higher and becomes the recorded bid.
pub proof fn law_outbid_must_beat(c: BidCard, w: WorldView, pid: [u64; 2], rand: [u64; 4])
    requires
        w.wf(),
        w.has_player(pid),
        1 <= c.marketindex <= w.market.len(),
        c.target(w).is_open(),
        c.target(w).bid is Some,
        c.target(w).bid->0.bidder != pid,
    ensures
        c.price <= c.target(w).bid->0.bidprice ==> c.result(w, pid) == Err::<(), u32>(
            crate::error::ERROR_BID_PRICE_INSUFFICIENT,
        ) && (Transaction { nonce: w.player_of(pid).nonce, command: Command::BidCard(c) }).processed(
            w,
            pid,
            rand,
        ) == w,
        c.result(w, pid) is Ok ==> c.price > c.target(w).bid->0.bidprice && c.applied(
            w,
            pid,
        ).market[c.marketindex - 1].bid == Some(BidInfo { bidprice: c.price, bidder: pid }),
{
}

/// A settled listing is final: a bid on it fails, whatever the price, and changes
/// nothing.
pub proof fn law_settled_listing_is_final(c: BidCard, w: WorldView, pid: [u64; 2], rand: [u64; 4])
    requires
        w.has_player(pid),
        !c.target(w).is_open(),
    ensures
        c.result(w, pid) == Err::<(), u32>(crate::error::ERROR_CARD_IS_IN_USE),
        (Transaction { nonce: w.player_of(pid).nonce, command: Command::BidCard(c) }).processed(
            w,
            pid,
            rand,
        ) == w,
{
}

/// A restart takes a halted object out of the halted state: the object has the new
/// ring and starts over at its first slot, the delay asked for is the duration of the
/// first card of the new ring, not shortened by speed, and nothing else of the player
/// changes.
pub proof fn law_restart_leaves_halted(d: PlayerDataView, i: int, ring: [u8; 8], counter: u64)
    requires
        0 <= i < d.objects.len(),
        d.objects[i].state == ObjectState::Halted,
    ensures
        d.ring_replaced(i, ring, counter).objects[i] == (crate::object::Object {
            cards: ring,
            state: ObjectState::Restarting,
            modifier_index: 0,
            counter,
            ..d.objects[i]
        }),
        d.restart_delay(i, ring) == Some(d.cards[ring[0] as int].duration as usize),
        d.ring_replaced(i, ring, counter) == d.with_object(i, d.ring_replaced(i, ring, counter).objects[i]),
{
}

/// An upgrade touches two attributes and nothing else: ring, cursor, state and tick of
/// the object stay, so a halted object stays halted; the other objects, the
/// resources and the cards stay.
pub proof fn law_upgrade_keeps_state(d: PlayerDataView, o: int, f: int)
    requires
        0 <= o < d.objects.len(),
        0 <= f < 8,
    ensures
        ({
            let before = d.objects[o];
            let after = d.upgraded(o, f).objects[o];
            &&& after.state == before.state
            &&& after.cards == before.cards
            &&& after.modifier_index == before.modifier_index
            &&& after.counter == before.counter
            &&& d.upgraded(o, f) == d.with_object(o, after)
            &&& f != 0 && before.attributes[0] < 255 && before.attributes[f] < 255
                ==> after.attributes[0] == before.attributes[0] + 1 && after.attributes[f]
                == before.attributes[f] + 1
            &&& f == 0 && before.attributes[0] < 254 ==> after.attributes[0]
                == before.attributes[0] + 2
            &&& forall|k: int|
                0 < k < 8 && k != f ==> #[trigger] after.attributes[k] == before.attributes[k]
        }),
{
    let before = d.objects[o];
    let once = crate::player::bumped(before.attributes, 0);
    vstd::array::axiom_spec_array_update(before.attributes, 0, (before.attributes[0] + 1) as u8);
    vstd::array::axiom_spec_array_update(once, f, (once[f] + 1) as u8);
    let after = d.upgraded(o, f).objects[o];
    assert forall|k: int| 0 <= k < 8 implies #[trigger] after.attributes[k] == after.attributes@[k] by {}
    assert forall|k: int| 0 <= k < 8 implies #[trigger] once[k] == once@[k] by {}
}

} // verus!
