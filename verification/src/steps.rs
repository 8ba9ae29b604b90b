//! What every command handler rests on: the nonce gate and the steps that keep a
//! world valid.

use vstd::prelude::*;
use crate::player::PlayerDataView;
use crate::card::MarketCard;
use crate::card::MAX_DURATION;
use crate::events::Event;
use crate::world::distinct;
use crate::world::lemma_extended;
use crate::world::lemma_index_of;
use crate::world::PlayerView;
use crate::world::WorldView;

verus! {

/// Whether `nonce` is the one that `p` expects next, and can be counted past.
pub open spec fn gate(p: PlayerView, nonce: u64) -> bool {
    nonce == p.nonce && nonce < u64::MAX
}

/// A step that keeps every player in place keeps a valid world valid, provided the
/// players, the new events, the listings and the card stamps are in order afterwards.
pub proof fn lemma_wf_step(w: WorldView, v: WorldView)
    requires
        w.wf(),
        w.extended_by(v),
        distinct(v.players),
        v.counter() <= u32::MAX,
        forall|i: int| 0 <= i < v.players.len() ==> (#[trigger] v.players[i]).data.wf(),
        forall|k: int|
            0 <= k < v.state.queue.list.len() ==> (k < w.state.queue.list.len()
                && #[trigger] v.state.queue.list[k] == w.state.queue.list[k]) || v.event_ok(
                v.state.queue.list[k],
            ),
        v.state.market_id == v.market.len() + 1,
        forall|m: int|
            0 <= m < v.market.len() ==> (m < w.market.len() && #[trigger] v.market[m]
                == w.market[m]) || v.listing_ok(m),
        forall|i: int, j: int|
            0 <= i < v.players.len() && 0 <= j < v.players[i].data.cards.len() ==> (
            #[trigger] v.players[i].data.cards[j]).marketid <= v.market.len(),
    ensures
        v.wf(),
{
    lemma_extended(w, v);
    assert forall|k: int| 0 <= k < v.state.queue.list.len() implies v.event_ok(
        #[trigger] v.state.queue.list[k],
    ) by {
        if k < w.state.queue.list.len() && v.state.queue.list[k] == w.state.queue.list[k] {
            assert(w.event_ok(w.state.queue.list[k]));
        }
    }
    assert forall|m: int| 0 <= m < v.market.len() implies #[trigger] v.listing_ok(m) by {
        if m < w.market.len() && v.market[m] == w.market[m] {
            assert(w.listing_ok(m));
        }
    }
}

/// Replacing the data of one player by valid data that holds no fewer objects and no
/// stamp of a listing that does not exist keeps a valid world valid.
pub proof fn lemma_wf_with_data(w: WorldView, i: int, d: PlayerDataView)
    requires
        w.wf(),
        0 <= i < w.players.len(),
        d.wf(),
        d.objects.len() >= w.players[i].data.objects.len(),
        forall|j: int| 0 <= j < d.cards.len() ==> (#[trigger] d.cards[j]).marketid <= w.market.len(),
    ensures
        w.with_data(i, d).wf(),
        w.extended_by(w.with_data(i, d)),
        distinct(w.with_data(i, d).players),
{
    let v = w.with_data(i, d);
    assert forall|a: int, b: int| 0 <= a < b < v.players.len() implies (
    #[trigger] v.players[a]).player_id != (#[trigger] v.players[b]).player_id by {
        assert(w.players[a].player_id != w.players[b].player_id);
    }
    assert forall|a: int| 0 <= a < v.players.len() implies (#[trigger] v.players[a]).data.wf() by {
        if a != i {
            assert(w.players[a].data.wf());
        }
    }
    assert forall|a: int, j: int|
        0 <= a < v.players.len() && 0 <= j < v.players[a].data.cards.len() implies (
    #[trigger] v.players[a].data.cards[j]).marketid <= v.market.len() by {
        if a != i {
            assert(w.players[a].data.cards[j].marketid <= w.market.len());
        }
    }
    lemma_wf_step(w, v);
}

/// Counting a player's nonce up keeps a valid world valid.
pub proof fn lemma_wf_advanced(w: WorldView, i: int)
    requires
        w.wf(),
        0 <= i < w.players.len(),
    ensures
        w.advanced(i).wf(),
        w.extended_by(w.advanced(i)),
{
    let v = w.advanced(i);
    assert forall|a: int, b: int| 0 <= a < b < v.players.len() implies (
    #[trigger] v.players[a]).player_id != (#[trigger] v.players[b]).player_id by {
        assert(w.players[a].player_id != w.players[b].player_id);
    }
    assert forall|a: int| 0 <= a < v.players.len() implies (#[trigger] v.players[a]).data.wf() by {
        assert(w.players[a].data.wf());
    }
    assert forall|a: int, j: int|
        0 <= a < v.players.len() && 0 <= j < v.players[a].data.cards.len() implies (
    #[trigger] v.players[a].data.cards[j]).marketid <= v.market.len() by {
        assert(w.players[a].data.cards[j].marketid <= w.market.len());
    }
    lemma_wf_step(w, v);
}

/// Adding a valid player whose identity is new keeps a valid world valid.
pub proof fn lemma_wf_joined(w: WorldView, p: PlayerView)
    requires
        w.wf(),
        !w.has_player(p.player_id),
        p.data.wf(),
        forall|j: int| 0 <= j < p.data.cards.len() ==> (#[trigger] p.data.cards[j]).marketid <= w.market.len(),
    ensures
        w.joined(p).wf(),
        w.extended_by(w.joined(p)),
        w.joined(p).has_player(p.player_id),
        w.joined(p).index_of(p.player_id) == w.players.len(),
{
    let v = w.joined(p);
    assert forall|a: int, b: int| 0 <= a < b < v.players.len() implies (
    #[trigger] v.players[a]).player_id != (#[trigger] v.players[b]).player_id by {
        if b < w.players.len() {
            assert(w.players[a].player_id != w.players[b].player_id);
        } else {
            assert(w.players[a].player_id != p.player_id);
        }
    }
    assert forall|a: int| 0 <= a < v.players.len() implies (#[trigger] v.players[a]).data.wf() by {
        if a < w.players.len() {
            assert(w.players[a].data.wf());
        }
    }
    assert forall|a: int, j: int|
        0 <= a < v.players.len() && 0 <= j < v.players[a].data.cards.len() implies (
    #[trigger] v.players[a].data.cards[j]).marketid <= v.market.len() by {
        if a < w.players.len() {
            assert(w.players[a].data.cards[j].marketid <= w.market.len());
        }
    }
    lemma_wf_step(w, v);
    assert(v.players[w.players.len() as int].player_id == p.player_id);
    lemma_index_of(v, w.players.len() as int);
}

/// Scheduling an event for an object that exists keeps a valid world valid.
pub proof fn lemma_wf_scheduled(w: WorldView, e: Event)
    requires
        w.wf(),
        w.event_ok(e),
    ensures
        w.scheduled(e).wf(),
        w.extended_by(w.scheduled(e)),
{
    let v = w.scheduled(e);
    assert(v.players == w.players);
    assert forall|a: int| 0 <= a < v.players.len() implies (#[trigger] v.players[a]).data.wf() by {
        assert(w.players[a].data.wf());
    }
    assert forall|a: int, j: int|
        0 <= a < v.players.len() && 0 <= j < v.players[a].data.cards.len() implies (
    #[trigger] v.players[a].data.cards[j]).marketid <= v.market.len() by {
        assert(w.players[a].data.cards[j].marketid <= w.market.len());
    }
    assert(v.event_ok(e)) by {
        assert(v.has_player(e.owner) == w.has_player(e.owner));
        assert(v.index_of(e.owner) == w.index_of(e.owner));
    }
    lemma_wf_step(w, v);
}

/// Validity looks at nothing but the players, the listings, the queue and the next
/// market id.
pub proof fn lemma_wf_frame(w: WorldView, v: WorldView)
    requires
        w.wf(),
        v.players == w.players,
        v.market == w.market,
        v.state.queue == w.state.queue,
        v.state.market_id == w.state.market_id,
    ensures
        v.wf(),
        w.extended_by(v),
{
    assert forall|a: int| 0 <= a < v.players.len() implies (#[trigger] v.players[a]).data.wf() by {
        assert(w.players[a].data.wf());
    }
    assert forall|a: int, j: int|
        0 <= a < v.players.len() && 0 <= j < v.players[a].data.cards.len() implies (
    #[trigger] v.players[a].data.cards[j]).marketid <= v.market.len() by {
        assert(w.players[a].data.cards[j].marketid <= w.market.len());
    }
    lemma_wf_step(w, v);
}

/// Replacing a listing by one that carries the same id and names players that exist
/// keeps a valid world valid.
pub proof fn lemma_wf_with_listing(w: WorldView, m: int, l: MarketCard)
    requires
        w.wf(),
        0 <= m < w.market.len(),
        l.marketid == m + 1,
        l.object.duration <= MAX_DURATION,
        w.has_player(l.owner),
        l.bid matches Some(b) ==> w.has_player(b.bidder),
    ensures
        w.with_listing(m, l).wf(),
        w.extended_by(w.with_listing(m, l)),
{
    let v = w.with_listing(m, l);
    assert(v.players == w.players);
    assert forall|a: int| 0 <= a < v.players.len() implies (#[trigger] v.players[a]).data.wf() by {
        assert(w.players[a].data.wf());
    }
    assert forall|a: int, j: int|
        0 <= a < v.players.len() && 0 <= j < v.players[a].data.cards.len() implies (
    #[trigger] v.players[a].data.cards[j]).marketid <= v.market.len() by {
        assert(w.players[a].data.cards[j].marketid <= w.market.len());
    }
    lemma_extended(w, v);
    assert(v.listing_ok(m));
    lemma_wf_step(w, v);
}

/// Adding a listing that carries the next id and names players that exist keeps a
/// valid world valid.
pub proof fn lemma_wf_listed(w: WorldView, l: MarketCard)
    requires
        w.wf(),
        w.state.market_id < u64::MAX,
        l.marketid == w.state.market_id,
        l.object.duration <= MAX_DURATION,
        w.has_player(l.owner),
        l.bid matches Some(b) ==> w.has_player(b.bidder),
    ensures
        w.listed(l).wf(),
        w.extended_by(w.listed(l)),
{
    let v = w.listed(l);
    assert(v.players == w.players);
    assert forall|a: int| 0 <= a < v.players.len() implies (#[trigger] v.players[a]).data.wf() by {
        assert(w.players[a].data.wf());
    }
    assert forall|a: int, j: int|
        0 <= a < v.players.len() && 0 <= j < v.players[a].data.cards.len() implies (
    #[trigger] v.players[a].data.cards[j]).marketid <= v.market.len() by {
        assert(w.players[a].data.cards[j].marketid <= w.market.len());
    }
    lemma_extended(w, v);
    assert(v.listing_ok(w.market.len() as int));
    lemma_wf_step(w, v);
}

} // verus!
