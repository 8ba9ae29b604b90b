//! Card conservation: listing, bidding and selling move cards between inventories and
//! the market, and neither make nor lose any.

use vstd::prelude::*;
use crate::card::Card;
use crate::card::MarketCard;
use crate::inventory::first_stamped;
use crate::inventory::stamped_at;
use crate::player::PlayerDataView;
use crate::state::BidCard;
use crate::state::Command;
use crate::state::ListCardInMarket;
use crate::state::SellCard;
use crate::state::Transaction;
use crate::validity::admitted;
use crate::validity::after;
use crate::validity::law_validity_always;
use crate::validity::Step;
use crate::player::PlayerData;
use crate::scheduler::lemma_run;
use crate::world::lemma_extended;
use crate::world::distinct;
use crate::world::PlayerView;
use crate::world::WorldView;

verus! {

/// 1 for a card that is not on the market, 0 for one that is.
pub open spec fn unlisted(c: Card) -> nat {
    if c.marketid == 0 {
        1
    } else {
        0
    }
}

/// 1 for a listing that is open, 0 for one that is settled.
pub open spec fn open_one(l: MarketCard) -> nat {
    if l.is_open() {
        1
    } else {
        0
    }
}

/// Number of cards of an inventory that are not on the market.
pub open spec fn unlisted_in(cards: Seq<Card>) -> nat
    decreases cards.len(),
{
    if cards.len() == 0 {
        0
    } else {
        unlisted_in(cards.drop_last()) + unlisted(cards.last())
    }
}

/// Number of cards that players own and have not put on the market.
pub open spec fn owned_cards(players: Seq<PlayerView>) -> nat
    decreases players.len(),
{
    if players.len() == 0 {
        0
    } else {
        owned_cards(players.drop_last()) + unlisted_in(players.last().data.cards)
    }
}

/// Number of listings that are open.
pub open spec fn open_listings(market: Seq<MarketCard>) -> nat
    decreases market.len(),
{
    if market.len() == 0 {
        0
    } else {
        open_listings(market.drop_last()) + open_one(market.last())
    }
}

impl WorldView {
    /// The cards in play: those that players own, and those in open listings.
    pub open spec fn cards_in_play(self) -> nat {
        owned_cards(self.players) + open_listings(self.market)
    }

    /// Whether the stamps on cards and the listings agree: a stamped card belongs to
    /// the owner of an open listing with that id and is the card that the listing
    /// shows, no player holds two cards with the same stamp, and no two players share
    /// an identity.
    pub open spec fn consistent(self) -> bool {
        &&& distinct(self.players)
        &&& forall|i: int, j: int|
            0 <= i < self.players.len() && 0 <= j < self.players[i].data.cards.len() && (
            #[trigger] self.players[i].data.cards[j]).marketid != 0 ==> {
                let l = self.market[self.players[i].data.cards[j].marketid - 1];
                self.players[i].data.cards[j].marketid <= self.market.len() && l.is_open()
                    && l.owner == self.players[i].player_id && l.object
                    == self.players[i].data.cards[j]
            }
        &&& forall|i: int, j1: int, j2: int|
            0 <= i < self.players.len() && 0 <= j1 < j2 < self.players[i].data.cards.len() && (
            #[trigger] self.players[i].data.cards[j1]).marketid != 0 ==> (
            #[trigger] self.players[i].data.cards[j2]).marketid
                != self.players[i].data.cards[j1].marketid
    }
}

/// Counting after a card was added.
pub proof fn lemma_unlisted_push(cards: Seq<Card>, c: Card)
    ensures
        unlisted_in(cards.push(c)) == unlisted_in(cards) + unlisted(c),
{
    assert(cards.push(c).drop_last() =~= cards);
}

/// Counting after a card was replaced.
pub proof fn lemma_unlisted_update(cards: Seq<Card>, j: int, c: Card)
    requires
        0 <= j < cards.len(),
    ensures
        unlisted_in(cards.update(j, c)) + unlisted(cards[j]) == unlisted_in(cards) + unlisted(c),
    decreases cards.len(),
{
    let last = cards.len() - 1;
    if j == last {
        assert(cards.update(j, c).drop_last() =~= cards.drop_last());
    } else {
        lemma_unlisted_update(cards.drop_last(), j, c);
        assert(cards.update(j, c).drop_last() =~= cards.drop_last().update(j, c));
    }
}

/// Counting after a card was removed by moving the last card into its place.
pub proof fn lemma_unlisted_removed(cards: Seq<Card>, j: int)
    requires
        0 <= j < cards.len(),
    ensures
        unlisted_in(cards.update(j, cards.last()).drop_last()) + unlisted(cards[j]) == unlisted_in(
            cards,
        ),
{
    let last = cards.len() - 1;
    if j == last {
        assert(cards.update(j, cards.last()).drop_last() =~= cards.drop_last());
    } else {
        lemma_unlisted_update(cards.drop_last(), j, cards.last());
        assert(cards.update(j, cards.last()).drop_last() =~= cards.drop_last().update(
            j,
            cards.last(),
        ));
    }
}

/// Counting after a player was replaced.
pub proof fn lemma_owned_update(players: Seq<PlayerView>, i: int, p: PlayerView)
    requires
        0 <= i < players.len(),
    ensures
        owned_cards(players.update(i, p)) + unlisted_in(players[i].data.cards) == owned_cards(
            players,
        ) + unlisted_in(p.data.cards),
    decreases players.len(),
{
    let last = players.len() - 1;
    if i == last {
        assert(players.update(i, p).drop_last() =~= players.drop_last());
    } else {
        lemma_owned_update(players.drop_last(), i, p);
        assert(players.update(i, p).drop_last() =~= players.drop_last().update(i, p));
    }
}

/// Counting after a listing was replaced.
pub proof fn lemma_open_update(market: Seq<MarketCard>, m: int, l: MarketCard)
    requires
        0 <= m < market.len(),
    ensures
        open_listings(market.update(m, l)) + open_one(market[m]) == open_listings(market) + open_one(l),
    decreases market.len(),
{
    let last = market.len() - 1;
    if m == last {
        assert(market.update(m, l).drop_last() =~= market.drop_last());
    } else {
        lemma_open_update(market.drop_last(), m, l);
        assert(market.update(m, l).drop_last() =~= market.drop_last().update(m, l));
    }
}

/// Counting after a listing was added.
pub proof fn lemma_open_push(market: Seq<MarketCard>, l: MarketCard)
    ensures
        open_listings(market.push(l)) == open_listings(market) + open_one(l),
{
    assert(market.push(l).drop_last() =~= market);
}

/// Replacing a player's data changes the owned cards by what the data hold more.
pub proof fn lemma_owned_with_data(w: WorldView, i: int, d: PlayerDataView)
    requires
        0 <= i < w.players.len(),
    ensures
        owned_cards(w.with_data(i, d).players) + unlisted_in(w.players[i].data.cards)
            == owned_cards(w.players) + unlisted_in(d.cards),
{
    lemma_owned_update(w.players, i, PlayerView { data: d, ..w.players[i] });
}

/// A credit moves no card.
pub proof fn lemma_owned_credited(w: WorldView, j: int, amount: int)
    requires
        0 <= j < w.players.len(),
    ensures
        owned_cards(w.credited(j, amount).players) == owned_cards(w.players),
        w.credited(j, amount).market == w.market,
        w.credited(j, amount).players.len() == w.players.len(),
        forall|k: int|
            0 <= k < w.players.len() ==> (#[trigger] w.credited(j, amount).players[k]).data.cards
                == w.players[k].data.cards,
{
    let d = w.players[j].data;
    lemma_owned_with_data(w, j, d.with_balance(d.balance() + amount));
}

/// Using up a nonce moves no card.
pub proof fn lemma_owned_advanced(w: WorldView, i: int)
    requires
        0 <= i < w.players.len(),
    ensures
        owned_cards(w.advanced(i).players) == owned_cards(w.players),
        w.advanced(i).market == w.market,
{
    lemma_owned_update(
        w.players,
        i,
        PlayerView { nonce: (w.players[i].nonce + 1) as u64, ..w.players[i] },
    );
}

/// Being handed an unlisted card adds one owned card.
pub proof fn lemma_owned_given(w: WorldView, j: int, c: Card)
    requires
        0 <= j < w.players.len(),
        c.marketid == 0,
    ensures
        owned_cards(w.given_card(j, c).players) == owned_cards(w.players) + 1,
        w.given_card(j, c).market == w.market,
        w.given_card(j, c).players.len() == w.players.len(),
{
    lemma_unlisted_push(w.players[j].data.cards, c);
    lemma_owned_with_data(w, j, w.players[j].data.with_card(c));
}

/// Losing the card with a stamp changes no count of owned cards: a stamped card is
/// on the market.
pub proof fn lemma_owned_unstamped(w: WorldView, j: int, id: u64)
    requires
        0 <= j < w.players.len(),
        id != 0,
    ensures
        owned_cards(w.unstamped(j, id).players) == owned_cards(w.players),
        w.unstamped(j, id).market == w.market,
{
    let d = w.players[j].data;
    match first_stamped(d.cards, id) {
        Some(c) => {
            assert(stamped_at(d.cards, id, c));
            lemma_unlisted_removed(d.cards, c);
            lemma_owned_with_data(w, j, d.removed(c));
        },
        None => {},
    }
}

/// Number of cards in all inventories, listed or not.
pub open spec fn held_cards(players: Seq<PlayerView>) -> nat
    decreases players.len(),
{
    if players.len() == 0 {
        0
    } else {
        held_cards(players.drop_last()) + players.last().data.cards.len()
    }
}

/// Counting the cards held after a player was replaced.
pub proof fn lemma_held_update(players: Seq<PlayerView>, i: int, p: PlayerView)
    requires
        0 <= i < players.len(),
    ensures
        held_cards(players.update(i, p)) + players[i].data.cards.len() == held_cards(players)
            + p.data.cards.len(),
    decreases players.len(),
{
    let last = players.len() - 1;
    if i == last {
        assert(players.update(i, p).drop_last() =~= players.drop_last());
    } else {
        lemma_held_update(players.drop_last(), i, p);
        assert(players.update(i, p).drop_last() =~= players.drop_last().update(i, p));
    }
}

/// Replacing a player's data changes the cards held by what the data hold more.
pub proof fn lemma_held_with_data(w: WorldView, i: int, d: PlayerDataView)
    requires
        0 <= i < w.players.len(),
    ensures
        held_cards(w.with_data(i, d).players) + w.players[i].data.cards.len() == held_cards(
            w.players,
        ) + d.cards.len(),
{
    lemma_held_update(w.players, i, PlayerView { data: d, ..w.players[i] });
}

/// Using up a nonce moves no card.
pub proof fn lemma_held_advanced(w: WorldView, i: int)
    requires
        0 <= i < w.players.len(),
    ensures
        held_cards(w.advanced(i).players) == held_cards(w.players),
{
    lemma_held_update(
        w.players,
        i,
        PlayerView { nonce: (w.players[i].nonce + 1) as u64, ..w.players[i] },
    );
}

/// Listing a card conserves the cards in play: the card leaves the owned ones and
/// enters the market.
pub proof fn law_listing_conserves_cards(c: ListCardInMarket, w: WorldView, pid: [u64; 2])
    requires
        w.wf(),
        w.has_player(pid),
        c.result(w, pid) is Ok,
    ensures
        c.applied(w, pid).cards_in_play() == w.cards_in_play(),
{
    let i = w.index_of(pid);
    let l = c.listing(w, pid);
    let d0 = w.data_of(pid);
    let d = d0.listed(c.card_index as int, w.state.market_id).paid(0);
    let w1 = w.listed(l);
    lemma_open_push(w.market, l);
    let w2 = w1.with_data(i, d);
    lemma_unlisted_update(
        d0.cards,
        c.card_index as int,
        Card { marketid: w.state.market_id, ..d0.cards[c.card_index as int] },
    );
    lemma_owned_with_data(w1, i, d);
    let w3 = w2.announced(l);
    lemma_owned_advanced(w3, i);
}

/// Selling a card conserves the cards in play: the listing closes and the bidder owns
/// the card.
pub proof fn law_sale_conserves_cards(c: SellCard, w: WorldView, pid: [u64; 2])
    requires
        w.wf(),
        w.consistent(),
        w.has_player(pid),
        c.result(w, pid) is Ok,
    ensures
        c.applied(w, pid).cards_in_play() == w.cards_in_play(),
{
    let i = w.index_of(pid);
    let d = w.data_of(pid);
    let l = d.sale(c.card_index as int, w.market)->Ok_0;
    let b = l.bid->0;
    let id = w.players[i].data.cards[c.card_index as int].marketid;
    assert(id != 0);
    assert(id <= w.market.len());
    assert(w.listing_ok(id - 1));
    assert(l.is_open());
    let d0 = d.with_balance(d.balance() + b.bidprice);
    lemma_unlisted_removed(d0.cards, c.card_index as int);
    let d1 = d.sold(c.card_index as int, b.bidprice);
    let w1 = w.with_data(i, d1);
    lemma_owned_with_data(w, i, d1);
    let j = w.index_of(b.bidder);
    let card = Card { marketid: 0, ..l.object };
    let w2 = w1.given_card(j, card);
    lemma_owned_given(w1, j, card);
    let closed = MarketCard { settleinfo: crate::card::SETTLE_DONE, object: card, ..l };
    let w3 = w2.with_listing(l.marketid - 1, closed);
    lemma_open_update(w2.market, l.marketid - 1, closed);
    let w4 = w3.emitted(closed);
    lemma_owned_advanced(w4, i);
}

/// Bidding conserves the cards in play. A bid that buys the card moves it from the
/// market to the bidder; any other bid moves no card.
pub proof fn law_bid_conserves_cards(c: BidCard, w: WorldView, pid: [u64; 2])
    requires
        w.wf(),
        w.has_player(pid),
        1 <= c.marketindex <= w.market.len(),
        c.result(w, pid) is Ok,
    ensures
        c.applied(w, pid).cards_in_play() == w.cards_in_play(),
{
    let i = w.index_of(pid);
    let l = c.target(w);
    let m = c.marketindex - 1;
    assert(w.listing_ok(m));
    let o = w.index_of(l.owner);
    let w1 = c.refunded(w, pid);
    match l.bid {
        Some(b) => {
            lemma_owned_credited(w, w.index_of(b.bidder), b.bidprice as int);
        },
        None => {},
    }
    let w2 = c.placed(w, pid);
    lemma_owned_credited(w1, i, -c.charge(w, pid));
    let moved = if c.immediate(l) {
        c.settled(w, pid)
    } else {
        w2
    };
    if c.immediate(l) {
        let w3 = c.handed_over(w, pid);
        lemma_owned_given(w2, i, c.delivered(w));
        let w4 = w3.credited(o, c.price as int);
        lemma_owned_credited(w3, o, c.price as int);
        lemma_owned_unstamped(w4, o, l.marketid);
    }
    let w6 = moved.with_listing(m, c.updated(w, pid));
    lemma_open_update(moved.market, m, c.updated(w, pid));
    let w7 = w6.emitted(c.updated(w, pid));
    lemma_owned_advanced(w7, i);
}

/// Whether `v` has every player of `w` at the same place with the same cards, only
/// unlisted cards with any player it has more, and every listing of `w` as open as it
/// was, with the same owner and, while it is open, showing the same card.
pub open spec fn cards_kept(w: WorldView, v: WorldView) -> bool {
    &&& w.players.len() <= v.players.len()
    &&& forall|k: int|
        0 <= k < w.players.len() ==> (#[trigger] v.players[k]).player_id == w.players[k].player_id
            && v.players[k].data.cards == w.players[k].data.cards
    &&& forall|k: int, j: int|
        w.players.len() <= k < v.players.len() && 0 <= j < v.players[k].data.cards.len() ==> (
        #[trigger] v.players[k].data.cards[j]).marketid == 0
    &&& w.market.len() <= v.market.len()
    &&& forall|m: int|
        0 <= m < w.market.len() ==> (#[trigger] v.market[m]).is_open() == w.market[m].is_open()
            && v.market[m].owner == w.market[m].owner && (v.market[m].is_open()
            ==> v.market[m].object == w.market[m].object)
}

/// Where cards and listings are kept, stamps and listings still agree.
pub proof fn lemma_consistent_kept(w: WorldView, v: WorldView)
    requires
        w.consistent(),
        cards_kept(w, v),
        distinct(v.players),
    ensures
        v.consistent(),
{
    assert forall|i: int, j: int|
        0 <= i < v.players.len() && 0 <= j < v.players[i].data.cards.len() && (
        #[trigger] v.players[i].data.cards[j]).marketid != 0 implies {
        let l = v.market[v.players[i].data.cards[j].marketid - 1];
        v.players[i].data.cards[j].marketid <= v.market.len() && l.is_open() && l.owner
            == v.players[i].player_id && l.object == v.players[i].data.cards[j]
    } by {
        assert(i < w.players.len());
        assert(v.players[i].data.cards == w.players[i].data.cards);
        let id = w.players[i].data.cards[j].marketid;
        assert(w.players[i].data.cards[j].marketid != 0);
        assert(id <= w.market.len());
        assert(v.market[id - 1].is_open() == w.market[id - 1].is_open());
    }
    assert forall|i: int, j1: int, j2: int|
        0 <= i < v.players.len() && 0 <= j1 < j2 < v.players[i].data.cards.len() && (
        #[trigger] v.players[i].data.cards[j1]).marketid != 0 implies (
    #[trigger] v.players[i].data.cards[j2]).marketid != v.players[i].data.cards[j1].marketid by {
        assert(i < w.players.len());
        assert(v.players[i].data.cards == w.players[i].data.cards);
        assert(w.players[i].data.cards[j2].marketid != w.players[i].data.cards[j1].marketid);
    }
}

/// Keeping cards twice is keeping cards.
pub proof fn lemma_cards_kept_then(a: WorldView, b: WorldView, c: WorldView)
    requires
        cards_kept(a, b),
        cards_kept(b, c),
    ensures
        cards_kept(a, c),
{
    assert forall|k: int| 0 <= k < a.players.len() implies (#[trigger] c.players[k]).player_id
        == a.players[k].player_id && c.players[k].data.cards == a.players[k].data.cards by {
        assert(b.players[k].player_id == a.players[k].player_id);
    }
    assert forall|k: int, j: int|
        a.players.len() <= k < c.players.len() && 0 <= j < c.players[k].data.cards.len() implies (
    #[trigger] c.players[k].data.cards[j]).marketid == 0 by {
        if k < b.players.len() {
            assert(c.players[k].data.cards == b.players[k].data.cards);
            assert(b.players[k].data.cards[j].marketid == 0);
        }
    }
    assert forall|m: int| 0 <= m < a.market.len() implies (#[trigger] c.market[m]).is_open()
        == a.market[m].is_open() && c.market[m].owner == a.market[m].owner && (
    c.market[m].is_open() ==> c.market[m].object == a.market[m].object) by {
        assert(b.market[m].is_open() == a.market[m].is_open());
    }
}

/// Replacing a player's data by data with the same cards keeps the cards.
pub proof fn lemma_cards_kept_with_data(w: WorldView, i: int, d: PlayerDataView)
    requires
        0 <= i < w.players.len(),
        d.cards == w.players[i].data.cards,
    ensures
        cards_kept(w, w.with_data(i, d)),
{
}

/// Replacing a player's cards by cards whose stamps agree with the listings keeps
/// stamps and listings in agreement.
pub proof fn lemma_consistent_with_data(w: WorldView, i: int, d: PlayerDataView)
    requires
        w.consistent(),
        0 <= i < w.players.len(),
        forall|j: int|
            0 <= j < d.cards.len() && (#[trigger] d.cards[j]).marketid != 0 ==> d.cards[j].marketid
                <= w.market.len() && w.market[d.cards[j].marketid - 1].is_open()
                && w.market[d.cards[j].marketid - 1].owner == w.players[i].player_id
                && w.market[d.cards[j].marketid - 1].object == d.cards[j],
        forall|j1: int, j2: int|
            0 <= j1 < j2 < d.cards.len() && (#[trigger] d.cards[j1]).marketid != 0 ==> (
            #[trigger] d.cards[j2]).marketid != d.cards[j1].marketid,
    ensures
        w.with_data(i, d).consistent(),
{
    let v = w.with_data(i, d);
    assert forall|a: int, b: int| 0 <= a < b < v.players.len() implies (
    #[trigger] v.players[a]).player_id != (#[trigger] v.players[b]).player_id by {
        assert(w.players[a].player_id != w.players[b].player_id);
    }
    assert forall|k: int, j: int|
        0 <= k < v.players.len() && 0 <= j < v.players[k].data.cards.len() && (
        #[trigger] v.players[k].data.cards[j]).marketid != 0 implies {
        let l = v.market[v.players[k].data.cards[j].marketid - 1];
        v.players[k].data.cards[j].marketid <= v.market.len() && l.is_open() && l.owner
            == v.players[k].player_id && l.object == v.players[k].data.cards[j]
    } by {
        if k != i {
            assert(w.players[k].data.cards[j].marketid != 0);
        } else {
            assert(d.cards[j].marketid != 0);
        }
    }
    assert forall|k: int, j1: int, j2: int|
        0 <= k < v.players.len() && 0 <= j1 < j2 < v.players[k].data.cards.len() && (
        #[trigger] v.players[k].data.cards[j1]).marketid != 0 implies (
    #[trigger] v.players[k].data.cards[j2]).marketid != v.players[k].data.cards[j1].marketid by {
        if k != i {
            assert(w.players[k].data.cards[j2].marketid != w.players[k].data.cards[j1].marketid);
        } else {
            assert(d.cards[j2].marketid != d.cards[j1].marketid);
        }
    }
}

/// Adding an unlisted card keeps stamps and listings in agreement.
pub proof fn lemma_consistent_given(w: WorldView, i: int, c: Card)
    requires
        w.consistent(),
        0 <= i < w.players.len(),
        c.marketid == 0,
    ensures
        w.given_card(i, c).consistent(),
{
    let d = w.players[i].data;
    let d1 = d.with_card(c);
    assert forall|j: int| 0 <= j < d1.cards.len() && (#[trigger] d1.cards[j]).marketid
        != 0 implies d1.cards[j].marketid <= w.market.len() && w.market[d1.cards[j].marketid
        - 1].is_open() && w.market[d1.cards[j].marketid - 1].owner == w.players[i].player_id
        && w.market[d1.cards[j].marketid - 1].object == d1.cards[j] by {
        assert(w.players[i].data.cards[j].marketid != 0);
    }
    assert forall|j1: int, j2: int|
        0 <= j1 < j2 < d1.cards.len() && (#[trigger] d1.cards[j1]).marketid != 0 implies (
    #[trigger] d1.cards[j2]).marketid != d1.cards[j1].marketid by {
        assert(w.players[i].data.cards[j1].marketid != 0);
        if j2 < d.cards.len() {
            assert(w.players[i].data.cards[j2].marketid != w.players[i].data.cards[j1].marketid);
        }
    }
    lemma_consistent_with_data(w, i, d1);
}

/// Whether no card anywhere carries the stamp `id`.
pub open spec fn no_stamp(w: WorldView, id: u64) -> bool {
    forall|k: int, j: int|
        0 <= k < w.players.len() && 0 <= j < w.players[k].data.cards.len() ==> (
        #[trigger] w.players[k].data.cards[j]).marketid != id
}

/// Removing card `c` of player `i` keeps stamps and listings in agreement, and where
/// the card carried a stamp, no card carries that stamp afterwards.
pub proof fn lemma_consistent_removed(w: WorldView, i: int, c: int)
    requires
        w.consistent(),
        0 <= i < w.players.len(),
        0 <= c < w.players[i].data.cards.len(),
    ensures
        w.with_data(i, w.players[i].data.removed(c)).consistent(),
        w.players[i].data.cards[c].marketid != 0 ==> no_stamp(
            w.with_data(i, w.players[i].data.removed(c)),
            w.players[i].data.cards[c].marketid,
        ),
{
    let d = w.players[i].data;
    let d1 = d.removed(c);
    let last = d.cards.len() - 1;
    crate::inventory::lemma_removed_cards(d, c);
    assert forall|j: int| 0 <= j < d1.cards.len() && (#[trigger] d1.cards[j]).marketid
        != 0 implies d1.cards[j].marketid <= w.market.len() && w.market[d1.cards[j].marketid
        - 1].is_open() && w.market[d1.cards[j].marketid - 1].owner == w.players[i].player_id
        && w.market[d1.cards[j].marketid - 1].object == d1.cards[j] by {
        let from = if j == c {
            last
        } else {
            j
        };
        assert(w.players[i].data.cards[from].marketid != 0);
    }
    assert forall|j1: int, j2: int|
        0 <= j1 < j2 < d1.cards.len() && (#[trigger] d1.cards[j1]).marketid != 0 implies (
    #[trigger] d1.cards[j2]).marketid != d1.cards[j1].marketid by {
        let f1 = if j1 == c {
            last
        } else {
            j1
        };
        let f2 = if j2 == c {
            last
        } else {
            j2
        };
        if f1 < f2 {
            assert(w.players[i].data.cards[f2].marketid != w.players[i].data.cards[f1].marketid);
        } else {
            assert(w.players[i].data.cards[f2].marketid != 0 ==> w.players[i].data.cards[f1].marketid
                != w.players[i].data.cards[f2].marketid);
        }
    }
    lemma_consistent_with_data(w, i, d1);
    let id = d.cards[c].marketid;
    let v = w.with_data(i, d1);
    if id != 0 {
        assert(w.players[i].data.cards[c].marketid != 0);
        assert forall|k: int, j: int|
            0 <= k < v.players.len() && 0 <= j < v.players[k].data.cards.len() implies (
        #[trigger] v.players[k].data.cards[j]).marketid != id by {
            if k == i {
                let from = if j == c {
                    last
                } else {
                    j
                };
                if from < c {
                    assert(w.players[i].data.cards[c].marketid
                        != w.players[i].data.cards[from].marketid || w.players[i].data.cards[from].marketid
                        == 0);
                } else {
                    assert(w.players[i].data.cards[from].marketid
                        != w.players[i].data.cards[c].marketid);
                }
            } else {
                if w.players[k].data.cards[j].marketid == id {
                    assert(w.market[id - 1].owner == w.players[k].player_id);
                    assert(w.market[id - 1].owner == w.players[i].player_id);
                    if k < i {
                        assert(w.players[k].player_id != w.players[i].player_id);
                    } else {
                        assert(w.players[i].player_id != w.players[k].player_id);
                    }
                }
            }
        }
    }
}

/// Replacing a listing whose stamp no card carries keeps stamps and listings in
/// agreement.
pub proof fn lemma_consistent_with_listing(w: WorldView, m: int, l: MarketCard)
    requires
        w.consistent(),
        0 <= m < w.market.len(),
        no_stamp(w, (m + 1) as u64) || (l.is_open() == w.market[m].is_open() && l.owner
            == w.market[m].owner && l.object == w.market[m].object),
    ensures
        w.with_listing(m, l).consistent(),
{
    let v = w.with_listing(m, l);
    assert forall|i: int, j: int|
        0 <= i < v.players.len() && 0 <= j < v.players[i].data.cards.len() && (
        #[trigger] v.players[i].data.cards[j]).marketid != 0 implies {
        let x = v.market[v.players[i].data.cards[j].marketid - 1];
        v.players[i].data.cards[j].marketid <= v.market.len() && x.is_open() && x.owner
            == v.players[i].player_id && x.object == v.players[i].data.cards[j]
    } by {
        assert(w.players[i].data.cards[j].marketid != 0);
    }
    assert forall|i: int, j1: int, j2: int|
        0 <= i < v.players.len() && 0 <= j1 < j2 < v.players[i].data.cards.len() && (
        #[trigger] v.players[i].data.cards[j1]).marketid != 0 implies (
    #[trigger] v.players[i].data.cards[j2]).marketid != v.players[i].data.cards[j1].marketid by {
        assert(w.players[i].data.cards[j2].marketid != w.players[i].data.cards[j1].marketid);
    }
}

/// Whether `v` has the players of `w`, each with the cards it had, and the listings of
/// `w`, each as open as it was and with the same owner.
pub open spec fn same_cards(w: WorldView, v: WorldView) -> bool {
    cards_kept(w, v) && v.players.len() == w.players.len()
}

/// Where the cards are the same, stamps and listings still agree, and a stamp that no
/// card carried is carried by none.
pub proof fn lemma_same_cards(w: WorldView, v: WorldView)
    requires
        w.consistent(),
        same_cards(w, v),
    ensures
        v.consistent(),
        forall|id: u64| no_stamp(w, id) ==> #[trigger] no_stamp(v, id),
{
    assert forall|a: int, b: int| 0 <= a < b < v.players.len() implies (
    #[trigger] v.players[a]).player_id != (#[trigger] v.players[b]).player_id by {
        assert(w.players[a].player_id != w.players[b].player_id);
    }
    lemma_consistent_kept(w, v);
    assert forall|id: u64| no_stamp(w, id) implies #[trigger] no_stamp(v, id) by {
        assert forall|k: int, j: int|
            0 <= k < v.players.len() && 0 <= j < v.players[k].data.cards.len() implies (
        #[trigger] v.players[k].data.cards[j]).marketid != id by {
            assert(v.players[k].data.cards == w.players[k].data.cards);
            assert(w.players[k].data.cards[j].marketid != id);
        }
    }
}

/// Same cards, then same cards.
pub proof fn lemma_same_cards_then(a: WorldView, b: WorldView, c: WorldView)
    requires
        same_cards(a, b),
        same_cards(b, c),
    ensures
        same_cards(a, c),
{
    lemma_cards_kept_then(a, b, c);
}

/// A tick moves no card and no listing.
pub proof fn lemma_run_same_cards(w: WorldView, n: int)
    requires
        w.wf(),
        0 <= n <= w.state.queue.list.len(),
        forall|k: int|
            0 <= k < n && (#[trigger] w.state.queue.list[k]).due() ==> w.run(k).data_of(
                w.state.queue.list[k].owner,
            ).fire_fits(w.state.queue.list[k].object_index as int),
    ensures
        same_cards(w, w.run(n)),
    decreases n,
{
    if n > 0 {
        lemma_run_same_cards(w, n - 1);
        lemma_run(w, n - 1);
        let before = w.run(n - 1);
        let e = w.state.queue.list[n - 1];
        if e.due() {
            assert(w.event_ok(e));
            lemma_extended(w, before);
            let i = before.index_of(e.owner);
            assert(before.players[i].data.wf());
            crate::scheduler::lemma_fired_data_wf(
                before.players[i].data,
                e.object_index as int,
                before.counter(),
            );
            lemma_cards_kept_with_data(
                before,
                i,
                before.players[i].data.fired(e.object_index as int, before.counter()),
            );
            lemma_same_cards_then(w, before, before.fired(e));
        }
    }
}

/// A player who joins with unlisted cards only, under an identity that is new, leaves
/// stamps and listings in agreement.
pub proof fn lemma_consistent_joined(w: WorldView, p: PlayerView)
    requires
        w.consistent(),
        !w.has_player(p.player_id),
        forall|j: int| 0 <= j < p.data.cards.len() ==> (#[trigger] p.data.cards[j]).marketid == 0,
    ensures
        w.joined(p).consistent(),
        cards_kept(w, w.joined(p)),
{
    let v = w.joined(p);
    assert forall|a: int, b: int| 0 <= a < b < v.players.len() implies (
    #[trigger] v.players[a]).player_id != (#[trigger] v.players[b]).player_id by {
        if b < w.players.len() {
            assert(w.players[a].player_id != w.players[b].player_id);
        } else {
            assert(w.players[a].player_id != p.player_id);
        }
    }
    assert(cards_kept(w, v));
    lemma_consistent_kept(w, v);
}

/// A sale leaves stamps and listings in agreement.
pub proof fn lemma_sale_consistent(c: SellCard, w: WorldView, pid: [u64; 2])
    requires
        w.wf(),
        w.consistent(),
        w.has_player(pid),
        c.result(w, pid) is Ok,
    ensures
        c.applied(w, pid).consistent(),
{
    let i = w.index_of(pid);
    let d = w.data_of(pid);
    let l = d.sale(c.card_index as int, w.market)->Ok_0;
    let b = l.bid->0;
    let id = w.players[i].data.cards[c.card_index as int].marketid;
    assert(id != 0 && id <= w.market.len());
    assert(w.listing_ok(id - 1));
    let y = w.with_data(i, d.removed(c.card_index as int));
    lemma_consistent_removed(w, i, c.card_index as int);
    let w1 = w.with_data(i, d.sold(c.card_index as int, b.bidprice));
    assert(same_cards(y, w1));
    lemma_same_cards(y, w1);
    let j = w.index_of(b.bidder);
    let card = Card { marketid: 0, ..l.object };
    let w2 = w1.given_card(j, card);
    lemma_consistent_given(w1, j, card);
    assert(no_stamp(w2, id)) by {
        assert forall|k: int, x: int|
            0 <= k < w2.players.len() && 0 <= x < w2.players[k].data.cards.len() implies (
        #[trigger] w2.players[k].data.cards[x]).marketid != id by {
            if k == j && x == w1.players[j].data.cards.len() {
            } else {
                assert(w1.players[k].data.cards[x].marketid != id);
            }
        }
    }
    let closed = MarketCard { settleinfo: crate::card::SETTLE_DONE, object: card, ..l };
    let w3 = w2.with_listing(id - 1, closed);
    lemma_consistent_with_listing(w2, id - 1, closed);
    let w4 = w3.emitted(closed);
    assert(same_cards(w3, w4));
    lemma_same_cards(w3, w4);
    assert(same_cards(w4, w4.advanced(i)));
    lemma_same_cards(w4, w4.advanced(i));
}

/// A listing leaves stamps and listings in agreement.
pub proof fn lemma_listing_consistent(c: ListCardInMarket, w: WorldView, pid: [u64; 2])
    requires
        w.wf(),
        w.consistent(),
        w.has_player(pid),
        c.result(w, pid) is Ok,
    ensures
        c.applied(w, pid).consistent(),
{
    let i = w.index_of(pid);
    let l = c.listing(w, pid);
    let id = w.state.market_id;
    let d0 = w.data_of(pid);
    let d = d0.listed(c.card_index as int, id).paid(0);
    let w1 = w.listed(l);
    assert(same_cards(w, w1));
    lemma_same_cards(w, w1);
    assert forall|j: int| 0 <= j < d.cards.len() && (#[trigger] d.cards[j]).marketid
        != 0 implies d.cards[j].marketid <= w1.market.len() && w1.market[d.cards[j].marketid
        - 1].is_open() && w1.market[d.cards[j].marketid - 1].owner == w1.players[i].player_id
        && w1.market[d.cards[j].marketid - 1].object == d.cards[j] by {
        if j != c.card_index {
            assert(w.players[i].data.cards[j].marketid != 0);
        }
    }
    assert forall|j1: int, j2: int|
        0 <= j1 < j2 < d.cards.len() && (#[trigger] d.cards[j1]).marketid != 0 implies (
    #[trigger] d.cards[j2]).marketid != d.cards[j1].marketid by {
        assert(w.players[i].data.cards[j1].marketid <= w.market.len());
        assert(w.players[i].data.cards[j2].marketid <= w.market.len());
        if j1 != c.card_index && j2 != c.card_index {
            assert(w.players[i].data.cards[j1].marketid != 0);
            assert(w.players[i].data.cards[j2].marketid != w.players[i].data.cards[j1].marketid);
        }
    }
    lemma_consistent_with_data(w1, i, d);
    let w2 = w1.with_data(i, d);
    let w3 = w2.announced(l);
    assert(same_cards(w2, w3));
    lemma_same_cards(w2, w3);
    assert(same_cards(w3, w3.advanced(i)));
    lemma_same_cards(w3, w3.advanced(i));
}

/// A bid leaves stamps and listings in agreement.
pub proof fn lemma_bid_consistent(c: BidCard, w: WorldView, pid: [u64; 2])
    requires
        w.wf(),
        w.consistent(),
        w.has_player(pid),
        1 <= c.marketindex <= w.market.len(),
        c.result(w, pid) is Ok,
    ensures
        c.applied(w, pid).consistent(),
{
    let i = w.index_of(pid);
    let l = c.target(w);
    let m = c.marketindex - 1;
    assert(w.listing_ok(m));
    let id = l.marketid;
    let o = w.index_of(l.owner);
    let w1 = c.refunded(w, pid);
    match l.bid {
        Some(b) => {
            let pb = w.index_of(b.bidder);
            let d = w.players[pb].data;
            lemma_cards_kept_with_data(w, pb, d.with_balance(d.balance() + b.bidprice));
        },
        None => {},
    }
    assert(same_cards(w, w1));
    let w2 = c.placed(w, pid);
    let di = w1.players[i].data;
    lemma_cards_kept_with_data(w1, i, di.with_balance(di.balance() + -c.charge(w, pid)));
    lemma_same_cards_then(w, w1, w2);
    lemma_same_cards(w, w2);
    let moved = if c.immediate(l) {
        c.settled(w, pid)
    } else {
        w2
    };
    let updated = c.updated(w, pid);
    if c.immediate(l) {
        let w3 = c.handed_over(w, pid);
        lemma_consistent_given(w2, i, c.delivered(w));
        let w4 = w3.credited(o, c.price as int);
        let dw = w3.players[o].data;
        lemma_cards_kept_with_data(w3, o, dw.with_balance(dw.balance() + c.price));
        lemma_same_cards(w3, w4);
        let cards = w4.players[o].data.cards;
        match first_stamped(cards, id) {
            Some(x) => {
                assert(stamped_at(cards, id, x));
                lemma_consistent_removed(w4, o, x);
            },
            None => {
                assert forall|k: int, j: int|
                    0 <= k < w4.players.len() && 0 <= j < w4.players[k].data.cards.len() implies (
                #[trigger] w4.players[k].data.cards[j]).marketid != id by {
                    if w4.players[k].data.cards[j].marketid == id {
                        assert(w4.market[id - 1].owner == w4.players[k].player_id);
                        assert(w4.players[o].player_id == l.owner);
                        if k < o {
                            assert(w4.players[k].player_id != w4.players[o].player_id);
                        } else if o < k {
                            assert(w4.players[o].player_id != w4.players[k].player_id);
                        } else {
                            if j > 0 {
                                // the first stamped card would lie at or before `j`
                                lemma_some_stamped(cards, id, j);
                            } else {
                                assert(stamped_at(cards, id, 0));
                            }
                        }
                    }
                }
            },
        }
        assert(moved.consistent());
        assert(no_stamp(moved, id));
        lemma_consistent_with_listing(moved, m, updated);
    } else {
        lemma_consistent_with_listing(moved, m, updated);
    }
    let w6 = moved.with_listing(m, updated);
    let w7 = w6.emitted(updated);
    assert(same_cards(w6, w7));
    lemma_same_cards(w6, w7);
    assert(same_cards(w7, w7.advanced(i)));
    lemma_same_cards(w7, w7.advanced(i));
}

/// Where some card carries a stamp, there is a first one that does.
pub proof fn lemma_some_stamped(cards: Seq<Card>, id: u64, j: int)
    requires
        0 <= j < cards.len(),
        cards[j].marketid == id,
    ensures
        first_stamped(cards, id) is Some,
    decreases j,
{
    if forall|x: int| 0 <= x < j ==> (#[trigger] cards[x]).marketid != id {
        assert(stamped_at(cards, id, j));
    } else {
        let x = choose|x: int| 0 <= x < j && (#[trigger] cards[x]).marketid == id;
        lemma_some_stamped(cards, id, x);
    }
}

/// Stamps and listings agree in every world that commands can reach: a command that
/// meets agreement leaves agreement.
pub proof fn law_consistency_kept(
    t: Transaction,
    w: WorldView,
    pkey: [u64; 4],
    pid: [u64; 2],
    rand: [u64; 4],
)
    requires
        w.wf(),
        w.consistent(),
        t.admits(w, pkey, pid),
    ensures
        t.processed(w, pid, rand).consistent(),
{
    let v = t.processed(w, pid, rand);
    if t.result(w, pid) is Ok {
        let i = w.index_of(pid);
        match t.command {
            Command::Tick => {
                let n = w.state.queue.list.len() as int;
                lemma_run_same_cards(w, n);
                lemma_run(w, n);
                assert(same_cards(w.run(n), v));
                lemma_same_cards_then(w, w.run(n), v);
                lemma_same_cards(w, v);
            },
            Command::InstallPlayer => {
                PlayerData::lemma_new_view();
                lemma_consistent_joined(
                    w,
                    PlayerView {
                        player_id: pid,
                        nonce: 0,
                        data: PlayerData::new_view().stamped(w.counter()),
                    },
                );
            },
            Command::CollectEnergy => {
                assert(same_cards(w, v));
                lemma_same_cards(w, v);
            },
            Command::BidCard(c) => {
                lemma_bid_consistent(c, w, pid);
            },
            Command::SellCard(c) => {
                lemma_sale_consistent(c, w, pid);
            },
            Command::ListCardInMarket(c) => {
                lemma_listing_consistent(c, w, pid);
            },
            Command::Deposit(c) => {
                let x = c.with_target(w);
                if !w.has_player(c.target()) {
                    PlayerData::lemma_new_view();
                    lemma_consistent_joined(
                        w,
                        PlayerView { player_id: c.target(), nonce: 0, data: PlayerData::new_view() },
                    );
                    assert(x.players[w.players.len() as int].player_id == c.target());
                }
                assert(x.consistent());
                assert(x.has_player(c.target()));
                assert(same_cards(x, v));
                lemma_same_cards(x, v);
            },
            Command::RestartObject(c) => {
                let paid = w.data_of(pid).paid(0);
                let d = paid.ring_replaced(c.object_index as int, c.modifiers, w.counter());
                let w1 = w.with_data(i, d);
                lemma_cards_kept_with_data(w, i, d);
                assert(same_cards(w1, v));
                lemma_same_cards_then(w, w1, v);
                lemma_same_cards(w, v);
            },
            Command::InstallObject(c) => {
                assert(same_cards(w, v));
                lemma_same_cards(w, v);
            },
            Command::UpgradeObject(c) => {
                assert(same_cards(w, v));
                lemma_same_cards(w, v);
            },
            Command::Withdraw(c) => {
                assert(same_cards(w, v));
                lemma_same_cards(w, v);
            },
            Command::InstallCard(c) => {
                let paid = w.data_of(pid).paid(0);
                let w1 = w.with_data(i, paid);
                lemma_cards_kept_with_data(w, i, paid);
                lemma_same_cards(w, w1);
                crate::config::lemma_random_card(paid.level as i64, paid.local, rand[1]);
                let card = paid.generated(rand[1]);
                lemma_consistent_given(w1, i, card);
                let w2 = w1.given_card(i, card);
                assert(w2 =~= w.with_data(i, paid.with_card(card)));
                assert(same_cards(w2, v));
                lemma_same_cards(w2, v);
            },
            Command::Bounty(c) => {
                assert(same_cards(w, v));
                lemma_same_cards(w, v);
            },
        }
    }
}

/// Card conservation: whatever listing, bid or sale is processed in a world in which
/// stamps and listings agree, the cards that players own and the cards in open
/// listings are together as many afterwards as before.
pub proof fn law_cards_conserved(
    t: Transaction,
    w: WorldView,
    pkey: [u64; 4],
    pid: [u64; 2],
    rand: [u64; 4],
)
    requires
        w.wf(),
        w.consistent(),
        t.admits(w, pkey, pid),
        t.command is ListCardInMarket || t.command is BidCard || t.command is SellCard,
    ensures
        t.processed(w, pid, rand).cards_in_play() == w.cards_in_play(),
        t.processed(w, pid, rand).consistent(),
{
    law_consistency_kept(t, w, pkey, pid, rand);
    if t.result(w, pid) is Ok {
        match t.command {
            Command::ListCardInMarket(c) => {
                law_listing_conserves_cards(c, w, pid);
            },
            Command::SellCard(c) => {
                law_sale_conserves_cards(c, w, pid);
            },
            Command::BidCard(c) => {
                law_bid_conserves_cards(c, w, pid);
            },
            _ => {},
        }
    }
}

/// Whether `s` lists, bids or sells.
pub open spec fn trades(s: Step) -> bool {
    s.t.command is ListCardInMarket || s.t.command is BidCard || s.t.command is SellCard
}

/// Whether every command of `log` lists, bids or sells.
pub open spec fn trades_only(log: Seq<Step>) -> bool {
    forall|k: int| 0 <= k < log.len() ==> trades(#[trigger] log[k])
}

/// Stamps and listings agree after any sequence of commands that started where they
/// agreed.
pub proof fn law_consistency_always(w: WorldView, log: Seq<Step>)
    requires
        w.wf(),
        w.consistent(),
        admitted(w, log),
    ensures
        after(w, log).consistent(),
    decreases log.len(),
{
    if log.len() > 0 {
        law_consistency_always(w, log.drop_last());
        law_validity_always(w, log.drop_last());
        let s = log.last();
        law_consistency_kept(s.t, after(w, log.drop_last()), s.pkey, s.pid, s.rand);
    }
}

/// Card conservation over time: across any sequence of listings, bids and sales, the
/// cards that players own and the cards in open listings are together as many at the
/// end as at the start.
pub proof fn law_cards_conserved_over_trades(w: WorldView, log: Seq<Step>)
    requires
        w.wf(),
        w.consistent(),
        admitted(w, log),
        trades_only(log),
    ensures
        after(w, log).cards_in_play() == w.cards_in_play(),
    decreases log.len(),
{
    if log.len() > 0 {
        law_cards_conserved_over_trades(w, log.drop_last());
        law_consistency_always(w, log.drop_last());
        law_validity_always(w, log.drop_last());
        let s = log.last();
        law_cards_conserved(s.t, after(w, log.drop_last()), s.pkey, s.pid, s.rand);
    }
}

/// A world without players and listings is one in which stamps and listings agree.
pub proof fn law_empty_world_consistent(w: WorldView)
    requires
        w.players.len() == 0,
    ensures
        w.consistent(),
        w.cards_in_play() == open_listings(w.market),
{
}

/// The card that is sold is the card that arrives. In a world in which stamps and
/// listings agree, a sale takes the listed card out of the seller's inventory and puts
/// that very card, unlisted, behind the cards of the bidder; nobody else's cards move.
pub proof fn law_sale_delivers_the_card(c: SellCard, w: WorldView, pid: [u64; 2])
    requires
        w.wf(),
        w.consistent(),
        w.has_player(pid),
        c.result(w, pid) is Ok,
    ensures
        ({
            let i = w.index_of(pid);
            let sold = w.data_of(pid).cards[c.card_index as int];
            let l = w.market[sold.marketid - 1];
            let b = w.index_of(l.bid->0.bidder);
            let left = w.data_of(pid).removed(c.card_index as int).cards;
            let v = c.applied(w, pid);
            &&& l.object == sold
            &&& l.bid is Some
            &&& 0 <= b < w.players.len()
            &&& v.players.len() == w.players.len()
            &&& left.to_multiset() == w.data_of(pid).cards.to_multiset().remove(sold)
            &&& v.players[b].data.cards.last() == (Card { marketid: 0, ..sold })
            &&& b != i ==> v.players[i].data.cards == left && v.players[b].data.cards
                == w.players[b].data.cards.push(Card { marketid: 0, ..sold })
            &&& b == i ==> v.players[i].data.cards == left.push(Card { marketid: 0, ..sold })
            &&& forall|k: int|
                0 <= k < w.players.len() && k != i && k != b ==> (
                #[trigger] v.players[k]).data.cards == w.players[k].data.cards
            &&& held_cards(v.players) == held_cards(w.players)
        }),
{
    let i = w.index_of(pid);
    let d = w.data_of(pid);
    let sold = d.cards[c.card_index as int];
    assert(w.players[i].data.cards[c.card_index as int].marketid != 0);
    let id = sold.marketid;
    assert(w.listing_ok(id - 1));
    let l = w.market[id - 1];
    let b = l.bid->0;
    let j = w.index_of(b.bidder);
    crate::inventory::lemma_removed_multiset(d, c.card_index as int);
    let d1 = d.sold(c.card_index as int, b.bidprice);
    assert(d1.cards =~= d.removed(c.card_index as int).cards);
    let w1 = w.with_data(i, d1);
    let card = l.closed().object;
    assert(card == (Card { marketid: 0, ..sold }));
    let w2 = w1.given_card(j, card);
    let w3 = w2.with_listing(l.marketid - 1, l.closed());
    let w4 = w3.emitted(l.closed());
    let v = w4.advanced(i);
    assert(v == c.applied(w, pid));
    assert forall|k: int| 0 <= k < w.players.len() implies (#[trigger] v.players[k]).data.cards
        == w2.players[k].data.cards by {}
    lemma_held_with_data(w, i, d1);
    lemma_held_with_data(w1, j, w1.players[j].data.with_card(card));
    lemma_held_advanced(w4, i);
}

/// The card that is bought is the card that arrives. In a world in which stamps and
/// listings agree, a bid that reaches the ask price of a listing whose owner holds the
/// listed card takes that card out of the owner's inventory and puts that very card,
/// unlisted, behind the cards of the bidder; nobody else's cards move.
pub proof fn law_purchase_delivers_the_card(c: BidCard, w: WorldView, pid: [u64; 2], x: int)
    requires
        w.wf(),
        w.consistent(),
        w.has_player(pid),
        1 <= c.marketindex <= w.market.len(),
        c.result(w, pid) is Ok,
        c.immediate(c.target(w)),
        0 <= x < w.data_of(c.target(w).owner).cards.len(),
        w.data_of(c.target(w).owner).cards[x].marketid == c.target(w).marketid,
    ensures
        ({
            let i = w.index_of(pid);
            let l = c.target(w);
            let o = w.index_of(l.owner);
            let listed = w.players[o].data.cards[x];
            let left = w.players[o].data.removed(x).cards;
            let v = c.applied(w, pid);
            &&& l.object == listed
            &&& v.players.len() == w.players.len()
            &&& left.to_multiset() == w.players[o].data.cards.to_multiset().remove(listed)
            &&& o != i ==> v.players[o].data.cards == left && v.players[i].data.cards
                == w.players[i].data.cards.push(Card { marketid: 0, ..listed })
            &&& forall|k: int|
                0 <= k < w.players.len() && k != i && k != o ==> (
                #[trigger] v.players[k]).data.cards == w.players[k].data.cards
            &&& held_cards(v.players) == held_cards(w.players)
        }),
{
    let i = w.index_of(pid);
    let l = c.target(w);
    let m = c.marketindex - 1;
    assert(w.listing_ok(m));
    let o = w.index_of(l.owner);
    let id = l.marketid;
    let cards = w.players[o].data.cards;
    let listed = cards[x];
    assert(w.players[o].data.cards[x].marketid != 0);
    crate::inventory::lemma_removed_multiset(w.players[o].data, x);
    // the stamped card is the only one with that stamp, so it is the first
    assert(stamped_at(cards, id, x)) by {
        assert forall|j: int| 0 <= j < x implies (#[trigger] cards[j]).marketid != id by {
            if w.players[o].data.cards[j].marketid == id {
                assert(w.players[o].data.cards[j].marketid != 0);
                assert(w.players[o].data.cards[x].marketid
                    != w.players[o].data.cards[j].marketid);
            }
        }
    }
    crate::inventory::lemma_first_stamped(cards, id, x);
    let w1 = c.refunded(w, pid);
    match l.bid {
        Some(b) => {
            lemma_owned_credited(w, w.index_of(b.bidder), b.bidprice as int);
        },
        None => {},
    }
    assert forall|k: int| 0 <= k < w.players.len() implies (#[trigger] w1.players[k]).data.cards
        == w.players[k].data.cards by {}
    lemma_owned_credited(w1, i, -c.charge(w, pid));
    let w2 = c.placed(w, pid);
    let w3 = c.handed_over(w, pid);
    let card = c.delivered(w);
    assert(card == (Card { marketid: 0, ..listed }));
    lemma_owned_credited(w3, o, c.price as int);
    let w4 = w3.credited(o, c.price as int);
    let w5 = c.settled(w, pid);
    let v = c.applied(w, pid);
    assert forall|k: int| 0 <= k < w.players.len() implies (#[trigger] v.players[k]).data.cards
        == w5.players[k].data.cards by {}
    if o != i {
        assert(w3.players[o].data.cards == cards);
        assert(w4.players[o].data.cards == cards);
        assert(w5 == w4.with_data(o, w4.players[o].data.removed(x)));
        assert(w5.players[o].data.cards =~= w.players[o].data.removed(x).cards);
    }
    // the cards held: none moves but the one that is handed over and the one removed
    match l.bid {
        Some(b) => {
            if b.bidder != pid {
                let pb = w.index_of(b.bidder);
                let db = w.players[pb].data;
                lemma_held_with_data(w, pb, db.with_balance(db.balance() + b.bidprice));
            }
        },
        None => {},
    }
    let d1 = w1.players[i].data;
    lemma_held_with_data(w1, i, d1.with_balance(d1.balance() + -c.charge(w, pid)));
    lemma_held_with_data(w2, i, w2.players[i].data.with_card(card));
    let d3 = w3.players[o].data;
    lemma_held_with_data(w3, o, d3.with_balance(d3.balance() + c.price));
    let d4 = w4.players[o].data;
    assert(w4.players[o].data.cards[x] == listed || o == i);
    if o == i {
        assert(w4.players[o].data.cards =~= cards.push(card));
        assert(w4.players[o].data.cards[x] == listed);
        assert(stamped_at(w4.players[o].data.cards, id, x)) by {
            assert forall|j: int| 0 <= j < x implies (
            #[trigger] w4.players[o].data.cards[j]).marketid != id by {
                assert(cards[j].marketid != id);
            }
        }
        crate::inventory::lemma_first_stamped(w4.players[o].data.cards, id, x);
    }
    crate::inventory::lemma_removed_cards(d4, x);
    lemma_held_with_data(w4, o, d4.removed(x));
    let w6 = w5.with_listing(m, c.updated(w, pid));
    let w7 = w6.emitted(c.updated(w, pid));
    lemma_held_advanced(w7, i);
}

} // verus!
