//! The card marketplace: listing, bidding and selling.

use vstd::prelude::*;
use crate::card::BidInfo;
use crate::card::Card;
use crate::card::MarketCard;
use crate::card::MAX_DURATION;
use crate::card::SETTLE_BIDDING;
use crate::error::ERROR_BID_PRICE_INSUFFICIENT;
use crate::error::ERROR_CARD_IS_IN_USE;
use crate::error::ERROR_INDEX_OUT_OF_BOUND;
use crate::error::ERROR_NOT_ENOUGH_BALANCE;
use crate::error::ERROR_PLAYER_NOT_EXIST;
use crate::inventory::lemma_listed_card_unused;
use crate::inventory::lemma_pushed_wf;
use crate::inventory::lemma_removed_cards;
use crate::player::PlayerDataView;
use crate::state::BidCard;
use crate::state::ListCardInMarket;
use crate::state::SellCard;
use crate::steps::gate;
use crate::steps::lemma_wf_advanced;
use crate::steps::lemma_wf_frame;
use crate::steps::lemma_wf_listed;
use crate::steps::lemma_wf_with_data;
use crate::steps::lemma_wf_with_listing;
use crate::world::lemma_extended;
use crate::world::lemma_index_of;
use crate::world::MarketEvent;
use crate::world::World;
use crate::world::WorldView;

verus! {

impl World {
    /// Adds `amount` to the balance of player `j`.
    pub fn credit(&mut self, j: usize, amount: u64)
        requires
            old(self)@.wf(),
            j < old(self)@.players.len(),
            old(self)@.players[j as int].data.balance() + amount <= i64::MAX,
        ensures
            final(self)@ == old(self)@.credited(j as int, amount as int),
            final(self)@.wf(),
            old(self)@.extended_by(final(self)@),
    {
        self.players[j].data.inc_balance(amount);
        proof {
            let w = old(self)@;
            let d = w.players[j as int].data;
            let d1 = d.with_balance(d.balance() + amount);
            assert forall|c: int| 0 <= c < d1.cards.len() implies (#[trigger] d1.cards[c]).marketid
                <= w.market.len() by {
                assert(w.players[j as int].data.cards[c].marketid <= w.market.len());
            }
            lemma_wf_with_data(w, j as int, d1);
            assert(self@ =~= w.credited(j as int, amount as int));
        }
    }

    /// Takes `amount` from the balance of player `j`, who must hold it.
    pub fn debit(&mut self, j: usize, amount: u64)
        requires
            old(self)@.wf(),
            j < old(self)@.players.len(),
            amount <= old(self)@.players[j as int].data.balance(),
        ensures
            final(self)@ == old(self)@.credited(j as int, -(amount as int)),
            final(self)@.wf(),
            old(self)@.extended_by(final(self)@),
    {
        let paid: Result<(), u32> = self.players[j].data.cost_balance(amount);
        proof {
            let w = old(self)@;
            let d = w.players[j as int].data;
            let d1 = d.with_balance(d.balance() - amount);
            assert forall|c: int| 0 <= c < d1.cards.len() implies (#[trigger] d1.cards[c]).marketid
                <= w.market.len() by {
                assert(w.players[j as int].data.cards[c].marketid <= w.market.len());
            }
            lemma_wf_with_data(w, j as int, d1);
            assert(self@ =~= w.credited(j as int, -(amount as int)));
        }
    }

    /// Adds the unlisted card `c` to the inventory of player `j`.
    pub fn give_card(&mut self, j: usize, c: Card)
        requires
            old(self)@.wf(),
            j < old(self)@.players.len(),
            c.marketid == 0,
            c.duration <= MAX_DURATION,
        ensures
            final(self)@ == old(self)@.given_card(j as int, c),
            final(self)@.wf(),
            old(self)@.extended_by(final(self)@),
    {
        self.players[j].data.cards.push(c);
        proof {
            let w = old(self)@;
            let d = w.players[j as int].data;
            let d1 = d.with_card(c);
            lemma_pushed_wf(d, c);
            assert forall|k: int| 0 <= k < d1.cards.len() implies (#[trigger] d1.cards[k]).marketid
                <= w.market.len() by {
                if k < d.cards.len() {
                    assert(w.players[j as int].data.cards[k].marketid <= w.market.len());
                }
            }
            lemma_wf_with_data(w, j as int, d1);
            assert(self@ =~= w.given_card(j as int, c));
        }
    }

    /// Removes from the inventory of player `j` the first card that carries the stamp
    /// `id`, if there is one.
    pub fn drop_stamped(&mut self, j: usize, id: u64)
        requires
            old(self)@.wf(),
            j < old(self)@.players.len(),
            id != 0,
        ensures
            final(self)@ == old(self)@.unstamped(j as int, id),
            final(self)@.wf(),
            old(self)@.extended_by(final(self)@),
    {
        match self.players[j].data.find_stamped(id) {
            Some(c) => {
                proof {
                    lemma_listed_card_unused(old(self)@.players[j as int].data, c as int);
                }
                self.players[j].data.remove_card(c);
                proof {
                    let w = old(self)@;
                    let d = w.players[j as int].data;
                    let d1 = d.removed(c as int);
                    lemma_removed_cards(d, c as int);
                    assert forall|k: int| 0 <= k < d1.cards.len() implies (
                    #[trigger] d1.cards[k]).marketid <= w.market.len() by {
                        let from = if k == c {
                            d.cards.len() - 1
                        } else {
                            k
                        };
                        assert(w.players[j as int].data.cards[from].marketid <= w.market.len());
                    }
                    lemma_wf_with_data(w, j as int, d1);
                    assert(self@ =~= w.unstamped(j as int, id));
                }
            },
            None => {
                proof {
                    lemma_wf_frame(old(self)@, self@);
                }
            },
        }
    }

    /// Replaces listing `m` by `l`.
    pub fn set_listing(&mut self, m: usize, l: MarketCard)
        requires
            old(self)@.wf(),
            m < old(self)@.market.len(),
            l.marketid == m + 1,
            l.object.duration <= MAX_DURATION,
            old(self)@.has_player(l.owner),
            l.bid matches Some(b) ==> old(self)@.has_player(b.bidder),
        ensures
            final(self)@ == old(self)@.with_listing(m as int, l),
            final(self)@.wf(),
            old(self)@.extended_by(final(self)@),
    {
        self.market[m] = l;
        proof {
            lemma_wf_with_listing(old(self)@, m as int, l);
            assert(self@ =~= old(self)@.with_listing(m as int, l));
        }
    }

    /// Emits `l` under the current event id and steps the id.
    pub fn emit_event(&mut self, l: MarketCard)
        requires
            old(self)@.wf(),
            old(self)@.state.event_id < u64::MAX,
        ensures
            final(self)@ == old(self)@.emitted(l),
            final(self)@.wf(),
            old(self)@.extended_by(final(self)@),
    {
        self.events.push(MarketEvent { event_id: self.state.event_id, card: l });
        self.state.event_id = self.state.event_id + 1;
        proof {
            lemma_wf_frame(old(self)@, self@);
        }
    }

    /// Uses up the nonce of player `j`.
    pub fn advance(&mut self, j: usize, nonce: u64)
        requires
            old(self)@.wf(),
            j < old(self)@.players.len(),
            gate(old(self)@.players[j as int], nonce),
        ensures
            final(self)@ == old(self)@.advanced(j as int),
            final(self)@.wf(),
            old(self)@.extended_by(final(self)@),
    {
        self.players[j].check_and_inc_nonce(nonce);
        proof {
            lemma_wf_advanced(old(self)@, j as int);
            assert(self@ =~= old(self)@.advanced(j as int));
        }
    }
}

impl ListCardInMarket {
    /// Whether the command gets as far as listing the card.
    pub open spec fn goes_through(self, d: PlayerDataView) -> bool {
        d.listable(self.card_index as int) && d.can_pay(0)
    }

    /// Whether the command may be handled: the nonce is the expected one and, where the
    /// command goes through, the numbers fit.
    pub open spec fn admits(self, w: WorldView, pid: [u64; 2], nonce: u64) -> bool {
        w.has_player(pid) ==> {
            let p = w.player_of(pid);
            &&& gate(p, nonce)
            &&& self.goes_through(p.data) ==> p.data.pay_fits() && w.state.market_id < u64::MAX
                && w.state.event_id < u64::MAX
        }
    }

    /// The status that handling the command gives.
    pub open spec fn result(self, w: WorldView, pid: [u64; 2]) -> Result<(), u32> {
        if !w.has_player(pid) {
            Err(ERROR_PLAYER_NOT_EXIST)
        } else if self.card_index >= w.data_of(pid).cards.len() {
            Err(ERROR_INDEX_OUT_OF_BOUND)
        } else if !w.data_of(pid).listable(self.card_index as int) {
            Err(ERROR_CARD_IS_IN_USE)
        } else if !w.data_of(pid).can_pay(0) {
            Err(ERROR_NOT_ENOUGH_BALANCE)
        } else {
            Ok(())
        }
    }

    /// The listing that the command creates: the card under the next market id, at the
    /// ask price, without a bid.
    pub open spec fn listing(self, w: WorldView, pid: [u64; 2]) -> MarketCard {
        MarketCard {
            marketid: w.state.market_id,
            askprice: self.ask_price,
            settleinfo: 0,
            bid: None,
            object: Card {
                marketid: w.state.market_id,
                ..w.data_of(pid).cards[self.card_index as int]
            },
            owner: pid,
        }
    }

    /// The world after the command was handled with success: the card is stamped, the
    /// player paid, the listing exists and was announced.
    pub open spec fn applied(self, w: WorldView, pid: [u64; 2]) -> WorldView {
        let i = w.index_of(pid);
        let l = self.listing(w, pid);
        w.listed(l).with_data(
            i,
            w.data_of(pid).listed(self.card_index as int, w.state.market_id).paid(0),
        ).announced(l).advanced(i)
    }

    /// Tests whether the command may be handled.
    pub fn admissible(&self, world: &World, pid: &[u64; 2], nonce: u64) -> (b: bool)
        requires
            world@.wf(),
        ensures
            b == self.admits(world@, *pid, nonce),
    {
        match world.find_player(pid) {
            None => true,
            Some(i) => {
                let p = &world.players[i];
                if !(nonce == p.nonce && nonce < u64::MAX) {
                    return false;
                }
                if !(self.card_index < p.data.cards.len() && !p.data.card_used(self.card_index)
                    && p.data.cards[self.card_index].marketid == 0 && p.data.can_pay(0)) {
                    return true;
                }
                p.data.pay_fits() && world.state.market_id < u64::MAX && world.state.event_id
                    < u64::MAX
            },
        }
    }

    /// Handles the command for the player `pid`. A command that fails leaves the world as
    /// it was.
    pub fn handle(&self, world: &mut World, pid: &[u64; 2], nonce: u64) -> (r: Result<(), u32>)
        requires
            old(world)@.wf(),
            self.admits(old(world)@, *pid, nonce),
        ensures
            r == self.result(old(world)@, *pid),
            r is Ok ==> final(world)@ == self.applied(old(world)@, *pid),
            r is Err ==> final(world)@ == old(world)@,
            final(world)@.wf(),
    {
        let i: usize = match world.find_player(pid) {
            None => {
                return Err(ERROR_PLAYER_NOT_EXIST);
            },
            Some(i) => i,
        };
        let id: u64 = world.state.market_id;
        if self.card_index >= world.players[i].data.cards.len() {
            return Err(ERROR_INDEX_OUT_OF_BOUND);
        }
        if world.players[i].data.card_used(self.card_index)
            || world.players[i].data.cards[self.card_index].marketid != 0 {
            return Err(ERROR_CARD_IS_IN_USE);
        }
        if !world.players[i].data.can_pay(0) {
            return Err(ERROR_NOT_ENOUGH_BALANCE);
        }
        let listed: Result<MarketCard, u32> = world.players[i].data.list_card_in_market(
            self.card_index,
            self.ask_price,
            id,
            *pid,
        );
        let marketcard: MarketCard = match listed {
            Ok(m) => m,
            Err(e) => {
                return Err(e);
            },
        };
        let paid: Result<(), u32> = world.players[i].data.pay_cost(0);
        world.market.push(marketcard);
        world.state.market_id = world.state.market_id + 1;
        world.state.event_id = world.state.event_id + 1;
        world.events.push(MarketEvent { event_id: world.state.event_id, card: marketcard });
        world.players[i].check_and_inc_nonce(nonce);
        proof {
            let w = old(world)@;
            let l = self.listing(w, *pid);
            let d0 = w.data_of(*pid);
            let d1 = d0.listed(self.card_index as int, id);
            let d = d1.paid(0);
            assert(marketcard == l);
            assert(d0.cards[self.card_index as int].duration <= MAX_DURATION);
            lemma_wf_listed(w, l);
            let w1 = w.listed(l);
            assert forall|c: int| 0 <= c < d.cards.len() implies (#[trigger] d.cards[c]).marketid
                <= w1.market.len() by {
                if c != self.card_index {
                    assert(w.players[i as int].data.cards[c].marketid <= w.market.len());
                }
            }
            lemma_wf_with_data(w1, i as int, d);
            let w2 = w1.with_data(i as int, d);
            let w3 = w2.announced(l);
            lemma_wf_frame(w2, w3);
            lemma_wf_advanced(w3, i as int);
            assert(world@ =~= self.applied(w, *pid));
        }
        Ok(())
    }
}

impl SellCard {
    /// Whether the command may be handled: the nonce is the expected one and, where the
    /// card is listed and has a bid, the numbers fit.
    pub open spec fn admits(self, w: WorldView, pid: [u64; 2], nonce: u64) -> bool {
        w.has_player(pid) ==> {
            let p = w.player_of(pid);
            &&& gate(p, nonce)
            &&& p.data.sale_fits(self.card_index as int, w.market)
            &&& p.data.sale(self.card_index as int, w.market) is Ok ==> w.state.event_id < u64::MAX
        }
    }

    /// The status that handling the command gives.
    pub open spec fn result(self, w: WorldView, pid: [u64; 2]) -> Result<(), u32> {
        if !w.has_player(pid) {
            Err(ERROR_PLAYER_NOT_EXIST)
        } else {
            match w.data_of(pid).sale(self.card_index as int, w.market) {
                Ok(_) => Ok(()),
                Err(e) => Err(e),
            }
        }
    }

    /// The world after the command was handled with success: the seller has the bid
    /// price and no longer the card, the bidder has the card, unlisted, and the listing
    /// is settled and was emitted.
    pub open spec fn applied(self, w: WorldView, pid: [u64; 2]) -> WorldView {
        let i = w.index_of(pid);
        let l = w.data_of(pid).sale(self.card_index as int, w.market)->Ok_0;
        let b = l.bid->0;
        w.with_data(i, w.data_of(pid).sold(self.card_index as int, b.bidprice)).given_card(
            w.index_of(b.bidder),
            l.closed().object,
        ).with_listing(l.marketid - 1, l.closed()).emitted(l.closed()).advanced(i)
    }

    /// Tests whether the command may be handled.
    pub fn admissible(&self, world: &World, pid: &[u64; 2], nonce: u64) -> (b: bool)
        requires
            world@.wf(),
        ensures
            b == self.admits(world@, *pid, nonce),
    {
        match world.find_player(pid) {
            None => true,
            Some(i) => {
                let p = &world.players[i];
                if !(nonce == p.nonce && nonce < u64::MAX) {
                    return false;
                }
                if self.card_index < p.data.cards.len() && p.data.cards[self.card_index].marketid
                    != 0 {
                    let id: u64 = p.data.cards[self.card_index].marketid;
                    assert(world@.players[i as int].data.cards[self.card_index as int].marketid
                        <= world@.market.len());
                    let n: usize = world.market.len();
                    assert(id <= n);
                    let m: usize = (id - 1) as usize;
                    let listing: MarketCard = world.market[m];
                    assert(listing == world@.market[id - 1]);
                    match listing.bid {
                        Some(bid) => {
                            assert(world@.player_of(*pid).data.sale(
                                self.card_index as int,
                                world@.market,
                            ) is Ok);
                            let fits: bool = (p.data.get_balance() as u128) + (bid.bidprice as u128)
                                <= i64::MAX as u128;
                            assert(fits == world@.player_of(*pid).data.sale_fits(
                                self.card_index as int,
                                world@.market,
                            ));
                            fits && world.state.event_id < u64::MAX
                        },
                        None => {
                            assert(world@.player_of(*pid).data.sale(
                                self.card_index as int,
                                world@.market,
                            ) is Err);
                            assert(world@.player_of(*pid).data.sale_fits(
                                self.card_index as int,
                                world@.market,
                            ));
                            true
                        },
                    }
                } else {
                    true
                }
            },
        }
    }

    /// Handles the command for the player `pid`. A command that fails leaves the world as
    /// it was.
    pub fn handle(&self, world: &mut World, pid: &[u64; 2], nonce: u64) -> (r: Result<(), u32>)
        requires
            old(world)@.wf(),
            self.admits(old(world)@, *pid, nonce),
        ensures
            r == self.result(old(world)@, *pid),
            r is Ok ==> final(world)@ == self.applied(old(world)@, *pid),
            r is Err ==> final(world)@ == old(world)@,
            final(world)@.wf(),
    {
        let i: usize = match world.find_player(pid) {
            None => {
                return Err(ERROR_PLAYER_NOT_EXIST);
            },
            Some(i) => i,
        };
        let ghost w = old(world)@;
        let sold: Result<MarketCard, u32> = world.players[i].data.sell_card(
            self.card_index,
            &world.market,
        );
        let listing: MarketCard = match sold {
            Ok(l) => l,
            Err(e) => {
                assert(world@ =~= old(world)@);
                return Err(e);
            },
        };
        let bid: BidInfo = match listing.get_bidder() {
            Some(b) => b,
            None => unreached(),
        };
        proof {
            let d1 = w.data_of(*pid).sold(self.card_index as int, bid.bidprice);
            let d0 = w.data_of(*pid).with_balance(w.data_of(*pid).balance() + bid.bidprice);
            lemma_removed_cards(d0, self.card_index as int);
            assert forall|c: int| 0 <= c < d1.cards.len() implies (#[trigger] d1.cards[c]).marketid
                <= w.market.len() by {
                let from = if c == self.card_index {
                    d0.cards.len() - 1
                } else {
                    c
                };
                assert(w.players[i as int].data.cards[from].marketid <= w.market.len());
            }
            lemma_wf_with_data(w, i as int, d1);
            assert(world@ =~= w.with_data(i as int, d1));
            let id = w.data_of(*pid).cards[self.card_index as int].marketid;
            assert(w.players[i as int].data.cards[self.card_index as int].marketid <= w.market.len());
            assert(w.listing_ok(id - 1));
            lemma_extended(w, world@);
        }
        let j: usize = world.place_of(&bid.bidder);
        let mut closed: MarketCard = listing;
        closed.settle();
        world.give_card(j, closed.object);
        proof {
            lemma_extended(w, world@);
        }
        world.set_listing((listing.marketid - 1) as usize, closed);
        world.emit_event(closed);
        world.advance(i, nonce);
        Ok(())
    }
}

/// The balances after a credit: only the credited player's balance moved.
pub proof fn lemma_credited(w: WorldView, j: int, amount: int)
    requires
        0 <= j < w.players.len(),
        w.players[j].data.local.len() > 0,
        i64::MIN <= w.players[j].data.balance() + amount <= i64::MAX,
    ensures
        w.credited(j, amount).players.len() == w.players.len(),
        forall|k: int|
            0 <= k < w.players.len() ==> (#[trigger] w.credited(j, amount).players[k]).data.balance()
                == w.players[k].data.balance() + (if k == j {
                amount
            } else {
                0
            }),
{
}

impl BidCard {
    /// Whether the bid reaches the ask price of `l` and so buys the card at once.
    pub open spec fn immediate(self, l: MarketCard) -> bool {
        l.askprice <= self.price
    }

    /// Whether the bid fails to beat the bid that `l` carries. The holder of that bid
    /// may raise it or leave it; anyone else must offer more, and so must whoever buys
    /// at once.
    pub open spec fn insufficient(self, l: MarketCard, pid: [u64; 2]) -> bool {
        l.bid matches Some(b) && if !self.immediate(l) && b.bidder == pid {
            self.price < b.bidprice
        } else {
            self.price <= b.bidprice
        }
    }

    /// What the bidder has paid towards `l` already: the bid on it, if it is the bidder's.
    pub open spec fn own_bid(self, l: MarketCard, pid: [u64; 2]) -> int {
        match l.bid {
            Some(b) => if b.bidder == pid {
                b.bidprice as int
            } else {
                0
            },
            None => 0,
        }
    }

    /// What the bidder can spend: the balance, and what is paid already.
    pub open spec fn available(self, w: WorldView, l: MarketCard, pid: [u64; 2]) -> int {
        w.data_of(pid).balance() + self.own_bid(l, pid)
    }

    /// What the bid costs the bidder now: the price, less what is paid already.
    pub open spec fn charge(self, w: WorldView, pid: [u64; 2]) -> int {
        self.price - self.own_bid(self.target(w), pid)
    }

    /// The listing that the bid is for.
    pub open spec fn target(self, w: WorldView) -> MarketCard {
        w.market[self.marketindex - 1]
    }

    /// The status that handling the command gives. A listing that is settled takes no
    /// bid, whatever the price.
    pub open spec fn result(self, w: WorldView, pid: [u64; 2]) -> Result<(), u32> {
        let l = self.target(w);
        if !w.has_player(pid) {
            Err(ERROR_PLAYER_NOT_EXIST)
        } else if !l.is_open() {
            Err(ERROR_CARD_IS_IN_USE)
        } else if self.insufficient(l, pid) {
            Err(ERROR_BID_PRICE_INSUFFICIENT)
        } else if self.price > self.available(w, l, pid) {
            Err(ERROR_NOT_ENOUGH_BALANCE)
        } else {
            Ok(())
        }
    }

    /// The world after another player's bid on the listing was refunded in full. The
    /// bidder's own bid is not refunded: it counts towards the new one.
    pub open spec fn refunded(self, w: WorldView, pid: [u64; 2]) -> WorldView {
        match self.target(w).bid {
            Some(b) => if b.bidder == pid {
                w
            } else {
                w.credited(w.index_of(b.bidder), b.bidprice as int)
            },
            None => w,
        }
    }

    /// The world after the refund and the charge of the new bid.
    pub open spec fn placed(self, w: WorldView, pid: [u64; 2]) -> WorldView {
        self.refunded(w, pid).credited(w.index_of(pid), -self.charge(w, pid))
    }

    /// The card that a buyer receives: the listed one, unlisted.
    pub open spec fn delivered(self, w: WorldView) -> Card {
        self.target(w).closed().object
    }

    /// The world after the bid was placed and the card handed to the bidder.
    pub open spec fn handed_over(self, w: WorldView, pid: [u64; 2]) -> WorldView {
        self.placed(w, pid).given_card(w.index_of(pid), self.delivered(w))
    }

    /// The world after a purchase: the bid is placed, the bidder has the card, the
    /// owner has the price and no longer the listed card.
    pub open spec fn settled(self, w: WorldView, pid: [u64; 2]) -> WorldView {
        let o = w.index_of(self.target(w).owner);
        self.handed_over(w, pid).credited(o, self.price as int).unstamped(
            o,
            self.target(w).marketid,
        )
    }

    /// The listing after the bid.
    pub open spec fn updated(self, w: WorldView, pid: [u64; 2]) -> MarketCard {
        let l = self.target(w);
        let bid = Some(BidInfo { bidprice: self.price, bidder: pid });
        if self.immediate(l) {
            MarketCard { bid, owner: pid, ..l.closed() }
        } else {
            MarketCard { bid, settleinfo: SETTLE_BIDDING, ..l }
        }
    }

    /// The world after the command was handled with success.
    pub open spec fn applied(self, w: WorldView, pid: [u64; 2]) -> WorldView {
        let moved = if self.immediate(self.target(w)) {
            self.settled(w, pid)
        } else {
            self.placed(w, pid)
        };
        moved.with_listing(self.marketindex - 1, self.updated(w, pid)).emitted(
            self.updated(w, pid),
        ).advanced(w.index_of(pid))
    }

    /// Whether the numbers that a successful bid produces fit their fields.
    pub open spec fn fits(self, w: WorldView, pid: [u64; 2]) -> bool {
        let l = self.target(w);
        &&& l.bid matches Some(b) ==> b.bidder != pid ==> w.data_of(b.bidder).balance()
            + b.bidprice <= i64::MAX
        &&& self.immediate(l) ==> self.handed_over(w, pid).players[w.index_of(
            l.owner,
        )].data.balance() + self.price <= i64::MAX
        &&& w.state.event_id < u64::MAX
    }

    /// Whether the command may be handled: the nonce is the expected one, the listing
    /// exists and, where the bid succeeds, the numbers fit.
    pub open spec fn admits(self, w: WorldView, pid: [u64; 2], nonce: u64) -> bool {
        w.has_player(pid) ==> {
            &&& gate(w.player_of(pid), nonce)
            &&& 1 <= self.marketindex <= w.market.len()
            &&& self.result(w, pid) is Ok ==> self.fits(w, pid)
        }
    }

    fn same_player(a: &[u64; 2], b: &[u64; 2]) -> (r: bool)
        ensures
            r == (*a == *b),
    {
        let r: bool = a[0] == b[0] && a[1] == b[1];
        proof {
            if r {
                assert(*a =~= *b);
            }
        }
        r
    }

    /// The status of the bid, computed without changing anything.
    fn outcome(&self, world: &World, i: usize, pid: &[u64; 2]) -> (r: Result<(), u32>)
        requires
            world@.wf(),
            i < world@.players.len(),
            world@.players[i as int].player_id == *pid,
            1 <= self.marketindex <= world@.market.len(),
        ensures
            r == self.result(world@, *pid),
    {
        proof {
            lemma_index_of(world@, i as int);
        }
        let n: usize = world.market.len();
        let l: MarketCard = world.market[(self.marketindex - 1) as usize];
        let immediate: bool = l.askprice <= self.price;
        if l.object.marketid == 0 {
            return Err(ERROR_CARD_IS_IN_USE);
        }
        let mut own: u64 = 0;
        match l.bid {
            Some(b) => {
                let same: bool = Self::same_player(&b.bidder, pid);
                if !immediate && same {
                    if self.price < b.bidprice {
                        return Err(ERROR_BID_PRICE_INSUFFICIENT);
                    }
                } else if self.price <= b.bidprice {
                    return Err(ERROR_BID_PRICE_INSUFFICIENT);
                }
                if same {
                    own = b.bidprice;
                }
            },
            None => {},
        }
        if (self.price as u128) > (world.players[i].data.get_balance() as u128) + (own as u128) {
            return Err(ERROR_NOT_ENOUGH_BALANCE);
        }
        Ok(())
    }

    /// Tests whether the command may be handled.
    pub fn admissible(&self, world: &World, pid: &[u64; 2], nonce: u64) -> (b: bool)
        requires
            world@.wf(),
        ensures
            b == self.admits(world@, *pid, nonce),
    {
        let i: usize = match world.find_player(pid) {
            None => {
                return true;
            },
            Some(i) => i,
        };
        if !(nonce == world.players[i].nonce && nonce < u64::MAX) {
            return false;
        }
        let n: usize = world.market.len();
        if !(1 <= self.marketindex && self.marketindex <= n as u64) {
            return false;
        }
        match self.outcome(world, i, pid) {
            Ok(()) => {},
            Err(_) => {
                return true;
            },
        }
        let m: usize = (self.marketindex - 1) as usize;
        let l: MarketCard = world.market[m];
        let ghost w = world@;
        proof {
            assert(w.listing_ok(m as int));
            lemma_index_of(w, i as int);
        }
        let mut refund_to: Option<usize> = None;
        let mut refund: u64 = 0;
        let mut charge: u64 = self.price;
        match l.bid {
            Some(b) => {
                if Self::same_player(&b.bidder, pid) {
                    charge = self.price - b.bidprice;
                } else {
                    let pb: usize = world.place_of(&b.bidder);
                    if (world.players[pb].data.get_balance() as u128) + (b.bidprice as u128)
                        > i64::MAX as u128 {
                        return false;
                    }
                    refund_to = Some(pb);
                    refund = b.bidprice;
                    proof {
                        lemma_credited(w, pb as int, b.bidprice as int);
                    }
                }
            },
            None => {},
        }
        proof {
            let w1 = self.refunded(w, *pid);
            assert(charge == self.charge(w, *pid));
            assert(w1.players[i as int].data.local.len() == 8) by {
                assert(w.players[i as int].data.wf());
            }
            lemma_credited(w1, i as int, -(charge as int));
        }
        if l.askprice <= self.price {
            let o: usize = world.place_of(&l.owner);
            let mut held: i128 = world.players[o].data.get_balance() as i128;
            if refund_to == Some(o) {
                held = held + (refund as i128);
            }
            if o == i {
                held = held - (charge as i128);
            }
            proof {
                let w2 = self.placed(w, *pid);
                assert(w2.players[o as int].data.balance() == held);
                assert(self.handed_over(w, *pid).players[o as int].data.balance() == held);
            }
            if held + (self.price as i128) > i64::MAX as i128 {
                return false;
            }
        }
        world.state.event_id < u64::MAX
    }

    /// Handles the command for the player `pid`. A command that fails leaves the world as
    /// it was.
    pub fn handle(&self, world: &mut World, pid: &[u64; 2], nonce: u64) -> (r: Result<(), u32>)
        requires
            old(world)@.wf(),
            self.admits(old(world)@, *pid, nonce),
        ensures
            r == self.result(old(world)@, *pid),
            r is Ok ==> final(world)@ == self.applied(old(world)@, *pid),
            r is Err ==> final(world)@ == old(world)@,
            final(world)@.wf(),
    {
        let i: usize = match world.find_player(pid) {
            None => {
                return Err(ERROR_PLAYER_NOT_EXIST);
            },
            Some(i) => i,
        };
        match self.outcome(world, i, pid) {
            Ok(()) => {},
            Err(e) => {
                return Err(e);
            },
        }
        let ghost w = old(world)@;
        let n: usize = world.market.len();
        let m: usize = (self.marketindex - 1) as usize;
        let l: MarketCard = world.market[m];
        proof {
            assert(w.listing_ok(m as int));
            lemma_index_of(w, i as int);
        }
        let o: usize = world.place_of(&l.owner);
        let mut charge: u64 = self.price;
        match l.bid {
            Some(b) => {
                if Self::same_player(&b.bidder, pid) {
                    charge = self.price - b.bidprice;
                } else {
                    let pb: usize = world.place_of(&b.bidder);
                    proof {
                        lemma_credited(w, pb as int, b.bidprice as int);
                    }
                    world.credit(pb, b.bidprice);
                }
            },
            None => {},
        }
        assert(world@ == self.refunded(w, *pid));
        assert(charge == self.charge(w, *pid));
        proof {
            lemma_credited(world@, i as int, -(charge as int));
        }
        world.debit(i, charge);
        assert(world@ == self.placed(w, *pid));
        let mut updated: MarketCard = l;
        updated.set_bidder(Some(BidInfo { bidprice: self.price, bidder: *pid }));
        if l.askprice <= self.price {
            updated.settle();
            updated.set_owner(*pid);
            world.give_card(i, updated.object);
            world.credit(o, self.price);
            world.drop_stamped(o, l.marketid);
        } else {
            updated.settleinfo = SETTLE_BIDDING;
        }
        proof {
            lemma_extended(w, world@);
        }
        world.set_listing(m, updated);
        world.emit_event(updated);
        world.advance(i, nonce);
        Ok(())
    }
}

} // verus!
