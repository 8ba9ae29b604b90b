//! The cards of a player: generating, listing, selling and removing them.

use vstd::prelude::*;
use crate::card::Card;
use crate::card::MarketCard;
use crate::card::MAX_DURATION;
use crate::config::random_card;
use crate::config::random_modifier;
use crate::error::ERROR_CARD_IS_IN_USE;
use crate::error::ERROR_INDEX_OUT_OF_BOUND;
use crate::error::ERROR_NO_BIDDER;
use crate::object::Object;
use crate::object::RING_SIZE;
use crate::player::ring_points_at;
use crate::player::PlayerData;
use crate::player::PlayerDataView;

verus! {

/// Whether `c` is the first card of `cards` that carries the stamp `id`.
pub open spec fn stamped_at(cards: Seq<Card>, id: u64, c: int) -> bool {
    &&& 0 <= c < cards.len()
    &&& cards[c].marketid == id
    &&& forall|j: int| 0 <= j < c ==> (#[trigger] cards[j]).marketid != id
}

/// The place of the first card of `cards` that carries the stamp `id`.
pub open spec fn first_stamped(cards: Seq<Card>, id: u64) -> Option<int> {
    if exists|c: int| stamped_at(cards, id, c) {
        Some(choose|c: int| stamped_at(cards, id, c))
    } else {
        None
    }
}

/// There is only one first card with a given stamp.
pub proof fn lemma_first_stamped(cards: Seq<Card>, id: u64, c: int)
    requires
        stamped_at(cards, id, c),
    ensures
        first_stamped(cards, id) == Some(c),
{
    let x = choose|x: int| stamped_at(cards, id, x);
    if x < c {
        assert(cards[x].marketid != id);
    }
    if c < x {
        assert(cards[c].marketid != id);
    }
}

/// A ring in which every slot that pointed at card `last` points at card `to`; the
/// first `n` slots are treated.
pub open spec fn remapped_ring(ring: [u8; 8], n: int, last: int, to: int) -> [u8; 8]
    decreases n,
{
    if n <= 0 {
        ring
    } else {
        let r = remapped_ring(ring, n - 1, last, to);
        if r[n - 1] == last {
            vstd::array::spec_array_update(r, n - 1, to as u8)
        } else {
            r
        }
    }
}

/// Slot by slot, what `remapped_ring` holds.
pub proof fn lemma_remapped_ring(ring: [u8; 8], n: int, last: int, to: int)
    requires
        0 <= n <= 8,
        0 <= to < last,
    ensures
        forall|s: int|
            0 <= s < 8 ==> #[trigger] remapped_ring(ring, n, last, to)[s] == (if s < n && ring[s]
                == last {
                to as u8
            } else {
                ring[s]
            }),
    decreases n,
{
    if n > 0 {
        lemma_remapped_ring(ring, n - 1, last, to);
        let r = remapped_ring(ring, n - 1, last, to);
        assert(r[n - 1] == ring[n - 1]);
        if r[n - 1] == last {
            vstd::array::axiom_spec_array_update(r, n - 1, to as u8);
            assert forall|s: int| 0 <= s < 8 implies #[trigger] remapped_ring(ring, n, last, to)[s]
                == (if s < n && ring[s] == last {
                to as u8
            } else {
                ring[s]
            }) by {
                assert(remapped_ring(ring, n, last, to)@[s] == r@.update(n - 1, to as u8)[s]);
                assert(r[s] == r@[s]);
            }
        }
    }
}

/// An object whose ring follows card `last` to its new index `to`.
pub open spec fn remapped_object(o: Object, last: int, to: int) -> Object {
    Object { cards: remapped_ring(o.cards, 8, last, to), ..o }
}

impl PlayerDataView {
    /// Whether some ring slot of some object points at card `card_index`.
    pub open spec fn card_used(self, card_index: int) -> bool {
        exists|k: int, s: int|
            0 <= k < self.objects.len() && 0 <= s < RING_SIZE && (
            #[trigger] self.objects[k].cards[s]) == card_index
    }

    /// Whether card `card_index` exists, is in no ring and is not on the market.
    pub open spec fn listable(self, card_index: int) -> bool {
        &&& 0 <= card_index < self.cards.len()
        &&& !self.card_used(card_index)
        &&& self.cards[card_index].marketid == 0
    }

    /// The player with card `card_index` stamped with `marketid`.
    pub open spec fn listed(self, card_index: int, marketid: u64) -> Self {
        PlayerDataView {
            cards: self.cards.update(card_index, Card { marketid, ..self.cards[card_index] }),
            ..self
        }
    }

    /// The player without card `card_index`: the last card takes its place, and every
    /// ring slot that pointed at the last card follows it.
    pub open spec fn removed(self, card_index: int) -> Self {
        let last = self.cards.len() - 1;
        PlayerDataView {
            cards: self.cards.update(card_index, self.cards.last()).drop_last(),
            objects: if card_index == last {
                self.objects
            } else {
                Seq::new(
                    self.objects.len(),
                    |k: int| remapped_object(self.objects[k], last, card_index),
                )
            },
            ..self
        }
    }

    /// What a sale of card `card_index` comes to: the listing that is sold, or the error.
    /// A card that does not exist or is not listed gives `ERROR_INDEX_OUT_OF_BOUND`; a
    /// listing without a bid gives `ERROR_NO_BIDDER`.
    pub open spec fn sale(self, card_index: int, market: Seq<MarketCard>) -> Result<
        MarketCard,
        u32,
    > {
        if !(0 <= card_index < self.cards.len()) {
            Err(ERROR_INDEX_OUT_OF_BOUND)
        } else if self.cards[card_index].marketid == 0 {
            Err(ERROR_INDEX_OUT_OF_BOUND)
        } else if market[self.cards[card_index].marketid - 1].bid is None {
            Err(ERROR_NO_BIDDER)
        } else {
            Ok(market[self.cards[card_index].marketid - 1])
        }
    }

    /// Whether the listing of card `card_index` is among `market` and its bid, added to
    /// the balance, fits.
    pub open spec fn sale_fits(self, card_index: int, market: Seq<MarketCard>) -> bool {
        0 <= card_index < self.cards.len() && self.cards[card_index].marketid != 0 ==> {
            let id = self.cards[card_index].marketid;
            &&& id <= market.len()
            &&& id - 1 <= usize::MAX
            &&& market[id - 1].bid matches Some(b) ==> self.balance() + b.bidprice <= i64::MAX
        }
    }

    /// The player after selling card `card_index` for `price`.
    pub open spec fn sold(self, card_index: int, price: u64) -> Self {
        self.with_balance(self.balance() + price).removed(card_index)
    }

    /// The player with `c` added to the inventory.
    pub open spec fn with_card(self, c: Card) -> Self {
        PlayerDataView { cards: self.cards.push(c), ..self }
    }

    /// The card that this player generates from the seed word `rand`.
    pub open spec fn generated(self, rand: u64) -> Card {
        random_card(self.level as i64, self.local, rand)
    }
}

impl PlayerData {
    /// Whether some ring slot of some object points at card `card_index`.
    pub fn card_used(&self, card_index: usize) -> (used: bool)
        ensures
            used == self@.card_used(card_index as int),
    {
        let mut k: usize = 0;
        while k < self.objects.len()
            invariant
                k <= self.objects.len(),
                forall|a: int, s: int|
                    0 <= a < k && 0 <= s < 8 ==> (#[trigger] self@.objects[a].cards[s])
                        != card_index,
            decreases self.objects.len() - k,
        {
            let mut s: usize = 0;
            while s < 8
                invariant
                    s <= 8,
                    k < self.objects.len(),
                    forall|a: int, t: int|
                        0 <= a < k && 0 <= t < 8 ==> (#[trigger] self@.objects[a].cards[t])
                            != card_index,
                    forall|t: int| 0 <= t < s ==> self@.objects[k as int].cards[t] != card_index,
                decreases 8 - s,
            {
                if self.objects[k].cards[s] as usize == card_index {
                    return true;
                }
                s = s + 1;
            }
            k = k + 1;
        }
        false
    }

    /// Puts card `card_index` on the market under `marketid` and returns its listing.
    pub fn list_card_in_market(
        &mut self,
        card_index: usize,
        price: u64,
        marketid: u64,
        owner: [u64; 2],
    ) -> (r: Result<MarketCard, u32>)
        requires
            old(self)@.wf(),
        ensures
            r is Ok <==> old(self)@.listable(card_index as int),
            r matches Ok(m) ==> final(self)@ == old(self)@.listed(card_index as int, marketid)
                && m == (MarketCard {
                marketid,
                askprice: price,
                settleinfo: 0,
                bid: None,
                object: final(self)@.cards[card_index as int],
                owner,
            }),
            r matches Err(e) ==> final(self)@ == old(self)@ && e == (if card_index < old(
                self,
            )@.cards.len() {
                ERROR_CARD_IS_IN_USE
            } else {
                ERROR_INDEX_OUT_OF_BOUND
            }),
            final(self)@.wf(),
    {
        if card_index < self.cards.len() {
            if self.card_used(card_index) {
                Err(ERROR_CARD_IS_IN_USE)
            } else {
                let card = &mut self.cards[card_index];
                if card.marketid != 0 {
                    Err(ERROR_CARD_IS_IN_USE)
                } else {
                    card.marketid = marketid;
                    let market_card = MarketCard::new(marketid, price, 0, None, *card, owner);
                    proof {
                        lemma_listed_wf(old(self)@, card_index as int, marketid);
                    }
                    Ok(market_card)
                }
            }
        } else {
            Err(ERROR_INDEX_OUT_OF_BOUND)
        }
    }

    /// Removes card `card_index` by moving the last card into its place; every ring
    /// slot that pointed at the last card follows it.
    pub fn remove_card(&mut self, card_index: usize)
        requires
            card_index < old(self)@.cards.len(),
        ensures
            final(self)@ == old(self)@.removed(card_index as int),
            final(self)@.cards.to_multiset() == old(self)@.cards.to_multiset().remove(
                old(self)@.cards[card_index as int],
            ),
            old(self)@.wf() && !old(self)@.card_used(card_index as int) ==> final(self)@.wf(),
    {
        proof {
            lemma_removed_multiset(old(self)@, card_index as int);
        }
        let last: usize = self.cards.len() - 1;
        self.cards.swap_remove(card_index);
        if card_index != last {
            let n: usize = self.objects.len();
            let mut k: usize = 0;
            while k < n
                invariant
                    k <= n,
                    n == self.objects.len(),
                    n == old(self)@.objects.len(),
                    card_index < last,
                    last == old(self)@.cards.len() - 1,
                    self@ == (PlayerDataView { objects: self@.objects, ..old(self)@.removed(card_index as int) }),
                    forall|a: int|
                        0 <= a < k ==> #[trigger] self@.objects[a] == remapped_object(
                            old(self)@.objects[a],
                            last as int,
                            card_index as int,
                        ),
                    forall|a: int| k <= a < n ==> #[trigger] self@.objects[a] == old(self)@.objects[a],
                decreases n - k,
            {
                let ghost before: [u8; 8] = self.objects[k as int].cards;
                let mut s: usize = 0;
                while s < 8
                    invariant
                        s <= 8,
                        k < n,
                        n == self.objects.len(),
                        n == old(self)@.objects.len(),
                        card_index < last,
                        before == old(self)@.objects[k as int].cards,
                        self@ == (PlayerDataView { objects: self@.objects, ..old(self)@.removed(card_index as int) }),
                        forall|a: int|
                            0 <= a < k ==> #[trigger] self@.objects[a] == remapped_object(
                                old(self)@.objects[a],
                                last as int,
                                card_index as int,
                            ),
                        forall|a: int| k < a < n ==> #[trigger] self@.objects[a] == old(self)@.objects[a],
                        self@.objects[k as int] == (Object {
                            cards: remapped_ring(before, s as int, last as int, card_index as int),
                            ..old(self)@.objects[k as int]
                        }),
                    decreases 8 - s,
                {
                    proof {
                        lemma_remapped_ring(before, s as int, last as int, card_index as int);
                    }
                    if self.objects[k].cards[s] as usize == last {
                        self.objects[k].cards[s] = card_index as u8;
                        assert(self.objects[k as int].cards =~= remapped_ring(
                            before,
                            s as int + 1,
                            last as int,
                            card_index as int,
                        ));
                    }
                    s = s + 1;
                }
                k = k + 1;
            }
            assert(self@.objects =~= old(self)@.removed(card_index as int).objects);
        }
        proof {
            if old(self)@.wf() && !old(self)@.card_used(card_index as int) {
                lemma_removed_wf(old(self)@, card_index as int);
            }
        }
    }

    /// Finds the first card that carries the stamp `id`.
    pub fn find_stamped(&self, id: u64) -> (r: Option<usize>)
        ensures
            match r {
                Some(c) => first_stamped(self@.cards, id) == Some(c as int) && c
                    < self@.cards.len() && self@.cards[c as int].marketid == id,
                None => first_stamped(self@.cards, id) is None,
            },
    {
        let mut c: usize = 0;
        while c < self.cards.len()
            invariant
                c <= self.cards.len(),
                forall|j: int| 0 <= j < c ==> (#[trigger] self@.cards[j]).marketid != id,
            decreases self.cards.len() - c,
        {
            if self.cards[c].marketid == id {
                proof {
                    lemma_first_stamped(self@.cards, id, c as int);
                }
                return Some(c);
            }
            c = c + 1;
        }
        proof {
            if exists|x: int| stamped_at(self@.cards, id, x) {
                let x = choose|x: int| stamped_at(self@.cards, id, x);
                assert(self@.cards[x].marketid != id);
            }
        }
        None
    }

    /// The largest stamp that any card of the player carries; 0 where none is stamped.
    pub fn highest_stamp(&self) -> (m: u64)
        ensures
            forall|j: int| 0 <= j < self@.cards.len() ==> (#[trigger] self@.cards[j]).marketid <= m,
            m == 0 || exists|j: int| 0 <= j < self@.cards.len() && self@.cards[j].marketid == m,
    {
        let mut m: u64 = 0;
        let mut j: usize = 0;
        while j < self.cards.len()
            invariant
                j <= self.cards.len(),
                forall|a: int| 0 <= a < j ==> (#[trigger] self@.cards[a]).marketid <= m,
                m == 0 || exists|a: int| 0 <= a < self@.cards.len() && self@.cards[a].marketid == m,
            decreases self.cards.len() - j,
        {
            if self.cards[j].marketid > m {
                m = self.cards[j].marketid;
                assert(self@.cards[j as int].marketid == m);
            }
            j = j + 1;
        }
        m
    }

    /// Cashes in the highest bid on card `card_index`: the bid price is credited and the
    /// card leaves the inventory. `market` holds the listings, listing `id` at place
    /// `id - 1`. The listing that was sold is returned.
    pub fn sell_card(&mut self, card_index: usize, market: &Vec<MarketCard>) -> (r: Result<
        MarketCard,
        u32,
    >)
        requires
            old(self)@.wf(),
            old(self)@.sale_fits(card_index as int, market@),
        ensures
            final(self)@.wf(),
            match old(self)@.sale(card_index as int, market@) {
                Ok(listing) => r == Ok::<MarketCard, u32>(listing) && listing.bid is Some
                    && final(self)@ == old(self)@.sold(
                    card_index as int,
                    listing.bid->0.bidprice,
                ) && final(self)@.cards.to_multiset() == old(self)@.cards.to_multiset().remove(
                    old(self)@.cards[card_index as int],
                ),
                Err(e) => r == Err::<MarketCard, u32>(e) && final(self)@ == old(self)@,
            },
    {
        if card_index < self.cards.len() {
            let marketid: u64 = self.cards[card_index].marketid;
            if marketid != 0 {
                let listing: MarketCard = market[(marketid - 1) as usize];
                match listing.get_bidder() {
                    Some(b) => {
                        proof {
                            lemma_listed_card_unused(self@, card_index as int);
                        }
                        self.inc_balance(b.bidprice);
                        self.remove_card(card_index);
                        Ok(listing)
                    },
                    None => Err(ERROR_NO_BIDDER),
                }
            } else {
                Err(ERROR_INDEX_OUT_OF_BOUND)
            }
        } else {
            Err(ERROR_INDEX_OUT_OF_BOUND)
        }
    }

    /// Generates a card from the second word of `rand` and adds it to the inventory.
    pub fn generate_card(&mut self, rand: &[u64; 4])
        requires
            old(self)@.wf(),
        ensures
            final(self)@ == old(self)@.with_card(old(self)@.generated(rand[1])),
            old(self)@.generated(rand[1]).marketid == 0,
            final(self)@.wf(),
    {
        let mut current: [i64; 8] = [0; 8];
        let mut i: usize = 0;
        while i < 8
            invariant
                i <= 8,
                self@ == old(self)@,
                self@.local.len() == 8,
                forall|k: int| 0 <= k < i ==> current[k] == self@.local[k],
            decreases 8 - i,
        {
            current[i] = self.local.0[i];
            i = i + 1;
        }
        assert(current@ =~= self@.local);
        let new_card: Card = random_modifier(self.level as i64, current, rand[1]);
        self.cards.push(new_card);
        proof {
            lemma_pushed_wf(old(self)@, new_card);
        }
    }
}

/// The cards left after a removal were all there before.
pub proof fn lemma_removed_cards(p: PlayerDataView, card_index: int)
    requires
        0 <= card_index < p.cards.len(),
    ensures
        p.removed(card_index).cards.len() == p.cards.len() - 1,
        p.removed(card_index).objects.len() == p.objects.len(),
        forall|j: int|
            0 <= j < p.removed(card_index).cards.len() ==> #[trigger] p.removed(card_index).cards[j]
                == p.cards[if j == card_index {
                p.cards.len() - 1
            } else {
                j
            }],
{
}

/// A card that is on the market is in no ring of a valid player.
pub proof fn lemma_listed_card_unused(p: PlayerDataView, card_index: int)
    requires
        p.wf(),
        0 <= card_index < p.cards.len(),
        p.cards[card_index].marketid != 0,
    ensures
        !p.card_used(card_index),
{
    if p.card_used(card_index) {
        let (k, s) = choose|k: int, s: int|
            0 <= k < p.objects.len() && 0 <= s < RING_SIZE && (#[trigger] p.objects[k].cards[s])
                == card_index;
        assert(p.objects[k].wf());
        assert(ring_points_at(p.cards, p.objects[k].cards));
        assert(p.objects[k].cards[s] == card_index);
    }
}

/// Stamping a card that is in no ring keeps the player valid.
pub proof fn lemma_listed_wf(p: PlayerDataView, card_index: int, marketid: u64)
    requires
        p.wf(),
        p.listable(card_index),
    ensures
        p.listed(card_index, marketid).wf(),
{
    let q = p.listed(card_index, marketid);
    assert forall|k: int| 0 <= k < q.objects.len() implies (#[trigger] q.objects[k]).wf()
        && ring_points_at(q.cards, q.objects[k].cards) by {
        assert(p.objects[k].wf());
        assert(ring_points_at(p.cards, p.objects[k].cards));
        assert forall|s: int| 0 <= s < RING_SIZE implies (#[trigger] q.objects[k].cards[s] as int)
            < q.cards.len() && q.cards[q.objects[k].cards[s] as int].marketid == 0 by {
            assert(p.objects[k].cards[s] != card_index);
        }
    }
    assert forall|j: int| 0 <= j < q.cards.len() implies (#[trigger] q.cards[j]).duration
        <= MAX_DURATION by {
        assert(p.cards[j].duration <= MAX_DURATION);
    }
}

/// Adding an unlisted card of a valid duration keeps the player valid.
pub proof fn lemma_pushed_wf(p: PlayerDataView, c: Card)
    requires
        p.wf(),
        c.duration <= MAX_DURATION,
    ensures
        (PlayerDataView { cards: p.cards.push(c), ..p }).wf(),
{
    let q = PlayerDataView { cards: p.cards.push(c), ..p };
    assert forall|k: int| 0 <= k < q.objects.len() implies (#[trigger] q.objects[k]).wf()
        && ring_points_at(q.cards, q.objects[k].cards) by {
        assert(p.objects[k].wf());
        assert(ring_points_at(p.cards, p.objects[k].cards));
        assert forall|s: int| 0 <= s < RING_SIZE implies (#[trigger] q.objects[k].cards[s] as int)
            < q.cards.len() && q.cards[q.objects[k].cards[s] as int].marketid == 0 by {
            assert((p.objects[k].cards[s] as int) < p.cards.len());
        }
    }
    assert forall|j: int| 0 <= j < q.cards.len() implies (#[trigger] q.cards[j]).duration
        <= MAX_DURATION by {
        if j < p.cards.len() {
            assert(p.cards[j].duration <= MAX_DURATION);
        }
    }
}

/// Removing a card that is in no ring keeps the player valid.
pub proof fn lemma_removed_wf(p: PlayerDataView, card_index: int)
    requires
        p.wf(),
        0 <= card_index < p.cards.len(),
        !p.card_used(card_index),
    ensures
        p.removed(card_index).wf(),
{
    let q = p.removed(card_index);
    let last = p.cards.len() - 1;
    assert forall|k: int| 0 <= k < q.objects.len() implies (#[trigger] q.objects[k]).wf()
        && ring_points_at(q.cards, q.objects[k].cards) by {
        assert(p.objects[k].wf());
        assert(ring_points_at(p.cards, p.objects[k].cards));
        if card_index != last {
            lemma_remapped_ring(p.objects[k].cards, 8, last, card_index);
        }
        assert forall|s: int| 0 <= s < RING_SIZE implies (#[trigger] q.objects[k].cards[s] as int)
            < q.cards.len() && q.cards[q.objects[k].cards[s] as int].marketid == 0 by {
            let before = p.objects[k].cards[s];
            assert(before != card_index);
            assert((before as int) < p.cards.len() && p.cards[before as int].marketid == 0);
            if card_index != last {
                assert(q.objects[k].cards[s] == remapped_ring(
                    p.objects[k].cards,
                    8,
                    last,
                    card_index,
                )[s]);
            }
        }
    }
    assert forall|j: int| 0 <= j < q.cards.len() implies (#[trigger] q.cards[j]).duration
        <= MAX_DURATION by {
        assert(p.cards[j].duration <= MAX_DURATION);
        assert(p.cards[last].duration <= MAX_DURATION);
    }
}

/// A removal takes exactly the removed card out of the inventory: as a multiset, the
/// cards afterwards are the cards before without that one.
pub proof fn lemma_removed_multiset(p: PlayerDataView, card_index: int)
    requires
        0 <= card_index < p.cards.len(),
    ensures
        p.removed(card_index).cards.to_multiset() == p.cards.to_multiset().remove(
            p.cards[card_index],
        ),
{
    broadcast use vstd::multiset::group_multiset_axioms;

    let last = p.cards.last();
    let swapped = p.cards.update(card_index, last);
    vstd::seq_lib::to_multiset_update(p.cards, card_index, last);
    assert(swapped.drop_last() =~= swapped.remove(swapped.len() - 1));
    vstd::seq_lib::to_multiset_remove(swapped, swapped.len() - 1);
    assert(swapped[swapped.len() - 1] == last);
    p.cards.to_multiset_ensures();
    assert(p.cards.contains(p.cards[card_index]));
    assert(p.cards.to_multiset().insert(last).remove(p.cards[card_index]).remove(last)
        =~= p.cards.to_multiset().remove(p.cards[card_index]));
}

} // verus!
