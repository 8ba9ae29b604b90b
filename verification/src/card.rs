//! Cards and their market listings.

use vstd::prelude::*;

verus! {

/// Longest duration a card may carry: delays are kept in 32 bits.
pub const MAX_DURATION: u64 = 0xffff_ffff;

/// An attribute-delta template. Only `marketid` changes after creation:
/// `0` while the card is not listed, else the id of its listing.
#[derive(Clone, Copy, Debug, PartialEq, Eq)]
pub struct Card {
    pub duration: u64,
    pub attributes: [i8; 8],
    pub marketid: u64,
}

impl Card {
    /// An unlisted card.
    pub fn new(duration: u64, attributes: [i8; 8]) -> (c: Self)
        ensures
            c.duration == duration,
            c.attributes == attributes,
            c.marketid == 0,
    {
        Card { duration, attributes, marketid: 0 }
    }

    /// Whether the card is on the market.
    pub open spec fn listed(self) -> bool {
        self.marketid != 0
    }
}

/// The three cards every new player starts with, as values.
pub open spec fn default_deck() -> Seq<Card> {
    seq![
        Card { duration: 100, attributes: [-2i8, -2i8, 4, 0, 0, 0, 0, 0], marketid: 0 },
        Card { duration: 110, attributes: [3i8, 0, -2i8, 0, 0, 0, 0, 0], marketid: 0 },
        Card { duration: 120, attributes: [0i8, 3, -2i8, 0, 0, 0, 0, 0], marketid: 0 },
    ]
}

/// The three cards every new player starts with.
pub fn default_cards() -> (v: Vec<Card>)
    ensures
        v@ == default_deck(),
{
    let mut v: Vec<Card> = Vec::new();
    v.push(Card::new(100, [-2, -2, 4, 0, 0, 0, 0, 0]));
    v.push(Card::new(110, [3, 0, -2, 0, 0, 0, 0, 0]));
    v.push(Card::new(120, [0, 3, -2, 0, 0, 0, 0, 0]));
    proof {
        let d = default_deck();
        assert(v@[0].attributes =~= d[0].attributes);
        assert(v@[1].attributes =~= d[1].attributes);
        assert(v@[2].attributes =~= d[2].attributes);
        assert(v@ =~= d);
    }
    v
}

/// The highest bid on a listing and who placed it.
#[derive(Clone, Copy, Debug, PartialEq, Eq)]
pub struct BidInfo {
    pub bidprice: u64,
    pub bidder: [u64; 2],
}

/// Settlement progress of a listing: no bid yet.
pub const SETTLE_NONE: u64 = 0;

/// Settlement progress of a listing: a bid is pending.
pub const SETTLE_BIDDING: u64 = 1;

/// Settlement progress of a listing: sold.
pub const SETTLE_DONE: u64 = 2;

/// A listing: a snapshot of the card with the auction state around it.
/// The listing is open while the snapshot still carries its market id.
#[derive(Clone, Copy, Debug, PartialEq, Eq)]
pub struct MarketCard {
    pub marketid: u64,
    pub askprice: u64,
    pub settleinfo: u64,
    pub bid: Option<BidInfo>,
    pub object: Card,
    pub owner: [u64; 2],
}

impl MarketCard {
    /// A listing made of its parts.
    pub fn new(
        marketid: u64,
        askprice: u64,
        settleinfo: u64,
        bid: Option<BidInfo>,
        object: Card,
        owner: [u64; 2],
    ) -> (m: Self)
        ensures
            m == (MarketCard { marketid, askprice, settleinfo, bid, object, owner }),
    {
        MarketCard { marketid, askprice, settleinfo, bid, object, owner }
    }

    /// Whether bids below the ask price are still taken.
    pub open spec fn is_open(self) -> bool {
        self.object.marketid != 0
    }

    /// The listing once it is settled: marked as sold, its card unlisted.
    pub open spec fn closed(self) -> Self {
        MarketCard {
            settleinfo: SETTLE_DONE,
            object: Card { marketid: 0, ..self.object },
            ..self
        }
    }

    /// Settles the listing: marks it as sold and unlists its card.
    pub fn settle(&mut self)
        ensures
            *final(self) == old(self).closed(),
            !final(self).is_open(),
    {
        self.settleinfo = SETTLE_DONE;
        self.object.marketid = 0;
    }

    /// The highest bid, if there is one.
    pub fn get_bidder(&self) -> (b: Option<BidInfo>)
        ensures
            b == self.bid,
    {
        self.bid
    }

    /// Replaces the highest bid.
    pub fn set_bidder(&mut self, bidder: Option<BidInfo>)
        ensures
            *final(self) == (MarketCard { bid: bidder, ..*old(self) }),
    {
        self.bid = bidder;
    }

    /// The identity of the owner.
    pub fn get_owner(&self) -> (o: [u64; 2])
        ensures
            o == self.owner,
    {
        self.owner
    }

    /// Replaces the owner.
    pub fn set_owner(&mut self, pid: [u64; 2])
        ensures
            *final(self) == (MarketCard { owner: pid, ..*old(self) }),
    {
        self.owner = pid;
    }
}

} // verus!
