use automata::card::BidInfo;
use automata::card::Card;
use automata::card::MarketCard;
use automata::object::Object;
use automata::player::PlayerData;
use automata::state::BidCard;
use automata::state::Command;
use automata::state::ListCardInMarket;
use automata::state::SellCard;
use automata::state::Transaction;
use automata::world::MarketEvent;
use automata::world::World;

const ADMIN: [u64; 4] = [1, 2, 3, 4];
const OWNER: [u64; 2] = [1, 1];
const ALICE: [u64; 2] = [2, 2];
const BOB: [u64; 2] = [3, 3];

fn world() -> World {
    let mut w = World::new(ADMIN);
    for pid in [OWNER, ALICE, BOB] {
        assert_eq!(Transaction::install_player(&mut w, &pid), Ok(()));
    }
    for p in w.players.iter_mut() {
        p.data.local.0[7] = 10_000;
    }
    w
}

fn run(w: &mut World, pid: [u64; 2], command: Command) -> u64 {
    let nonce = match w.find_player(&pid) {
        Some(i) => w.players[i].nonce,
        None => 0,
    };
    let t = Transaction { nonce, command };
    let key = [9, 9, 9, 9];
    assert!(t.admissible(w, &key, &pid));
    let out = t.process(w, &key, &pid, &[0, 0, 0, 0]);
    assert_eq!(out.len(), 2);
    assert_eq!(out[1], w.state.event_id);
    out[0]
}

fn list(card_index: usize, ask_price: u64) -> Command {
    Command::ListCardInMarket(ListCardInMarket { card_index, ask_price })
}

fn bid(marketindex: u64, price: u64) -> Command {
    Command::BidCard(BidCard { marketindex, price })
}

fn sell(card_index: usize) -> Command {
    Command::SellCard(SellCard { card_index })
}

fn balance(w: &World, pid: [u64; 2]) -> u64 {
    w.players[w.find_player(&pid).unwrap()].data.get_balance()
}

fn cards(w: &World, pid: [u64; 2]) -> Vec<Card> {
    w.players[w.find_player(&pid).unwrap()].data.cards.clone()
}

fn cards_in_play(w: &World) -> usize {
    let owned: usize =
        w.players.iter().map(|p| p.data.cards.iter().filter(|c| c.marketid == 0).count()).sum();
    let listed = w.market.iter().filter(|l| l.object.marketid != 0).count();
    owned + listed
}

#[test]
fn list_card_in_market_stamps_the_card_and_returns_the_listing() {
    let mut p = PlayerData::new();
    let listing = p.list_card_in_market(1, 500, 7, OWNER).unwrap();
    assert_eq!(p.cards[1].marketid, 7);
    assert_eq!(
        listing,
        MarketCard {
            marketid: 7,
            askprice: 500,
            settleinfo: 0,
            bid: None,
            object: Card { duration: 110, attributes: [3, 0, -2, 0, 0, 0, 0, 0], marketid: 7 },
            owner: OWNER,
        }
    );
    assert_eq!(p.cards[0].marketid, 0);
    assert_eq!(p.cards[2].marketid, 0);
}

#[test]
fn list_card_in_market_refuses_cards_in_use() {
    let mut p = PlayerData::new();
    p.objects.push(Object::new([0, 1, 0, 1, 0, 1, 0, 1]));
    assert_eq!(p.list_card_in_market(1, 500, 7, OWNER), Err(8));
    assert_eq!(p.list_card_in_market(3, 500, 7, OWNER), Err(4));
    assert!(p.list_card_in_market(2, 500, 7, OWNER).is_ok());
    assert_eq!(p.list_card_in_market(2, 500, 8, OWNER), Err(8));
    assert_eq!(p.cards[2].marketid, 7);
    assert_eq!(p.cards[1].marketid, 0);
}

#[test]
fn listing_creates_an_open_listing_and_announces_it() {
    let mut w = world();
    assert_eq!(run(&mut w, OWNER, list(0, 500)), 0);
    let listing = MarketCard {
        marketid: 1,
        askprice: 500,
        settleinfo: 0,
        bid: None,
        object: Card { duration: 100, attributes: [-2, -2, 4, 0, 0, 0, 0, 0], marketid: 1 },
        owner: OWNER,
    };
    assert_eq!(w.market, vec![listing]);
    assert_eq!(cards(&w, OWNER)[0].marketid, 1);
    assert_eq!(w.state.market_id, 2);
    assert_eq!(w.state.event_id, 2);
    assert_eq!(w.events, vec![MarketEvent { event_id: 2, card: listing }]);
    assert_eq!(w.players[0].nonce, 1);
    assert_eq!(w.clear_events(), vec![MarketEvent { event_id: 2, card: listing }]);
    assert!(w.events.is_empty());
}

#[test]
fn listing_errors_leave_the_world_alone() {
    let mut w = world();
    assert_eq!(run(&mut w, OWNER, list(3, 500)), 4);
    assert_eq!(run(&mut w, OWNER, list(0, 500)), 0);
    assert_eq!(run(&mut w, OWNER, list(0, 600)), 8);
    assert_eq!(run(&mut w, [8, 8], list(0, 600)), 2);
    w.players[0].data.current_cost = 20_000;
    assert_eq!(run(&mut w, OWNER, list(1, 500)), 3);
    assert_eq!(cards(&w, OWNER)[1].marketid, 0);
    assert_eq!(w.market.len(), 1);
    assert_eq!(w.state.market_id, 2);
    assert_eq!(w.state.event_id, 2);
    assert_eq!(w.players[0].nonce, 1);
}

#[test]
fn a_bid_below_the_ask_price_is_pending_and_a_bid_at_it_settles() {
    let mut w = world();
    assert_eq!(run(&mut w, OWNER, list(0, 500)), 0);
    assert_eq!(cards_in_play(&w), 9);

    assert_eq!(run(&mut w, ALICE, bid(1, 400)), 0);
    assert_eq!(w.market[0].settleinfo, 1);
    assert_eq!(w.market[0].bid, Some(BidInfo { bidprice: 400, bidder: ALICE }));
    assert_eq!(w.market[0].object.marketid, 1);
    assert_eq!(w.market[0].owner, OWNER);
    assert_eq!(balance(&w, ALICE), 9_600);
    assert_eq!(cards(&w, OWNER).len(), 3);
    assert_eq!(w.state.event_id, 3);
    assert_eq!(w.events[1], MarketEvent { event_id: 2, card: w.market[0] });
    assert_eq!(cards_in_play(&w), 9);

    assert_eq!(run(&mut w, BOB, bid(1, 600)), 0);
    let delivered = Card { duration: 100, attributes: [-2, -2, 4, 0, 0, 0, 0, 0], marketid: 0 };
    assert_eq!(
        w.market[0],
        MarketCard {
            marketid: 1,
            askprice: 500,
            settleinfo: 2,
            bid: Some(BidInfo { bidprice: 600, bidder: BOB }),
            object: delivered,
            owner: BOB,
        }
    );
    assert_eq!(balance(&w, ALICE), 10_000);
    assert_eq!(balance(&w, BOB), 9_400);
    assert_eq!(balance(&w, OWNER), 10_600);
    assert_eq!(cards(&w, BOB).len(), 4);
    assert_eq!(cards(&w, BOB)[3], delivered);
    // the owner's last card took the place of the sold one
    let left = cards(&w, OWNER);
    assert_eq!(left.len(), 2);
    assert_eq!(left[0].duration, 120);
    assert_eq!(left[1].duration, 110);
    assert!(left.iter().all(|c| c.marketid == 0));
    assert_eq!(w.state.event_id, 4);
    assert_eq!(w.events[2], MarketEvent { event_id: 3, card: w.market[0] });
    assert_eq!(cards_in_play(&w), 9);
}

#[test]
fn a_bid_at_the_ask_price_settles_at_once() {
    let mut w = world();
    assert_eq!(run(&mut w, OWNER, list(2, 500)), 0);
    assert_eq!(run(&mut w, ALICE, bid(1, 500)), 0);
    assert_eq!(w.market[0].settleinfo, 2);
    assert_eq!(w.market[0].owner, ALICE);
    assert_eq!(balance(&w, ALICE), 9_500);
    assert_eq!(balance(&w, OWNER), 10_500);
    assert_eq!(cards(&w, OWNER).len(), 2);
    assert_eq!(cards(&w, ALICE).len(), 4);
}

#[test]
fn selling_without_a_bidder_fails_and_leaves_the_listing_open() {
    let mut w = world();
    assert_eq!(run(&mut w, OWNER, list(0, 500)), 0);
    let listing = w.market[0];
    assert_eq!(run(&mut w, OWNER, sell(0)), 10);
    assert_eq!(w.market, vec![listing]);
    assert_eq!(w.market[0].object.marketid, 1);
    assert_eq!(w.market[0].settleinfo, 0);
    let inventory = cards(&w, OWNER);
    assert_eq!(inventory.len(), 3);
    assert_eq!(inventory[0].marketid, 1);
    assert_eq!(balance(&w, OWNER), 10_000);
    assert_eq!(w.players[0].nonce, 1);
    assert_eq!(w.state.event_id, 2);
    assert_eq!(cards_in_play(&w), 9);
}

#[test]
fn sell_card_on_the_player_without_a_bidder_changes_nothing() {
    let mut p = PlayerData::new();
    p.local.0[7] = 50;
    let listing = p.list_card_in_market(0, 500, 1, OWNER).unwrap();
    let market = vec![listing];
    assert_eq!(p.sell_card(0, &market), Err(10));
    assert_eq!(p.cards.len(), 3);
    assert_eq!(p.cards[0].marketid, 1);
    assert_eq!(p.get_balance(), 50);
    assert_eq!(p.sell_card(1, &market), Err(4));
    assert_eq!(p.sell_card(3, &market), Err(4));
}

#[test]
fn sell_card_on_the_player_cashes_the_bid_in() {
    let mut p = PlayerData::new();
    p.local.0[7] = 50;
    let mut listing = p.list_card_in_market(0, 500, 1, OWNER).unwrap();
    listing.set_bidder(Some(BidInfo { bidprice: 400, bidder: ALICE }));
    let market = vec![listing];
    assert_eq!(p.sell_card(0, &market), Ok(listing));
    assert_eq!(p.get_balance(), 450);
    assert_eq!(p.cards.len(), 2);
    assert_eq!(p.cards[0].duration, 120);
}

#[test]
fn selling_hands_the_card_to_the_bidder() {
    let mut w = world();
    assert_eq!(run(&mut w, OWNER, list(1, 500)), 0);
    assert_eq!(run(&mut w, ALICE, bid(1, 400)), 0);
    assert_eq!(run(&mut w, OWNER, sell(1)), 0);
    assert_eq!(balance(&w, OWNER), 10_400);
    assert_eq!(balance(&w, ALICE), 9_600);
    assert_eq!(cards(&w, OWNER).len(), 2);
    let delivered = Card { duration: 110, attributes: [3, 0, -2, 0, 0, 0, 0, 0], marketid: 0 };
    assert_eq!(cards(&w, ALICE)[3], delivered);
    assert_eq!(w.market[0].settleinfo, 2);
    assert_eq!(w.market[0].object, delivered);
    assert_eq!(w.market[0].bid, Some(BidInfo { bidprice: 400, bidder: ALICE }));
    assert_eq!(w.events.last(), Some(&MarketEvent { event_id: 3, card: w.market[0] }));
    assert_eq!(w.state.event_id, 4);
    assert_eq!(cards_in_play(&w), 9);
}

#[test]
fn selling_an_unlisted_or_missing_card_is_out_of_bound() {
    let mut w = world();
    assert_eq!(run(&mut w, OWNER, sell(0)), 4);
    assert_eq!(run(&mut w, OWNER, sell(9)), 4);
    assert_eq!(run(&mut w, [8, 8], sell(0)), 2);
}

#[test]
fn the_holder_of_a_bid_pays_only_the_difference_to_raise_it() {
    let mut w = world();
    assert_eq!(run(&mut w, OWNER, list(0, 500)), 0);
    assert_eq!(run(&mut w, ALICE, bid(1, 400)), 0);
    assert_eq!(run(&mut w, ALICE, bid(1, 450)), 0);
    assert_eq!(balance(&w, ALICE), 9_550);
    assert_eq!(w.market[0].bid, Some(BidInfo { bidprice: 450, bidder: ALICE }));
    assert_eq!(w.market[0].settleinfo, 1);
    assert_eq!(run(&mut w, ALICE, bid(1, 450)), 0);
    assert_eq!(balance(&w, ALICE), 9_550);
    assert_eq!(run(&mut w, ALICE, bid(1, 449)), 9);
    assert_eq!(balance(&w, ALICE), 9_550);
    assert_eq!(w.market[0].bid, Some(BidInfo { bidprice: 450, bidder: ALICE }));
}

#[test]
fn a_bid_must_beat_the_bid_of_another() {
    let mut w = world();
    assert_eq!(run(&mut w, OWNER, list(0, 500)), 0);
    assert_eq!(run(&mut w, ALICE, bid(1, 400)), 0);
    assert_eq!(run(&mut w, BOB, bid(1, 400)), 9);
    assert_eq!(run(&mut w, BOB, bid(1, 399)), 9);
    assert_eq!(balance(&w, BOB), 10_000);
    assert_eq!(balance(&w, ALICE), 9_600);
    assert_eq!(run(&mut w, BOB, bid(1, 401)), 0);
    assert_eq!(balance(&w, BOB), 9_599);
    assert_eq!(balance(&w, ALICE), 10_000);
    assert_eq!(w.market[0].bid, Some(BidInfo { bidprice: 401, bidder: BOB }));
}

#[test]
fn the_recorded_bid_never_goes_down_while_the_listing_is_open() {
    let mut w = world();
    assert_eq!(run(&mut w, OWNER, list(0, 5000)), 0);
    let mut last = 0;
    for (who, price) in [(ALICE, 10), (BOB, 5), (BOB, 20), (ALICE, 20), (ALICE, 15), (ALICE, 30)] {
        let _ = run(&mut w, who, bid(1, price));
        let recorded = w.market[0].bid.unwrap().bidprice;
        assert!(recorded >= last);
        last = recorded;
    }
    assert_eq!(last, 30);
    assert_eq!(balance(&w, ALICE) + balance(&w, BOB) + 30, 20_000);
}

#[test]
fn a_bid_needs_the_balance() {
    let mut w = world();
    assert_eq!(run(&mut w, OWNER, list(0, 50_000)), 0);
    assert_eq!(run(&mut w, ALICE, bid(1, 10_001)), 3);
    assert_eq!(run(&mut w, ALICE, bid(1, 10_000)), 0);
    assert_eq!(balance(&w, ALICE), 0);
    // the bid that is held counts towards a raise
    assert_eq!(run(&mut w, ALICE, bid(1, 10_001)), 3);
    w.players[1].data.local.0[7] = 1;
    assert_eq!(run(&mut w, ALICE, bid(1, 10_001)), 0);
    assert_eq!(balance(&w, ALICE), 0);
    assert_eq!(run(&mut w, OWNER, bid(1, u64::MAX)), 3);
}

#[test]
fn a_low_bid_on_a_settled_listing_is_refused() {
    let mut w = world();
    assert_eq!(run(&mut w, OWNER, list(0, 500)), 0);
    assert_eq!(run(&mut w, ALICE, bid(1, 500)), 0);
    let settled = w.market[0];
    assert_eq!(run(&mut w, BOB, bid(1, 499)), 8);
    assert_eq!(w.market[0], settled);
    assert_eq!(balance(&w, BOB), 10_000);
    assert_eq!(run(&mut w, [8, 8], bid(1, 499)), 2);
}

#[test]
fn a_settled_listing_takes_no_bid_whatever_the_price() {
    let mut w = world();
    assert_eq!(run(&mut w, OWNER, list(0, 500)), 0);
    assert_eq!(run(&mut w, ALICE, bid(1, 500)), 0);
    assert_eq!(cards_in_play(&w), 9);
    let settled = w.market[0];
    let events = w.events.len();
    for price in [0, 100, 499, 500, 501, 600, 10_000, u64::MAX] {
        for who in [OWNER, ALICE, BOB] {
            assert_eq!(run(&mut w, who, bid(1, price)), 8);
        }
    }
    assert_eq!(w.market, vec![settled]);
    assert_eq!(w.market[0].settleinfo, 2);
    assert_eq!(w.market[0].owner, ALICE);
    assert_eq!(balance(&w, OWNER), 10_500);
    assert_eq!(balance(&w, ALICE), 9_500);
    assert_eq!(balance(&w, BOB), 10_000);
    assert_eq!(cards(&w, OWNER).len(), 2);
    assert_eq!(cards(&w, ALICE).len(), 4);
    assert_eq!(cards(&w, BOB).len(), 3);
    assert_eq!(w.events.len(), events);
    assert_eq!(w.state.event_id, 3);
    assert_eq!(w.players.iter().map(|p| p.nonce).collect::<Vec<u64>>(), vec![1, 1, 0]);
    assert_eq!(cards_in_play(&w), 9);
}

#[test]
fn a_listing_that_was_sold_takes_no_bid_either() {
    let mut w = world();
    assert_eq!(run(&mut w, OWNER, list(1, 500)), 0);
    assert_eq!(run(&mut w, ALICE, bid(1, 400)), 0);
    assert_eq!(run(&mut w, OWNER, sell(1)), 0);
    let settled = w.market[0];
    assert_eq!(run(&mut w, BOB, bid(1, 600)), 8);
    assert_eq!(run(&mut w, ALICE, bid(1, 450)), 8);
    assert_eq!(w.market[0], settled);
    assert_eq!(balance(&w, BOB), 10_000);
    assert_eq!(balance(&w, ALICE), 9_600);
    assert_eq!(cards(&w, BOB).len(), 3);
    assert_eq!(cards_in_play(&w), 9);
}

#[test]
fn the_card_that_arrives_is_the_card_that_was_listed() {
    let mut w = world();
    let listed = cards(&w, OWNER)[1];
    assert_eq!(run(&mut w, OWNER, list(1, 500)), 0);
    assert_eq!(w.market[0].object, Card { marketid: 1, ..listed });
    assert_eq!(cards(&w, OWNER)[1], w.market[0].object);
    assert_eq!(run(&mut w, BOB, bid(1, 500)), 0);
    assert_eq!(cards(&w, BOB), vec![cards(&w, ALICE)[0], cards(&w, ALICE)[1], cards(&w, ALICE)[2], listed]);
    assert_eq!(cards(&w, OWNER), vec![cards(&w, ALICE)[0], cards(&w, ALICE)[2]]);
    assert_eq!(cards(&w, ALICE).len(), 3);
}

#[test]
fn raising_the_own_bid_needs_no_room_for_a_refund() {
    let mut w = world();
    assert_eq!(run(&mut w, OWNER, list(0, 50_000)), 0);
    assert_eq!(run(&mut w, ALICE, bid(1, 400)), 0);
    // the holder's balance is at its limit: a refund would not fit, a raise does
    w.players[1].data.local.0[7] = i64::MAX;
    assert_eq!(run(&mut w, ALICE, bid(1, 450)), 0);
    assert_eq!(balance(&w, ALICE), i64::MAX as u64 - 50);
    // another bidder would have to refund the holder first
    let t = Transaction { nonce: w.players[2].nonce, command: bid(1, 500) };
    assert!(!t.admissible(&w, &[9, 9, 9, 9], &BOB));
}

#[test]
fn the_owner_may_buy_the_own_card_back() {
    let mut w = world();
    assert_eq!(run(&mut w, OWNER, list(0, 500)), 0);
    assert_eq!(run(&mut w, OWNER, bid(1, 500)), 0);
    assert_eq!(balance(&w, OWNER), 10_000);
    let inventory = cards(&w, OWNER);
    assert_eq!(inventory.len(), 3);
    assert!(inventory.iter().all(|c| c.marketid == 0));
    assert_eq!(w.market[0].settleinfo, 2);
    assert_eq!(cards_in_play(&w), 9);
}

#[test]
fn rings_follow_the_card_that_fills_the_gap() {
    let mut w = world();
    // the owner runs an object on cards 1 and 2 and sells card 0
    w.players[0].data.objects.push(Object::new([1, 2, 1, 2, 1, 2, 1, 2]));
    assert_eq!(run(&mut w, OWNER, list(0, 500)), 0);
    assert_eq!(run(&mut w, BOB, bid(1, 500)), 0);
    let p = &w.players[0].data;
    assert_eq!(p.cards.len(), 2);
    assert_eq!(p.cards[0].duration, 120);
    assert_eq!(p.objects[0].cards, [1, 0, 1, 0, 1, 0, 1, 0]);
}

#[test]
fn listing_bidding_and_selling_conserve_the_cards() {
    let mut w = world();
    let start = cards_in_play(&w);
    let steps = [
        (OWNER, list(0, 500)),
        (ALICE, list(1, 100)),
        (BOB, bid(1, 300)),
        (OWNER, bid(2, 50)),
        (ALICE, bid(1, 350)),
        (ALICE, sell(1)),
        (BOB, bid(1, 900)),
        (OWNER, sell(0)),
        (BOB, list(3, 1)),
        (OWNER, bid(3, 1)),
    ];
    for (who, command) in steps {
        let _ = run(&mut w, who, command);
        assert_eq!(cards_in_play(&w), start);
    }
}
