use automata::card::default_cards;
use automata::card::Card;
use automata::card::MarketCard;
use automata::config::random_modifier;
use automata::math::floor_log2;
use automata::math::from_le_bytes;
use automata::math::get_byte;
use automata::math::le_bytes;
use automata::math::pack_hi_lo;
use automata::player::PlayerData;
use automata::state::Transaction;
use automata::world::State;
use automata::world::World;

#[test]
fn floor_log2_is_the_floor_of_the_logarithm() {
    assert_eq!(floor_log2(1), 0);
    assert_eq!(floor_log2(2), 1);
    assert_eq!(floor_log2(3), 1);
    assert_eq!(floor_log2(4), 2);
    assert_eq!(floor_log2(6), 2);
    assert_eq!(floor_log2(255), 7);
    assert_eq!(floor_log2(256), 8);
    assert_eq!(floor_log2(u64::MAX), 63);
    for x in 1..5000u64 {
        assert_eq!(floor_log2(x), x.ilog2());
    }
}

#[test]
fn bytes_of_a_word() {
    let x: u64 = 0x0102_0304_0506_0708;
    assert_eq!(le_bytes(x), x.to_le_bytes());
    assert_eq!(le_bytes(x), [8, 7, 6, 5, 4, 3, 2, 1]);
    assert_eq!(get_byte(x, 0), 8);
    assert_eq!(get_byte(x, 7), 1);
    assert_eq!(from_le_bytes(&[8, 7, 6, 5, 4, 3, 2, 1]), x);
    assert_eq!(from_le_bytes(&le_bytes(u64::MAX - 77)), u64::MAX - 77);
}

#[test]
fn pack_keeps_the_low_half_of_the_high_word() {
    assert_eq!(pack_hi_lo(7, 5), (7 << 32) | 5);
    assert_eq!(pack_hi_lo(0x1_0000_0003, 0xffff_ffff), (3 << 32) | 0xffff_ffff);
}

#[test]
fn default_cards_are_three_unlisted_cards() {
    let cards = default_cards();
    assert_eq!(
        cards,
        vec![
            Card { duration: 100, attributes: [-2, -2, 4, 0, 0, 0, 0, 0], marketid: 0 },
            Card { duration: 110, attributes: [3, 0, -2, 0, 0, 0, 0, 0], marketid: 0 },
            Card { duration: 120, attributes: [0, 3, -2, 0, 0, 0, 0, 0], marketid: 0 },
        ]
    );
}

#[test]
fn market_card_new_keeps_its_arguments() {
    let card = Card::new(9, [1, 2, 3, 4, 5, 6, 7, 8]);
    let mut m = MarketCard::new(3, 500, 0, None, card, [7, 8]);
    assert_eq!(m.marketid, 3);
    assert_eq!(m.askprice, 500);
    assert_eq!(m.settleinfo, 0);
    assert_eq!(m.get_bidder(), None);
    assert_eq!(m.object, card);
    assert_eq!(m.get_owner(), [7, 8]);
    m.set_owner([1, 1]);
    assert_eq!(m.owner, [1, 1]);
    let bid = automata::card::BidInfo { bidprice: 4, bidder: [2, 2] };
    m.set_bidder(Some(bid));
    assert_eq!(m.get_bidder(), Some(bid));
}

#[test]
fn random_modifier_is_a_function_of_its_arguments() {
    let local = [30, 30, 0, 0, 2, 0, 0, 77];
    let a = random_modifier(3, local, 0x1122_3344_5566_7788);
    let b = random_modifier(3, local, 0x1122_3344_5566_7788);
    assert_eq!(a, b);
    let c = random_modifier(3, local, 0x1122_3344_5566_7789);
    assert_ne!(a, c);
}

#[test]
fn random_modifier_follows_the_seed_bytes() {
    // bytes, low to high: 0x0f 0x0e 0x07 0x06 0x01 0x00 0xff 0x45
    let seed: u64 = 0x45ff_0001_0607_0e0f;
    let card = random_modifier(2, [30, 30, 0, 0, 2, 0, 0, 1000], seed);
    // 0x0f: odd, magnitude 7, held 30: cost 7
    // 0x0e: even, magnitude 7, level 2: gain capped at 2
    // 0x07: odd, magnitude 3, held 0: nothing
    // 0x06: even, magnitude 3, level 2: gain 2
    // 0x01: odd, magnitude 0: nothing
    // 0x00: even, magnitude 0: nothing
    // 0xff: odd, magnitude 7, held 0: nothing
    assert_eq!(card.attributes, [-7, 2, 0, 2, 0, 0, 0, 0]);
    // 0x45 = 69: 40 + 69 % 64 = 45
    assert_eq!(card.duration, 45);
    assert_eq!(card.marketid, 0);
}

#[test]
fn generate_card_appends_the_card_of_the_second_seed_word() {
    let mut p = PlayerData::new();
    p.level = 2;
    p.local.0[7] = 1000;
    let seed: u64 = 0x45ff_0001_0607_0e0f;
    p.generate_card(&[1, seed, 3, 4]);
    assert_eq!(p.cards.len(), 4);
    assert_eq!(p.cards[3], random_modifier(2, [30, 30, 0, 0, 2, 0, 0, 1000], seed));
    assert_eq!(p.cards[0].duration, 100);
}

#[test]
fn fresh_ledger() {
    let s = State::new();
    assert_eq!(s.supplier, 1000);
    assert_eq!(s.bounty_pool, 20_000_000);
    assert_eq!(s.start_time_stamp, 0);
    assert_eq!(s.market_id, 1);
    assert_eq!(s.event_id, 1);
    assert_eq!(s.queue.counter, 0);
    assert!(s.queue.list.is_empty());
    assert_eq!(State::rand_seed(), 0);
}

#[test]
fn preempt_every_sixteenth_tick_but_not_at_the_start() {
    let mut s = State::new();
    assert!(!s.preempt());
    s.queue.counter = 16;
    assert!(s.preempt());
    s.queue.counter = 17;
    assert!(!s.preempt());
    s.queue.counter = 32;
    s.start_time_stamp = 32;
    assert!(!s.preempt());
}

#[test]
fn fresh_world() {
    let w = World::new([1, 2, 3, 4]);
    assert_eq!(w.admin, [1, 2, 3, 4]);
    assert!(w.players.is_empty());
    assert!(w.market.is_empty());
    assert!(w.events.is_empty());
    assert!(w.withdrawals.is_empty());
    assert_eq!(w.find_player(&[0, 0]), None);
    assert!(w.can_tick());
}

#[test]
fn error_names() {
    assert_eq!(Transaction::decode_error(0), "Unknown");
    assert_eq!(Transaction::decode_error(1), "PlayerAlreadyExist");
    assert_eq!(Transaction::decode_error(2), "PlayerNotExist");
    assert_eq!(Transaction::decode_error(3), "NotEnoughBalance");
    assert_eq!(Transaction::decode_error(4), "IndexOutofBound");
    assert_eq!(Transaction::decode_error(5), "NotEnoughResource");
    assert_eq!(Transaction::decode_error(6), "NotEnoughLevel");
    assert_eq!(Transaction::decode_error(7), "NotEnoughFundInPool");
    assert_eq!(Transaction::decode_error(8), "CardIsInUse");
    assert_eq!(Transaction::decode_error(9), "BidPriceInSufficient");
    assert_eq!(Transaction::decode_error(10), "NoBidder");
    assert_eq!(Transaction::decode_error(11), "Unknown");
}

#[test]
fn settling_a_listing_unlists_its_card() {
    let card = Card { duration: 9, attributes: [1, 2, 3, 4, 5, 6, 7, 8], marketid: 3 };
    let mut m = MarketCard::new(3, 500, 1, None, card, [7, 8]);
    m.settle();
    assert_eq!(m.settleinfo, 2);
    assert_eq!(m.object, Card { marketid: 0, ..card });
    assert_eq!(m.marketid, 3);
    assert_eq!(m.askprice, 500);
    assert_eq!(m.owner, [7, 8]);
}
