use automata::card::Card;
use automata::object::Object;
use automata::object::ObjectState;
use automata::player::PlayerData;

#[test]
fn card_takes_three_words() {
    let card = Card { duration: 100, attributes: [-2, -2, 4, 0, 0, 0, 0, 127], marketid: 9 };
    let mut data = vec![55];
    card.to_data(&mut data);
    assert_eq!(data, vec![55, 100, 0x7f00_0000_0004_fefe, 9]);
    assert_eq!(Card::from_data(&data, 1), Some((card, 4)));
}

#[test]
fn card_needs_three_words() {
    let data = vec![1, 2, 3, 4];
    assert!(Card::from_data(&data, 1).is_some());
    assert_eq!(Card::from_data(&data, 2), None);
    assert_eq!(Card::from_data(&data, 4), None);
    assert_eq!(Card::from_data(&data, usize::MAX), None);
    assert_eq!(Card::from_data(&[], 0), None);
}

#[test]
fn card_deltas_keep_their_sign() {
    let card = Card { duration: 1, attributes: [-128, -1, 0, 1, 127, -64, 64, -127], marketid: 0 };
    let mut data = Vec::new();
    card.to_data(&mut data);
    assert_eq!(Card::from_data(&data, 0), Some((card, 3)));
}

#[test]
fn object_takes_three_words() {
    let mut o = Object::new([0, 1, 2, 0, 0, 0, 0, 9]);
    o.attributes = [1, 2, 3, 4, 5, 6, 7, 255];
    o.state = ObjectState::Restarting;
    o.modifier_index = 5;
    o.counter = 0x1234;
    let mut data = Vec::new();
    o.to_data(&mut data);
    assert_eq!(
        data,
        vec![0x0900_0000_0002_0100, 0xff07_0605_0403_0201, (2 << 56) | (5 << 48) | 0x1234]
    );
    assert_eq!(Object::from_data(&data, 0), Some((o, 3)));
}

#[test]
fn object_states_have_their_codes() {
    for (state, code) in
        [(ObjectState::Running, 0u64), (ObjectState::Halted, 1), (ObjectState::Restarting, 2)]
    {
        let mut o = Object::new([0; 8]);
        o.state = state;
        let mut data = Vec::new();
        o.to_data(&mut data);
        assert_eq!(data[2] >> 56, code);
        assert_eq!(Object::from_data(&data, 0), Some((o, 3)));
    }
}

#[test]
fn object_with_unknown_state_or_cursor_is_not_read() {
    assert_eq!(Object::from_data(&[0, 0, 3 << 56], 0), None);
    assert_eq!(Object::from_data(&[0, 0, 8 << 48], 0), None);
    assert!(Object::from_data(&[0, 0, (2 << 56) | (7 << 48)], 0).is_some());
    assert_eq!(Object::from_data(&[0, 0], 0), None);
}

fn sample_player() -> PlayerData {
    let mut p = PlayerData::new();
    p.level = 3;
    p.exp = 17;
    p.last_check_point = 4000;
    p.energy = 99;
    p.cost_info = 4;
    p.current_cost = 16;
    p.redeem_info = [1, 0, 2, 0, 0, 0, 0, 0];
    p.last_interest_stamp = (500 << 32) | 4001;
    p.local.0[7] = 500;
    let mut o = Object::new([0, 1, 2, 0, 0, 0, 0, 0]);
    o.attributes[1] = 3;
    o.start_new_modifier(1, 3990);
    p.objects.push(o);
    let mut halted = Object::new([2; 8]);
    halted.halt();
    p.objects.push(halted);
    p.cards[1].marketid = 6;
    p
}

fn same_player(a: &PlayerData, b: &PlayerData) -> bool {
    a.level == b.level
        && a.exp == b.exp
        && a.last_check_point == b.last_check_point
        && a.energy == b.energy
        && a.cost_info == b.cost_info
        && a.current_cost == b.current_cost
        && a.redeem_info == b.redeem_info
        && a.last_interest_stamp == b.last_interest_stamp
        && a.objects == b.objects
        && a.local.0 == b.local.0
        && a.cards == b.cards
}

#[test]
fn player_header_words() {
    let p = sample_player();
    let mut data = Vec::new();
    p.to_data(&mut data);
    assert_eq!(data[0], (3 << 48) | (17 << 32) | 4000);
    assert_eq!(data[1], (99 << 48) | (4 << 32) | 16);
    assert_eq!(data[2], 0x0002_0001);
    assert_eq!(data[3], (500 << 32) | 4001);
    assert_eq!(data[4], 2);
    assert_eq!(data[5 + 6], 8);
    assert_eq!(&data[12..20], &[30, 30, 0, 0, 2, 0, 0, 500]);
    assert_eq!(data[20], 3);
    assert_eq!(data.len(), 5 + 6 + 1 + 8 + 1 + 9);
}

#[test]
fn fresh_player_words() {
    let p = PlayerData::new();
    let mut data = Vec::new();
    p.to_data(&mut data);
    assert_eq!(
        data,
        vec![
            1 << 48,
            (10 << 48) | (40 << 32),
            0,
            0,
            0,
            8,
            30,
            30,
            0,
            0,
            2,
            0,
            0,
            0,
            3,
            100,
            0x04_fefe,
            0,
            110,
            0xfe_0003,
            0,
            120,
            0xfe_0300,
            0,
        ]
    );
}

#[test]
fn player_round_trip() {
    let p = sample_player();
    let mut data = vec![7, 7, 7];
    p.to_data(&mut data);
    data.push(9);
    let (q, next) = PlayerData::from_data(&data, 3).unwrap();
    assert!(same_player(&p, &q));
    assert_eq!(next, data.len() - 1);
}

#[test]
fn truncated_player_is_not_read() {
    let p = sample_player();
    let mut data = Vec::new();
    p.to_data(&mut data);
    for cut in 0..data.len() {
        assert!(PlayerData::from_data(&data[..cut], 0).is_none());
    }
    assert!(PlayerData::from_data(&data, 0).is_some());
    assert!(PlayerData::from_data(&data, 1).is_none());
    assert!(PlayerData::from_data(&data, data.len() + 1).is_none());
}

#[test]
fn player_with_a_negative_resource_is_not_read() {
    let p = PlayerData::new();
    let mut data = Vec::new();
    p.to_data(&mut data);
    data[6] = u64::MAX;
    assert!(PlayerData::from_data(&data, 0).is_none());
    data[6] = i64::MAX as u64;
    assert!(PlayerData::from_data(&data, 0).is_some());
}

#[test]
fn player_with_a_count_beyond_the_data_is_not_read() {
    let p = PlayerData::new();
    let mut data = Vec::new();
    p.to_data(&mut data);
    let mut objects = data.clone();
    objects[4] = u64::MAX;
    assert!(PlayerData::from_data(&objects, 0).is_none());
    let mut local = data.clone();
    local[5] = u64::MAX;
    assert!(PlayerData::from_data(&local, 0).is_none());
    let mut cards = data.clone();
    cards[14] = 4;
    assert!(PlayerData::from_data(&cards, 0).is_none());
}

#[test]
fn event_takes_four_words() {
    let e = automata::events::Event { object_index: 3, owner: [7, 8], delta: 99 };
    let mut data = vec![1];
    e.to_data(&mut data);
    assert_eq!(data, vec![1, 3, 7, 8, 99]);
    assert_eq!(automata::events::Event::from_data(&data, 1), Some((e, 5)));
    assert_eq!(automata::events::Event::from_data(&data, 2), None);
}

#[test]
fn listing_takes_twelve_words() {
    let card = Card { duration: 100, attributes: [-2, -2, 4, 0, 0, 0, 0, 0], marketid: 5 };
    let mut l = automata::card::MarketCard::new(5, 500, 1, None, card, [1, 2]);
    let mut data = Vec::new();
    l.to_data(&mut data);
    assert_eq!(data, vec![5, 500, 1, 0, 0, 0, 0, 100, 0x04_fefe, 5, 1, 2]);
    assert_eq!(automata::card::MarketCard::from_data(&data, 0), Some((l, 12)));
    l.set_bidder(Some(automata::card::BidInfo { bidprice: 400, bidder: [3, 4] }));
    let mut data = vec![0, 0];
    l.to_data(&mut data);
    assert_eq!(data, vec![0, 0, 5, 500, 1, 1, 400, 3, 4, 100, 0x04_fefe, 5, 1, 2]);
    assert_eq!(automata::card::MarketCard::from_data(&data, 2), Some((l, 14)));
    data[5] = 2;
    assert_eq!(automata::card::MarketCard::from_data(&data, 2), None);
    assert_eq!(automata::card::MarketCard::from_data(&data[..13], 2), None);
}

#[test]
fn player_record_round_trip() {
    let p = automata::world::AutomataPlayer { player_id: [4, 5], nonce: 17, data: sample_player() };
    let mut data = vec![9];
    p.to_data(&mut data);
    assert_eq!(&data[..4], &[9, 17, 4, 5]);
    let (q, next) = automata::world::AutomataPlayer::from_data(&data, 1).unwrap();
    assert_eq!(q.player_id, [4, 5]);
    assert_eq!(q.nonce, 17);
    assert!(same_player(&p.data, &q.data));
    assert_eq!(next, data.len());
    assert!(automata::world::AutomataPlayer::from_data(&data[..data.len() - 1], 1).is_none());
    assert!(automata::world::AutomataPlayer::from_data(&[1, 2], 0).is_none());
}

#[test]
fn ledger_round_trip() {
    let mut s = automata::world::State::new();
    s.bounty_pool = 77;
    s.market_id = 4;
    s.event_id = 9;
    s.queue.counter = 123;
    s.queue.list.push(automata::events::Event { object_index: 0, owner: [1, 2], delta: 5 });
    s.queue.list.push(automata::events::Event { object_index: 2, owner: [3, 4], delta: 0 });
    let data = s.to_data();
    assert_eq!(data, vec![1000, 77, 4, 9, 123, 2, 0, 1, 2, 5, 2, 3, 4, 0]);
    let r = automata::world::State::from_data(&data).unwrap();
    assert_eq!(r.supplier, 1000);
    assert_eq!(r.bounty_pool, 77);
    assert_eq!(r.market_id, 4);
    assert_eq!(r.event_id, 9);
    assert_eq!(r.queue.counter, 123);
    assert_eq!(r.start_time_stamp, 123);
    assert_eq!(r.queue.list, s.queue.list);
    assert!(automata::world::State::from_data(&data[..13]).is_none());
    assert!(automata::world::State::from_data(&data[..5]).is_none());
    let mut more = data.clone();
    more.push(0);
    assert!(automata::world::State::from_data(&more).is_none());
    assert!(automata::world::State::from_data(&automata::world::State::new().to_data()).is_some());
}

#[test]
fn storable_players() {
    let mut p = sample_player();
    assert!(p.is_storable());
    p.objects[0].counter = 1 << 48;
    assert!(!p.is_storable());
    p.objects[0].counter = (1 << 48) - 1;
    assert!(p.is_storable());
    p.local.0[0] = -1;
    assert!(!p.is_storable());
}
