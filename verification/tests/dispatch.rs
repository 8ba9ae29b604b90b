use automata::events::Event;
use automata::object::Object;
use automata::object::ObjectState;
use automata::state::Bounty;
use automata::state::Command;
use automata::state::Deposit;
use automata::state::InstallCard;
use automata::state::InstallObject;
use automata::state::RestartObject;
use automata::state::Transaction;
use automata::state::UpgradeObject;
use automata::state::Withdraw;
use automata::state::BidCard;
use automata::state::ListCardInMarket;
use automata::state::SellCard;
use automata::config::random_modifier;
use automata::world::World;

const ADMIN: [u64; 4] = [1, 2, 3, 4];
const ADMIN_ID: [u64; 2] = [2, 3];
const USER: [u64; 4] = [9, 9, 9, 9];
const PID: [u64; 2] = [10, 20];
const RING: [u8; 8] = [0, 1, 2, 0, 0, 0, 0, 0];

fn world() -> World {
    let mut w = World::new(ADMIN);
    assert_eq!(Transaction::install_player(&mut w, &PID), Ok(()));
    assert_eq!(Transaction::install_player(&mut w, &ADMIN_ID), Ok(()));
    w.players[0].data.local.0[7] = 5_000;
    w
}

fn send(w: &mut World, key: [u64; 4], pid: [u64; 2], command: Command) -> u64 {
    let nonce = match w.find_player(&pid) {
        Some(i) => w.players[i].nonce,
        None => 0,
    };
    let t = Transaction { nonce, command };
    assert!(t.admissible(w, &key, &pid));
    let out = t.process(w, &key, &pid, &[11, 0x45ff_0001_0607_0e0f, 33, 44]);
    assert_eq!(out, vec![out[0], w.state.event_id]);
    out[0]
}

fn run(w: &mut World, command: Command) -> u64 {
    send(w, USER, PID, command)
}

fn tick(w: &mut World) {
    assert_eq!(send(w, ADMIN, ADMIN_ID, Command::Tick), 0);
}

fn install(object_index: usize) -> Command {
    Command::InstallObject(InstallObject { object_index, modifiers: RING })
}

#[test]
fn decode_reads_opcode_nonce_and_payload() {
    let ring_word = 0x0807_0605_0403_0201;
    let ring = [1, 2, 3, 4, 5, 6, 7, 8];
    let word = |op: u64, nonce: u64| op | (0xab << 8) | (nonce << 16);
    assert_eq!(
        Transaction::decode(&[word(1, 5)]),
        Transaction { nonce: 5, command: Command::InstallPlayer }
    );
    assert_eq!(
        Transaction::decode(&[word(2, 6), 3, ring_word]),
        Transaction {
            nonce: 6,
            command: Command::InstallObject(InstallObject { object_index: 3, modifiers: ring }),
        }
    );
    assert_eq!(
        Transaction::decode(&[word(3, 7), 4, ring_word]),
        Transaction {
            nonce: 7,
            command: Command::RestartObject(RestartObject { object_index: 4, modifiers: ring }),
        }
    );
    assert_eq!(
        Transaction::decode(&[word(4, 8), 1, 2]),
        Transaction {
            nonce: 8,
            command: Command::UpgradeObject(UpgradeObject { object_index: 1, feature_index: 2 }),
        }
    );
    assert_eq!(
        Transaction::decode(&[word(5, 9)]),
        Transaction { nonce: 9, command: Command::InstallCard(InstallCard {}) }
    );
    assert_eq!(
        Transaction::decode(&[word(6, 10), 0, 70, 80, 90]),
        Transaction { nonce: 10, command: Command::Withdraw(Withdraw { data: [70, 80, 90] }) }
    );
    assert_eq!(
        Transaction::decode(&[word(7, 11), 70, 80, 0, 90]),
        Transaction { nonce: 11, command: Command::Deposit(Deposit { data: [70, 80, 90] }) }
    );
    assert_eq!(
        Transaction::decode(&[word(8, 12), 7]),
        Transaction { nonce: 12, command: Command::Bounty(Bounty { bounty_index: 7 }) }
    );
    assert_eq!(
        Transaction::decode(&[word(9, 13)]),
        Transaction { nonce: 13, command: Command::CollectEnergy }
    );
    assert_eq!(
        Transaction::decode(&[word(10, 14), 2, 500]),
        Transaction {
            nonce: 14,
            command: Command::ListCardInMarket(ListCardInMarket { card_index: 2, ask_price: 500 }),
        }
    );
    assert_eq!(
        Transaction::decode(&[word(11, 15), 3, 600]),
        Transaction { nonce: 15, command: Command::BidCard(BidCard { marketindex: 3, price: 600 }) }
    );
    assert_eq!(
        Transaction::decode(&[word(12, 16), 1]),
        Transaction { nonce: 16, command: Command::SellCard(SellCard { card_index: 1 }) }
    );
    assert_eq!(Transaction::decode(&[word(0, 17)]), Transaction { nonce: 17, command: Command::Tick });
    assert_eq!(
        Transaction::decode(&[word(13, 18), 1, 2, 3]),
        Transaction { nonce: 18, command: Command::Tick }
    );
    assert_eq!(Transaction::decode(&[u64::MAX]).nonce, u64::MAX >> 16);
}

#[test]
fn can_decode_asks_for_every_word_of_the_command() {
    assert!(!Transaction::can_decode(&[]));
    assert!(Transaction::can_decode(&[1]));
    assert!(Transaction::can_decode(&[0]));
    assert!(!Transaction::can_decode(&[2, 0]));
    assert!(Transaction::can_decode(&[2, 0, 0]));
    assert!(!Transaction::can_decode(&[8]));
    assert!(Transaction::can_decode(&[8, 1]));
    assert!(!Transaction::can_decode(&[12]));
    assert!(!Transaction::can_decode(&[6, 0, 1, 2]));
    assert!(Transaction::can_decode(&[6, 0, 1, 2, 3]));
    assert!(!Transaction::can_decode(&[6, 1, 1, 2, 3]));
    assert!(Transaction::can_decode(&[7, 1, 2, 0, 3]));
    assert!(!Transaction::can_decode(&[7, 1, 2, 1, 3]));
    assert!(!Transaction::can_decode(&[11 | (5 << 16), 1]));
}

#[test]
fn installing_a_player_twice_fails() {
    let mut w = World::new(ADMIN);
    w.state.queue.counter = 9;
    let t = Transaction { nonce: 0, command: Command::InstallPlayer };
    assert_eq!(t.process(&mut w, &USER, &PID, &[0; 4]), vec![0, 1]);
    assert_eq!(w.players.len(), 1);
    assert_eq!(w.players[0].player_id, PID);
    assert_eq!(w.players[0].nonce, 0);
    assert_eq!(w.players[0].data.last_interest_stamp, 9);
    assert_eq!(w.players[0].data.cards.len(), 3);
    assert_eq!(t.process(&mut w, &USER, &PID, &[0; 4]), vec![1, 1]);
    assert_eq!(w.players.len(), 1);
    assert_eq!(Transaction::install_player(&mut w, &PID), Err(1));
}

#[test]
fn commands_of_unknown_players_fail() {
    let mut w = World::new(ADMIN);
    for command in [
        install(0),
        Command::RestartObject(RestartObject { object_index: 0, modifiers: RING }),
        Command::UpgradeObject(UpgradeObject { object_index: 0, feature_index: 1 }),
        Command::InstallCard(InstallCard {}),
        Command::Withdraw(Withdraw { data: [1, 2, 3] }),
        Command::Bounty(Bounty { bounty_index: 0 }),
        Command::CollectEnergy,
    ] {
        assert_eq!(run(&mut w, command), 2);
    }
    assert!(w.players.is_empty());
    assert_eq!(Transaction::collect_energy(&mut w, &PID), Err(2));
    assert_eq!(Transaction::collect_interest(&mut w, &PID), Err(2));
}

#[test]
fn a_nonce_is_good_for_one_command() {
    let mut w = world();
    let first = Transaction { nonce: 0, command: Command::InstallCard(InstallCard {}) };
    let early = Transaction { nonce: 1, command: Command::InstallCard(InstallCard {}) };
    assert!(first.admissible(&w, &USER, &PID));
    assert!(!early.admissible(&w, &USER, &PID));
    assert_eq!(first.process(&mut w, &USER, &PID, &[0; 4]), vec![0, 1]);
    assert_eq!(w.players[0].nonce, 1);
    assert_eq!(w.players[1].nonce, 0);
    assert!(!first.admissible(&w, &USER, &PID));
    assert!(early.admissible(&w, &USER, &PID));
    let replay = Transaction { nonce: 0, command: Command::Bounty(Bounty { bounty_index: 0 }) };
    assert!(!replay.admissible(&w, &USER, &PID));
}

#[test]
fn a_failed_command_uses_no_nonce() {
    let mut w = world();
    w.players[0].data.local.0[7] = 0;
    w.players[0].data.current_cost = 5;
    assert_eq!(run(&mut w, Command::InstallCard(InstallCard {})), 3);
    assert_eq!(w.players[0].nonce, 0);
    assert_eq!(w.players[0].data.cards.len(), 3);
}

#[test]
fn only_the_admin_may_tick_or_deposit() {
    let w = world();
    let t = Transaction { nonce: 0, command: Command::Tick };
    assert!(t.admissible(&w, &ADMIN, &ADMIN_ID));
    assert!(!t.admissible(&w, &USER, &ADMIN_ID));
    assert!(!t.admissible(&w, &[1, 2, 3, 5], &ADMIN_ID));
    let d = Transaction { nonce: 0, command: Command::Deposit(Deposit { data: [10, 20, 5] }) };
    assert!(d.admissible(&w, &ADMIN, &ADMIN_ID));
    assert!(!d.admissible(&w, &USER, &ADMIN_ID));
    // the admin must be a player too
    assert!(!d.admissible(&w, &ADMIN, &[4, 4]));
}

#[test]
fn installing_an_object_pays_and_schedules_its_first_card() {
    let mut w = world();
    w.state.queue.counter = 7;
    assert_eq!(run(&mut w, install(0)), 0);
    let p = &w.players[0];
    assert_eq!(p.nonce, 1);
    assert_eq!(p.data.get_balance(), 4_000);
    assert_eq!(p.data.energy, 30);
    assert_eq!(p.data.objects.len(), 1);
    let o = p.data.objects[0];
    assert_eq!(o.cards, RING);
    assert_eq!(o.attributes, [0; 8]);
    assert_eq!(o.state, ObjectState::Running);
    assert_eq!(o.modifier_index, 0);
    assert_eq!(o.counter, 7);
    assert_eq!(w.state.queue.list, vec![Event { object_index: 0, owner: PID, delta: 100 }]);
}

#[test]
fn the_object_index_must_be_the_next_one() {
    let w = world();
    let t = Transaction { nonce: 0, command: install(1) };
    assert!(!t.admissible(&w, &USER, &PID));
    let bad_ring = Transaction {
        nonce: 0,
        command: Command::InstallObject(InstallObject {
            object_index: 0,
            modifiers: [0, 1, 2, 3, 0, 0, 0, 0],
        }),
    };
    assert!(!bad_ring.admissible(&w, &USER, &PID));
}

#[test]
fn objects_need_level_and_balance() {
    let mut w = world();
    assert_eq!(run(&mut w, install(0)), 0);
    assert_eq!(run(&mut w, install(1)), 0);
    // level 1 allows the indices 0 and 1
    assert_eq!(run(&mut w, install(2)), 6);
    w.players[0].data.level = 3;
    assert_eq!(run(&mut w, install(2)), 0);
    assert_eq!(w.players[0].data.get_balance(), 2_000);
    w.players[0].data.local.0[7] = 999;
    w.players[0].data.level = 100;
    assert_eq!(run(&mut w, install(3)), 3);
    assert_eq!(w.players[0].data.objects.len(), 3);
    assert_eq!(w.state.queue.list.len(), 3);
}

#[test]
fn a_player_owns_at_most_twenty_five_objects() {
    let mut w = world();
    w.players[0].data.level = 100;
    for _ in 0..25 {
        w.players[0].data.objects.push(Object::new(RING));
    }
    assert_eq!(run(&mut w, install(25)), 4);
    w.players[0].data.objects.pop();
    assert_eq!(run(&mut w, install(24)), 0);
}

#[test]
fn first_firing_comes_after_the_duration_of_the_first_card() {
    let mut w = world();
    assert_eq!(run(&mut w, install(0)), 0);
    assert_eq!(w.state.queue.list[0].delta, w.players[0].data.cards[0].duration as usize);
    for _ in 0..100 {
        tick(&mut w);
    }
    // a hundred ticks on, the event is due and nothing happened yet
    assert_eq!(w.state.queue.counter, 100);
    assert_eq!(w.state.queue.list, vec![Event { object_index: 0, owner: PID, delta: 0 }]);
    assert_eq!(w.players[0].data.local.0, vec![30, 30, 0, 0, 2, 0, 0, 4_000]);
    tick(&mut w);
    // the object applied its first card and went on to the second
    let p = &w.players[0].data;
    assert_eq!(p.local.0, vec![28, 28, 4, 0, 2, 0, 0, 4_000]);
    assert_eq!(p.objects[0].state, ObjectState::Running);
    assert_eq!(p.objects[0].modifier_index, 1);
    assert_eq!(p.objects[0].counter, 100);
    assert_eq!(w.state.queue.counter, 101);
    assert_eq!(w.state.queue.list, vec![Event { object_index: 0, owner: PID, delta: 109 }]);
    for _ in 0..110 {
        tick(&mut w);
    }
    let p = &w.players[0].data;
    assert_eq!(p.local.0, vec![31, 28, 2, 0, 2, 0, 0, 4_000]);
    assert_eq!(p.objects[0].modifier_index, 2);
    assert_eq!(p.objects[0].counter, 210);
}

#[test]
fn tick_keeps_the_order_of_scheduling() {
    let mut w = world();
    w.players[0].data.level = 9;
    w.players[0].data.objects.push(Object::new([1; 8]));
    w.players[0].data.objects.push(Object::new([2; 8]));
    w.players[0].data.objects.push(Object::new([0; 8]));
    w.state.queue.list = vec![
        Event { object_index: 2, owner: PID, delta: 0 },
        Event { object_index: 1, owner: PID, delta: 5 },
        Event { object_index: 0, owner: PID, delta: 0 },
    ];
    assert!(w.can_tick());
    w.tick();
    // card 0 gave 4 of the third resource, of which card 1 then took 2; the other way
    // round card 1 could not have been applied
    assert_eq!(w.players[0].data.local.0, vec![31, 28, 2, 0, 2, 0, 0, 5_000]);
    assert_eq!(
        w.state.queue.list,
        vec![
            Event { object_index: 1, owner: PID, delta: 4 },
            Event { object_index: 2, owner: PID, delta: 99 },
            Event { object_index: 0, owner: PID, delta: 109 },
        ]
    );
    assert_eq!(w.state.queue.counter, 1);
}

#[test]
fn an_object_that_cannot_apply_its_card_halts_and_is_not_scheduled_again() {
    let mut w = world();
    assert_eq!(run(&mut w, install(0)), 0);
    w.players[0].data.local.0[0] = 1;
    for _ in 0..101 {
        tick(&mut w);
    }
    assert_eq!(w.players[0].data.objects[0].state, ObjectState::Halted);
    assert_eq!(w.players[0].data.local.0, vec![1, 30, 0, 0, 2, 0, 0, 4_000]);
    assert!(w.state.queue.list.is_empty());
    for _ in 0..300 {
        tick(&mut w);
    }
    assert_eq!(w.players[0].data.objects[0].state, ObjectState::Halted);
    assert_eq!(w.players[0].data.local.0, vec![1, 30, 0, 0, 2, 0, 0, 4_000]);
}

#[test]
fn only_a_restart_leaves_the_halted_state() {
    let mut w = world();
    assert_eq!(run(&mut w, install(0)), 0);
    assert_eq!(run(&mut w, install(1)), 0);
    w.players[0].data.objects[0].halt();
    w.state.queue.list.remove(0);
    let others = [
        Command::UpgradeObject(UpgradeObject { object_index: 0, feature_index: 1 }),
        Command::InstallCard(InstallCard {}),
        Command::Bounty(Bounty { bounty_index: 0 }),
        Command::CollectEnergy,
        Command::Withdraw(Withdraw { data: [1, 0, 0] }),
        Command::RestartObject(RestartObject { object_index: 1, modifiers: RING }),
        Command::ListCardInMarket(ListCardInMarket { card_index: 3, ask_price: 5 }),
    ];
    for command in others {
        assert_eq!(run(&mut w, command), 0);
        tick(&mut w);
        assert_eq!(w.players[0].data.objects[0].state, ObjectState::Halted);
    }
    let ring = [2, 1, 0, 0, 0, 0, 0, 0];
    w.state.queue.counter = 500;
    assert_eq!(
        run(&mut w, Command::RestartObject(RestartObject { object_index: 0, modifiers: ring })),
        0
    );
    let o = w.players[0].data.objects[0];
    assert_eq!(o.state, ObjectState::Restarting);
    assert_eq!(o.cards, ring);
    assert_eq!(o.counter, 500);
    assert_eq!(
        w.state.queue.list.last(),
        Some(&Event { object_index: 0, owner: PID, delta: 120 })
    );
}

#[test]
fn restarting_a_running_object_schedules_nothing() {
    let mut w = world();
    assert_eq!(run(&mut w, install(0)), 0);
    let ring = [2, 1, 0, 0, 0, 0, 0, 0];
    assert_eq!(
        run(&mut w, Command::RestartObject(RestartObject { object_index: 0, modifiers: ring })),
        0
    );
    assert_eq!(w.state.queue.list, vec![Event { object_index: 0, owner: PID, delta: 100 }]);
    assert_eq!(w.players[0].data.objects[0].state, ObjectState::Restarting);
    assert_eq!(w.players[0].data.objects[0].cards, ring);
    // the pending event fires when it was due and starts the new ring over
    for _ in 0..101 {
        tick(&mut w);
    }
    let p = &w.players[0].data;
    assert_eq!(p.local.0, vec![30, 30, 0, 0, 2, 0, 0, 4_000]);
    assert_eq!(p.objects[0].state, ObjectState::Running);
    assert_eq!(p.objects[0].modifier_index, 0);
    assert_eq!(w.state.queue.list, vec![Event { object_index: 0, owner: PID, delta: 119 }]);
}

#[test]
fn upgrading_pays_the_current_cost() {
    let mut w = world();
    assert_eq!(run(&mut w, install(0)), 0);
    w.players[0].data.current_cost = 16;
    assert_eq!(
        run(&mut w, Command::UpgradeObject(UpgradeObject { object_index: 0, feature_index: 1 })),
        0
    );
    assert_eq!(w.players[0].data.objects[0].attributes, [1, 1, 0, 0, 0, 0, 0, 0]);
    assert_eq!(w.players[0].data.get_balance(), 3_984);
    assert_eq!(w.players[0].data.exp, 4);
    w.players[0].data.local.0[7] = 15;
    assert_eq!(
        run(&mut w, Command::UpgradeObject(UpgradeObject { object_index: 0, feature_index: 1 })),
        3
    );
    assert_eq!(w.players[0].data.objects[0].attributes, [1, 1, 0, 0, 0, 0, 0, 0]);
}

#[test]
fn an_upgrade_needs_a_feature_level_below_128() {
    let mut w = world();
    assert_eq!(run(&mut w, install(0)), 0);
    let t = |w: &World, object_index: usize, feature_index: usize| {
        Transaction {
            nonce: w.players[0].nonce,
            command: Command::UpgradeObject(UpgradeObject { object_index, feature_index }),
        }
        .admissible(w, &USER, &PID)
    };
    assert!(t(&w, 0, 7));
    assert!(!t(&w, 0, 8));
    assert!(!t(&w, 1, 0));
    w.players[0].data.objects[0].attributes[0] = 127;
    assert!(t(&w, 0, 0));
    w.players[0].data.objects[0].attributes[0] = 128;
    assert!(!t(&w, 0, 1));
}

#[test]
fn installing_a_card_needs_level_and_generates_from_the_seed() {
    let mut w = world();
    for n in 3..8 {
        assert_eq!(run(&mut w, Command::InstallCard(InstallCard {})), 0);
        assert_eq!(w.players[0].data.cards.len(), n + 1);
    }
    assert_eq!(run(&mut w, Command::InstallCard(InstallCard {})), 6);
    assert_eq!(w.players[0].data.cards.len(), 8);
    assert_eq!(
        w.players[0].data.cards[3],
        random_modifier(1, [30, 30, 0, 0, 2, 0, 0, 5_000], 0x45ff_0001_0607_0e0f)
    );
    assert_eq!(w.players[0].data.energy, 10 + 5 * 20);
}

#[test]
fn bounty_redeems_a_resource_or_collects_interest() {
    let mut w = world();
    assert_eq!(run(&mut w, Command::Bounty(Bounty { bounty_index: 1 })), 0);
    assert_eq!(w.players[0].data.local.0, vec![30, 10, 0, 0, 2, 0, 0, 5_400]);
    assert_eq!(w.players[0].data.redeem_info, [0, 1, 0, 0, 0, 0, 0, 0]);
    assert_eq!(w.players[0].data.exp, 5);
    assert_eq!(run(&mut w, Command::Bounty(Bounty { bounty_index: 1 })), 5);
    assert_eq!(run(&mut w, Command::Bounty(Bounty { bounty_index: 2 })), 5);
    assert_eq!(w.players[0].nonce, 1);
    w.state.queue.counter = 50;
    assert_eq!(run(&mut w, Command::Bounty(Bounty { bounty_index: 7 })), 0);
    // the stamp was taken at balance 0, so nothing accrued and the fee is charged
    assert_eq!(w.players[0].data.get_balance(), 5_300);
    assert_eq!(w.players[0].data.last_interest_stamp, (5_400 << 32) | 50);
    let t = Transaction { nonce: 2, command: Command::Bounty(Bounty { bounty_index: 8 }) };
    assert!(!t.admissible(&w, &USER, &PID));
}

#[test]
fn interest_collection_fails_where_the_fee_cannot_be_paid() {
    let mut w = world();
    w.players[0].data.local.0[7] = 99;
    assert_eq!(run(&mut w, Command::Bounty(Bounty { bounty_index: 7 })), 3);
    assert_eq!(w.players[0].data.get_balance(), 99);
    assert_eq!(Transaction::collect_interest(&mut w, &PID), Err(3));
    w.players[0].data.local.0[7] = 100;
    assert_eq!(Transaction::collect_interest(&mut w, &PID), Ok(()));
    assert_eq!(w.players[0].data.get_balance(), 0);
}

#[test]
fn collecting_energy_through_the_dispatcher() {
    let mut w = world();
    assert_eq!(run(&mut w, Command::CollectEnergy), 0);
    assert_eq!(w.players[0].data.get_balance(), 5_000);
    w.state.queue.counter = 1_000;
    w.players[0].data.local.0[7] = 30_000;
    assert_eq!(run(&mut w, Command::CollectEnergy), 0);
    // log2(30000 / 10000 + 1) = 2 at level 1
    assert_eq!(w.players[0].data.energy, 12);
    assert_eq!(w.players[0].data.get_balance(), 29_999);
    assert_eq!(w.players[0].data.last_check_point, 1_000);
    assert_eq!(w.players[0].nonce, 0);
    w.state.queue.counter = 2_000;
    w.players[0].data.local.0[7] = 0;
    assert_eq!(run(&mut w, Command::CollectEnergy), 3);
    assert_eq!(w.players[0].data.last_check_point, 1_000);
}

#[test]
fn withdrawing_debits_player_and_pool() {
    let mut w = world();
    w.state.queue.counter = 12;
    let data = [(77 << 32) | 1_500, 5, 6];
    assert_eq!(run(&mut w, Command::Withdraw(Withdraw { data })), 0);
    assert_eq!(w.players[0].data.get_balance(), 3_500);
    assert_eq!(w.state.bounty_pool, 20_000_000 - 1_500);
    assert_eq!(w.withdrawals, vec![data]);
    assert_eq!(w.players[0].data.last_interest_stamp, (3_500 << 32) | 12);
    assert_eq!(w.players[0].nonce, 1);
    assert_eq!(w.flush_settlement(), vec![data]);
    assert!(w.withdrawals.is_empty());
}

#[test]
fn withdrawing_needs_pool_and_balance() {
    let mut w = world();
    assert_eq!(run(&mut w, Command::Withdraw(Withdraw { data: [5_001, 0, 0] })), 3);
    w.players[0].data.local.0[7] = 50_000_000;
    assert_eq!(run(&mut w, Command::Withdraw(Withdraw { data: [20_000_001, 0, 0] })), 7);
    assert_eq!(run(&mut w, Command::Withdraw(Withdraw { data: [20_000_000, 0, 0] })), 0);
    assert_eq!(w.state.bounty_pool, 0);
    assert_eq!(w.players[0].data.get_balance(), 30_000_000);
    assert_eq!(w.withdrawals.len(), 1);
}

#[test]
fn a_deposit_moves_funds_of_the_player_into_the_pool() {
    let mut w = world();
    w.state.queue.counter = 3;
    let deposit = Command::Deposit(Deposit { data: [PID[0], PID[1], 1_200] });
    assert_eq!(send(&mut w, ADMIN, ADMIN_ID, deposit), 0);
    assert_eq!(w.players[0].data.get_balance(), 3_800);
    assert_eq!(w.players[0].data.last_interest_stamp, (3_800 << 32) | 3);
    assert_eq!(w.state.bounty_pool, 20_001_200);
    assert_eq!(w.players[0].nonce, 0);
    assert_eq!(w.players[1].nonce, 1);
    let too_much = Command::Deposit(Deposit { data: [PID[0], PID[1], 3_801] });
    assert_eq!(send(&mut w, ADMIN, ADMIN_ID, too_much), 3);
    assert_eq!(w.players[1].nonce, 1);
    assert_eq!(w.state.bounty_pool, 20_001_200);
}

#[test]
fn a_deposit_for_an_unknown_player_installs_it_when_nothing_is_moved() {
    let mut w = world();
    let some = Command::Deposit(Deposit { data: [5, 6, 1] });
    assert_eq!(send(&mut w, ADMIN, ADMIN_ID, some), 3);
    assert_eq!(w.players.len(), 2);
    let none = Command::Deposit(Deposit { data: [5, 6, 0] });
    assert_eq!(send(&mut w, ADMIN, ADMIN_ID, none), 0);
    assert_eq!(w.players.len(), 3);
    assert_eq!(w.players[2].player_id, [5, 6]);
    assert_eq!(w.players[2].nonce, 0);
    assert_eq!(w.players[1].nonce, 1);
}

#[test]
fn a_tick_needs_room_for_the_gains_of_the_cards_that_fire() {
    let mut w = world();
    assert_eq!(run(&mut w, install(0)), 0);
    // card 0 gains 4 of the third resource
    w.players[0].data.local.0[2] = i64::MAX - 3;
    assert!(w.can_tick());
    w.state.queue.list[0].delta = 0;
    assert!(!w.can_tick());
    assert!(!w.players[0].data.fire_fits(0));
    let t = Transaction { nonce: 0, command: Command::Tick };
    assert!(!t.admissible(&w, &ADMIN, &ADMIN_ID));
    w.players[0].data.local.0[2] = i64::MAX - 4;
    assert!(w.players[0].data.fire_fits(0));
    assert!(w.can_tick());
    assert!(t.admissible(&w, &ADMIN, &ADMIN_ID));
    w.tick();
    assert_eq!(w.players[0].data.local.0[2], i64::MAX);
    w.state.queue.counter = 0xffff_ffff;
    assert!(!w.can_tick());
}

#[test]
fn testing_a_tick_changes_nothing() {
    let mut w = world();
    assert_eq!(run(&mut w, install(0)), 0);
    w.state.queue.list[0].delta = 0;
    assert!(w.can_tick());
    assert_eq!(w.state.queue.counter, 0);
    assert_eq!(w.state.queue.list, vec![Event { object_index: 0, owner: PID, delta: 0 }]);
    assert_eq!(w.players[0].data.local.0, vec![30, 30, 0, 0, 2, 0, 0, 4_000]);
    assert_eq!(w.players[0].data.objects[0].modifier_index, 0);
}

#[test]
fn a_valid_world_is_recognised() {
    let mut w = world();
    assert!(w.is_valid());
    assert_eq!(run(&mut w, install(0)), 0);
    assert_eq!(
        run(&mut w, Command::ListCardInMarket(ListCardInMarket { card_index: 1, ask_price: 5 })),
        8
    );
    assert!(w.is_valid());
    w.players[0].data.local.0[3] = -1;
    assert!(!w.is_valid());
    w.players[0].data.local.0[3] = 0;
    w.players[0].data.objects[0].cards[7] = 3;
    assert!(!w.is_valid());
    w.players[0].data.objects[0].cards[7] = 0;
    w.state.queue.list.push(Event { object_index: 1, owner: PID, delta: 3 });
    assert!(!w.is_valid());
    w.state.queue.list.pop();
    w.players[1].player_id = PID;
    assert!(!w.is_valid());
    w.players[1].player_id = ADMIN_ID;
    w.players[1].data.cards[0].marketid = 1;
    assert!(!w.is_valid());
    w.players[1].data.cards[0].marketid = 0;
    w.state.market_id = 2;
    assert!(!w.is_valid());
    w.state.market_id = 1;
    assert!(w.is_valid());
    let copy = w.duplicate();
    assert_eq!(copy.players.len(), 2);
    assert_eq!(copy.players[0].data.objects, w.players[0].data.objects);
    assert_eq!(copy.players[0].data.local.0, w.players[0].data.local.0);
    assert_eq!(copy.state.queue.list, w.state.queue.list);
    assert!(copy.is_valid());
}

#[test]
fn pay_cost_failure_is_not_observable_through_the_dispatcher() {
    let mut w = world();
    assert_eq!(run(&mut w, install(0)), 0);
    let p = &mut w.players[0].data;
    p.local.0[7] = 10;
    p.current_cost = 11;
    p.cost_info = 1;
    p.energy = 500;
    p.exp = 9;
    assert_eq!(
        run(&mut w, Command::UpgradeObject(UpgradeObject { object_index: 0, feature_index: 2 })),
        3
    );
    let p = &w.players[0].data;
    assert_eq!(p.get_balance(), 10);
    assert_eq!(p.energy, 500);
    assert_eq!(p.cost_info, 1);
    assert_eq!(p.current_cost, 11);
    assert_eq!((p.level, p.exp), (1, 9));
    assert_eq!(p.objects[0].attributes, [0; 8]);
    assert_eq!(w.players[0].nonce, 1);
}

fn scheduled_once(w: &World) -> bool {
    w.players.iter().all(|p| {
        p.data.objects.iter().enumerate().all(|(o, object)| {
            let pending = w
                .state
                .queue
                .list
                .iter()
                .filter(|e| e.owner == p.player_id && e.object_index == o)
                .count();
            pending == if object.state == ObjectState::Halted { 0 } else { 1 }
        })
    })
}

#[test]
fn every_running_object_has_one_pending_event() {
    let mut w = world();
    w.players[0].data.level = 9;
    assert!(scheduled_once(&w));
    let ring = [2, 1, 0, 0, 0, 0, 0, 0];
    let steps = [
        install(0),
        install(1),
        Command::RestartObject(RestartObject { object_index: 0, modifiers: ring }),
        Command::UpgradeObject(UpgradeObject { object_index: 1, feature_index: 1 }),
        install(2),
        Command::InstallCard(InstallCard {}),
        Command::RestartObject(RestartObject { object_index: 1, modifiers: ring }),
    ];
    for command in steps {
        assert_eq!(run(&mut w, command), 0);
        assert!(scheduled_once(&w));
        for _ in 0..60 {
            tick(&mut w);
            assert!(scheduled_once(&w));
        }
    }
    // run until some object halts for want of resources, then restart it
    let mut ticks = 0;
    while w.players[0].data.objects.iter().all(|o| o.state != ObjectState::Halted) {
        tick(&mut w);
        assert!(scheduled_once(&w));
        ticks += 1;
        assert!(ticks < 100_000);
    }
    let halted =
        w.players[0].data.objects.iter().position(|o| o.state == ObjectState::Halted).unwrap();
    assert_eq!(
        run(&mut w, Command::RestartObject(RestartObject { object_index: halted, modifiers: RING })),
        0
    );
    assert!(scheduled_once(&w));
    assert!(w.is_valid());
}
