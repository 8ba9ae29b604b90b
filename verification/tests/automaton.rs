use automata::card::Card;
use automata::object::Object;
use automata::object::ObjectState;
use automata::player::PlayerData;

fn player_with_object(ring: [u8; 8]) -> PlayerData {
    let mut p = PlayerData::new();
    p.local.0[7] = 1000;
    p.objects.push(Object::new(ring));
    p
}

#[test]
fn new_object_runs_at_the_first_slot() {
    let o = Object::new([2, 1, 0, 0, 0, 0, 0, 0]);
    assert_eq!(o.cards, [2, 1, 0, 0, 0, 0, 0, 0]);
    assert_eq!(o.attributes, [0; 8]);
    assert_eq!(o.state, ObjectState::Running);
    assert_eq!(o.get_modifier_index(), 0);
    assert!(!o.is_halted());
    assert!(!o.is_restarting());
}

#[test]
fn object_state_changes() {
    let mut o = Object::new([0; 8]);
    o.start_new_modifier(3, 17);
    assert_eq!((o.state, o.modifier_index, o.counter), (ObjectState::Running, 3, 17));
    o.halt();
    assert!(o.is_halted());
    assert_eq!((o.modifier_index, o.counter), (3, 17));
    o.restart(20);
    assert!(o.is_restarting());
    assert_eq!((o.modifier_index, o.counter), (0, 20));
    o.start_new_modifier(2, 21);
    o.reset_halt_bit_to_restart();
    assert_eq!((o.state, o.modifier_index, o.counter), (ObjectState::Restarting, 2, 21));
    o.reset_modifier([7, 6, 5, 4, 3, 2, 1, 0]);
    assert_eq!(o.cards, [7, 6, 5, 4, 3, 2, 1, 0]);
}

#[test]
fn apply_modifier_applies_costs_and_gains() {
    let mut p = player_with_object([0; 8]);
    let card = p.cards[0];
    let object = p.objects[0];
    assert!(p.apply_modifier(&card, &object));
    assert_eq!(p.local.0, vec![28, 28, 4, 0, 2, 0, 0, 1000]);
}

#[test]
fn apply_modifier_rejects_without_change() {
    let mut p = player_with_object([0; 8]);
    p.local.0[1] = 1;
    let card = p.cards[0];
    let object = p.objects[0];
    assert!(!p.apply_modifier(&card, &object));
    assert_eq!(p.local.0, vec![30, 1, 0, 0, 2, 0, 0, 1000]);
}

#[test]
fn apply_modifier_reduce_lowers_costs_and_admits_more() {
    let mut p = player_with_object([0; 8]);
    p.local.0[1] = 1;
    p.objects[0].attributes[2] = 1;
    let card = p.cards[0];
    let object = p.objects[0];
    // 1 - 2 + 1 = 0 is not negative: accepted, and each cost of 2 is lowered to 1
    assert!(p.apply_modifier(&card, &object));
    assert_eq!(p.local.0, vec![29, 0, 4, 0, 2, 0, 0, 1000]);
}

#[test]
fn apply_modifier_reduce_never_turns_a_cost_into_a_gain() {
    let mut p = player_with_object([0; 8]);
    p.objects[0].attributes[2] = 5;
    let card = p.cards[0];
    let object = p.objects[0];
    assert!(p.apply_modifier(&card, &object));
    assert_eq!(p.local.0, vec![30, 30, 4, 0, 2, 0, 0, 1000]);
}

#[test]
fn apply_modifier_productivity_raises_gains() {
    let mut p = player_with_object([0; 8]);
    p.objects[0].attributes[3] = 3;
    let card = p.cards[0];
    let object = p.objects[0];
    assert!(p.apply_modifier(&card, &object));
    // log2(3 + 1) = 2 on top of the gain of 4; a delta of 0 gains nothing
    assert_eq!(p.local.0, vec![28, 28, 6, 0, 2, 0, 0, 1000]);
}

#[test]
fn apply_modifier_reaches_the_balance() {
    let mut p = player_with_object([0; 8]);
    let card = Card::new(10, [0, 0, 0, 0, 0, 0, 0, -100]);
    let object = p.objects[0];
    assert!(p.apply_modifier(&card, &object));
    assert_eq!(p.get_balance(), 900);
    let card = Card::new(10, [0, 0, 0, 0, 0, 0, 0, -128]);
    for _ in 0..7 {
        assert!(p.apply_modifier(&card, &object));
    }
    assert_eq!(p.get_balance(), 4);
    assert!(!p.apply_modifier(&card, &object));
    assert_eq!(p.get_balance(), 4);
}

#[test]
fn running_object_applies_its_card_and_moves_on() {
    let mut p = player_with_object([0, 1, 2, 0, 0, 0, 0, 0]);
    assert_eq!(p.apply_object_card(0, 100), Some(110));
    assert_eq!(p.local.0, vec![28, 28, 4, 0, 2, 0, 0, 1000]);
    assert_eq!(p.objects[0].state, ObjectState::Running);
    assert_eq!(p.objects[0].modifier_index, 1);
    assert_eq!(p.objects[0].counter, 100);
    assert_eq!(p.apply_object_card(0, 210), Some(120));
    assert_eq!(p.local.0, vec![31, 28, 2, 0, 2, 0, 0, 1000]);
    assert_eq!(p.apply_object_card(0, 330), Some(100));
    assert_eq!(p.local.0, vec![31, 31, 0, 0, 2, 0, 0, 1000]);
    assert_eq!(p.objects[0].modifier_index, 3);
}

#[test]
fn cursor_wraps_around_the_ring() {
    let mut p = player_with_object([0; 8]);
    p.objects[0].modifier_index = 7;
    assert_eq!(p.apply_object_card(0, 5), Some(100));
    assert_eq!(p.objects[0].modifier_index, 0);
}

#[test]
fn speed_shortens_the_delay() {
    let mut p = player_with_object([0, 1, 2, 0, 0, 0, 0, 0]);
    p.objects[0].attributes[1] = 3;
    // speed log2(3 + 1) = 2: 110 * (10 - 2) / 10 = 88
    assert_eq!(p.apply_object_card(0, 0), Some(88));
    p.objects[0].attributes[1] = 255;
    // speed log2(256) = 8: 120 * 2 / 10 = 24
    assert_eq!(p.apply_object_card(0, 0), Some(24));
}

#[test]
fn object_halts_when_its_card_cannot_be_applied() {
    let mut p = player_with_object([0, 1, 2, 0, 0, 0, 0, 0]);
    p.local.0[0] = 1;
    assert_eq!(p.apply_object_card(0, 9), None);
    assert_eq!(p.objects[0].state, ObjectState::Halted);
    assert_eq!(p.objects[0].modifier_index, 0);
    assert_eq!(p.local.0, vec![1, 30, 0, 0, 2, 0, 0, 1000]);
}

#[test]
fn halted_object_never_fires() {
    let mut p = player_with_object([0, 1, 2, 0, 0, 0, 0, 0]);
    p.objects[0].halt();
    let before = p.objects[0];
    assert_eq!(p.apply_object_card(0, 50), None);
    assert_eq!(p.objects[0], before);
    assert_eq!(p.local.0, vec![30, 30, 0, 0, 2, 0, 0, 1000]);
}

#[test]
fn restarting_object_enters_its_first_slot_without_applying() {
    let mut p = player_with_object([1, 2, 0, 0, 0, 0, 0, 0]);
    p.objects[0].modifier_index = 4;
    p.objects[0].restart(3);
    p.objects[0].attributes[1] = 1;
    // speed log2(2) = 1: 110 * 9 / 10 = 99
    assert_eq!(p.apply_object_card(0, 60), Some(99));
    assert_eq!(p.objects[0].state, ObjectState::Running);
    assert_eq!(p.objects[0].modifier_index, 0);
    assert_eq!(p.objects[0].counter, 60);
    assert_eq!(p.local.0, vec![30, 30, 0, 0, 2, 0, 0, 1000]);
}

#[test]
fn restart_of_a_halted_object_schedules_its_first_card() {
    let mut p = player_with_object([0, 1, 2, 0, 0, 0, 0, 0]);
    p.objects[0].modifier_index = 5;
    p.objects[0].attributes[1] = 3;
    p.objects[0].halt();
    let ring = [2, 1, 0, 0, 0, 0, 0, 0];
    assert!(p.ring_ok(&ring));
    assert_eq!(p.restart_object_card(0, ring, 77), Some(120));
    assert_eq!(p.objects[0].state, ObjectState::Restarting);
    assert_eq!(p.objects[0].cards, ring);
    assert_eq!(p.objects[0].modifier_index, 0);
    assert_eq!(p.objects[0].counter, 77);
}

#[test]
fn restart_of_a_running_object_only_stages_the_ring() {
    let mut p = player_with_object([0, 1, 2, 0, 0, 0, 0, 0]);
    p.objects[0].start_new_modifier(2, 40);
    let ring = [2, 1, 0, 0, 0, 0, 0, 0];
    assert_eq!(p.restart_object_card(0, ring, 77), None);
    assert_eq!(p.objects[0].state, ObjectState::Restarting);
    assert_eq!(p.objects[0].cards, ring);
    assert_eq!(p.objects[0].modifier_index, 2);
    assert_eq!(p.objects[0].counter, 40);
}

#[test]
fn ring_must_point_at_unlisted_cards() {
    let mut p = PlayerData::new();
    assert!(p.ring_ok(&[0, 1, 2, 2, 1, 0, 0, 0]));
    assert!(!p.ring_ok(&[0, 1, 3, 0, 0, 0, 0, 0]));
    p.cards[1].marketid = 4;
    assert!(!p.ring_ok(&[0, 1, 2, 0, 0, 0, 0, 0]));
    assert!(p.ring_ok(&[0, 2, 2, 0, 0, 0, 0, 0]));
}

#[test]
fn card_used_looks_through_every_ring() {
    let mut p = PlayerData::new();
    assert!(!p.card_used(0));
    p.objects.push(Object::new([1, 1, 1, 1, 1, 1, 1, 1]));
    p.objects.push(Object::new([1, 1, 1, 1, 1, 1, 1, 2]));
    assert!(!p.card_used(0));
    assert!(p.card_used(1));
    assert!(p.card_used(2));
    assert!(!p.card_used(300));
}

#[test]
fn remove_last_card_leaves_rings_alone() {
    let mut p = player_with_object([0, 1, 0, 1, 0, 1, 0, 1]);
    p.remove_card(2);
    assert_eq!(p.cards.len(), 2);
    assert_eq!(p.cards[0].duration, 100);
    assert_eq!(p.cards[1].duration, 110);
    assert_eq!(p.objects[0].cards, [0, 1, 0, 1, 0, 1, 0, 1]);
}

#[test]
fn remove_card_moves_the_last_card_and_remaps_rings() {
    let mut p = PlayerData::new();
    p.cards.push(Card::new(130, [1, 0, 0, 0, 0, 0, 0, 0]));
    p.objects.push(Object::new([0, 3, 2, 3, 0, 0, 0, 3]));
    p.objects.push(Object::new([2, 2, 2, 2, 2, 2, 2, 2]));
    p.remove_card(1);
    assert_eq!(p.cards.len(), 3);
    assert_eq!(p.cards[0].duration, 100);
    assert_eq!(p.cards[1].duration, 130);
    assert_eq!(p.cards[2].duration, 120);
    assert_eq!(p.objects[0].cards, [0, 1, 2, 1, 0, 0, 0, 1]);
    assert_eq!(p.objects[1].cards, [2, 2, 2, 2, 2, 2, 2, 2]);
}

#[test]
fn find_stamped_finds_the_first_card_with_the_stamp() {
    let mut p = PlayerData::new();
    assert_eq!(p.find_stamped(5), None);
    p.cards[1].marketid = 5;
    p.cards[2].marketid = 5;
    assert_eq!(p.find_stamped(5), Some(1));
    assert_eq!(p.find_stamped(0), Some(0));
}
