use automata::config::default_local;
use automata::config::get_bounty_cost;
use automata::config::get_bounty_reward;
use automata::error::ERROR_NOT_ENOUGH_BALANCE;
use automata::error::ERROR_NOT_ENOUGH_RESOURCE;
use automata::object::Object;
use automata::player::Attributes;
use automata::player::PlayerData;

fn rich(balance: i64) -> PlayerData {
    let mut p = PlayerData::new();
    p.local.0[7] = balance;
    p
}

#[test]
fn new_player_has_the_default_values() {
    let p = PlayerData::new();
    assert_eq!(p.level, 1);
    assert_eq!(p.exp, 0);
    assert_eq!(p.last_check_point, 0);
    assert_eq!(p.energy, 10);
    assert_eq!(p.cost_info, 40);
    assert_eq!(p.current_cost, 0);
    assert_eq!(p.redeem_info, [0u8; 8]);
    assert_eq!(p.last_interest_stamp, 0);
    assert!(p.objects.is_empty());
    assert_eq!(p.local.0, vec![30, 30, 0, 0, 2, 0, 0, 0]);
    assert_eq!(p.local.0, default_local().to_vec());
    assert_eq!(p.cards.len(), 3);
    assert_eq!(p.cards[0].duration, 100);
    assert_eq!(p.cards[0].attributes, [-2, -2, 4, 0, 0, 0, 0, 0]);
    assert_eq!(p.cards[1].duration, 110);
    assert_eq!(p.cards[1].attributes, [3, 0, -2, 0, 0, 0, 0, 0]);
    assert_eq!(p.cards[2].duration, 120);
    assert_eq!(p.cards[2].attributes, [0, 3, -2, 0, 0, 0, 0, 0]);
    assert!(p.cards.iter().all(|c| c.marketid == 0));
}

#[test]
fn attributes_apply_modifier_adds_component_by_component() {
    let mut a = Attributes(vec![5, 5, 1]);
    let m = Attributes(vec![-3, 2]);
    assert!(a.apply_modifier(&m));
    assert_eq!(a.0, vec![2, 7, 1]);
}

#[test]
fn attributes_apply_modifier_rejects_a_negative_sum_without_change() {
    let mut a = Attributes(vec![5, 5]);
    let m = Attributes(vec![1, -6]);
    assert!(!a.apply_modifier(&m));
    assert_eq!(a.0, vec![5, 5]);
}

#[test]
fn attributes_apply_modifier_accepts_a_sum_of_zero() {
    let mut a = Attributes(vec![5]);
    let m = Attributes(vec![-5, 100]);
    assert!(a.apply_modifier(&m));
    assert_eq!(a.0, vec![0]);
}

#[test]
fn cost_balance_debits_or_fails_whole() {
    let mut p = rich(100);
    assert_eq!(p.cost_balance(40), Ok(()));
    assert_eq!(p.get_balance(), 60);
    assert_eq!(p.cost_balance(61), Err(ERROR_NOT_ENOUGH_BALANCE));
    assert_eq!(p.get_balance(), 60);
    assert_eq!(p.cost_balance(60), Ok(()));
    assert_eq!(p.get_balance(), 0);
}

#[test]
fn cost_balance_refuses_an_amount_beyond_any_balance() {
    let mut p = rich(i64::MAX);
    assert_eq!(p.cost_balance(u64::MAX), Err(ERROR_NOT_ENOUGH_BALANCE));
    assert_eq!(p.get_balance(), i64::MAX as u64);
}

#[test]
fn inc_balance_credits() {
    let mut p = rich(7);
    p.inc_balance(13);
    assert_eq!(p.local.0, vec![30, 30, 0, 0, 2, 0, 0, 20]);
}

#[test]
fn pay_cost_debits_and_grants_energy() {
    let mut p = rich(5000);
    assert_eq!(p.pay_cost(1000), Ok(()));
    assert_eq!(p.get_balance(), 4000);
    assert_eq!(p.cost_info, 39);
    assert_eq!(p.current_cost, 0);
    assert_eq!(p.energy, 30);
    assert_eq!(p.exp, 0);
    assert_eq!(p.level, 1);
}

#[test]
fn pay_cost_includes_the_current_cost() {
    let mut p = rich(5000);
    p.current_cost = 8;
    assert_eq!(p.pay_cost(1000), Ok(()));
    assert_eq!(p.get_balance(), 3992);
    // experience is the logarithm of the cost plus one: log2(9) = 3
    assert_eq!(p.exp, 3);
}

#[test]
fn pay_cost_with_insufficient_balance_changes_nothing() {
    let mut p = rich(999);
    p.current_cost = 4;
    p.cost_info = 1;
    p.energy = 77;
    p.exp = 5;
    assert_eq!(p.pay_cost(996), Err(ERROR_NOT_ENOUGH_BALANCE));
    assert_eq!(p.get_balance(), 999);
    assert_eq!(p.energy, 77);
    assert_eq!(p.cost_info, 1);
    assert_eq!(p.current_cost, 4);
    assert_eq!(p.exp, 5);
    assert_eq!(p.level, 1);
}

#[test]
fn pay_cost_with_exact_balance_succeeds() {
    let mut p = rich(1000);
    assert_eq!(p.pay_cost(1000), Ok(()));
    assert_eq!(p.get_balance(), 0);
}

#[test]
fn pay_cost_sets_a_zero_cost_to_one_when_the_round_ends() {
    let mut p = rich(100);
    p.cost_info = 1;
    assert_eq!(p.pay_cost(0), Ok(()));
    assert_eq!(p.cost_info, 5);
    assert_eq!(p.current_cost, 1);
    assert_eq!(p.get_balance(), 100);
    // log2(1 + 1) = 1
    assert_eq!(p.exp, 1);
}

#[test]
fn pay_cost_doubles_the_cost_when_the_round_ends() {
    let mut p = rich(100);
    p.cost_info = 1;
    p.current_cost = 4;
    assert_eq!(p.pay_cost(0), Ok(()));
    assert_eq!(p.cost_info, 5);
    assert_eq!(p.current_cost, 8);
    assert_eq!(p.get_balance(), 96);
    assert_eq!(p.exp, 3);
}

#[test]
fn pay_cost_caps_energy() {
    let mut p = rich(100);
    p.energy = 65530;
    assert_eq!(p.pay_cost(0), Ok(()));
    assert_eq!(p.energy, 65535);
    assert_eq!(p.pay_cost(0), Ok(()));
    assert_eq!(p.energy, 65535);
}

#[test]
fn pay_cost_limits_are_reported() {
    let mut p = rich(i64::MAX);
    p.cost_info = 1;
    p.current_cost = 0x8000_0000;
    assert!(!p.pay_fits());
    p.current_cost = 0x7fff_ffff;
    assert!(p.pay_fits());
    assert!(p.can_pay(0));
    assert!(!rich(5).can_pay(6));
}

#[test]
fn inc_exp_below_the_threshold_only_adds() {
    let mut p = PlayerData::new();
    p.inc_exp(109);
    assert_eq!((p.level, p.exp), (1, 109));
}

#[test]
fn inc_exp_rolls_the_remainder_over() {
    let mut p = PlayerData::new();
    p.inc_exp(120);
    assert_eq!((p.level, p.exp), (2, 10));
}

#[test]
fn inc_exp_levels_up_at_the_threshold() {
    let mut p = PlayerData::new();
    p.inc_exp(110);
    assert_eq!((p.level, p.exp), (2, 0));
}

#[test]
fn inc_exp_jumps_several_levels_in_one_call() {
    let mut p = PlayerData::new();
    p.exp = 100;
    p.inc_exp(200);
    // 300 - 110 = 190 at level 2; 190 - 120 = 70 at level 3; 70 < 130
    assert_eq!((p.level, p.exp), (3, 70));
    assert!(p.level_fits(0));
}

#[test]
fn collect_energy_before_the_interval_is_a_no_op() {
    let mut p = rich(50_000);
    assert_eq!(p.collect_energy(999), Ok(()));
    assert_eq!(p.energy, 10);
    assert_eq!(p.get_balance(), 50_000);
    assert_eq!(p.last_check_point, 0);
}

#[test]
fn collect_energy_grants_by_balance_and_level() {
    let mut p = rich(50_000);
    p.level = 2;
    assert_eq!(p.collect_energy(1000), Ok(()));
    // log2(50000 / 10000 + 1) = log2(6) = 2, times level 2
    assert_eq!(p.energy, 14);
    assert_eq!(p.get_balance(), 49_999);
    assert_eq!(p.last_check_point, 1000);
    // the interval starts anew
    assert_eq!(p.collect_energy(1999), Ok(()));
    assert_eq!(p.energy, 14);
    assert_eq!(p.collect_energy(2000), Ok(()));
    assert_eq!(p.get_balance(), 49_998);
}

#[test]
fn collect_energy_without_the_fee_fails_without_change() {
    let mut p = rich(0);
    assert_eq!(p.collect_energy(5000), Err(ERROR_NOT_ENOUGH_BALANCE));
    assert_eq!(p.energy, 10);
    assert_eq!(p.last_check_point, 0);
    assert_eq!(p.get_balance(), 0);
}

#[test]
fn collect_energy_caps_energy() {
    let mut p = rich(10_000_000_000);
    p.level = 60000;
    assert_eq!(p.collect_energy(1000), Ok(()));
    assert_eq!(p.energy, 65535);
}

#[test]
fn update_interest_packs_balance_over_tick() {
    let mut p = rich(7);
    p.update_interest(5);
    assert_eq!(p.last_interest_stamp, (7u64 << 32) | 5);
}

#[test]
fn collect_interest_credits_interest_less_the_fee() {
    let mut p = rich(1_000_000);
    p.update_interest(0);
    assert_eq!(p.collect_interest(172_800), Ok(()));
    // 1 * 1_000_000 * 172_800 / 172_800_000 = 1000 interest, less 100 fee
    assert_eq!(p.get_balance(), 1_000_900);
    assert_eq!(p.last_interest_stamp, (1_000_000u64 << 32) | 172_800);
}

#[test]
fn collect_interest_scales_with_level() {
    let mut p = rich(1_000_000);
    p.level = 3;
    p.update_interest(0);
    assert_eq!(p.collect_interest(172_800), Ok(()));
    assert_eq!(p.get_balance(), 1_002_900);
}

#[test]
fn collect_interest_charges_the_fee_when_nothing_accrued() {
    let mut p = rich(500);
    p.update_interest(10);
    assert_eq!(p.collect_interest(11), Ok(()));
    assert_eq!(p.get_balance(), 400);
    assert_eq!(p.last_interest_stamp, (500u64 << 32) | 11);
}

#[test]
fn collect_interest_fails_when_the_fee_exceeds_what_there_is() {
    let mut p = rich(50);
    p.update_interest(10);
    let stamp = p.last_interest_stamp;
    assert_eq!(p.collect_interest(11), Err(ERROR_NOT_ENOUGH_BALANCE));
    assert_eq!(p.get_balance(), 50);
    assert_eq!(p.last_interest_stamp, stamp);
}

#[test]
fn collect_interest_accrues_on_no_more_than_the_current_balance() {
    let mut p = rich(1_000_000);
    p.update_interest(0);
    p.local.0[7] = 1000;
    assert!(p.interest_fits(172_800));
    assert_eq!(p.collect_interest(172_800), Ok(()));
    // base is 1000, not the stamped million: interest 1
    assert_eq!(p.get_balance(), 901);
}

#[test]
fn interest_limits_are_reported() {
    let mut p = rich(100);
    p.update_interest(50);
    assert!(!p.interest_fits(49));
    assert!(p.interest_fits(50));
    assert!(!p.interest_fits(0x1_0000_0000));
}

#[test]
fn upgrade_object_raises_feature_zero_and_the_chosen_one() {
    let mut p = PlayerData::new();
    p.objects.push(Object::new([0, 1, 2, 0, 0, 0, 0, 0]));
    p.upgrade_object(0, 3);
    assert_eq!(p.objects[0].attributes, [1, 0, 0, 1, 0, 0, 0, 0]);
    p.upgrade_object(0, 0);
    assert_eq!(p.objects[0].attributes, [3, 0, 0, 1, 0, 0, 0, 0]);
}

#[test]
fn bounty_formulas() {
    assert_eq!(get_bounty_cost(0), 20);
    assert_eq!(get_bounty_cost(2), 60);
    assert_eq!(get_bounty_reward(0), 400);
    assert_eq!(get_bounty_reward(3), 1600);
}

#[test]
fn redeem_bounty_spends_the_resource_and_rewards() {
    let mut p = rich(5);
    assert!(p.bounty_fits(0));
    assert_eq!(p.redeem_bounty(0), Ok(()));
    assert_eq!(p.local.0, vec![10, 30, 0, 0, 2, 0, 0, 405]);
    assert_eq!(p.redeem_info, [1, 0, 0, 0, 0, 0, 0, 0]);
    assert_eq!((p.level, p.exp), (1, 5));
    // the second redemption costs 40, more than the 10 that are left
    assert_eq!(p.redeem_bounty(0), Err(ERROR_NOT_ENOUGH_RESOURCE));
    assert_eq!(p.local.0, vec![10, 30, 0, 0, 2, 0, 0, 405]);
    assert_eq!(p.redeem_info, [1, 0, 0, 0, 0, 0, 0, 0]);
}

#[test]
fn redeem_bounty_needs_more_than_the_cost() {
    let mut p = rich(0);
    p.local.0[1] = 20;
    assert_eq!(p.redeem_bounty(1), Err(ERROR_NOT_ENOUGH_RESOURCE));
    p.local.0[1] = 21;
    assert_eq!(p.redeem_bounty(1), Ok(()));
    assert_eq!(p.local.0[1], 1);
    assert_eq!(p.get_balance(), 400);
}

#[test]
fn no_resource_is_negative_after_any_operation() {
    let mut p = rich(1000);
    let _ = p.pay_cost(2000);
    let _ = p.pay_cost(10);
    let _ = p.cost_balance(5000);
    let _ = p.collect_energy(1000);
    p.update_interest(1000);
    let _ = p.collect_interest(1001);
    let _ = p.redeem_bounty(0);
    let _ = p.redeem_bounty(2);
    assert!(p.local.0.iter().all(|x| *x >= 0));
}
