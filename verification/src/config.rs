//! Game constants and the policies that depend on them.

use vstd::prelude::*;
use crate::card::Card;
use crate::math::byte_at;
use crate::math::get_byte;

verus! {

/// Number of components of a player's resource vector; the last one is the balance.
pub const LOCAL_ATTRIBUTES_SIZE: usize = 8;

/// Number of attributes of an object.
pub const ENTITY_ATTRIBUTES_SIZE: usize = 8;

/// Energy of a new player.
pub const INITIAL_ENERGY: u16 = 10;

/// Energy never exceeds this.
pub const ENERGY_CAP: u16 = 0xffff;

/// Energy granted by each payment.
pub const ENERGY_PER_PAYMENT: u16 = 20;

/// Payments between two doublings of the current cost.
pub const COST_INCREASE_ROUND: u16 = 5;

/// Payments before the first doubling.
pub const COST_INCREASE_ROUND_INITIAL: u16 = 40;

/// Base cost of installing an object, on top of the current cost.
pub const INSTALL_OBJECT_COST: u64 = 1000;

/// Ticks that must pass between two energy collections.
pub const ENERGY_INTERVAL: u64 = 1000;

/// Balance units per step of the energy grant.
pub const ENERGY_BALANCE_UNIT: u64 = 10000;

/// Flat fee of an energy collection.
pub const ENERGY_FEE: u64 = 1;

/// Divisor of the interest formula.
pub const INTEREST_DIVISOR: u64 = 172_800_000;

/// Flat fee netted against the interest of a collection.
pub const INTEREST_FEE: i64 = 100;

/// Experience granted by a bounty.
pub const BOUNTY_EXP: u16 = 5;

/// Resource cost of the first redemption of a bounty.
pub const BOUNTY_COST_BASE: u64 = 20;

/// Balance reward of the first redemption of a bounty.
pub const BOUNTY_REWARD_BASE: u64 = 400;

/// Index that selects interest collection in a bounty command.
pub const INTEREST_BOUNTY_INDEX: usize = 7;

/// Most objects a player may own is one more than this.
pub const MAX_OBJECT_INDEX: usize = 24;

/// Bounty pool of a fresh ledger.
pub const INITIAL_BOUNTY_POOL: u64 = 20_000_000;

/// Resources of a new player.
pub fn default_local() -> (l: [i64; 8])
    ensures
        l@ == seq![30i64, 30, 0, 0, 2, 0, 0, 0],
{
    [30, 30, 0, 0, 2, 0, 0, 0]
}

/// Resource cost of a bounty that was redeemed `redeem_info` times before.
pub open spec fn bounty_cost(redeem_info: u8) -> int {
    BOUNTY_COST_BASE * (redeem_info + 1)
}

/// Balance reward of a bounty that was redeemed `redeem_info` times before.
pub open spec fn bounty_reward(redeem_info: u8) -> int {
    BOUNTY_REWARD_BASE * (redeem_info + 1)
}

/// Resource cost of a bounty that was redeemed `redeem_info` times before.
pub fn get_bounty_cost(redeem_info: u8) -> (c: u64)
    ensures
        c == bounty_cost(redeem_info),
{
    BOUNTY_COST_BASE * (redeem_info as u64 + 1)
}

/// Balance reward of a bounty that was redeemed `redeem_info` times before.
pub fn get_bounty_reward(redeem_info: u8) -> (c: u64)
    ensures
        c == bounty_reward(redeem_info),
{
    BOUNTY_REWARD_BASE * (redeem_info as u64 + 1)
}

/// The delta that seed byte `b` gives a resource of which the player holds `held`.
///
/// Odd bytes ask for a cost, and only one the player could pay; even bytes grant a gain
/// that the player's level caps.
pub open spec fn random_delta(level: i64, held: i64, b: u8) -> i8 {
    let m = (b / 2) % 8;
    if b % 2 == 1 {
        if held >= m {
            (0 - m) as i8
        } else {
            0
        }
    } else if level >= m {
        m as i8
    } else if level > 0 {
        level as i8
    } else {
        0
    }
}

/// The duration that seed byte `b` gives a card.
pub open spec fn random_duration(b: u8) -> u64 {
    (40 + b % 64) as u64
}

/// The card generated for a player of `level` holding `current` from `rand`. The seed's
/// low seven bytes give the deltas of the seven resource pools, the eighth the
/// duration; the balance is never touched, and the card is unlisted.
pub open spec fn random_card(level: i64, current: Seq<i64>, rand: u64) -> Card {
    Card {
        duration: random_duration(byte_at(rand, 7)),
        attributes: [
            random_delta(level, current[0], byte_at(rand, 0)),
            random_delta(level, current[1], byte_at(rand, 1)),
            random_delta(level, current[2], byte_at(rand, 2)),
            random_delta(level, current[3], byte_at(rand, 3)),
            random_delta(level, current[4], byte_at(rand, 4)),
            random_delta(level, current[5], byte_at(rand, 5)),
            random_delta(level, current[6], byte_at(rand, 6)),
            0i8,
        ],
        marketid: 0,
    }
}

/// A generated card is unlisted and lasts between 40 and 103 ticks.
pub proof fn lemma_random_card(level: i64, current: Seq<i64>, rand: u64)
    ensures
        random_card(level, current, rand).marketid == 0,
        40 <= random_card(level, current, rand).duration <= 103,
{
}

fn delta_of(level: i64, held: i64, b: u8) -> (d: i8)
    ensures
        d == random_delta(level, held, b),
        -7 <= d <= 7,
{
    let m: u8 = (b / 2) % 8;
    if b % 2 == 1 {
        if held >= m as i64 {
            0 - (m as i8)
        } else {
            0
        }
    } else if level >= m as i64 {
        m as i8
    } else if level > 0 {
        level as i8
    } else {
        0
    }
}

/// Generates a card from a seed, informed by the player's level and resources.
pub fn random_modifier(level: i64, current: [i64; 8], rand: u64) -> (c: Card)
    ensures
        c == random_card(level, current@, rand),
{
    let mut attributes: [i8; 8] = [0; 8];
    let mut i: usize = 0;
    while i < 7
        invariant
            i <= 7,
            attributes[7] == 0,
            forall|k: int|
                0 <= k < i ==> attributes[k] == #[trigger] random_delta(
                    level,
                    current[k],
                    byte_at(rand, k),
                ),
        decreases 7 - i,
    {
        attributes[i] = delta_of(level, current[i], get_byte(rand, i));
        i = i + 1;
    }
    let duration: u64 = 40 + (get_byte(rand, 7) % 64) as u64;
    let c = Card { duration, attributes, marketid: 0 };
    proof {
        let r = random_card(level, current@, rand);
        assert forall|k: int| 0 <= k < 8 implies c.attributes[k] == r.attributes[k] by {
            if k < 7 {
                assert(c.attributes[k] == random_delta(level, current[k], byte_at(rand, k)));
            }
        }
        assert(c.attributes =~= r.attributes);
    }
    c
}

} // verus!
