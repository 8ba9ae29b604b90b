//! The player economy: resources, level and experience, costs, energy, interest and
//! bounties.

use vstd::prelude::*;
use crate::card::default_cards;
use crate::card::default_deck;
use crate::card::Card;
use crate::card::MAX_DURATION;
use crate::config::bounty_cost;
use crate::config::bounty_reward;
use crate::config::default_local;
use crate::config::get_bounty_cost;
use crate::config::get_bounty_reward;
use crate::config::BOUNTY_EXP;
use crate::config::COST_INCREASE_ROUND;
use crate::config::COST_INCREASE_ROUND_INITIAL;
use crate::config::ENERGY_BALANCE_UNIT;
use crate::config::ENERGY_CAP;
use crate::config::ENERGY_FEE;
use crate::config::ENERGY_INTERVAL;
use crate::config::ENERGY_PER_PAYMENT;
use crate::config::INITIAL_ENERGY;
use crate::config::INTEREST_DIVISOR;
use crate::config::INTEREST_FEE;
use crate::config::LOCAL_ATTRIBUTES_SIZE;
use crate::error::ERROR_NOT_ENOUGH_BALANCE;
use crate::error::ERROR_NOT_ENOUGH_RESOURCE;
use crate::math::copy_of;
use crate::math::floor_log2;
use crate::math::log2;
use crate::math::pack32;
use crate::math::pack_hi_lo;
use crate::object::Object;
use crate::object::RING_SIZE;

verus! {

/// A resource vector: signed pools, none of which is ever negative in a valid player.
#[derive(Clone, Debug)]
pub struct Attributes(pub Vec<i64>);

impl View for Attributes {
    type V = Seq<i64>;

    open spec fn view(&self) -> Seq<i64> {
        self.0@
    }
}

/// No component of `s` is negative.
pub open spec fn non_negative(s: Seq<i64>) -> bool {
    forall|i: int| 0 <= i < s.len() ==> s[i] >= 0
}

/// Number of components that `a` and `m` have in common.
pub open spec fn paired(a: Seq<i64>, m: Seq<i64>) -> int {
    if a.len() <= m.len() {
        a.len() as int
    } else {
        m.len() as int
    }
}

/// Whether adding `m` to `a`, component by component, leaves no sum negative.
pub open spec fn sums_non_negative(a: Seq<i64>, m: Seq<i64>) -> bool {
    forall|i: int| 0 <= i < paired(a, m) ==> a[i] + m[i] >= 0
}

/// `a` with `m` added, component by component, as far as both reach.
pub open spec fn summed(a: Seq<i64>, m: Seq<i64>) -> Seq<i64> {
    Seq::new(
        a.len(),
        |i: int|
            if i < m.len() {
                (a[i] + m[i]) as i64
            } else {
                a[i]
            },
    )
}

impl Attributes {
    /// Adds `m` to the vector, all or nothing: if any sum would be negative, nothing
    /// changes and the result is `false`.
    pub fn apply_modifier(&mut self, m: &Attributes) -> (ok: bool)
        requires
            forall|i: int| 0 <= i < paired(old(self)@, m@) ==> old(self)@[i] + m@[i] <= i64::MAX,
        ensures
            ok == sums_non_negative(old(self)@, m@),
            ok ==> final(self)@ == summed(old(self)@, m@),
            !ok ==> final(self)@ == old(self)@,
            ok && non_negative(old(self)@) ==> non_negative(final(self)@),
    {
        let n: usize = if self.0.len() <= m.0.len() {
            self.0.len()
        } else {
            m.0.len()
        };
        let mut i: usize = 0;
        while i < n
            invariant
                i <= n,
                n == paired(self@, m@),
                forall|k: int| 0 <= k < i ==> self@[k] + m@[k] >= 0,
            decreases n - i,
        {
            if (self.0[i] as i128) + (m.0[i] as i128) < 0 {
                return false;
            }
            i = i + 1;
        }
        let mut j: usize = 0;
        while j < n
            invariant
                j <= n,
                n == paired(old(self)@, m@),
                self@.len() == old(self)@.len(),
                sums_non_negative(old(self)@, m@),
                forall|k: int| 0 <= k < n ==> old(self)@[k] + m@[k] <= i64::MAX,
                forall|k: int| 0 <= k < j ==> self@[k] == old(self)@[k] + m@[k],
                forall|k: int| j <= k < self@.len() ==> self@[k] == old(self)@[k],
            decreases n - j,
        {
            self.0[j] = self.0[j] + m.0[j];
            j = j + 1;
        }
        assert(self@ =~= summed(old(self)@, m@));
        true
    }

    fn default_local() -> (a: Self)
        ensures
            a@ == seq![30i64, 30, 0, 0, 2, 0, 0, 0],
    {
        let l: [i64; 8] = default_local();
        let mut v: Vec<i64> = Vec::new();
        let mut i: usize = 0;
        while i < 8
            invariant
                i <= 8,
                v@.len() == i,
                forall|k: int| 0 <= k < i ==> v@[k] == l[k],
            decreases 8 - i,
        {
            v.push(l[i]);
            i = i + 1;
        }
        assert(v@ =~= l@);
        Attributes(v)
    }
}

/// Everything the game keeps about one player.
#[derive(Debug)]
pub struct PlayerData {
    pub level: u16,
    pub exp: u16,
    pub last_check_point: u32,
    pub energy: u16,
    pub cost_info: u16,
    pub current_cost: u32,
    pub redeem_info: [u8; 8],
    pub last_interest_stamp: u64,
    pub objects: Vec<Object>,
    pub local: Attributes,
    pub cards: Vec<Card>,
}

/// The mathematical value of a `PlayerData`.
#[verifier::ext_equal]
pub struct PlayerDataView {
    pub level: u16,
    pub exp: u16,
    pub last_check_point: u32,
    pub energy: u16,
    pub cost_info: u16,
    pub current_cost: u32,
    pub redeem_info: [u8; 8],
    pub last_interest_stamp: u64,
    pub objects: Seq<Object>,
    pub local: Seq<i64>,
    pub cards: Seq<Card>,
}

impl View for PlayerData {
    type V = PlayerDataView;

    open spec fn view(&self) -> PlayerDataView {
        PlayerDataView {
            level: self.level,
            exp: self.exp,
            last_check_point: self.last_check_point,
            energy: self.energy,
            cost_info: self.cost_info,
            current_cost: self.current_cost,
            redeem_info: self.redeem_info,
            last_interest_stamp: self.last_interest_stamp,
            objects: self.objects@,
            local: self.local@,
            cards: self.cards@,
        }
    }
}

/// Every slot of `ring` is the index of an unlisted card of `cards`.
pub open spec fn ring_points_at(cards: Seq<Card>, ring: [u8; 8]) -> bool {
    forall|k: int|
        0 <= k < RING_SIZE ==> (#[trigger] ring[k] as int) < cards.len() && cards[ring[k] as int].marketid
            == 0
}

/// Every object has its cursor inside its ring and a ring of unlisted cards of `cards`.
pub open spec fn objects_ok(objects: Seq<Object>, cards: Seq<Card>) -> bool {
    forall|k: int|
        0 <= k < objects.len() ==> (#[trigger] objects[k]).wf() && ring_points_at(
            cards,
            objects[k].cards,
        )
}

/// No card lasts longer than `MAX_DURATION`.
pub open spec fn durations_ok(cards: Seq<Card>) -> bool {
    forall|j: int| 0 <= j < cards.len() ==> (#[trigger] cards[j]).duration <= MAX_DURATION
}

impl PlayerDataView {
    /// Every slot of `ring` points at a card of this player that is not on the market.
    pub open spec fn ring_ok(self, ring: [u8; 8]) -> bool {
        ring_points_at(self.cards, ring)
    }

    /// Validity of a player: eight resources, none negative; a running cost round;
    /// every ring pointing at unlisted cards of the player; durations within their limit.
    pub open spec fn wf(self) -> bool {
        &&& self.local.len() == LOCAL_ATTRIBUTES_SIZE
        &&& non_negative(self.local)
        &&& self.cost_info >= 1
        &&& objects_ok(self.objects, self.cards)
        &&& durations_ok(self.cards)
    }

    /// The fungible balance: the last resource.
    pub open spec fn balance(self) -> int {
        self.local[self.local.len() - 1] as int
    }

    /// The player with the balance set to `b`.
    pub open spec fn with_balance(self, b: int) -> Self {
        PlayerDataView { local: self.local.update(self.local.len() - 1, b as i64), ..self }
    }
}

impl PlayerData {
    /// The new player, as a value: level 1, the default resources and the default cards.
    pub open spec fn new_view() -> PlayerDataView {
        PlayerDataView {
            level: 1,
            exp: 0,
            last_check_point: 0,
            energy: INITIAL_ENERGY,
            cost_info: COST_INCREASE_ROUND_INITIAL,
            current_cost: 0,
            redeem_info: [0u8, 0u8, 0u8, 0u8, 0u8, 0u8, 0u8, 0u8],
            last_interest_stamp: 0,
            objects: Seq::empty(),
            local: seq![30i64, 30, 0, 0, 2, 0, 0, 0],
            cards: default_deck(),
        }
    }

    /// The new player is valid, holds no balance, and all its cards are unlisted.
    pub proof fn lemma_new_view()
        ensures
            Self::new_view().wf(),
            Self::new_view().balance() == 0,
            Self::new_view().cards.len() == 3,
            forall|j: int| 0 <= j < 3 ==> (#[trigger] Self::new_view().cards[j]).marketid == 0,
    {
        let d = Self::new_view();
        assert(d.local.len() == 8);
        assert(d.local[0] == 30 && d.local[1] == 30 && d.local[2] == 0 && d.local[3] == 0
            && d.local[4] == 2 && d.local[5] == 0 && d.local[6] == 0 && d.local[7] == 0);
        assert forall|j: int| 0 <= j < d.cards.len() implies (#[trigger] d.cards[j]).duration
            <= MAX_DURATION && d.cards[j].marketid == 0 by {
            assert(j == 0 || j == 1 || j == 2);
        }
    }

    /// A new player.
    pub fn new() -> (p: Self)
        ensures
            p@ == Self::new_view(),
            p@.wf(),
    {
        let p = PlayerData {
            level: 1,
            exp: 0,
            last_check_point: 0,
            energy: INITIAL_ENERGY,
            cost_info: COST_INCREASE_ROUND_INITIAL,
            current_cost: 0,
            redeem_info: [0; 8],
            last_interest_stamp: 0,
            objects: Vec::new(),
            local: Attributes::default_local(),
            cards: default_cards(),
        };
        proof {
            Self::lemma_new_view();
            assert(p@.redeem_info =~= Self::new_view().redeem_info);
            assert(p@.objects =~= Self::new_view().objects);
            assert(p@ =~= Self::new_view());
        }
        p
    }

    /// Whether the player is valid.
    pub fn is_valid(&self) -> (b: bool)
        ensures
            b == self@.wf(),
    {
        if self.local.0.len() != LOCAL_ATTRIBUTES_SIZE || self.cost_info < 1 {
            return false;
        }
        let mut i: usize = 0;
        while i < 8
            invariant
                i <= 8,
                self@.local.len() == 8,
                forall|k: int| 0 <= k < i ==> self@.local[k] >= 0,
            decreases 8 - i,
        {
            if self.local.0[i] < 0 {
                return false;
            }
            i = i + 1;
        }
        let mut k: usize = 0;
        while k < self.objects.len()
            invariant
                k <= self.objects.len(),
                forall|a: int|
                    0 <= a < k ==> (#[trigger] self@.objects[a]).wf() && ring_points_at(
                        self@.cards,
                        self@.objects[a].cards,
                    ),
            decreases self.objects.len() - k,
        {
            if self.objects[k].modifier_index as usize >= RING_SIZE || !self.ring_ok(
                &self.objects[k].cards,
            ) {
                assert(!(self@.objects[k as int].wf() && ring_points_at(
                    self@.cards,
                    self@.objects[k as int].cards,
                )));
                return false;
            }
            k = k + 1;
        }
        let mut j: usize = 0;
        while j < self.cards.len()
            invariant
                j <= self.cards.len(),
                forall|a: int| 0 <= a < j ==> (#[trigger] self@.cards[a]).duration <= MAX_DURATION,
            decreases self.cards.len() - j,
        {
            if self.cards[j].duration > MAX_DURATION {
                return false;
            }
            j = j + 1;
        }
        true
    }

    /// A player with the same value.
    pub fn duplicate(&self) -> (p: Self)
        ensures
            p@ == self@,
    {
        PlayerData {
            level: self.level,
            exp: self.exp,
            last_check_point: self.last_check_point,
            energy: self.energy,
            cost_info: self.cost_info,
            current_cost: self.current_cost,
            redeem_info: self.redeem_info,
            last_interest_stamp: self.last_interest_stamp,
            objects: copy_of(&self.objects),
            local: Attributes(copy_of(&self.local.0)),
            cards: copy_of(&self.cards),
        }
    }

    /// The balance.
    pub fn get_balance(&self) -> (b: u64)
        requires
            self@.wf(),
        ensures
            b == self@.balance(),
    {
        self.local.0[self.local.0.len() - 1] as u64
    }

    /// Debits `b` from the balance, or fails without any change.
    pub fn cost_balance(&mut self, b: u64) -> (r: Result<(), u32>)
        requires
            old(self)@.wf(),
        ensures
            r is Ok <==> b <= old(self)@.balance(),
            r is Ok ==> final(self)@ == old(self)@.with_balance(old(self)@.balance() - b),
            r is Err ==> r == Err::<(), u32>(ERROR_NOT_ENOUGH_BALANCE) && final(self)@ == old(
                self,
            )@,
            final(self)@.wf(),
    {
        let last: usize = self.local.0.len() - 1;
        let treasure: i64 = self.local.0[last];
        if b <= treasure as u64 {
            self.local.0[last] = treasure - (b as i64);
            Ok(())
        } else {
            Err(ERROR_NOT_ENOUGH_BALANCE)
        }
    }

    /// Credits `b` to the balance.
    pub fn inc_balance(&mut self, b: u64)
        requires
            old(self)@.wf(),
            old(self)@.balance() + b <= i64::MAX,
        ensures
            final(self)@ == old(self)@.with_balance(old(self)@.balance() + b),
            final(self)@.wf(),
    {
        let last: usize = self.local.0.len() - 1;
        let treasure: i64 = self.local.0[last];
        self.local.0[last] = treasure + (b as i64);
    }
}

/// Experience needed to leave `level`.
pub open spec fn level_threshold(level: int) -> int {
    100 + 10 * level
}

/// Level and experience after rolling `exp` over as many levels as it pays for.
pub open spec fn level_up(level: int, exp: int) -> (int, int)
    decreases exp,
{
    if level >= 0 && exp >= level_threshold(level) {
        level_up(level + 1, exp - level_threshold(level))
    } else {
        (level, exp)
    }
}

/// The least of `energy` and the cap.
pub open spec fn capped_energy(energy: int) -> u16 {
    if energy > ENERGY_CAP {
        ENERGY_CAP
    } else {
        energy as u16
    }
}

impl PlayerDataView {
    /// The player after gaining `a` experience.
    pub open spec fn leveled(self, a: int) -> Self {
        let (level, exp) = level_up(self.level as int, self.exp + a);
        PlayerDataView { level: level as u16, exp: exp as u16, ..self }
    }

    /// Whether level and experience after gaining `a` still fit their 16 bits.
    pub open spec fn level_fits(self, a: int) -> bool {
        let (level, exp) = level_up(self.level as int, self.exp + a);
        level <= u16::MAX && exp <= u16::MAX
    }

    /// Whether the balance covers the current cost plus `base`.
    pub open spec fn can_pay(self, base: u64) -> bool {
        self.current_cost + base <= self.balance()
    }

    /// The current cost after the payment that is about to be made.
    pub open spec fn next_cost(self) -> int {
        if self.cost_info != 1 {
            self.current_cost as int
        } else if self.current_cost != 0 {
            2 * self.current_cost
        } else {
            1
        }
    }

    /// Whether the numbers that a payment produces fit their fields.
    pub open spec fn pay_fits(self) -> bool {
        &&& self.next_cost() <= u32::MAX
        &&& self.level_fits(log2((self.next_cost() + 1) as nat) as int)
    }

    /// The player after paying the current cost plus `base`: the balance is debited, the
    /// round counter steps (doubling the cost when it runs out), energy and experience
    /// are granted.
    pub open spec fn paid(self, base: u64) -> Self {
        let debited = self.with_balance(self.balance() - (self.current_cost + base));
        let stepped = PlayerDataView {
            cost_info: if self.cost_info == 1 {
                COST_INCREASE_ROUND
            } else {
                (self.cost_info - 1) as u16
            },
            current_cost: self.next_cost() as u32,
            energy: capped_energy(self.energy + ENERGY_PER_PAYMENT),
            ..debited
        };
        stepped.leveled(log2((self.next_cost() + 1) as nat) as int)
    }
}

impl PlayerData {
    /// Adds `a` experience and levels up as often as the total pays for, carrying the
    /// remainder over.
    pub fn inc_exp(&mut self, a: u16)
        requires
            old(self)@.level_fits(a as int),
        ensures
            final(self)@ == old(self)@.leveled(a as int),
            final(self)@.wf() == old(self)@.wf(),
    {
        let mut level: u32 = self.level as u32;
        let mut exp: u32 = self.exp as u32 + a as u32;
        while exp >= 100 + 10 * level
            invariant
                level_up(level as int, exp as int) == level_up(
                    old(self).level as int,
                    old(self).exp + a,
                ),
                level + exp <= 0xffff + 0x1fffe,
            decreases exp,
        {
            exp = exp - (100 + 10 * level);
            level = level + 1;
        }
        self.level = level as u16;
        self.exp = exp as u16;
    }

    /// Whether level and experience after gaining `a` still fit their 16 bits.
    pub fn level_fits(&self, a: u16) -> (b: bool)
        ensures
            b == self@.level_fits(a as int),
    {
        let mut level: u32 = self.level as u32;
        let mut exp: u32 = self.exp as u32 + a as u32;
        while exp >= 100 + 10 * level
            invariant
                level_up(level as int, exp as int) == level_up(self.level as int, self.exp + a),
                level + exp <= 0xffff + 0x1fffe,
            decreases exp,
        {
            exp = exp - (100 + 10 * level);
            level = level + 1;
        }
        level <= 0xffff && exp <= 0xffff
    }

    /// Whether the balance covers the current cost plus `base`.
    pub fn can_pay(&self, base: u64) -> (b: bool)
        requires
            self@.wf(),
        ensures
            b == self@.can_pay(base),
    {
        match (self.current_cost as u64).checked_add(base) {
            Some(c) => c <= self.get_balance(),
            None => false,
        }
    }

    /// Whether the numbers that a payment produces fit their fields.
    pub fn pay_fits(&self) -> (b: bool)
        ensures
            b == self@.pay_fits(),
    {
        let next: u64 = if self.cost_info != 1 {
            self.current_cost as u64
        } else if self.current_cost != 0 {
            2 * (self.current_cost as u64)
        } else {
            1
        };
        if next > 0xffff_ffff {
            return false;
        }
        self.level_fits(floor_log2(next + 1) as u16)
    }

    /// Pays the current cost plus `base`. On success the round counter steps, the cost
    /// doubles when the round runs out, and energy and experience are granted; on
    /// failure nothing changes.
    pub fn pay_cost(&mut self, base: u64) -> (r: Result<(), u32>)
        requires
            old(self)@.wf(),
            old(self)@.can_pay(base) ==> old(self)@.pay_fits(),
        ensures
            r is Ok <==> old(self)@.can_pay(base),
            r is Ok ==> final(self)@ == old(self)@.paid(base),
            r is Err ==> r == Err::<(), u32>(ERROR_NOT_ENOUGH_BALANCE) && final(self)@ == old(
                self,
            )@,
            final(self)@.wf(),
    {
        let cost: u64 = match (self.current_cost as u64).checked_add(base) {
            Some(c) => c,
            None => {
                return Err(ERROR_NOT_ENOUGH_BALANCE);
            },
        };
        match self.cost_balance(cost) {
            Ok(()) => {},
            Err(e) => {
                return Err(e);
            },
        }
        self.cost_info = self.cost_info - 1;
        if self.cost_info == 0 {
            self.cost_info = COST_INCREASE_ROUND;
            if self.current_cost != 0 {
                self.current_cost = self.current_cost * 2;
            } else {
                self.current_cost = 1;
            }
        }
        let energy: u32 = (self.energy as u32) + (ENERGY_PER_PAYMENT as u32);
        if energy > ENERGY_CAP as u32 {
            self.energy = ENERGY_CAP;
        } else {
            self.energy = energy as u16;
        }
        let gain: u32 = floor_log2(self.current_cost as u64 + 1);
        self.inc_exp(gain as u16);
        Ok(())
    }
}

impl PlayerDataView {
    /// Whether an energy collection at `counter` has any effect.
    pub open spec fn energy_due(self, counter: u64) -> bool {
        counter >= self.last_check_point + ENERGY_INTERVAL
    }

    /// The player after an effective energy collection at `counter`.
    pub open spec fn energy_collected(self, counter: u64) -> Self {
        let grant = log2((self.balance() / (ENERGY_BALANCE_UNIT as int) + 1) as nat) * self.level;
        PlayerDataView {
            energy: capped_energy(self.energy + grant),
            last_check_point: counter as u32,
            ..self.with_balance(self.balance() - ENERGY_FEE)
        }
    }

    /// The interest stamp for the current balance at tick `counter`.
    pub open spec fn stamp(self, counter: u64) -> u64 {
        pack32(self.balance(), counter as int) as u64
    }

    /// The player with the interest stamp rebased to the current balance at `counter`.
    pub open spec fn stamped(self, counter: u64) -> Self {
        PlayerDataView { last_interest_stamp: self.stamp(counter), ..self }
    }

    /// The balance on which interest accrues: the stamped one, but no more than the
    /// current one.
    pub open spec fn interest_base(self) -> int {
        let stamped = self.last_interest_stamp as int / 0x1_0000_0000;
        if stamped > self.balance() {
            self.balance()
        } else {
            stamped
        }
    }

    /// The tick at which interest was last rebased.
    pub open spec fn interest_since(self) -> int {
        self.last_interest_stamp as int % 0x1_0000_0000
    }

    /// Interest accrued at tick `counter`.
    pub open spec fn interest(self, counter: u64) -> int {
        (self.level * self.interest_base() * (counter - self.interest_since())) / (
        INTEREST_DIVISOR as int)
    }

    /// The balance after interest is credited and the flat fee is taken.
    pub open spec fn balance_after_interest(self, counter: u64) -> int {
        self.balance() + self.interest(counter) - INTEREST_FEE
    }

    /// The player after a successful interest collection at `counter`.
    pub open spec fn interest_collected(self, counter: u64) -> Self {
        PlayerDataView {
            last_interest_stamp: self.stamp(counter),
            ..self.with_balance(self.balance_after_interest(counter))
        }
    }

    /// Whether an interest collection at `counter` produces only numbers that fit.
    pub open spec fn interest_fits(self, counter: u64) -> bool {
        &&& self.interest_since() <= counter <= u32::MAX
        &&& self.balance_after_interest(counter) <= i64::MAX
    }
}

impl PlayerData {
    /// Collects energy once `ENERGY_INTERVAL` ticks have passed since the last
    /// collection; before that it succeeds and changes nothing.
    pub fn collect_energy(&mut self, counter: u64) -> (r: Result<(), u32>)
        requires
            old(self)@.wf(),
            old(self)@.energy_due(counter) ==> counter <= u32::MAX,
        ensures
            !old(self)@.energy_due(counter) ==> r is Ok && final(self)@ == old(self)@,
            old(self)@.energy_due(counter) && old(self)@.balance() >= ENERGY_FEE ==> r is Ok
                && final(self)@ == old(self)@.energy_collected(counter),
            old(self)@.energy_due(counter) && old(self)@.balance() < ENERGY_FEE ==> r == Err::<
                (),
                u32,
            >(ERROR_NOT_ENOUGH_BALANCE) && final(self)@ == old(self)@,
            final(self)@.wf(),
    {
        if counter >= (self.last_check_point as u64) + ENERGY_INTERVAL {
            let balance: u64 = self.get_balance();
            if balance < ENERGY_FEE {
                return Err(ERROR_NOT_ENOUGH_BALANCE);
            }
            let steps: u32 = floor_log2(balance / ENERGY_BALANCE_UNIT + 1);
            let level: u32 = self.level as u32;
            assert(steps * level <= 63 * 0xffff) by (nonlinear_arith)
                requires
                    steps <= 63,
                    level <= 0xffff,
            ;
            let energy: u32 = (self.energy as u32) + steps * level;
            if energy > ENERGY_CAP as u32 {
                self.energy = ENERGY_CAP;
            } else {
                self.energy = energy as u16;
            }
            self.last_check_point = counter as u32;
            self.cost_balance(ENERGY_FEE)
        } else {
            Ok(())
        }
    }

    /// Stamps the current balance and tick for the next interest collection.
    pub fn update_interest(&mut self, counter: u64)
        requires
            old(self)@.wf(),
            counter <= u32::MAX,
        ensures
            final(self)@ == old(self)@.stamped(counter),
            final(self)@.wf(),
    {
        self.last_interest_stamp = pack_hi_lo(self.get_balance(), counter);
    }

    /// Credits the interest accrued since the last stamp, takes the flat fee, and
    /// stamps anew. Fails without any change when the fee exceeds balance plus interest.
    pub fn collect_interest(&mut self, counter: u64) -> (r: Result<(), u32>)
        requires
            old(self)@.wf(),
            old(self)@.interest_since() <= counter <= u32::MAX,
            old(self)@.balance_after_interest(counter) <= i64::MAX,
        ensures
            r is Ok <==> old(self)@.balance_after_interest(counter) >= 0,
            r is Ok ==> final(self)@ == old(self)@.interest_collected(counter),
            r is Err ==> r == Err::<(), u32>(ERROR_NOT_ENOUGH_BALANCE) && final(self)@ == old(
                self,
            )@,
            final(self)@.wf(),
    {
        let current_balance: u64 = self.get_balance();
        let mut balance: u64 = self.last_interest_stamp / 0x1_0000_0000;
        if balance > current_balance {
            balance = current_balance;
        }
        let timestamp: u64 = self.last_interest_stamp % 0x1_0000_0000;
        let delta: u64 = counter - timestamp;
        let level: u64 = self.level as u64;
        assert(level * balance <= 0xffff * 0xffff_ffff) by (nonlinear_arith)
            requires
                level <= 0xffff,
                balance <= 0xffff_ffff,
        ;
        let weighted: u64 = level * balance;
        assert(weighted * delta <= 0xffff * 0xffff_ffff * 0xffff_ffff) by (nonlinear_arith)
            requires
                weighted <= 0xffff * 0xffff_ffff,
                delta <= 0xffff_ffff,
        ;
        let product: u128 = (weighted as u128) * (delta as u128);
        let interest: u128 = product / (INTEREST_DIVISOR as u128);
        assert(interest == old(self)@.interest(counter));
        let total: i128 = (current_balance as i128) + (interest as i128) - (INTEREST_FEE as i128);
        if total < 0 {
            return Err(ERROR_NOT_ENOUGH_BALANCE);
        }
        self.last_interest_stamp = pack_hi_lo(current_balance, counter);
        let last: usize = self.local.0.len() - 1;
        self.local.0[last] = total as i64;
        Ok(())
    }

    /// Whether an interest collection at `counter` produces only numbers that fit.
    pub fn interest_fits(&self, counter: u64) -> (b: bool)
        requires
            self@.wf(),
        ensures
            b == self@.interest_fits(counter),
    {
        let timestamp: u64 = self.last_interest_stamp % 0x1_0000_0000;
        if !(timestamp <= counter && counter <= 0xffff_ffff) {
            return false;
        }
        let current_balance: u64 = self.get_balance();
        let mut balance: u64 = self.last_interest_stamp / 0x1_0000_0000;
        if balance > current_balance {
            balance = current_balance;
        }
        let delta: u64 = counter - timestamp;
        let level: u64 = self.level as u64;
        assert(level * balance <= 0xffff * 0xffff_ffff) by (nonlinear_arith)
            requires
                level <= 0xffff,
                balance <= 0xffff_ffff,
        ;
        let weighted: u64 = level * balance;
        assert(weighted * delta <= 0xffff * 0xffff_ffff * 0xffff_ffff) by (nonlinear_arith)
            requires
                weighted <= 0xffff * 0xffff_ffff,
                delta <= 0xffff_ffff,
        ;
        let product: u128 = (weighted as u128) * (delta as u128);
        let interest: u128 = product / (INTEREST_DIVISOR as u128);
        assert(interest == self@.interest(counter));
        let total: i128 = (current_balance as i128) + (interest as i128) - (INTEREST_FEE as i128);
        total <= i64::MAX as i128
    }
}

/// `a` with place `i` raised by one.
pub open spec fn bumped(a: [u8; 8], i: int) -> [u8; 8] {
    vstd::array::spec_array_update(a, i, (a[i] + 1) as u8)
}

impl PlayerDataView {
    /// The player after `upgrade_object`.
    pub open spec fn upgraded(self, object_index: int, index: int) -> Self {
        let o = self.objects[object_index];
        PlayerDataView {
            objects: self.objects.update(
                object_index,
                Object { attributes: bumped(bumped(o.attributes, 0), index), ..o },
            ),
            ..self
        }
    }

    /// The player with `o` added to its objects.
    pub open spec fn with_new_object(self, o: Object) -> Self {
        PlayerDataView { objects: self.objects.push(o), ..self }
    }

    /// Whether the player holds more of resource `i` than its bounty costs.
    pub open spec fn bounty_open(self, i: int) -> bool {
        self.local[i] > bounty_cost(self.redeem_info[i])
    }

    /// Whether the numbers that redeeming bounty `i` produces fit their fields.
    pub open spec fn bounty_fits(self, i: int) -> bool {
        &&& self.redeem_info[i] < u8::MAX
        &&& self.balance() + bounty_reward(self.redeem_info[i]) <= i64::MAX
        &&& self.level_fits(BOUNTY_EXP as int)
    }

    /// The player after redeeming bounty `i`.
    pub open spec fn redeemed(self, i: int) -> Self {
        let spent = PlayerDataView {
            local: self.local.update(i, (self.local[i] - bounty_cost(self.redeem_info[i])) as i64),
            redeem_info: bumped(self.redeem_info, i),
            ..self
        };
        spent.with_balance(spent.balance() + bounty_reward(self.redeem_info[i])).leveled(
            BOUNTY_EXP as int,
        )
    }
}

impl PlayerData {
    /// Raises feature 0 and feature `index` of an object by one each.
    pub fn upgrade_object(&mut self, object_index: usize, index: usize)
        requires
            object_index < old(self)@.objects.len(),
            index < 8,
            old(self)@.objects[object_index as int].attributes[0] < 128,
            old(self)@.objects[object_index as int].attributes[index as int] < 255,
        ensures
            final(self)@ == old(self)@.upgraded(object_index as int, index as int),
            final(self)@.wf() == old(self)@.wf(),
    {
        let object = &mut self.objects[object_index];
        object.attributes[0] += 1;
        object.attributes[index] += 1;
        proof {
            let before = old(self)@.objects[object_index as int];
            assert(object.attributes =~= bumped(bumped(before.attributes, 0), index as int));
        }
        proof {
            assert forall|k: int| 0 <= k < self@.objects.len() implies (
            #[trigger] self@.objects[k]).wf() == old(self)@.objects[k].wf() && self@.objects[k].cards
                == old(self)@.objects[k].cards by {}
            if old(self)@.wf() {
                assert(objects_ok(self@.objects, self@.cards));
            }
            if self@.wf() {
                assert forall|k: int| 0 <= k < self@.objects.len() implies (
                #[trigger] old(self)@.objects[k]).wf() && ring_points_at(
                    old(self)@.cards,
                    old(self)@.objects[k].cards,
                ) by {
                    assert(self@.objects[k].wf());
                }
            }
        }
    }

    /// Redeems bounty `bounty_index`: pays its resource cost, which grows with every
    /// redemption, and earns its reward and experience. The resource must exceed the cost.
    pub fn redeem_bounty(&mut self, bounty_index: usize) -> (r: Result<(), u32>)
        requires
            old(self)@.wf(),
            bounty_index < 7,
            old(self)@.bounty_open(bounty_index as int) ==> old(self)@.bounty_fits(
                bounty_index as int,
            ),
        ensures
            r is Ok <==> old(self)@.bounty_open(bounty_index as int),
            r is Ok ==> final(self)@ == old(self)@.redeemed(bounty_index as int),
            r is Err ==> r == Err::<(), u32>(ERROR_NOT_ENOUGH_RESOURCE) && final(self)@ == old(
                self,
            )@,
            final(self)@.wf(),
    {
        let v: i64 = self.local.0[bounty_index];
        let redeem_info: u8 = self.redeem_info[bounty_index];
        let cost: u64 = get_bounty_cost(redeem_info);
        if v as u64 > cost {
            self.local.0[bounty_index] = v - (cost as i64);
            self.redeem_info[bounty_index] = redeem_info + 1;
            let reward: u64 = get_bounty_reward(redeem_info);
            proof {
                assert(self@.redeem_info =~= bumped(old(self)@.redeem_info, bounty_index as int));
            }
            self.inc_balance(reward);
            self.inc_exp(BOUNTY_EXP);
            Ok(())
        } else {
            Err(ERROR_NOT_ENOUGH_RESOURCE)
        }
    }

    /// Whether bounty `i`, if the player can redeem it, produces only numbers that fit.
    pub fn bounty_fits(&self, i: usize) -> (b: bool)
        requires
            self@.wf(),
            i < 7,
        ensures
            b == (self@.bounty_open(i as int) ==> self@.bounty_fits(i as int)),
    {
        let v: i64 = self.local.0[i];
        let redeem_info: u8 = self.redeem_info[i];
        if v as u64 > get_bounty_cost(redeem_info) {
            redeem_info < 255 && (self.get_balance() as u128) + (get_bounty_reward(redeem_info) as u128)
                <= i64::MAX as u128 && self.level_fits(BOUNTY_EXP)
        } else {
            true
        }
    }
}

/// Adding an object whose ring points at unlisted cards keeps the player valid.
pub proof fn lemma_pushed_object_wf(p: PlayerDataView, o: Object)
    requires
        p.wf(),
        o.wf(),
        p.ring_ok(o.cards),
    ensures
        p.with_new_object(o).wf(),
{
    let q = p.with_new_object(o);
    assert forall|k: int| 0 <= k < q.objects.len() implies (#[trigger] q.objects[k]).wf()
        && ring_points_at(q.cards, q.objects[k].cards) by {
        if k < p.objects.len() {
            assert(p.objects[k].wf());
        }
    }
}

} // verus!
