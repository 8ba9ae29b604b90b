//! The handlers of the commands that concern one player's objects, cards and funds.
//!
//! Each command has four parts: `admits` says when it may be handled at all, `result`
//! which status it gives, `applied` what the world is after a success, and `handle`
//! does it. A command that fails leaves the world as it was.

use vstd::prelude::*;
use crate::config::INSTALL_OBJECT_COST;
use crate::config::INTEREST_BOUNTY_INDEX;
use crate::config::MAX_OBJECT_INDEX;
use crate::error::ERROR_INDEX_OUT_OF_BOUND;
use crate::error::ERROR_NOT_ENOUGH_BALANCE;
use crate::error::ERROR_NOT_ENOUGH_LEVEL;
use crate::error::ERROR_NOT_ENOUGH_POOL;
use crate::error::ERROR_NOT_ENOUGH_RESOURCE;
use crate::error::ERROR_PLAYER_ALREADY_EXIST;
use crate::error::ERROR_PLAYER_NOT_EXIST;
use crate::events::Event;
use crate::object::Object;
use crate::player::lemma_pushed_object_wf;
use crate::player::PlayerData;
use crate::player::PlayerDataView;
use crate::state::Bounty;
use crate::state::Deposit;
use crate::state::InstallCard;
use crate::state::InstallObject;
use crate::state::RestartObject;
use crate::state::Transaction;
use crate::state::UpgradeObject;
use crate::state::Withdraw;
use crate::steps::gate;
use crate::steps::lemma_wf_advanced;
use crate::steps::lemma_wf_frame;
use crate::steps::lemma_wf_joined;
use crate::steps::lemma_wf_scheduled;
use crate::steps::lemma_wf_with_data;
use crate::world::lemma_extended;
use crate::world::lemma_index_of;
use crate::world::AutomataPlayer;
use crate::world::PlayerView;
use crate::world::StateView;
use crate::world::World;
use crate::world::WorldView;

verus! {

impl UpgradeObject {
    /// Whether the object can take the upgrade.
    pub open spec fn upgradable(self, d: PlayerDataView) -> bool {
        &&& self.object_index < d.objects.len()
        &&& self.feature_index < 8
        &&& d.objects[self.object_index as int].attributes[0] < 128
        &&& d.objects[self.object_index as int].attributes[self.feature_index as int] < 255
    }

    /// Whether the command may be handled: the nonce is the expected one and, where the
    /// player can pay, the object exists, its feature 0 is below 128 and the numbers fit.
    pub open spec fn admits(self, w: WorldView, pid: [u64; 2], nonce: u64) -> bool {
        w.has_player(pid) ==> {
            let p = w.player_of(pid);
            &&& gate(p, nonce)
            &&& p.data.can_pay(0) ==> p.data.pay_fits() && self.upgradable(p.data)
        }
    }

    /// The status that handling the command gives.
    pub open spec fn result(self, w: WorldView, pid: [u64; 2]) -> Result<(), u32> {
        if !w.has_player(pid) {
            Err(ERROR_PLAYER_NOT_EXIST)
        } else if !w.data_of(pid).can_pay(0) {
            Err(ERROR_NOT_ENOUGH_BALANCE)
        } else {
            Ok(())
        }
    }

    /// The world after the command was handled with success.
    pub open spec fn applied(self, w: WorldView, pid: [u64; 2]) -> WorldView {
        let i = w.index_of(pid);
        w.with_data(
            i,
            w.data_of(pid).paid(0).upgraded(self.object_index as int, self.feature_index as int),
        ).advanced(i)
    }

    /// Tests whether the command may be handled.
    pub fn admissible(&self, world: &World, pid: &[u64; 2], nonce: u64) -> (b: bool)
        requires
            world@.wf(),
        ensures
            b == self.admits(world@, *pid, nonce),
    {
        match world.find_player(pid) {
            None => true,
            Some(i) => {
                let p = &world.players[i];
                if !(nonce == p.nonce && nonce < u64::MAX) {
                    return false;
                }
                if !p.data.can_pay(0) {
                    return true;
                }
                p.data.pay_fits() && self.object_index < p.data.objects.len() && self.feature_index
                    < 8 && p.data.objects[self.object_index].attributes[0] < 128
                    && p.data.objects[self.object_index].attributes[self.feature_index] < 255
            },
        }
    }

    /// Handles the command for the player `pid`. A command that fails leaves the world as
    /// it was.
    pub fn handle(&self, world: &mut World, pid: &[u64; 2], nonce: u64) -> (r: Result<(), u32>)
        requires
            old(world)@.wf(),
            self.admits(old(world)@, *pid, nonce),
        ensures
            r == self.result(old(world)@, *pid),
            r is Ok ==> final(world)@ == self.applied(old(world)@, *pid),
            r is Err ==> final(world)@ == old(world)@,
            final(world)@.wf(),
    {
        let i: usize = match world.find_player(pid) {
            None => {
                return Err(ERROR_PLAYER_NOT_EXIST);
            },
            Some(i) => i,
        };
        let player = &mut world.players[i];
        match player.data.pay_cost(0) {
            Ok(()) => {},
            Err(e) => {
                assert(world@ =~= old(world)@);
                return Err(e);
            },
        }
        player.data.upgrade_object(self.object_index, self.feature_index);
        player.check_and_inc_nonce(nonce);
        proof {
            let w = old(world)@;
            let d = w.data_of(*pid).paid(0).upgraded(
                self.object_index as int,
                self.feature_index as int,
            );
            lemma_wf_with_data(w, i as int, d);
            lemma_wf_advanced(w.with_data(i as int, d), i as int);
            assert(world@ =~= self.applied(w, *pid));
        }
        Ok(())
    }
}

impl InstallObject {
    /// Whether the level of `d` allows one more object.
    pub open spec fn level_allows(self, d: PlayerDataView) -> bool {
        d.objects.len() <= (d.level + 1) / 2
    }

    /// Whether the command gets as far as installing the object.
    pub open spec fn goes_through(self, d: PlayerDataView) -> bool {
        &&& self.level_allows(d)
        &&& d.objects.len() <= MAX_OBJECT_INDEX
        &&& d.can_pay(INSTALL_OBJECT_COST)
    }

    /// Whether the command may be handled: the nonce is the expected one, the object
    /// index is the next free one and, where the command goes through, the ring points
    /// at unlisted cards of the player and the numbers fit.
    pub open spec fn admits(self, w: WorldView, pid: [u64; 2], nonce: u64) -> bool {
        w.has_player(pid) ==> {
            let p = w.player_of(pid);
            &&& gate(p, nonce)
            &&& self.object_index == p.data.objects.len()
            &&& self.goes_through(p.data) ==> p.data.pay_fits() && p.data.ring_ok(self.modifiers)
        }
    }

    /// The status that handling the command gives.
    pub open spec fn result(self, w: WorldView, pid: [u64; 2]) -> Result<(), u32> {
        if !w.has_player(pid) {
            Err(ERROR_PLAYER_NOT_EXIST)
        } else if !self.level_allows(w.data_of(pid)) {
            Err(ERROR_NOT_ENOUGH_LEVEL)
        } else if w.data_of(pid).objects.len() > MAX_OBJECT_INDEX {
            Err(ERROR_INDEX_OUT_OF_BOUND)
        } else if !w.data_of(pid).can_pay(INSTALL_OBJECT_COST) {
            Err(ERROR_NOT_ENOUGH_BALANCE)
        } else {
            Ok(())
        }
    }

    /// The object that is installed: running at the first slot since `counter`.
    pub open spec fn installed(self, counter: u64) -> Object {
        Object::fresh(self.modifiers).started(0, counter)
    }

    /// The first firing of the installed object: after the duration of its first card.
    pub open spec fn first_event(self, w: WorldView, pid: [u64; 2]) -> Event {
        Event {
            object_index: self.object_index,
            owner: pid,
            delta: w.data_of(pid).cards[self.modifiers[0] as int].duration as usize,
        }
    }

    /// The world after the command was handled with success.
    pub open spec fn applied(self, w: WorldView, pid: [u64; 2]) -> WorldView {
        let i = w.index_of(pid);
        w.with_data(
            i,
            w.data_of(pid).paid(INSTALL_OBJECT_COST).with_new_object(self.installed(w.counter())),
        ).scheduled(self.first_event(w, pid)).advanced(i)
    }

    /// Tests whether the command may be handled.
    pub fn admissible(&self, world: &World, pid: &[u64; 2], nonce: u64) -> (b: bool)
        requires
            world@.wf(),
        ensures
            b == self.admits(world@, *pid, nonce),
    {
        match world.find_player(pid) {
            None => true,
            Some(i) => {
                let p = &world.players[i];
                if !(nonce == p.nonce && nonce < u64::MAX) {
                    return false;
                }
                let objindex: usize = p.data.objects.len();
                if objindex != self.object_index {
                    return false;
                }
                let level: usize = p.data.level as usize;
                if objindex > (level + 1) / 2 || objindex > MAX_OBJECT_INDEX || !p.data.can_pay(
                    INSTALL_OBJECT_COST,
                ) {
                    return true;
                }
                p.data.pay_fits() && p.data.ring_ok(&self.modifiers)
            },
        }
    }

    /// Handles the command for the player `pid`. A command that fails leaves the world as
    /// it was.
    pub fn handle(&self, world: &mut World, pid: &[u64; 2], nonce: u64) -> (r: Result<(), u32>)
        requires
            old(world)@.wf(),
            self.admits(old(world)@, *pid, nonce),
        ensures
            r == self.result(old(world)@, *pid),
            r is Ok ==> final(world)@ == self.applied(old(world)@, *pid),
            r is Err ==> final(world)@ == old(world)@,
            final(world)@.wf(),
    {
        let i: usize = match world.find_player(pid) {
            None => {
                return Err(ERROR_PLAYER_NOT_EXIST);
            },
            Some(i) => i,
        };
        let counter: u64 = world.state.queue.counter;
        let objindex: usize = world.players[i].data.objects.len();
        let level: usize = world.players[i].data.level as usize;
        if objindex > (level + 1) / 2 {
            return Err(ERROR_NOT_ENOUGH_LEVEL);
        }
        if objindex > MAX_OBJECT_INDEX {
            return Err(ERROR_INDEX_OUT_OF_BOUND);
        }
        let player = &mut world.players[i];
        match player.data.pay_cost(INSTALL_OBJECT_COST) {
            Ok(()) => {},
            Err(e) => {
                assert(world@ =~= old(world)@);
                return Err(e);
            },
        }
        let mut object: Object = Object::new(self.modifiers);
        object.start_new_modifier(0, counter);
        let delay: u64 = player.data.cards[object.cards[0] as usize].duration;
        player.data.objects.push(object);
        player.check_and_inc_nonce(nonce);
        let event = Event { object_index: self.object_index, owner: *pid, delta: delay as usize };
        world.state.queue.insert(event);
        proof {
            let w = old(world)@;
            let paid = w.data_of(*pid).paid(INSTALL_OBJECT_COST);
            let d = paid.with_new_object(self.installed(w.counter()));
            lemma_pushed_object_wf(paid, self.installed(w.counter()));
            lemma_wf_with_data(w, i as int, d);
            let w1 = w.with_data(i as int, d);
            lemma_index_of(w1, i as int);
            assert(w1.event_ok(event));
            lemma_wf_scheduled(w1, event);
            let w2 = w1.scheduled(event);
            lemma_wf_advanced(w2, i as int);
            assert(world@ =~= self.applied(w, *pid));
        }
        Ok(())
    }
}

impl RestartObject {
    /// Whether the command may be handled: the nonce is the expected one and, where the
    /// player can pay, the object exists, the ring points at unlisted cards of the player
    /// and the numbers fit.
    pub open spec fn admits(self, w: WorldView, pid: [u64; 2], nonce: u64) -> bool {
        w.has_player(pid) ==> {
            let p = w.player_of(pid);
            &&& gate(p, nonce)
            &&& p.data.can_pay(0) ==> p.data.pay_fits() && self.object_index
                < p.data.objects.len() && p.data.ring_ok(self.modifiers)
        }
    }

    /// The status that handling the command gives.
    pub open spec fn result(self, w: WorldView, pid: [u64; 2]) -> Result<(), u32> {
        if !w.has_player(pid) {
            Err(ERROR_PLAYER_NOT_EXIST)
        } else if !w.data_of(pid).can_pay(0) {
            Err(ERROR_NOT_ENOUGH_BALANCE)
        } else {
            Ok(())
        }
    }

    /// The world after the command was handled with success: the object has the new
    /// ring, and if it was halted its first firing is scheduled.
    pub open spec fn applied(self, w: WorldView, pid: [u64; 2]) -> WorldView {
        let i = w.index_of(pid);
        let paid = w.data_of(pid).paid(0);
        let replaced = w.with_data(
            i,
            paid.ring_replaced(self.object_index as int, self.modifiers, w.counter()),
        );
        match paid.restart_delay(self.object_index as int, self.modifiers) {
            Some(delay) => replaced.scheduled(
                Event { object_index: self.object_index, owner: pid, delta: delay },
            ).advanced(i),
            None => replaced.advanced(i),
        }
    }

    /// Tests whether the command may be handled.
    pub fn admissible(&self, world: &World, pid: &[u64; 2], nonce: u64) -> (b: bool)
        requires
            world@.wf(),
        ensures
            b == self.admits(world@, *pid, nonce),
    {
        match world.find_player(pid) {
            None => true,
            Some(i) => {
                let p = &world.players[i];
                if !(nonce == p.nonce && nonce < u64::MAX) {
                    return false;
                }
                if !p.data.can_pay(0) {
                    return true;
                }
                p.data.pay_fits() && self.object_index < p.data.objects.len() && p.data.ring_ok(
                    &self.modifiers,
                )
            },
        }
    }

    /// Handles the command for the player `pid`. A command that fails leaves the world as
    /// it was.
    pub fn handle(&self, world: &mut World, pid: &[u64; 2], nonce: u64) -> (r: Result<(), u32>)
        requires
            old(world)@.wf(),
            self.admits(old(world)@, *pid, nonce),
        ensures
            r == self.result(old(world)@, *pid),
            r is Ok ==> final(world)@ == self.applied(old(world)@, *pid),
            r is Err ==> final(world)@ == old(world)@,
            final(world)@.wf(),
    {
        let i: usize = match world.find_player(pid) {
            None => {
                return Err(ERROR_PLAYER_NOT_EXIST);
            },
            Some(i) => i,
        };
        let counter: u64 = world.state.queue.counter;
        let player = &mut world.players[i];
        match player.data.pay_cost(0) {
            Ok(()) => {},
            Err(e) => {
                assert(world@ =~= old(world)@);
                return Err(e);
            },
        }
        let restarted: Option<usize> = player.data.restart_object_card(
            self.object_index,
            self.modifiers,
            counter,
        );
        player.check_and_inc_nonce(nonce);
        proof {
            let w = old(world)@;
            let paid = w.data_of(*pid).paid(0);
            let d = paid.ring_replaced(self.object_index as int, self.modifiers, w.counter());
            lemma_wf_with_data(w, i as int, d);
            lemma_index_of(w.with_data(i as int, d), i as int);
        }
        match restarted {
            Some(delay) => {
                let event = Event { object_index: self.object_index, owner: *pid, delta: delay };
                world.state.queue.insert(event);
                proof {
                    let w = old(world)@;
                    let paid = w.data_of(*pid).paid(0);
                    let d = paid.ring_replaced(self.object_index as int, self.modifiers, w.counter());
                    let w1 = w.with_data(i as int, d);
                    assert(w1.event_ok(event));
                    lemma_wf_scheduled(w1, event);
                    lemma_wf_advanced(w1.scheduled(event), i as int);
                    assert(world@ =~= self.applied(w, *pid));
                }
            },
            None => {
                proof {
                    let w = old(world)@;
                    let paid = w.data_of(*pid).paid(0);
                    let d = paid.ring_replaced(self.object_index as int, self.modifiers, w.counter());
                    lemma_wf_advanced(w.with_data(i as int, d), i as int);
                    assert(world@ =~= self.applied(w, *pid));
                }
            },
        }
        Ok(())
    }
}

impl InstallCard {
    /// Whether the level of `d` allows one more card: four for each level, and four.
    pub open spec fn level_allows(self, d: PlayerDataView) -> bool {
        d.cards.len() < 4 * d.level + 4
    }

    /// Whether the command may be handled: the nonce is the expected one and, where the
    /// command goes through, the numbers fit.
    pub open spec fn admits(self, w: WorldView, pid: [u64; 2], nonce: u64) -> bool {
        w.has_player(pid) ==> {
            let p = w.player_of(pid);
            &&& gate(p, nonce)
            &&& self.level_allows(p.data) && p.data.can_pay(0) ==> p.data.pay_fits()
        }
    }

    /// The status that handling the command gives.
    pub open spec fn result(self, w: WorldView, pid: [u64; 2]) -> Result<(), u32> {
        if !w.has_player(pid) {
            Err(ERROR_PLAYER_NOT_EXIST)
        } else if !self.level_allows(w.data_of(pid)) {
            Err(ERROR_NOT_ENOUGH_LEVEL)
        } else if !w.data_of(pid).can_pay(0) {
            Err(ERROR_NOT_ENOUGH_BALANCE)
        } else {
            Ok(())
        }
    }

    /// The world after the command was handled with success: the player paid and holds
    /// the card generated from the second word of `rand`.
    pub open spec fn applied(self, w: WorldView, pid: [u64; 2], rand: [u64; 4]) -> WorldView {
        let i = w.index_of(pid);
        let paid = w.data_of(pid).paid(0);
        w.with_data(i, paid.with_card(paid.generated(rand[1]))).advanced(i)
    }

    /// Tests whether the command may be handled.
    pub fn admissible(&self, world: &World, pid: &[u64; 2], nonce: u64) -> (b: bool)
        requires
            world@.wf(),
        ensures
            b == self.admits(world@, *pid, nonce),
    {
        match world.find_player(pid) {
            None => true,
            Some(i) => {
                let p = &world.players[i];
                if !(nonce == p.nonce && nonce < u64::MAX) {
                    return false;
                }
                let level: usize = p.data.level as usize;
                if p.data.cards.len() >= 4 * level + 4 || !p.data.can_pay(0) {
                    return true;
                }
                p.data.pay_fits()
            },
        }
    }

    /// Handles the command for the player `pid`. A command that fails leaves the world as
    /// it was.
    pub fn handle(&self, world: &mut World, pid: &[u64; 2], nonce: u64, rand: &[u64; 4]) -> (r:
        Result<(), u32>)
        requires
            old(world)@.wf(),
            self.admits(old(world)@, *pid, nonce),
        ensures
            r == self.result(old(world)@, *pid),
            r is Ok ==> final(world)@ == self.applied(old(world)@, *pid, *rand),
            r is Err ==> final(world)@ == old(world)@,
            final(world)@.wf(),
    {
        let i: usize = match world.find_player(pid) {
            None => {
                return Err(ERROR_PLAYER_NOT_EXIST);
            },
            Some(i) => i,
        };
        let level: usize = world.players[i].data.level as usize;
        if world.players[i].data.cards.len() >= 4 * level + 4 {
            return Err(ERROR_NOT_ENOUGH_LEVEL);
        }
        let player = &mut world.players[i];
        match player.data.pay_cost(0) {
            Ok(()) => {},
            Err(e) => {
                assert(world@ =~= old(world)@);
                return Err(e);
            },
        }
        player.data.generate_card(rand);
        player.check_and_inc_nonce(nonce);
        proof {
            let w = old(world)@;
            let paid = w.data_of(*pid).paid(0);
            let d = paid.with_card(paid.generated(rand[1]));
            assert forall|j: int| 0 <= j < d.cards.len() implies (#[trigger] d.cards[j]).marketid
                <= w.market.len() by {
                if j < paid.cards.len() {
                    assert(w.players[i as int].data.cards[j].marketid <= w.market.len());
                }
            }
            lemma_wf_with_data(w, i as int, d);
            lemma_wf_advanced(w.with_data(i as int, d), i as int);
            assert(world@ =~= self.applied(w, *pid, *rand));
        }
        Ok(())
    }
}

impl Bounty {
    /// Whether the command may be handled: the nonce is the expected one, the index is
    /// at most 7, and the numbers fit.
    pub open spec fn admits(self, w: WorldView, pid: [u64; 2], nonce: u64) -> bool {
        w.has_player(pid) ==> {
            let p = w.player_of(pid);
            &&& gate(p, nonce)
            &&& if self.bounty_index < INTEREST_BOUNTY_INDEX {
                p.data.bounty_open(self.bounty_index as int) ==> p.data.bounty_fits(
                    self.bounty_index as int,
                )
            } else {
                self.bounty_index == INTEREST_BOUNTY_INDEX && p.data.interest_fits(w.counter())
            }
        }
    }

    /// The status that handling the command gives.
    pub open spec fn result(self, w: WorldView, pid: [u64; 2]) -> Result<(), u32> {
        if !w.has_player(pid) {
            Err(ERROR_PLAYER_NOT_EXIST)
        } else if self.bounty_index < INTEREST_BOUNTY_INDEX {
            if w.data_of(pid).bounty_open(self.bounty_index as int) {
                Ok(())
            } else {
                Err(ERROR_NOT_ENOUGH_RESOURCE)
            }
        } else if w.data_of(pid).balance_after_interest(w.counter()) >= 0 {
            Ok(())
        } else {
            Err(ERROR_NOT_ENOUGH_BALANCE)
        }
    }

    /// The world after the command was handled with success.
    pub open spec fn applied(self, w: WorldView, pid: [u64; 2]) -> WorldView {
        let i = w.index_of(pid);
        if self.bounty_index < INTEREST_BOUNTY_INDEX {
            w.with_data(i, w.data_of(pid).redeemed(self.bounty_index as int)).advanced(i)
        } else {
            w.with_data(i, w.data_of(pid).interest_collected(w.counter())).advanced(i)
        }
    }

    /// Tests whether the command may be handled.
    pub fn admissible(&self, world: &World, pid: &[u64; 2], nonce: u64) -> (b: bool)
        requires
            world@.wf(),
        ensures
            b == self.admits(world@, *pid, nonce),
    {
        match world.find_player(pid) {
            None => true,
            Some(i) => {
                let p = &world.players[i];
                if !(nonce == p.nonce && nonce < u64::MAX) {
                    return false;
                }
                if self.bounty_index < INTEREST_BOUNTY_INDEX {
                    p.data.bounty_fits(self.bounty_index)
                } else {
                    self.bounty_index == INTEREST_BOUNTY_INDEX && p.data.interest_fits(
                        world.state.queue.counter,
                    )
                }
            },
        }
    }

    /// Handles the command for the player `pid`. A command that fails leaves the world as
    /// it was.
    pub fn handle(&self, world: &mut World, pid: &[u64; 2], nonce: u64) -> (r: Result<(), u32>)
        requires
            old(world)@.wf(),
            self.admits(old(world)@, *pid, nonce),
        ensures
            r == self.result(old(world)@, *pid),
            r is Ok ==> final(world)@ == self.applied(old(world)@, *pid),
            r is Err ==> final(world)@ == old(world)@,
            final(world)@.wf(),
    {
        let i: usize = match world.find_player(pid) {
            None => {
                return Err(ERROR_PLAYER_NOT_EXIST);
            },
            Some(i) => i,
        };
        let counter: u64 = world.state.queue.counter;
        let player = &mut world.players[i];
        let done: Result<(), u32> = if self.bounty_index < INTEREST_BOUNTY_INDEX {
            player.data.redeem_bounty(self.bounty_index)
        } else {
            player.data.collect_interest(counter)
        };
        match done {
            Ok(()) => {},
            Err(e) => {
                assert(world@ =~= old(world)@);
                return Err(e);
            },
        }
        player.check_and_inc_nonce(nonce);
        proof {
            let w = old(world)@;
            let d = if self.bounty_index < INTEREST_BOUNTY_INDEX {
                w.data_of(*pid).redeemed(self.bounty_index as int)
            } else {
                w.data_of(*pid).interest_collected(w.counter())
            };
            assert forall|j: int| 0 <= j < d.cards.len() implies (#[trigger] d.cards[j]).marketid
                <= w.market.len() by {
                assert(w.players[i as int].data.cards[j].marketid <= w.market.len());
            }
            lemma_wf_with_data(w, i as int, d);
            lemma_wf_advanced(w.with_data(i as int, d), i as int);
            assert(world@ =~= self.applied(w, *pid));
        }
        Ok(())
    }
}

impl Withdraw {
    /// The amount to withdraw: the low 32 bits of the first word.
    pub open spec fn amount(self) -> u64 {
        self.data[0] % 0x1_0000_0000
    }

    /// Whether the command may be handled: the nonce is the expected one.
    pub open spec fn admits(self, w: WorldView, pid: [u64; 2], nonce: u64) -> bool {
        w.has_player(pid) ==> gate(w.player_of(pid), nonce)
    }

    /// The status that handling the command gives.
    pub open spec fn result(self, w: WorldView, pid: [u64; 2]) -> Result<(), u32> {
        if !w.has_player(pid) {
            Err(ERROR_PLAYER_NOT_EXIST)
        } else if self.amount() > w.state.bounty_pool {
            Err(ERROR_NOT_ENOUGH_POOL)
        } else if self.amount() > w.data_of(pid).balance() {
            Err(ERROR_NOT_ENOUGH_BALANCE)
        } else {
            Ok(())
        }
    }

    /// The world after the command was handled with success: player and pool are
    /// debited, interest is rebased, and the withdrawal awaits settlement.
    pub open spec fn applied(self, w: WorldView, pid: [u64; 2]) -> WorldView {
        let i = w.index_of(pid);
        let d = w.data_of(pid);
        let debited = WorldView {
            state: StateView { bounty_pool: (w.state.bounty_pool - self.amount()) as u64, ..w.state },
            withdrawals: w.withdrawals.push(self.data),
            ..w
        };
        debited.with_data(i, d.with_balance(d.balance() - self.amount()).stamped(w.counter())).advanced(i)
    }

    /// Tests whether the command may be handled.
    pub fn admissible(&self, world: &World, pid: &[u64; 2], nonce: u64) -> (b: bool)
        requires
            world@.wf(),
        ensures
            b == self.admits(world@, *pid, nonce),
    {
        match world.find_player(pid) {
            None => true,
            Some(i) => {
                let p = &world.players[i];
                nonce == p.nonce && nonce < u64::MAX
            },
        }
    }

    /// Handles the command for the player `pid`. A command that fails leaves the world as
    /// it was.
    pub fn handle(&self, world: &mut World, pid: &[u64; 2], nonce: u64) -> (r: Result<(), u32>)
        requires
            old(world)@.wf(),
            self.admits(old(world)@, *pid, nonce),
        ensures
            r == self.result(old(world)@, *pid),
            r is Ok ==> final(world)@ == self.applied(old(world)@, *pid),
            r is Err ==> final(world)@ == old(world)@,
            final(world)@.wf(),
    {
        let i: usize = match world.find_player(pid) {
            None => {
                return Err(ERROR_PLAYER_NOT_EXIST);
            },
            Some(i) => i,
        };
        let amount: u64 = self.data[0] % 0x1_0000_0000;
        if amount > world.state.bounty_pool {
            return Err(ERROR_NOT_ENOUGH_POOL);
        }
        let counter: u64 = world.state.queue.counter;
        let player = &mut world.players[i];
        match player.data.cost_balance(amount) {
            Ok(()) => {},
            Err(e) => {
                assert(world@ =~= old(world)@);
                return Err(e);
            },
        }
        player.data.update_interest(counter);
        player.check_and_inc_nonce(nonce);
        world.withdrawals.push(self.data);
        world.state.bounty_pool = world.state.bounty_pool - amount;
        proof {
            let w = old(world)@;
            let d0 = w.data_of(*pid);
            let d = d0.with_balance(d0.balance() - self.amount()).stamped(w.counter());
            let debited = WorldView {
                state: StateView {
                    bounty_pool: (w.state.bounty_pool - self.amount()) as u64,
                    ..w.state
                },
                withdrawals: w.withdrawals.push(self.data),
                ..w
            };
            lemma_wf_frame(w, debited);
            assert(debited.index_of(*pid) == w.index_of(*pid));
            assert forall|j: int| 0 <= j < d.cards.len() implies (#[trigger] d.cards[j]).marketid
                <= w.market.len() by {
                assert(w.players[i as int].data.cards[j].marketid <= w.market.len());
            }
            lemma_wf_with_data(debited, i as int, d);
            lemma_wf_advanced(debited.with_data(i as int, d), i as int);
            assert(world@ =~= self.applied(w, *pid));
        }
        Ok(())
    }
}

impl Deposit {
    /// The player whose funds are moved.
    pub open spec fn target(self) -> [u64; 2] {
        [self.data[0], self.data[1]]
    }

    /// The amount that is moved.
    pub open spec fn amount(self) -> u64 {
        self.data[2]
    }

    /// The world in which the target exists: a target that is unknown joins first.
    pub open spec fn with_target(self, w: WorldView) -> WorldView {
        if w.has_player(self.target()) {
            w
        } else {
            w.joined(PlayerView { player_id: self.target(), nonce: 0, data: PlayerData::new_view() })
        }
    }

    /// Whether the target holds the amount.
    pub open spec fn covered(self, w: WorldView) -> bool {
        self.amount() <= self.with_target(w).data_of(self.target()).balance()
    }

    /// Whether the command may be handled: the sender is a player, the nonce is the
    /// expected one and, where the target holds the amount, the pool can take it.
    pub open spec fn admits(self, w: WorldView, pid: [u64; 2], nonce: u64) -> bool {
        &&& w.has_player(pid)
        &&& gate(w.player_of(pid), nonce)
        &&& self.covered(w) ==> w.state.bounty_pool + self.amount() <= u64::MAX
    }

    /// The status that handling the command gives.
    pub open spec fn result(self, w: WorldView, pid: [u64; 2]) -> Result<(), u32> {
        if self.covered(w) {
            Ok(())
        } else {
            Err(ERROR_NOT_ENOUGH_BALANCE)
        }
    }

    /// The world after the command was handled with success: the amount went from the
    /// target to the pool, the target's interest is rebased, the sender's nonce is used.
    pub open spec fn applied(self, w: WorldView, pid: [u64; 2]) -> WorldView {
        let v = self.with_target(w);
        let t = v.index_of(self.target());
        let d = v.players[t].data;
        let moved = WorldView {
            state: StateView { bounty_pool: (w.state.bounty_pool + self.amount()) as u64, ..v.state },
            ..v
        };
        moved.with_data(t, d.with_balance(d.balance() - self.amount()).stamped(w.counter())).advanced(
            w.index_of(pid),
        )
    }

    /// Tests whether the command may be handled.
    pub fn admissible(&self, world: &World, pid: &[u64; 2], nonce: u64) -> (b: bool)
        requires
            world@.wf(),
        ensures
            b == self.admits(world@, *pid, nonce),
    {
        let a: usize = match world.find_player(pid) {
            None => {
                return false;
            },
            Some(a) => a,
        };
        if !(nonce == world.players[a].nonce && nonce < u64::MAX) {
            return false;
        }
        let target: [u64; 2] = [self.data[0], self.data[1]];
        assert(target =~= self.target());
        let covered: bool = match world.find_player(&target) {
            Some(t) => self.data[2] <= world.players[t].data.get_balance(),
            None => {
                let fresh = PlayerData::new();
                proof {
                    PlayerData::lemma_new_view();
                    let p = PlayerView { player_id: self.target(), nonce: 0, data: PlayerData::new_view() };
                    lemma_wf_joined(world@, p);
                }
                self.data[2] <= fresh.get_balance()
            },
        };
        if covered {
            self.data[2] <= u64::MAX - world.state.bounty_pool
        } else {
            true
        }
    }

    /// Handles the command for the player `pid`. A command that fails leaves the world as
    /// it was.
    pub fn handle(&self, world: &mut World, pid: &[u64; 2], nonce: u64) -> (r: Result<(), u32>)
        requires
            old(world)@.wf(),
            self.admits(old(world)@, *pid, nonce),
        ensures
            r == self.result(old(world)@, *pid),
            r is Ok ==> final(world)@ == self.applied(old(world)@, *pid),
            r is Err ==> final(world)@ == old(world)@,
            final(world)@.wf(),
    {
        let a: usize = world.place_of(pid);
        let counter: u64 = world.state.queue.counter;
        let target: [u64; 2] = [self.data[0], self.data[1]];
        assert(target =~= self.target());
        let t: usize = match world.find_player(&target) {
            Some(t) => t,
            None => {
                let fresh = AutomataPlayer::new_from_pid(target);
                proof {
                    lemma_wf_joined(old(world)@, fresh@);
                }
                if self.data[2] > fresh.data.get_balance() {
                    return Err(ERROR_NOT_ENOUGH_BALANCE);
                }
                world.players.push(fresh);
                assert(world@ =~= self.with_target(old(world)@));
                world.players.len() - 1
            },
        };
        proof {
            lemma_extended(old(world)@, world@);
        }
        let ghost v = world@;
        let player = &mut world.players[t];
        match player.data.cost_balance(self.data[2]) {
            Ok(()) => {},
            Err(e) => {
                assert(world@ =~= old(world)@);
                return Err(e);
            },
        }
        player.data.update_interest(counter);
        world.players[a].check_and_inc_nonce(nonce);
        world.state.bounty_pool = world.state.bounty_pool + self.data[2];
        proof {
            let w = old(world)@;
            let d0 = v.players[t as int].data;
            let d = d0.with_balance(d0.balance() - self.amount()).stamped(w.counter());
            let moved = WorldView {
                state: StateView {
                    bounty_pool: (w.state.bounty_pool + self.amount()) as u64,
                    ..v.state
                },
                ..v
            };
            lemma_wf_frame(v, moved);
            assert forall|j: int| 0 <= j < d.cards.len() implies (#[trigger] d.cards[j]).marketid
                <= v.market.len() by {
                assert(v.players[t as int].data.cards[j].marketid <= v.market.len());
            }
            lemma_wf_with_data(moved, t as int, d);
            lemma_wf_advanced(moved.with_data(t as int, d), a as int);
            assert(world@ =~= self.applied(w, *pid));
        }
        Ok(())
    }
}

impl Transaction {
    /// The status that installing the player `pid` gives.
    pub open spec fn install_player_result(w: WorldView, pid: [u64; 2]) -> Result<(), u32> {
        if w.has_player(pid) {
            Err(ERROR_PLAYER_ALREADY_EXIST)
        } else {
            Ok(())
        }
    }

    /// The world after the player `pid` was installed: a new player, stamped for
    /// interest at the current tick.
    pub open spec fn player_installed(w: WorldView, pid: [u64; 2]) -> WorldView {
        w.joined(
            PlayerView {
                player_id: pid,
                nonce: 0,
                data: PlayerData::new_view().stamped(w.counter()),
            },
        )
    }

    /// Installs the player `pid`, who must be new.
    pub fn install_player(world: &mut World, pid: &[u64; 2]) -> (r: Result<(), u32>)
        requires
            old(world)@.wf(),
        ensures
            r == Self::install_player_result(old(world)@, *pid),
            r is Ok ==> final(world)@ == Self::player_installed(old(world)@, *pid),
            r is Err ==> final(world)@ == old(world)@,
            final(world)@.wf(),
    {
        let counter: u64 = world.state.queue.counter;
        match world.find_player(pid) {
            Some(_) => Err(ERROR_PLAYER_ALREADY_EXIST),
            None => {
                let mut player = AutomataPlayer::new_from_pid(*pid);
                player.data.update_interest(counter);
                proof {
                    lemma_wf_joined(old(world)@, player@);
                }
                world.players.push(player);
                assert(world@ =~= Self::player_installed(old(world)@, *pid));
                Ok(())
            },
        }
    }

    /// The status that an energy collection by `pid` gives.
    pub open spec fn collect_energy_result(w: WorldView, pid: [u64; 2]) -> Result<(), u32> {
        if !w.has_player(pid) {
            Err(ERROR_PLAYER_NOT_EXIST)
        } else if w.data_of(pid).energy_due(w.counter()) && w.data_of(pid).balance()
            < crate::config::ENERGY_FEE {
            Err(ERROR_NOT_ENOUGH_BALANCE)
        } else {
            Ok(())
        }
    }

    /// The world after a successful energy collection by `pid`.
    pub open spec fn energy_collected(w: WorldView, pid: [u64; 2]) -> WorldView {
        if w.data_of(pid).energy_due(w.counter()) {
            w.with_data(w.index_of(pid), w.data_of(pid).energy_collected(w.counter()))
        } else {
            w
        }
    }

    /// Collects energy for the player `pid` at the current tick.
    pub fn collect_energy(world: &mut World, pid: &[u64; 2]) -> (r: Result<(), u32>)
        requires
            old(world)@.wf(),
        ensures
            r == Self::collect_energy_result(old(world)@, *pid),
            r is Ok ==> final(world)@ == Self::energy_collected(old(world)@, *pid),
            r is Err ==> final(world)@ == old(world)@,
            final(world)@.wf(),
    {
        let counter: u64 = world.state.queue.counter;
        match world.find_player(pid) {
            Some(i) => {
                let done: Result<(), u32> = world.players[i].data.collect_energy(counter);
                proof {
                    let w = old(world)@;
                    if done is Ok && w.data_of(*pid).energy_due(w.counter()) {
                        let d = w.data_of(*pid).energy_collected(w.counter());
                        assert forall|j: int| 0 <= j < d.cards.len() implies (
                        #[trigger] d.cards[j]).marketid <= w.market.len() by {
                            assert(w.players[i as int].data.cards[j].marketid <= w.market.len());
                        }
                        lemma_wf_with_data(w, i as int, d);
                        assert(world@ =~= w.with_data(i as int, d));
                    } else {
                        assert(world@ =~= w);
                    }
                }
                match done {
                    Ok(()) => Ok(()),
                    Err(e) => Err(e),
                }
            },
            None => Err(ERROR_PLAYER_NOT_EXIST),
        }
    }

    /// Whether interest may be collected for `pid`: the numbers fit.
    pub open spec fn collect_interest_admits(w: WorldView, pid: [u64; 2]) -> bool {
        w.has_player(pid) ==> w.data_of(pid).interest_fits(w.counter())
    }

    /// The status that an interest collection by `pid` gives.
    pub open spec fn collect_interest_result(w: WorldView, pid: [u64; 2]) -> Result<(), u32> {
        if !w.has_player(pid) {
            Err(ERROR_PLAYER_NOT_EXIST)
        } else if w.data_of(pid).balance_after_interest(w.counter()) < 0 {
            Err(ERROR_NOT_ENOUGH_BALANCE)
        } else {
            Ok(())
        }
    }

    /// Collects interest for the player `pid` at the current tick.
    pub fn collect_interest(world: &mut World, pid: &[u64; 2]) -> (r: Result<(), u32>)
        requires
            old(world)@.wf(),
            Self::collect_interest_admits(old(world)@, *pid),
        ensures
            r == Self::collect_interest_result(old(world)@, *pid),
            r is Ok ==> final(world)@ == old(world)@.with_data(
                old(world)@.index_of(*pid),
                old(world)@.data_of(*pid).interest_collected(old(world)@.counter()),
            ),
            r is Err ==> final(world)@ == old(world)@,
            final(world)@.wf(),
    {
        let counter: u64 = world.state.queue.counter;
        match world.find_player(pid) {
            Some(i) => {
                let done: Result<(), u32> = world.players[i].data.collect_interest(counter);
                proof {
                    let w = old(world)@;
                    if done is Ok {
                        let d = w.data_of(*pid).interest_collected(w.counter());
                        assert forall|j: int| 0 <= j < d.cards.len() implies (
                        #[trigger] d.cards[j]).marketid <= w.market.len() by {
                            assert(w.players[i as int].data.cards[j].marketid <= w.market.len());
                        }
                        lemma_wf_with_data(w, i as int, d);
                        assert(world@ =~= w.with_data(i as int, d));
                    } else {
                        assert(world@ =~= w);
                    }
                }
                match done {
                    Ok(()) => Ok(()),
                    Err(e) => Err(e),
                }
            },
            None => Err(ERROR_PLAYER_NOT_EXIST),
        }
    }
}

} // verus!
