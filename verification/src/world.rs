//! The whole game state that a command works on: ledger, players and listings.

use vstd::prelude::*;
use crate::card::Card;
use crate::card::MarketCard;
use crate::inventory::first_stamped;
use crate::card::MAX_DURATION;
use crate::config::INITIAL_BOUNTY_POOL;
use crate::events::Event;
use crate::math::copy_of;
use crate::events::EventQueue;
use crate::events::QueueView;
use crate::player::PlayerData;
use crate::player::PlayerDataView;

verus! {

/// A player record: identity, replay counter and game data.
#[derive(Debug)]
pub struct AutomataPlayer {
    pub player_id: [u64; 2],
    pub nonce: u64,
    pub data: PlayerData,
}

/// The mathematical value of an `AutomataPlayer`.
#[verifier::ext_equal]
pub struct PlayerView {
    pub player_id: [u64; 2],
    pub nonce: u64,
    pub data: PlayerDataView,
}

impl View for AutomataPlayer {
    type V = PlayerView;

    open spec fn view(&self) -> PlayerView {
        PlayerView { player_id: self.player_id, nonce: self.nonce, data: self.data@ }
    }
}

impl AutomataPlayer {
    /// A new player with nonce 0.
    pub fn new_from_pid(pid: [u64; 2]) -> (p: Self)
        ensures
            p.player_id == pid,
            p.nonce == 0,
            p.data@.wf(),
            p.data@ == PlayerData::new_view(),
    {
        let data = PlayerData::new();
        AutomataPlayer { player_id: pid, nonce: 0, data }
    }

    /// Consumes `nonce`, which must be the one this player expects next.
    pub fn check_and_inc_nonce(&mut self, nonce: u64)
        requires
            nonce == old(self).nonce,
            nonce < u64::MAX,
        ensures
            final(self)@ == (PlayerView { nonce: (nonce + 1) as u64, ..old(self)@ }),
    {
        self.nonce = self.nonce + 1;
    }
}

/// The global ledger: bounty pool, id counters and the scheduler.
#[derive(Debug)]
pub struct State {
    pub supplier: u64,
    pub bounty_pool: u64,
    pub start_time_stamp: u64,
    pub market_id: u64,
    pub event_id: u64,
    pub queue: EventQueue,
}

/// The mathematical value of a `State`.
#[verifier::ext_equal]
pub struct StateView {
    pub supplier: u64,
    pub bounty_pool: u64,
    pub start_time_stamp: u64,
    pub market_id: u64,
    pub event_id: u64,
    pub queue: QueueView,
}

impl View for State {
    type V = StateView;

    open spec fn view(&self) -> StateView {
        StateView {
            supplier: self.supplier,
            bounty_pool: self.bounty_pool,
            start_time_stamp: self.start_time_stamp,
            market_id: self.market_id,
            event_id: self.event_id,
            queue: self.queue@,
        }
    }
}

impl State {
    /// The fresh ledger, as a value.
    pub open spec fn new_view() -> StateView {
        StateView {
            supplier: 1000,
            bounty_pool: INITIAL_BOUNTY_POOL,
            start_time_stamp: 0,
            market_id: 1,
            event_id: 1,
            queue: QueueView { counter: 0, list: Seq::empty() },
        }
    }

    /// A fresh ledger: a full bounty pool, ids starting at 1, an empty queue at tick 0.
    pub fn new() -> (s: Self)
        ensures
            s@ == Self::new_view(),
    {
        State {
            supplier: 1000,
            start_time_stamp: 0,
            bounty_pool: INITIAL_BOUNTY_POOL,
            market_id: 1,
            event_id: 1,
            queue: EventQueue::new(),
        }
    }

    /// Whether the command loop should yield: every sixteenth tick, but not at the tick
    /// the ledger was restored at.
    pub fn preempt(&self) -> (b: bool)
        ensures
            b == (self.queue.counter % 16 == 0 && self.queue.counter != self.start_time_stamp),
    {
        let counter: u64 = self.queue.counter;
        let timestamp: u64 = self.start_time_stamp;
        counter % 16 == 0 && counter != timestamp
    }

    /// The seed that the ledger itself contributes to randomness: none.
    pub fn rand_seed() -> (s: u64)
        ensures
            s == 0,
    {
        0
    }
}

/// A marketplace event: the listing as it stood when the event was emitted.
#[derive(Clone, Copy, Debug, PartialEq, Eq)]
pub struct MarketEvent {
    pub event_id: u64,
    pub card: MarketCard,
}

/// Everything a command may read or change. Listing `id` stands at place `id - 1` of
/// `market`; `events` and `withdrawals` collect what is to be handed out.
#[derive(Debug)]
pub struct World {
    pub admin: [u64; 4],
    pub state: State,
    pub players: Vec<AutomataPlayer>,
    pub market: Vec<MarketCard>,
    pub events: Vec<MarketEvent>,
    pub withdrawals: Vec<[u64; 3]>,
}

/// The mathematical value of a `World`.
#[verifier::ext_equal]
pub struct WorldView {
    pub admin: [u64; 4],
    pub state: StateView,
    pub players: Seq<PlayerView>,
    pub market: Seq<MarketCard>,
    pub events: Seq<MarketEvent>,
    pub withdrawals: Seq<[u64; 3]>,
}

/// The values of a vector of players.
pub open spec fn player_views(players: Seq<AutomataPlayer>) -> Seq<PlayerView> {
    Seq::new(players.len(), |i: int| players[i]@)
}

impl View for World {
    type V = WorldView;

    open spec fn view(&self) -> WorldView {
        WorldView {
            admin: self.admin,
            state: self.state@,
            players: player_views(self.players@),
            market: self.market@,
            events: self.events@,
            withdrawals: self.withdrawals@,
        }
    }
}

/// No two players share an identity.
pub open spec fn distinct(players: Seq<PlayerView>) -> bool {
    forall|i: int, j: int|
        0 <= i < j < players.len() ==> (#[trigger] players[i]).player_id != (
        #[trigger] players[j]).player_id
}

impl WorldView {
    /// Whether a player with identity `pid` exists.
    pub open spec fn has_player(self, pid: [u64; 2]) -> bool {
        exists|i: int| 0 <= i < self.players.len() && (#[trigger] self.players[i]).player_id == pid
    }

    /// The place of the player with identity `pid`, where there is one.
    pub open spec fn index_of(self, pid: [u64; 2]) -> int {
        choose|i: int| 0 <= i < self.players.len() && (#[trigger] self.players[i]).player_id == pid
    }

    /// The game data of the player with identity `pid`.
    pub open spec fn data_of(self, pid: [u64; 2]) -> PlayerDataView {
        self.players[self.index_of(pid)].data
    }

    /// The current tick.
    pub open spec fn counter(self) -> u64 {
        self.state.queue.counter
    }

    /// Whether `e` names an object that exists.
    pub open spec fn event_ok(self, e: Event) -> bool {
        self.has_player(e.owner) && e.object_index < self.data_of(e.owner).objects.len()
    }

    /// Whether listing `m` carries its own id and a card of a valid duration, and names
    /// players that exist.
    pub open spec fn listing_ok(self, m: int) -> bool {
        let l = self.market[m];
        &&& l.marketid == m + 1
        &&& l.object.duration <= MAX_DURATION
        &&& self.has_player(l.owner)
        &&& l.bid matches Some(b) ==> self.has_player(b.bidder)
    }

    /// Validity of a world: the tick fits 32 bits; players are valid and distinct;
    /// pending events name existing objects; listings are numbered from 1 in order and
    /// name existing players; no card carries the id of a listing that does not exist.
    pub open spec fn wf(self) -> bool {
        &&& self.counter() <= u32::MAX
        &&& distinct(self.players)
        &&& forall|i: int| 0 <= i < self.players.len() ==> (#[trigger] self.players[i]).data.wf()
        &&& forall|k: int|
            0 <= k < self.state.queue.list.len() ==> self.event_ok(
                #[trigger] self.state.queue.list[k],
            )
        &&& self.state.market_id == self.market.len() + 1
        &&& forall|m: int| 0 <= m < self.market.len() ==> #[trigger] self.listing_ok(m)
        &&& forall|i: int, j: int|
            0 <= i < self.players.len() && 0 <= j < self.players[i].data.cards.len() ==> (
            #[trigger] self.players[i].data.cards[j]).marketid <= self.market.len()
    }

    /// Whether no resource of any player is negative.
    pub open spec fn resources_non_negative(self) -> bool {
        forall|i: int, c: int|
            0 <= i < self.players.len() && 0 <= c < self.players[i].data.local.len() ==> (
            #[trigger] self.players[i].data.local[c]) >= 0
    }

    /// The world with the game data of player `i` replaced by `d`.
    pub open spec fn with_data(self, i: int, d: PlayerDataView) -> Self {
        WorldView {
            players: self.players.update(i, PlayerView { data: d, ..self.players[i] }),
            ..self
        }
    }

    /// The world after player `i` used up a nonce.
    pub open spec fn advanced(self, i: int) -> Self {
        WorldView {
            players: self.players.update(
                i,
                PlayerView { nonce: (self.players[i].nonce + 1) as u64, ..self.players[i] },
            ),
            ..self
        }
    }

    /// The world with `p` added behind the players it has.
    pub open spec fn joined(self, p: PlayerView) -> Self {
        WorldView { players: self.players.push(p), ..self }
    }

    /// The player with identity `pid`.
    pub open spec fn player_of(self, pid: [u64; 2]) -> PlayerView {
        self.players[self.index_of(pid)]
    }

    /// The world with listing `m` replaced by `l`.
    pub open spec fn with_listing(self, m: int, l: MarketCard) -> Self {
        WorldView { market: self.market.update(m, l), ..self }
    }

    /// The world with `l` added as the newest listing.
    pub open spec fn listed(self, l: MarketCard) -> Self {
        WorldView {
            market: self.market.push(l),
            state: StateView { market_id: (self.state.market_id + 1) as u64, ..self.state },
            ..self
        }
    }

    /// The world after `l` was emitted under the current event id, which then steps.
    pub open spec fn emitted(self, l: MarketCard) -> Self {
        WorldView {
            events: self.events.push(MarketEvent { event_id: self.state.event_id, card: l }),
            state: StateView { event_id: (self.state.event_id + 1) as u64, ..self.state },
            ..self
        }
    }

    /// The world after the event id stepped and `l` was emitted under the new one.
    pub open spec fn announced(self, l: MarketCard) -> Self {
        WorldView {
            events: self.events.push(
                MarketEvent { event_id: (self.state.event_id + 1) as u64, card: l },
            ),
            state: StateView { event_id: (self.state.event_id + 1) as u64, ..self.state },
            ..self
        }
    }

    /// The world with `amount` added to the balance of player `j`; a negative amount is
    /// a debit.
    pub open spec fn credited(self, j: int, amount: int) -> Self {
        let d = self.players[j].data;
        self.with_data(j, d.with_balance(d.balance() + amount))
    }

    /// The world with card `c` added to the inventory of player `j`.
    pub open spec fn given_card(self, j: int, c: Card) -> Self {
        self.with_data(j, self.players[j].data.with_card(c))
    }

    /// The world in which player `j` lost the first card that carries the stamp `id`,
    /// if there is one.
    pub open spec fn unstamped(self, j: int, id: u64) -> Self {
        match first_stamped(self.players[j].data.cards, id) {
            Some(c) => self.with_data(j, self.players[j].data.removed(c)),
            None => self,
        }
    }

    /// The world with `e` scheduled.
    pub open spec fn scheduled(self, e: Event) -> Self {
        WorldView {
            state: StateView {
                queue: QueueView { list: self.state.queue.list.push(e), ..self.state.queue },
                ..self.state
            },
            ..self
        }
    }

    /// Whether `v` still has every player of `self`, at the same place and with no
    /// fewer objects.
    pub open spec fn extended_by(self, v: WorldView) -> bool {
        &&& self.players.len() <= v.players.len()
        &&& forall|i: int|
            0 <= i < self.players.len() ==> (#[trigger] v.players[i]).player_id
                == self.players[i].player_id && v.players[i].data.objects.len()
                >= self.players[i].data.objects.len()
    }
}

/// In a valid world no resource of any player is negative.
pub proof fn lemma_resources_non_negative(w: WorldView)
    requires
        w.wf(),
    ensures
        w.resources_non_negative(),
{
    assert forall|i: int, c: int|
        0 <= i < w.players.len() && 0 <= c < w.players[i].data.local.len() implies (
    #[trigger] w.players[i].data.local[c]) >= 0 by {
        assert(w.players[i].data.wf());
    }
}

/// In a world of distinct players, the place of a player is the only place that
/// carries its identity.
pub proof fn lemma_index_of(w: WorldView, i: int)
    requires
        distinct(w.players),
        0 <= i < w.players.len(),
    ensures
        w.has_player(w.players[i].player_id),
        w.index_of(w.players[i].player_id) == i,
{
    let pid = w.players[i].player_id;
    let j = w.index_of(pid);
    assert(0 <= j < w.players.len() && w.players[j].player_id == pid);
    if i < j {
        assert(w.players[i].player_id != w.players[j].player_id);
    }
    if j < i {
        assert(w.players[j].player_id != w.players[i].player_id);
    }
}

/// A world that extends another knows every player that the other knows, at the same
/// place, and every event that was in order there is in order here.
pub proof fn lemma_extended(w: WorldView, v: WorldView)
    requires
        distinct(w.players),
        distinct(v.players),
        w.extended_by(v),
    ensures
        forall|pid: [u64; 2]|
            #![trigger v.has_player(pid)]
            #![trigger v.index_of(pid)]
            w.has_player(pid) ==> v.has_player(pid) && v.index_of(pid) == w.index_of(pid),
        forall|e: Event| #![trigger v.event_ok(e)] w.event_ok(e) ==> v.event_ok(e),
{
    assert forall|pid: [u64; 2]| w.has_player(pid) implies v.has_player(pid) && v.index_of(pid)
        == w.index_of(pid) by {
        let i = w.index_of(pid);
        assert(v.players[i].player_id == pid);
        lemma_index_of(v, i);
    }
    assert forall|e: Event| w.event_ok(e) implies v.event_ok(e) by {
        let i = w.index_of(e.owner);
        assert(v.players[i].player_id == e.owner);
        lemma_index_of(v, i);
    }
}

impl World {
    /// A world without players or listings, with a fresh ledger.
    pub fn new(admin: [u64; 4]) -> (w: Self)
        ensures
            w@.wf(),
            w@.admin == admin,
            w@.state == State::new_view(),
            w@.players.len() == 0,
            w@.market.len() == 0,
            w@.events.len() == 0,
            w@.withdrawals.len() == 0,
    {
        World {
            admin,
            state: State::new(),
            players: Vec::new(),
            market: Vec::new(),
            events: Vec::new(),
            withdrawals: Vec::new(),
        }
    }

    /// Finds the player with identity `pid`.
    pub fn find_player(&self, pid: &[u64; 2]) -> (r: Option<usize>)
        ensures
            r is Some <==> self@.has_player(*pid),
            r matches Some(i) ==> i < self@.players.len() && self@.players[i as int].player_id
                == *pid,
            r matches Some(i) ==> distinct(self@.players) ==> i == self@.index_of(*pid),
    {
        let mut i: usize = 0;
        while i < self.players.len()
            invariant
                i <= self.players.len(),
                forall|k: int| 0 <= k < i ==> (#[trigger] self@.players[k]).player_id != *pid,
            decreases self.players.len() - i,
        {
            let p = &self.players[i];
            if p.player_id[0] == pid[0] && p.player_id[1] == pid[1] {
                proof {
                    assert(self@.players[i as int].player_id =~= *pid);
                    if distinct(self@.players) {
                        lemma_index_of(self@, i as int);
                    }
                }
                return Some(i);
            }
            proof {
                assert(self@.players[i as int].player_id != *pid);
            }
            i = i + 1;
        }
        None
    }

    /// The place of the player with identity `pid`, who must exist.
    pub fn place_of(&self, pid: &[u64; 2]) -> (i: usize)
        requires
            distinct(self@.players),
            self@.has_player(*pid),
        ensures
            i == self@.index_of(*pid),
            i < self@.players.len(),
            self@.players[i as int].player_id == *pid,
    {
        match self.find_player(pid) {
            Some(i) => i,
            None => unreached(),
        }
    }

    /// Hands out the marketplace events emitted so far and forgets them.
    pub fn clear_events(&mut self) -> (log: Vec<MarketEvent>)
        ensures
            log@ == old(self)@.events,
            final(self)@ == (WorldView { events: Seq::empty(), ..old(self)@ }),
    {
        let mut log: Vec<MarketEvent> = Vec::new();
        std::mem::swap(&mut log, &mut self.events);
        log
    }

    /// Hands out the withdrawals requested so far and forgets them.
    pub fn flush_settlement(&mut self) -> (log: Vec<[u64; 3]>)
        ensures
            log@ == old(self)@.withdrawals,
            final(self)@ == (WorldView { withdrawals: Seq::empty(), ..old(self)@ }),
    {
        let mut log: Vec<[u64; 3]> = Vec::new();
        std::mem::swap(&mut log, &mut self.withdrawals);
        log
    }
}

impl World {
    /// Whether no player that stands before place `n` shares the identity of another
    /// that does.
    fn distinct_before(&self, n: usize) -> (b: bool)
        requires
            n <= self@.players.len(),
        ensures
            b == distinct(self@.players.take(n as int)),
    {
        let mut j: usize = 0;
        while j < n
            invariant
                j <= n,
                n <= self.players.len(),
                distinct(self@.players.take(j as int)),
            decreases n - j,
        {
            let mut i: usize = 0;
            while i < j
                invariant
                    i <= j,
                    j < n,
                    n <= self.players.len(),
                    forall|a: int|
                        0 <= a < i ==> (#[trigger] self@.players[a]).player_id
                            != self@.players[j as int].player_id,
                decreases j - i,
            {
                let a = &self.players[i].player_id;
                let b = &self.players[j].player_id;
                if a[0] == b[0] && a[1] == b[1] {
                    proof {
                        assert(self@.players[i as int].player_id =~= self@.players[j as int].player_id);
                        let s = self@.players.take(n as int);
                        assert(s[i as int].player_id == s[j as int].player_id);
                    }
                    return false;
                }
                proof {
                    assert(self@.players[i as int].player_id != self@.players[j as int].player_id);
                }
                i = i + 1;
            }
            proof {
                let s0 = self@.players.take(j as int);
                let s1 = self@.players.take(j + 1);
                assert forall|a: int, b: int| 0 <= a < b < s1.len() implies (
                #[trigger] s1[a]).player_id != (#[trigger] s1[b]).player_id by {
                    if b < j {
                        assert(s0[a].player_id != s0[b].player_id);
                    } else {
                        assert(self@.players[a].player_id != self@.players[j as int].player_id);
                    }
                }
            }
            j = j + 1;
        }
        true
    }

    /// Whether the world is valid.
    pub fn is_valid(&self) -> (b: bool)
        ensures
            b == self@.wf(),
    {
        if self.state.queue.counter > 0xffff_ffff {
            return false;
        }
        if !self.distinct_before(self.players.len()) {
            assert(self@.players.take(self@.players.len() as int) =~= self@.players);
            return false;
        }
        assert(self@.players.take(self@.players.len() as int) =~= self@.players);
        let listings: usize = self.market.len();
        if self.state.market_id != (listings as u64).wrapping_add(1) || listings as u64
            == u64::MAX {
            return false;
        }
        let mut i: usize = 0;
        while i < self.players.len()
            invariant
                i <= self.players.len(),
                listings == self@.market.len(),
                forall|a: int| 0 <= a < i ==> (#[trigger] self@.players[a]).data.wf(),
                forall|a: int, j: int|
                    0 <= a < i && 0 <= j < self@.players[a].data.cards.len() ==> (
                    #[trigger] self@.players[a].data.cards[j]).marketid <= listings,
            decreases self.players.len() - i,
        {
            if !self.players[i].data.is_valid() {
                assert(!self@.players[i as int].data.wf());
                return false;
            }
            let top: u64 = self.players[i].data.highest_stamp();
            if top > listings as u64 {
                proof {
                    let j = choose|j: int|
                        0 <= j < self@.players[i as int].data.cards.len()
                            && self@.players[i as int].data.cards[j].marketid == top;
                    assert(self@.players[i as int].data.cards[j].marketid > self@.market.len());
                }
                return false;
            }
            i = i + 1;
        }
        let mut k: usize = 0;
        while k < self.state.queue.list.len()
            invariant
                k <= self.state.queue.list.len(),
                distinct(self@.players),
                forall|a: int| 0 <= a < k ==> self@.event_ok(#[trigger] self@.state.queue.list[a]),
            decreases self.state.queue.list.len() - k,
        {
            let e: Event = self.state.queue.list[k];
            assert(e == self@.state.queue.list[k as int]);
            match self.find_player(&e.owner) {
                Some(p) => {
                    if e.object_index >= self.players[p].data.objects.len() {
                        assert(!self@.event_ok(e));
                        return false;
                    }
                },
                None => {
                    assert(!self@.event_ok(e));
                    return false;
                },
            }
            k = k + 1;
        }
        let mut m: usize = 0;
        while m < listings
            invariant
                m <= listings,
                listings == self.market.len(),
                forall|a: int| 0 <= a < m ==> #[trigger] self@.listing_ok(a),
            decreases listings - m,
        {
            let l: MarketCard = self.market[m];
            if l.marketid != (m as u64) + 1 || l.object.duration > MAX_DURATION {
                assert(!self@.listing_ok(m as int));
                return false;
            }
            if self.find_player(&l.owner).is_none() {
                assert(!self@.listing_ok(m as int));
                return false;
            }
            match l.bid {
                Some(b) => {
                    if self.find_player(&b.bidder).is_none() {
                        assert(!self@.listing_ok(m as int));
                        return false;
                    }
                },
                None => {},
            }
            m = m + 1;
        }
        true
    }
}

impl World {
    /// A world with the same value.
    pub fn duplicate(&self) -> (w: Self)
        ensures
            w@ == self@,
    {
        let mut players: Vec<AutomataPlayer> = Vec::new();
        let mut i: usize = 0;
        while i < self.players.len()
            invariant
                i <= self.players.len(),
                players@.len() == i,
                forall|k: int| 0 <= k < i ==> (#[trigger] players@[k])@ == self.players@[k]@,
            decreases self.players.len() - i,
        {
            let p = &self.players[i];
            players.push(
                AutomataPlayer { player_id: p.player_id, nonce: p.nonce, data: p.data.duplicate() },
            );
            i = i + 1;
        }
        let w = World {
            admin: self.admin,
            state: State {
                supplier: self.state.supplier,
                bounty_pool: self.state.bounty_pool,
                start_time_stamp: self.state.start_time_stamp,
                market_id: self.state.market_id,
                event_id: self.state.event_id,
                queue: EventQueue {
                    counter: self.state.queue.counter,
                    list: copy_of(&self.state.queue.list),
                },
            },
            players,
            market: copy_of(&self.market),
            events: copy_of(&self.events),
            withdrawals: copy_of(&self.withdrawals),
        };
        proof {
            assert(w@.players =~= self@.players);
            assert(w@.state.queue =~= self@.state.queue);
            assert(w@.state =~= self@.state);
        }
        w
    }
}

} // verus!
