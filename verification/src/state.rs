//! Commands: how they come off the wire, and the dispatcher that processes them.

use vstd::prelude::*;
use crate::error::ERROR_BID_PRICE_INSUFFICIENT;
use crate::error::ERROR_CARD_IS_IN_USE;
use crate::error::ERROR_INDEX_OUT_OF_BOUND;
use crate::error::ERROR_NOT_ENOUGH_BALANCE;
use crate::error::ERROR_NOT_ENOUGH_LEVEL;
use crate::error::ERROR_NOT_ENOUGH_POOL;
use crate::error::ERROR_NOT_ENOUGH_RESOURCE;
use crate::error::ERROR_NO_BIDDER;
use crate::error::ERROR_PLAYER_ALREADY_EXIST;
use crate::error::ERROR_PLAYER_NOT_EXIST;
use crate::math::byte_at;
use crate::math::le_bytes;
use crate::world::World;
use crate::world::WorldView;

verus! {

/// A command with the nonce that its sender attached.
#[derive(Clone, Copy, Debug, PartialEq, Eq)]
pub struct Transaction {
    pub nonce: u64,
    pub command: Command,
}

/// The commands of the game.
#[derive(Clone, Copy, Debug, PartialEq, Eq)]
pub enum Command {
    UpgradeObject(UpgradeObject),
    InstallObject(InstallObject),
    RestartObject(RestartObject),
    InstallCard(InstallCard),
    ListCardInMarket(ListCardInMarket),
    SellCard(SellCard),
    BidCard(BidCard),
    Withdraw(Withdraw),
    Deposit(Deposit),
    Bounty(Bounty),
    InstallPlayer,
    CollectEnergy,
    Tick,
}

/// Raises feature 0 and one more feature of an object, for the current cost.
#[derive(Clone, Copy, Debug, PartialEq, Eq)]
pub struct UpgradeObject {
    pub object_index: usize,
    pub feature_index: usize,
}

/// Installs the player's next object with the ring `modifiers`.
#[derive(Clone, Copy, Debug, PartialEq, Eq)]
pub struct InstallObject {
    pub object_index: usize,
    pub modifiers: [u8; 8],
}

/// Gives an object a new ring and, if it halted, starts it again.
#[derive(Clone, Copy, Debug, PartialEq, Eq)]
pub struct RestartObject {
    pub object_index: usize,
    pub modifiers: [u8; 8],
}

/// Generates a card for the player.
#[derive(Clone, Copy, Debug, PartialEq, Eq)]
pub struct InstallCard {}

/// Puts a card on the market at an ask price.
#[derive(Clone, Copy, Debug, PartialEq, Eq)]
pub struct ListCardInMarket {
    pub card_index: usize,
    pub ask_price: u64,
}

/// Cashes in the highest bid on one of the player's listed cards.
#[derive(Clone, Copy, Debug, PartialEq, Eq)]
pub struct SellCard {
    pub card_index: usize,
}

/// Bids on a listing.
#[derive(Clone, Copy, Debug, PartialEq, Eq)]
pub struct BidCard {
    pub marketindex: u64,
    pub price: u64,
}

/// Redeems a bounty for a resource, or collects interest.
#[derive(Clone, Copy, Debug, PartialEq, Eq)]
pub struct Bounty {
    pub bounty_index: usize,
}

/// Moves funds of a player into the bounty pool; only the admin may send it.
/// `data` holds the two words of the player's identity and the amount.
#[derive(Clone, Copy, Debug, PartialEq, Eq)]
pub struct Deposit {
    pub data: [u64; 3],
}

/// Takes funds of the player out of the game. The low 32 bits of `data[0]` are the
/// amount; all three words go to the settlement.
#[derive(Clone, Copy, Debug, PartialEq, Eq)]
pub struct Withdraw {
    pub data: [u64; 3],
}

/// Opcode of `Command::InstallPlayer`.
pub const INSTALL_PLAYER: u64 = 1;

/// Opcode of `Command::InstallObject`.
pub const INSTALL_OBJECT: u64 = 2;

/// Opcode of `Command::RestartObject`.
pub const RESTART_OBJECT: u64 = 3;

/// Opcode of `Command::UpgradeObject`.
pub const UPGRADE_OBJECT: u64 = 4;

/// Opcode of `Command::InstallCard`.
pub const INSTALL_CARD: u64 = 5;

/// Opcode of `Command::Withdraw`.
pub const WITHDRAW: u64 = 6;

/// Opcode of `Command::Deposit`.
pub const DEPOSIT: u64 = 7;

/// Opcode of `Command::Bounty`.
pub const BOUNTY: u64 = 8;

/// Opcode of `Command::CollectEnergy`.
pub const COLLECT_ENERGY: u64 = 9;

/// Opcode of `Command::ListCardInMarket`.
pub const LIST_CARD_IN_MARKET: u64 = 10;

/// Opcode of `Command::BidCard`.
pub const BID_CARD: u64 = 11;

/// Opcode of `Command::SellCard`.
pub const SELL_CARD: u64 = 12;

/// The opcode of a command word: its low byte.
pub open spec fn opcode_of(word: u64) -> u64 {
    word % 0x100
}

/// The nonce of a command word: everything above its low 16 bits.
pub open spec fn nonce_of(word: u64) -> u64 {
    word / 0x1_0000
}

/// The eight bytes of `x`, least significant first.
pub open spec fn ring_of(x: u64) -> [u8; 8] {
    [
        byte_at(x, 0),
        byte_at(x, 1),
        byte_at(x, 2),
        byte_at(x, 3),
        byte_at(x, 4),
        byte_at(x, 5),
        byte_at(x, 6),
        byte_at(x, 7),
    ]
}

/// How many words a command with opcode `op` takes, the command word included.
pub open spec fn words_needed(op: u64) -> int {
    if op == WITHDRAW || op == DEPOSIT {
        5
    } else if op == INSTALL_OBJECT || op == RESTART_OBJECT || op == UPGRADE_OBJECT || op
        == BID_CARD || op == LIST_CARD_IN_MARKET {
        3
    } else if op == BOUNTY || op == SELL_CARD {
        2
    } else {
        1
    }
}

/// Whether `params` holds a whole command: enough words for its opcode, and token
/// index 0 where a withdrawal or a deposit names one.
pub open spec fn decodable(params: Seq<u64>) -> bool {
    &&& params.len() >= 1
    &&& params.len() >= words_needed(opcode_of(params[0]))
    &&& opcode_of(params[0]) == WITHDRAW ==> params[1] == 0
    &&& opcode_of(params[0]) == DEPOSIT ==> params[3] == 0
}

/// The command that `params` holds. Opcodes without a meaning stand for a tick.
pub open spec fn decoded_command(params: Seq<u64>) -> Command {
    let op = opcode_of(params[0]);
    if op == WITHDRAW {
        Command::Withdraw(Withdraw { data: [params[2], params[3], params[4]] })
    } else if op == INSTALL_OBJECT {
        Command::InstallObject(
            InstallObject { object_index: params[1] as usize, modifiers: ring_of(params[2]) },
        )
    } else if op == RESTART_OBJECT {
        Command::RestartObject(
            RestartObject { object_index: params[1] as usize, modifiers: ring_of(params[2]) },
        )
    } else if op == DEPOSIT {
        Command::Deposit(Deposit { data: [params[1], params[2], params[4]] })
    } else if op == UPGRADE_OBJECT {
        Command::UpgradeObject(
            UpgradeObject { object_index: params[1] as usize, feature_index: params[2] as usize },
        )
    } else if op == BOUNTY {
        Command::Bounty(Bounty { bounty_index: params[1] as usize })
    } else if op == INSTALL_CARD {
        Command::InstallCard(InstallCard {  })
    } else if op == BID_CARD {
        Command::BidCard(BidCard { marketindex: params[1], price: params[2] })
    } else if op == SELL_CARD {
        Command::SellCard(SellCard { card_index: params[1] as usize })
    } else if op == LIST_CARD_IN_MARKET {
        Command::ListCardInMarket(
            ListCardInMarket { card_index: params[1] as usize, ask_price: params[2] },
        )
    } else if op == INSTALL_PLAYER {
        Command::InstallPlayer
    } else if op == COLLECT_ENERGY {
        Command::CollectEnergy
    } else {
        Command::Tick
    }
}

/// The name of a status code.
pub open spec fn error_name(e: u32) -> Seq<char> {
    if e == ERROR_PLAYER_NOT_EXIST {
        "PlayerNotExist"@
    } else if e == ERROR_PLAYER_ALREADY_EXIST {
        "PlayerAlreadyExist"@
    } else if e == ERROR_NOT_ENOUGH_BALANCE {
        "NotEnoughBalance"@
    } else if e == ERROR_INDEX_OUT_OF_BOUND {
        "IndexOutofBound"@
    } else if e == ERROR_NOT_ENOUGH_RESOURCE {
        "NotEnoughResource"@
    } else if e == ERROR_NOT_ENOUGH_LEVEL {
        "NotEnoughLevel"@
    } else if e == ERROR_NOT_ENOUGH_POOL {
        "NotEnoughFundInPool"@
    } else if e == ERROR_CARD_IS_IN_USE {
        "CardIsInUse"@
    } else if e == ERROR_BID_PRICE_INSUFFICIENT {
        "BidPriceInSufficient"@
    } else if e == ERROR_NO_BIDDER {
        "NoBidder"@
    } else {
        "Unknown"@
    }
}

fn word_as_index(word: u64) -> (i: usize)
    ensures
        i == word as usize,
{
    #[verifier::truncate]
    (word as usize)
}

fn ring(x: u64) -> (r: [u8; 8])
    ensures
        r == ring_of(x),
{
    let r: [u8; 8] = le_bytes(x);
    assert(r =~= ring_of(x));
    r
}

impl Transaction {
    /// Names a status code.
    pub fn decode_error(e: u32) -> (name: &'static str)
        ensures
            name@ == error_name(e),
    {
        match e {
            ERROR_PLAYER_NOT_EXIST => "PlayerNotExist",
            ERROR_PLAYER_ALREADY_EXIST => "PlayerAlreadyExist",
            ERROR_NOT_ENOUGH_BALANCE => "NotEnoughBalance",
            ERROR_INDEX_OUT_OF_BOUND => "IndexOutofBound",
            ERROR_NOT_ENOUGH_RESOURCE => "NotEnoughResource",
            ERROR_NOT_ENOUGH_LEVEL => "NotEnoughLevel",
            ERROR_NOT_ENOUGH_POOL => "NotEnoughFundInPool",
            ERROR_CARD_IS_IN_USE => "CardIsInUse",
            ERROR_BID_PRICE_INSUFFICIENT => "BidPriceInSufficient",
            ERROR_NO_BIDDER => "NoBidder",
            _ => "Unknown",
        }
    }

    /// Whether `params` holds a whole command.
    pub fn can_decode(params: &[u64]) -> (b: bool)
        ensures
            b == decodable(params@),
    {
        if params.len() < 1 {
            return false;
        }
        let op: u64 = params[0] % 0x100;
        let needed: usize = if op == WITHDRAW || op == DEPOSIT {
            5
        } else if op == INSTALL_OBJECT || op == RESTART_OBJECT || op == UPGRADE_OBJECT || op
            == BID_CARD || op == LIST_CARD_IN_MARKET {
            3
        } else if op == BOUNTY || op == SELL_CARD {
            2
        } else {
            1
        };
        if params.len() < needed {
            return false;
        }
        if op == WITHDRAW && params[1] != 0 {
            return false;
        }
        if op == DEPOSIT && params[3] != 0 {
            return false;
        }
        true
    }

    /// Reads a command off the wire: the low byte of the first word is the opcode, the
    /// bits above its low 16 are the nonce, the words after it are the payload.
    pub fn decode(params: &[u64]) -> (t: Self)
        requires
            decodable(params@),
        ensures
            t.nonce == nonce_of(params@[0]),
            t.command == decoded_command(params@),
    {
        let cmd: u64 = params[0] & 0xff;
        let nonce: u64 = params[0] >> 16;
        proof {
            let word: u64 = params[0];
            assert(word & 0xff == word % 0x100) by (bit_vector);
            assert(word >> 16 == word / 0x1_0000) by (bit_vector);
        }
        let command = if cmd == WITHDRAW {
            Command::Withdraw(Withdraw { data: [params[2], params[3], params[4]] })
        } else if cmd == INSTALL_OBJECT {
            Command::InstallObject(
                InstallObject { object_index: word_as_index(params[1]), modifiers: ring(params[2]) },
            )
        } else if cmd == RESTART_OBJECT {
            Command::RestartObject(
                RestartObject { object_index: word_as_index(params[1]), modifiers: ring(params[2]) },
            )
        } else if cmd == DEPOSIT {
            Command::Deposit(Deposit { data: [params[1], params[2], params[4]] })
        } else if cmd == UPGRADE_OBJECT {
            Command::UpgradeObject(
                UpgradeObject {
                    object_index: word_as_index(params[1]),
                    feature_index: word_as_index(params[2]),
                },
            )
        } else if cmd == BOUNTY {
            Command::Bounty(Bounty { bounty_index: word_as_index(params[1]) })
        } else if cmd == INSTALL_CARD {
            Command::InstallCard(InstallCard {  })
        } else if cmd == BID_CARD {
            Command::BidCard(BidCard { marketindex: params[1], price: params[2] })
        } else if cmd == SELL_CARD {
            Command::SellCard(SellCard { card_index: word_as_index(params[1]) })
        } else if cmd == LIST_CARD_IN_MARKET {
            Command::ListCardInMarket(
                ListCardInMarket { card_index: word_as_index(params[1]), ask_price: params[2] },
            )
        } else if cmd == INSTALL_PLAYER {
            Command::InstallPlayer
        } else if cmd == COLLECT_ENERGY {
            Command::CollectEnergy
        } else {
            Command::Tick
        };
        Transaction { command, nonce }
    }

    /// Whether the sender holds the admin key.
    pub open spec fn by_admin(w: WorldView, pkey: [u64; 4]) -> bool {
        pkey == w.admin
    }

    /// Whether the command may be processed at all. A deposit and a tick must come from
    /// the admin; a command that carries a nonce must carry the one its sender expects
    /// next; and the numbers that the command produces must fit.
    pub open spec fn admits(self, w: WorldView, pkey: [u64; 4], pid: [u64; 2]) -> bool {
        match self.command {
            Command::InstallPlayer => true,
            Command::CollectEnergy => true,
            Command::InstallObject(c) => c.admits(w, pid, self.nonce),
            Command::RestartObject(c) => c.admits(w, pid, self.nonce),
            Command::UpgradeObject(c) => c.admits(w, pid, self.nonce),
            Command::Withdraw(c) => c.admits(w, pid, self.nonce),
            Command::InstallCard(c) => c.admits(w, pid, self.nonce),
            Command::ListCardInMarket(c) => c.admits(w, pid, self.nonce),
            Command::SellCard(c) => c.admits(w, pid, self.nonce),
            Command::BidCard(c) => c.admits(w, pid, self.nonce),
            Command::Deposit(c) => Self::by_admin(w, pkey) && c.admits(w, pid, self.nonce),
            Command::Bounty(c) => c.admits(w, pid, self.nonce),
            Command::Tick => Self::by_admin(w, pkey) && w.tick_fits(),
        }
    }

    /// The outcome of the command: nothing, or the error that stopped it.
    pub open spec fn result(self, w: WorldView, pid: [u64; 2]) -> Result<(), u32> {
        match self.command {
            Command::InstallPlayer => Self::install_player_result(w, pid),
            Command::CollectEnergy => Self::collect_energy_result(w, pid),
            Command::InstallObject(c) => c.result(w, pid),
            Command::RestartObject(c) => c.result(w, pid),
            Command::UpgradeObject(c) => c.result(w, pid),
            Command::Withdraw(c) => c.result(w, pid),
            Command::InstallCard(c) => c.result(w, pid),
            Command::ListCardInMarket(c) => c.result(w, pid),
            Command::SellCard(c) => c.result(w, pid),
            Command::BidCard(c) => c.result(w, pid),
            Command::Deposit(c) => c.result(w, pid),
            Command::Bounty(c) => c.result(w, pid),
            Command::Tick => Ok(()),
        }
    }

    /// The status code of the command: 0 for success, else the error.
    pub open spec fn status(self, w: WorldView, pid: [u64; 2]) -> u32 {
        match self.result(w, pid) {
            Ok(_) => 0,
            Err(e) => e,
        }
    }

    /// The world after the command succeeded.
    pub open spec fn applied(self, w: WorldView, pid: [u64; 2], rand: [u64; 4]) -> WorldView {
        match self.command {
            Command::InstallPlayer => Self::player_installed(w, pid),
            Command::CollectEnergy => Self::energy_collected(w, pid),
            Command::InstallObject(c) => c.applied(w, pid),
            Command::RestartObject(c) => c.applied(w, pid),
            Command::UpgradeObject(c) => c.applied(w, pid),
            Command::Withdraw(c) => c.applied(w, pid),
            Command::InstallCard(c) => c.applied(w, pid, rand),
            Command::ListCardInMarket(c) => c.applied(w, pid),
            Command::SellCard(c) => c.applied(w, pid),
            Command::BidCard(c) => c.applied(w, pid),
            Command::Deposit(c) => c.applied(w, pid),
            Command::Bounty(c) => c.applied(w, pid),
            Command::Tick => w.ticked(),
        }
    }

    /// The world after the command was processed: changed as the command says if it
    /// succeeded, untouched if it failed.
    pub open spec fn processed(self, w: WorldView, pid: [u64; 2], rand: [u64; 4]) -> WorldView {
        if self.result(w, pid) is Ok {
            self.applied(w, pid, rand)
        } else {
            w
        }
    }

    /// Tests whether the command may be processed.
    pub fn admissible(&self, world: &World, pkey: &[u64; 4], pid: &[u64; 2]) -> (b: bool)
        requires
            world@.wf(),
        ensures
            b == self.admits(world@, *pkey, *pid),
    {
        let by_admin: bool = pkey[0] == world.admin[0] && pkey[1] == world.admin[1] && pkey[2]
            == world.admin[2] && pkey[3] == world.admin[3];
        proof {
            if by_admin {
                assert(*pkey =~= world@.admin);
            }
        }
        match self.command {
            Command::InstallPlayer => true,
            Command::CollectEnergy => true,
            Command::InstallObject(c) => c.admissible(world, pid, self.nonce),
            Command::RestartObject(c) => c.admissible(world, pid, self.nonce),
            Command::UpgradeObject(c) => c.admissible(world, pid, self.nonce),
            Command::Withdraw(c) => c.admissible(world, pid, self.nonce),
            Command::InstallCard(c) => c.admissible(world, pid, self.nonce),
            Command::ListCardInMarket(c) => c.admissible(world, pid, self.nonce),
            Command::SellCard(c) => c.admissible(world, pid, self.nonce),
            Command::BidCard(c) => c.admissible(world, pid, self.nonce),
            Command::Deposit(c) => by_admin && c.admissible(world, pid, self.nonce),
            Command::Bounty(c) => c.admissible(world, pid, self.nonce),
            Command::Tick => by_admin && world.can_tick(),
        }
    }

    /// Processes the command for the sender with key `pkey` and identity `pid`, and
    /// returns the status code followed by the current event id. No nonce goes down; a
    /// command that carries a nonce and succeeds uses it up, so that the same command
    /// is not admitted a second time.
    pub fn process(&self, world: &mut World, pkey: &[u64; 4], pid: &[u64; 2], rand: &[u64; 4]) -> (out:
        Vec<u64>)
        requires
            old(world)@.wf(),
            self.admits(old(world)@, *pkey, *pid),
        ensures
            final(world)@ == self.processed(old(world)@, *pid, *rand),
            final(world)@.wf(),
            final(world)@.resources_non_negative(),
            forall|k: int|
                0 <= k < old(world)@.players.len() ==> (#[trigger] final(world)@.players[k]).nonce
                    >= old(world)@.players[k].nonce,
            self.carries_nonce() && self.result(old(world)@, *pid) is Ok ==> final(world)@.has_player(
                *pid,
            ) && final(world)@.player_of(*pid).nonce == self.nonce + 1 && !self.admits(
                final(world)@,
                *pkey,
                *pid,
            ),
            out@ == seq![
                self.status(old(world)@, *pid) as u64,
                final(world)@.state.event_id,
            ],
    {
        let done: Result<(), u32> = match self.command {
            Command::InstallPlayer => Self::install_player(world, pid),
            Command::CollectEnergy => Self::collect_energy(world, pid),
            Command::InstallObject(c) => c.handle(world, pid, self.nonce),
            Command::RestartObject(c) => c.handle(world, pid, self.nonce),
            Command::UpgradeObject(c) => c.handle(world, pid, self.nonce),
            Command::Withdraw(c) => c.handle(world, pid, self.nonce),
            Command::InstallCard(c) => c.handle(world, pid, self.nonce, rand),
            Command::ListCardInMarket(c) => c.handle(world, pid, self.nonce),
            Command::SellCard(c) => c.handle(world, pid, self.nonce),
            Command::BidCard(c) => c.handle(world, pid, self.nonce),
            Command::Deposit(c) => c.handle(world, pid, self.nonce),
            Command::Bounty(c) => c.handle(world, pid, self.nonce),
            Command::Tick => {
                world.tick();
                Ok(())
            },
        };
        let e: u32 = match done {
            Ok(()) => 0,
            Err(e) => e,
        };
        proof {
            crate::world::lemma_resources_non_negative(world@);
            crate::laws::law_nonce_strictly_increasing(*self, old(world)@, *pkey, *pid, *rand);
            if self.carries_nonce() && self.result(old(world)@, *pid) is Ok {
                crate::laws::law_replay_rejected(*self, *self, old(world)@, *pkey, *pid, *rand);
            }
        }
        let mut out: Vec<u64> = Vec::new();
        out.push(e as u64);
        out.push(world.state.event_id);
        out
    }
}

} // verus!
