//! Numeric status codes of the recoverable domain errors. Status `0` is success.

use vstd::prelude::*;

verus! {

/// A player with that identity is installed already.
pub const ERROR_PLAYER_ALREADY_EXIST: u32 = 1;

/// No player with that identity is installed.
pub const ERROR_PLAYER_NOT_EXIST: u32 = 2;

/// The balance does not cover what is to be paid.
pub const ERROR_NOT_ENOUGH_BALANCE: u32 = 3;

/// An index points at nothing, or at a card that is not listed.
pub const ERROR_INDEX_OUT_OF_BOUND: u32 = 4;

/// The resource does not exceed the cost of its bounty.
pub const ERROR_NOT_ENOUGH_RESOURCE: u32 = 5;

/// The level of the player does not allow it.
pub const ERROR_NOT_ENOUGH_LEVEL: u32 = 6;

/// The bounty pool holds less than is to be withdrawn.
pub const ERROR_NOT_ENOUGH_POOL: u32 = 7;

/// The card is in a ring or on the market, or the listing is settled.
pub const ERROR_CARD_IS_IN_USE: u32 = 8;

/// The bid does not beat the bid that stands.
pub const ERROR_BID_PRICE_INSUFFICIENT: u32 = 9;

/// Nobody has bid on the listing.
pub const ERROR_NO_BIDDER: u32 = 10;

} // verus!
