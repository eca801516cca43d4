use vstd::prelude::*;

use crate::model::{Address, Token};

verus! {

/// A clash was fought: the winner and the loser with their owners; in a
/// draw both count as losers.
#[derive(Clone, Copy, Debug, PartialEq, Eq, Structural)]
pub struct ClashEvent {
    pub battle_id: u64,
    pub winner: Token,
    pub loser: Token,
    pub is_draw: bool,
    pub winner_owner: Address,
    pub loser_owner: Address,
}

/// The last NFT of a battle with an odd number of NFTs had no opponent.
#[derive(Clone, Copy, Debug, PartialEq, Eq, Structural)]
pub struct SingleTokenClashEvent {
    pub battle_id: u64,
    pub token: Token,
    pub owner: Address,
}

/// What one step of a battle reports.
#[derive(Clone, Copy, Debug, PartialEq, Eq, Structural)]
pub enum BattleEvent {
    Clash(ClashEvent),
    SingleTokenClash(SingleTokenClashEvent),
}

} // verus!
