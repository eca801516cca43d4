use vstd::prelude::*;

use crate::amount::Amount;
use crate::store::StoreKey;

verus! {

/// The nonce of an NFT within its collection.
pub type Nonce = u64;

/// An account, by the number under which the host knows it.
pub type Address = u64;

/// A token collection, by the number under which the host knows its
/// identifier; 0 stands for the empty identifier.
pub type TokenId = u64;

/// What a user has claimed and the power that is staked for the user.
#[derive(Clone, Debug, PartialEq, Eq)]
pub struct UserStats {
    pub power: u64,
    pub gng_claimed: Amount,
}

/// The statistics of a user, with the claimed GNG as a number.
pub struct UserStatsView {
    pub power: u64,
    pub gng_claimed: nat,
}

impl View for UserStats {
    type V = UserStatsView;

    open spec fn view(&self) -> UserStatsView {
        UserStatsView { power: self.power, gng_claimed: self.gng_claimed@ }
    }
}

/// One NFT: its collection and its nonce.
#[derive(Clone, Copy, Debug, PartialEq, Eq, Structural)]
pub struct Token {
    pub token_id: TokenId,
    pub nonce: Nonce,
}

/// The battle attributes of an NFT.
#[derive(Clone, Copy, Debug, PartialEq, Eq, Structural)]
pub struct Attributes {
    pub power: u16,
    pub heart: u16,
    pub ram: u16,
}

#[derive(Clone, Copy, Debug, PartialEq, Eq, Structural)]
pub enum BattleStatus {
    Preparation,
    Battle,
}

/// How often battles take place.
#[derive(Clone, Copy, Debug, PartialEq, Eq, Structural)]
pub enum BattleMode {
    Daily,
    Weekly,
}

/// The rewards of a user: those already computed, and the power won in the
/// battle whose rewards are not computed yet.
#[derive(Clone, Debug, PartialEq, Eq)]
pub struct PendingRewards {
    pub calculated_rewards: Amount,
    pub awaiting_battle_id: u64,
    pub awaiting_power: u64,
}

/// The pending rewards of a user, with the computed rewards as a number.
pub struct PendingView {
    pub calculated_rewards: nat,
    pub awaiting_battle_id: u64,
    pub awaiting_power: u64,
}

impl View for PendingRewards {
    type V = PendingView;

    open spec fn view(&self) -> PendingView {
        PendingView {
            calculated_rewards: self.calculated_rewards@,
            awaiting_battle_id: self.awaiting_battle_id,
            awaiting_power: self.awaiting_power,
        }
    }
}

/// A transfer of tokens that comes with a call.
#[derive(Clone, Debug, PartialEq, Eq)]
pub struct Payment {
    pub token_id: TokenId,
    pub nonce: Nonce,
    pub amount: Amount,
}

/// The NFTs of one collection that one address has staked are stored under
/// this key.
#[derive(Clone, Copy, Debug, PartialEq, Eq, Structural)]
pub struct HolderCollection {
    pub address: Address,
    pub token_id: TokenId,
}

impl Default for UserStats {
    fn default() -> (r: Self)
        ensures
            r@ == (UserStatsView { power: 0, gng_claimed: 0 }),
    {
        UserStats { power: 0, gng_claimed: Amount::zero() }
    }
}

impl Default for Attributes {
    fn default() -> (r: Self)
        ensures
            r == (Attributes { power: 0, heart: 0, ram: 0 }),
    {
        Attributes { power: 0, heart: 0, ram: 0 }
    }
}

impl Default for PendingRewards {
    fn default() -> (r: Self)
        ensures
            r@ == (PendingView { calculated_rewards: 0, awaiting_battle_id: 0, awaiting_power: 0 }),
    {
        PendingRewards { calculated_rewards: Amount::zero(), awaiting_battle_id: 0, awaiting_power: 0 }
    }
}

impl UserStats {
    /// A copy of the statistics.
    pub fn duplicate(&self) -> (r: UserStats)
        ensures
            r@ == self@,
    {
        UserStats { power: self.power, gng_claimed: self.gng_claimed.duplicate() }
    }
}

impl PendingRewards {
    /// A copy of the pending rewards.
    pub fn duplicate(&self) -> (r: PendingRewards)
        ensures
            r@ == self@,
    {
        PendingRewards {
            calculated_rewards: self.calculated_rewards.duplicate(),
            awaiting_battle_id: self.awaiting_battle_id,
            awaiting_power: self.awaiting_power,
        }
    }
}

impl Payment {
    /// A copy of the payment.
    pub fn duplicate(&self) -> (r: Payment)
        ensures
            r.token_id == self.token_id,
            r.nonce == self.nonce,
            r.amount@ == self.amount@,
    {
        Payment { token_id: self.token_id, nonce: self.nonce, amount: self.amount.duplicate() }
    }
}

impl StoreKey for Token {
    fn same_key(&self, other: &Self) -> (r: bool) {
        self.token_id == other.token_id && self.nonce == other.nonce
    }
}

impl StoreKey for HolderCollection {
    fn same_key(&self, other: &Self) -> (r: bool) {
        self.address == other.address && self.token_id == other.token_id
    }
}

} // verus!
