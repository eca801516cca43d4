use vstd::prelude::*;

use crate::amount::{Amount, floor_mul_div};
use crate::config::{AttributesArg, ConfigModule, ConfigView, State};
use crate::error::{Error, transition, transition_paying};
use crate::model::{
    Address, Attributes, BattleMode, BattleStatus, HolderCollection, Nonce, Payment, PendingRewards, PendingView,
    Token, TokenId, UserStats, UserStatsView,
};
use crate::rewards::share;
use crate::schedule::{
    battle_start_timestamp, is_special_week, is_sunday, spec_battle_start, spec_is_sunday, ONE_DAY_TIMESTAMP,
    ONE_WEEK_TIMESTAMP, SPECIAL_WEEK_RECURRENCE,
};
use crate::store::{Store, UnorderedSet, seq_swap};
use crate::clash::{ClashOutcome, clash_outcome, spec_clash_outcome};
use crate::events::{BattleEvent, ClashEvent, SingleTokenClashEvent};
use crate::operations::{LoopOp, OngoingOperationModule, OperationCompletionStatus};

verus! {

/// The value of `k` in `m`, or `default` where `k` is absent: a stored
/// number that was never written reads as zero.
pub open spec fn value_or<K, V>(m: Map<K, V>, k: K, default: V) -> V {
    if m.dom().contains(k) {
        m[k]
    } else {
        default
    }
}

/// Where a battle transaction stands between its steps.
pub struct BattleRunView {
    pub battle: u64,
    pub remaining: usize,
    pub clashes_done: u64,
    pub total_winner_power: u64,
}

/// A battle transaction in progress: the battle, how many NFTs are left to
/// fight, and the clashes fought and power won so far.
pub struct BattleRun {
    battle: u64,
    remaining: usize,
    clashes_done: u64,
    total_winner_power: u64,
}

impl View for BattleRun {
    type V = BattleRunView;

    closed spec fn view(&self) -> BattleRunView {
        BattleRunView {
            battle: self.battle,
            remaining: self.remaining,
            clashes_done: self.clashes_done,
            total_winner_power: self.total_winner_power,
        }
    }
}

impl BattleRun {
    /// How many NFTs are left to fight.
    pub fn remaining(&self) -> (r: usize)
        ensures
            r == self@.remaining,
    {
        self.remaining
    }

    pub fn amount_of_clashes_done(&self) -> (r: u64)
        ensures
            r == self@.clashes_done,
    {
        self.clashes_done
    }
}

/// Everything the contract stores.
pub struct GngView {
    pub config: ConfigView,
    pub first_battle_timestamp: u64,
    pub first_battle_timestamp_current_period: u64,
    pub current_battle: u64,
    pub past_battle_amount: u64,
    pub battle_mode: BattleMode,
    pub staked_for_address: Map<HolderCollection, Seq<Nonce>>,
    pub battle_stack: Seq<Token>,
    pub remaining_nfts_in_battle: Map<u64, usize>,
    pub has_battle_started: Map<u64, bool>,
    pub total_nft_engaged: u64,
    pub total_battle_winner_power: Map<u64, u64>,
    pub raw_pending_rewards_for_address: Map<Address, PendingView>,
    pub addresses: Seq<Address>,
    pub total_rewards_for_stakers: Map<u64, nat>,
    pub total_rewards_for_operators: Map<u64, nat>,
    pub total_number_clashes_current_battle: usize,
    pub nft_owner: Map<Token, Address>,
    pub stats_for_address: Map<Address, UserStatsView>,
}

impl GngView {
    /// The storage of a contract that `owner` has just deployed, before its
    /// constructor ran.
    pub open spec fn initial(owner: Address) -> GngView {
        GngView {
            config: ConfigView::initial(owner),
            first_battle_timestamp: 0,
            first_battle_timestamp_current_period: 0,
            current_battle: 0,
            past_battle_amount: 0,
            battle_mode: BattleMode::Daily,
            staked_for_address: Map::empty(),
            battle_stack: Seq::empty(),
            remaining_nfts_in_battle: Map::empty(),
            has_battle_started: Map::empty(),
            total_nft_engaged: 0,
            total_battle_winner_power: Map::empty(),
            raw_pending_rewards_for_address: Map::empty(),
            addresses: Seq::empty(),
            total_rewards_for_stakers: Map::empty(),
            total_rewards_for_operators: Map::empty(),
            total_number_clashes_current_battle: 0,
            nft_owner: Map::empty(),
            stats_for_address: Map::empty(),
        }
    }

    /// The nonces of collection `token_id` that `address` has staked.
    pub open spec fn staked(self, address: Address, token_id: TokenId) -> Seq<Nonce> {
        value_or(self.staked_for_address, HolderCollection { address, token_id }, Seq::empty())
    }

    pub open spec fn remaining(self, battle: u64) -> usize {
        value_or(self.remaining_nfts_in_battle, battle, 0)
    }

    pub open spec fn started(self, battle: u64) -> bool {
        value_or(self.has_battle_started, battle, false)
    }

    pub open spec fn winner_power(self, battle: u64) -> u64 {
        value_or(self.total_battle_winner_power, battle, 0)
    }

    pub open spec fn stakers_rewards(self, battle: u64) -> nat {
        value_or(self.total_rewards_for_stakers, battle, 0)
    }

    pub open spec fn operators_rewards(self, battle: u64) -> nat {
        value_or(self.total_rewards_for_operators, battle, 0)
    }

    /// When the current battle starts.
    pub open spec fn battle_start(self) -> int {
        spec_battle_start(
            self.first_battle_timestamp_current_period as int,
            self.battle_mode,
            self.current_battle as int,
            self.past_battle_amount as int,
        )
    }

    /// At `now`, the current battle is being fought once its start has come.
    pub open spec fn battle_status(self, now: u64) -> Result<BattleStatus, Error> {
        if self.battle_start() > u64::MAX {
            Err(Error::ArithmeticOverflow)
        } else if now >= self.battle_start() {
            Ok(BattleStatus::Battle)
        } else {
            Ok(BattleStatus::Preparation)
        }
    }

    /// In daily mode a battle is special when it falls on a Sunday, in
    /// weekly mode every seventh battle of the period is.
    pub open spec fn current_battle_special(self) -> Result<bool, Error> {
        match self.battle_mode {
            BattleMode::Daily => {
                let start = self.first_battle_timestamp_current_period + ONE_DAY_TIMESTAMP * (
                self.current_battle - self.past_battle_amount - 1);
                if start > u64::MAX {
                    Err(Error::ArithmeticOverflow)
                } else {
                    Ok(spec_is_sunday(start))
                }
            },
            BattleMode::Weekly => Ok(
                (self.current_battle - self.past_battle_amount) % (SPECIAL_WEEK_RECURRENCE as int) == 0,
            ),
        }
    }

    /// The rewards that `power` earns in battle `battle`: its share of the
    /// stakers' rewards of that battle by the power of all its winners.
    pub open spec fn clash_rewards(self, battle: u64, power: u64) -> int {
        share(power as int, self.stakers_rewards(battle) as int, self.winner_power(battle) as int)
    }

    /// What the operators of battle `battle` earn for `clashes` clashes.
    pub open spec fn operator_rewards(self, clashes: u64, battle: u64) -> Result<nat, Error> {
        let total = self.total_number_clashes_current_battle;
        if total == 0 {
            Err(Error::DivisionByZero)
        } else {
            Ok(floor_mul_div(clashes as nat, self.operators_rewards(battle), total as nat))
        }
    }

    /// The rewards of `address` that it can claim: those computed, and
    /// those of the power it won in a past battle. The current battle does
    /// not count.
    pub open spec fn pending_total(self, address: Address) -> int {
        if !self.raw_pending_rewards_for_address.dom().contains(address) {
            0
        } else {
            let p = self.raw_pending_rewards_for_address[address];
            if p.awaiting_battle_id == self.current_battle || p.awaiting_battle_id == 0 {
                p.calculated_rewards as int
            } else {
                p.calculated_rewards + self.clash_rewards(p.awaiting_battle_id, p.awaiting_power)
            }
        }
    }

    /// The pending rewards of `address` once claimed: what is awaited for
    /// the current battle stays.
    pub open spec fn cleared_pending(self, address: Address) -> Map<Address, PendingView> {
        let m = self.raw_pending_rewards_for_address;
        if !m.dom().contains(address) {
            m
        } else if m[address].awaiting_battle_id == self.current_battle {
            m.insert(address, PendingView { calculated_rewards: 0, ..m[address] })
        } else {
            m.insert(address, PendingView { calculated_rewards: 0, awaiting_battle_id: 0, awaiting_power: 0 })
        }
    }

    pub open spec fn after_init(self, now: u64, first_battle_timestamp: u64, gng_token_id: TokenId) -> Result<
        GngView,
        Error,
    > {
        if self.first_battle_timestamp == 0 && first_battle_timestamp <= now {
            Err(Error::CannotBackdateFirstBattle)
        } else {
            let first = if self.first_battle_timestamp == 0 {
                first_battle_timestamp
            } else {
                self.first_battle_timestamp
            };
            let next = GngView {
                first_battle_timestamp: first,
                current_battle: if self.current_battle == 0 { 1 } else { self.current_battle },
                config: ConfigView {
                    gng_token_id: if self.config.gng_token_id == 0 {
                        gng_token_id
                    } else {
                        self.config.gng_token_id
                    },
                    ..self.config
                },
                first_battle_timestamp_current_period: if self.first_battle_timestamp_current_period == 0 {
                    first
                } else {
                    self.first_battle_timestamp_current_period
                },
                ..self
            };
            match next.battle_status(now) {
                Err(e) => Err(e),
                Ok(BattleStatus::Battle) => Err(Error::BattleInProgress),
                Ok(BattleStatus::Preparation) => Ok(next),
            }
        }
    }

    pub open spec fn after_switch_mode(self, caller: Address, now: u64, mode: BattleMode) -> Result<
        GngView,
        Error,
    > {
        let first = self.first_battle_timestamp_current_period as int;
        let current = self.current_battle as int;
        let past = self.past_battle_amount as int;
        if caller != self.config.owner {
            Err(Error::OnlyOwner)
        } else if self.battle_status(now) is Err {
            Err(Error::ArithmeticOverflow)
        } else if self.battle_status(now) == Ok::<BattleStatus, Error>(BattleStatus::Battle) {
            Err(Error::BattleInProgress)
        } else if self.battle_mode == mode {
            Err(Error::AlreadyInThisMode)
        } else {
            let next_first: int = match self.battle_mode {
                BattleMode::Daily => first + ONE_DAY_TIMESTAMP * (current - past - 1),
                BattleMode::Weekly => if current == past + 1 {
                    first
                } else {
                    first + ONE_WEEK_TIMESTAMP * ((current - 1) - past - 1) + ONE_DAY_TIMESTAMP
                },
            };
            if next_first > u64::MAX {
                Err(Error::ArithmeticOverflow)
            } else if self.battle_mode == BattleMode::Weekly && current != past + 1 && next_first <= now {
                Err(Error::SwitchTooLate)
            } else {
                Ok(
                    GngView {
                        past_battle_amount: (current - 1) as u64,
                        first_battle_timestamp_current_period: next_first as u64,
                        battle_mode: mode,
                        ..self
                    },
                )
            }
        }
    }

    pub open spec fn after_claim_rewards(self, caller: Address) -> Result<(GngView, nat), Error> {
        let total = self.pending_total(caller);
        if self.config.state != State::Active {
            Err(Error::NotActive)
        } else if total == 0 {
            Ok((self, 0))
        } else if !self.stats_for_address.dom().contains(caller) {
            Err(Error::StorageDecode)
        } else {
            let stats = self.stats_for_address[caller];
            Ok(
                (
                    GngView {
                        raw_pending_rewards_for_address: self.cleared_pending(caller),
                        stats_for_address: self.stats_for_address.insert(
                            caller,
                            UserStatsView { gng_claimed: (stats.gng_claimed + total) as nat, ..stats },
                        ),
                        ..self
                    },
                    total as nat,
                ),
            )
        }
    }

    /// Why the payment at `i` cannot be staked, given the payments before
    /// it: its collection may not battle, it is not a single NFT, the NFT is
    /// staked already, or it has no attributes.
    pub open spec fn payment_error(self, payments: Seq<Payment>, i: int) -> Option<Error> {
        let p = payments[i];
        let t = payment_token(p);
        if !self.config.battle_tokens.contains(p.token_id) {
            Some(Error::WrongToken)
        } else if p.amount@ != 1 {
            Some(Error::InvalidTokenAmount)
        } else if self.nft_owner.dom().contains(t) || payments.take(i).map_values(|q: Payment| payment_token(q)).contains(t) {
            Some(Error::CannotStakeSft)
        } else if !self.config.token_attributes.dom().contains(t) {
            Some(Error::NoAttributes)
        } else {
            None
        }
    }

    /// The first reason to refuse one of the first `n` payments.
    pub open spec fn first_payment_error(self, payments: Seq<Payment>, n: int) -> Option<Error>
        decreases n,
    {
        if n <= 0 {
            None
        } else {
            match self.first_payment_error(payments, n - 1) {
                Some(e) => Some(e),
                None => self.payment_error(payments, n - 1),
            }
        }
    }

    /// The power of the NFTs of the first `n` payments.
    pub open spec fn payments_power(self, payments: Seq<Payment>, n: int) -> int
        decreases n,
    {
        if n <= 0 {
            0
        } else {
            self.payments_power(payments, n - 1) + self.config.token_attributes[payment_token(
                payments[n - 1],
            )].power
        }
    }

    pub open spec fn after_stake(self, caller: Address, now: u64, payments: Seq<Payment>) -> Result<
        GngView,
        Error,
    > {
        let stats = value_or(self.stats_for_address, caller, UserStatsView { power: 0, gng_claimed: 0 });
        let power = stats.power + self.payments_power(payments, payments.len() as int);
        if self.config.state != State::Active {
            Err(Error::NotActive)
        } else if self.battle_status(now) is Err {
            Err(Error::ArithmeticOverflow)
        } else if self.battle_status(now) == Ok::<BattleStatus, Error>(BattleStatus::Battle) {
            Err(Error::BattleInProgress)
        } else if payments.len() == 0 {
            Err(Error::NoPayment)
        } else if self.first_payment_error(payments, payments.len() as int) is Some {
            Err(self.first_payment_error(payments, payments.len() as int)->Some_0)
        } else if power > u64::MAX {
            Err(Error::ArithmeticOverflow)
        } else if self.total_nft_engaged + payments.len() > u64::MAX {
            Err(Error::ArithmeticOverflow)
        } else {
            Ok(
                GngView {
                    stats_for_address: self.stats_for_address.insert(
                        caller,
                        UserStatsView { power: power as u64, ..stats },
                    ),
                    raw_pending_rewards_for_address: if self.raw_pending_rewards_for_address.dom().contains(
                        caller,
                    ) {
                        self.raw_pending_rewards_for_address
                    } else {
                        self.raw_pending_rewards_for_address.insert(
                            caller,
                            PendingView { calculated_rewards: 0, awaiting_battle_id: 0, awaiting_power: 0 },
                        )
                    },
                    nft_owner: owners_after(self.nft_owner, caller, payments),
                    staked_for_address: staked_after(self.staked_for_address, caller, payments),
                    battle_stack: self.battle_stack + payments.map_values(|q: Payment| payment_token(q)),
                    addresses: crate::config::set_insert(self.addresses, caller),
                    total_nft_engaged: (self.total_nft_engaged + payments.len()) as u64,
                    ..self
                },
            )
        }
    }

    /// Why the NFT at `i` of a withdrawal by `caller` is refused, given the
    /// NFTs before it: an NFT without owner (or given back earlier in the
    /// same call) cannot be read, one of another owner is the wrong token,
    /// and during a battle the NFTs left to fight must be on the stack.
    pub open spec fn withdraw_error(self, caller: Address, in_battle: bool, tokens: Seq<Token>, i: int) -> Option<
        Error,
    > {
        let t = tokens[i];
        if !self.nft_owner.dom().contains(t) || tokens.take(i).contains(t) {
            Some(Error::StorageDecode)
        } else if !self.config.token_attributes.dom().contains(t) {
            Some(Error::StorageDecode)
        } else if self.nft_owner[t] != caller || !self.staked(caller, t.token_id).contains(t.nonce) {
            Some(Error::WrongToken)
        } else if in_battle && self.remaining(self.current_battle) > self.battle_stack.len() {
            Some(Error::IndexOutOfRange)
        } else {
            None
        }
    }

    pub open spec fn first_withdraw_error(self, caller: Address, in_battle: bool, tokens: Seq<Token>, n: int) -> Option<
        Error,
    >
        decreases n,
    {
        if n <= 0 {
            None
        } else {
            match self.first_withdraw_error(caller, in_battle, tokens, n - 1) {
                Some(e) => Some(e),
                None => self.withdraw_error(caller, in_battle, tokens, n - 1),
            }
        }
    }

    /// The power of the first `n` NFTs.
    pub open spec fn tokens_power(self, tokens: Seq<Token>, n: int) -> int
        decreases n,
    {
        if n <= 0 {
            0
        } else {
            self.tokens_power(tokens, n - 1) + self.config.token_attributes[tokens[n - 1]].power
        }
    }

    /// The state once `caller` took back `t`: it loses its owner and leaves
    /// the staked nonces and the battle stack; during a battle, an NFT still
    /// to fight is first moved to the end of those still to fight, which
    /// are one fewer.
    pub open spec fn withdraw_one(self, caller: Address, in_battle: bool, t: Token) -> GngView {
        let index = self.battle_stack.index_of(t) + 1;
        let rem = self.remaining(self.current_battle);
        let swapped = in_battle && index <= rem;
        let stack = if swapped {
            crate::store::seq_swap(self.battle_stack, index - 1, rem - 1)
        } else {
            self.battle_stack
        };
        GngView {
            nft_owner: self.nft_owner.remove(t),
            staked_for_address: self.staked_for_address.insert(
                HolderCollection { address: caller, token_id: t.token_id },
                crate::config::set_remove(self.staked(caller, t.token_id), t.nonce),
            ),
            battle_stack: crate::config::set_remove(stack, t),
            remaining_nfts_in_battle: if swapped {
                self.remaining_nfts_in_battle.insert(self.current_battle, (rem - 1) as usize)
            } else {
                self.remaining_nfts_in_battle
            },
            ..self
        }
    }

    /// The state once `caller` took back the NFTs of `tokens` in order.
    pub open spec fn withdraw_all(self, caller: Address, in_battle: bool, tokens: Seq<Token>) -> GngView
        decreases tokens.len(),
    {
        if tokens.len() == 0 {
            self
        } else {
            self.withdraw_all(caller, in_battle, tokens.drop_last()).withdraw_one(caller, in_battle, tokens.last())
        }
    }

    /// A withdrawal first claims the caller's rewards, then gives back the
    /// NFTs and takes their power from the caller's statistics; returns the
    /// rewards paid.
    pub open spec fn after_withdraw(self, caller: Address, now: u64, tokens: Seq<Token>) -> Result<
        (GngView, nat),
        Error,
    > {
        let in_battle = self.battle_status(now) == Ok::<BattleStatus, Error>(BattleStatus::Battle);
        let power = self.tokens_power(tokens, tokens.len() as int);
        if self.config.state != State::Active {
            Err(Error::NotActive)
        } else if self.after_claim_rewards(caller) is Err {
            Err(self.after_claim_rewards(caller)->Err_0)
        } else if self.battle_status(now) is Err {
            Err(Error::ArithmeticOverflow)
        } else if self.first_withdraw_error(caller, in_battle, tokens, tokens.len() as int) is Some {
            Err(self.first_withdraw_error(caller, in_battle, tokens, tokens.len() as int)->Some_0)
        } else {
            let (claimed, rewards) = self.after_claim_rewards(caller)->Ok_0;
            if !claimed.stats_for_address.dom().contains(caller) {
                Err(Error::StorageDecode)
            } else if claimed.stats_for_address[caller].power < power {
                Err(Error::ArithmeticOverflow)
            } else {
                let after = claimed.withdraw_all(caller, in_battle, tokens);
                let stats = claimed.stats_for_address[caller];
                Ok(
                    (
                        GngView {
                            stats_for_address: after.stats_for_address.insert(
                                caller,
                                UserStatsView { power: (stats.power - power) as u64, ..stats },
                            ),
                            total_nft_engaged: (after.total_nft_engaged - tokens.len()) as u64,
                            ..after
                        },
                        rewards,
                    ),
                )
            }
        }
    }

    /// The battle run that starts a battle transaction.
    pub open spec fn after_battle_begin(self, now: u64) -> Result<(GngView, BattleRunView), Error> {
        let current = self.current_battle;
        let stakers = self.config.daily_reward_amount;
        let operators = self.config.base_battle_reward_amount;
        if self.config.state != State::Active {
            Err(Error::NotActive)
        } else if self.battle_status(now) is Err {
            Err(Error::ArithmeticOverflow)
        } else if self.battle_status(now) == Ok::<BattleStatus, Error>(BattleStatus::Preparation) {
            Err(Error::BattleInPreparation)
        } else if !self.started(current) && self.config.reward_capacity < stakers + operators {
            Err(Error::NotEnoughRewards)
        } else {
            let next = if self.started(current) {
                self
            } else {
                GngView {
                    total_rewards_for_stakers: self.total_rewards_for_stakers.insert(current, stakers),
                    total_rewards_for_operators: self.total_rewards_for_operators.insert(current, operators),
                    config: ConfigView {
                        reward_capacity: (self.config.reward_capacity - stakers - operators) as nat,
                        ..self.config
                    },
                    remaining_nfts_in_battle: self.remaining_nfts_in_battle.insert(
                        current,
                        self.battle_stack.len() as usize,
                    ),
                    total_number_clashes_current_battle: (self.battle_stack.len() / 2) as usize,
                    has_battle_started: self.has_battle_started.insert(current, true),
                    ..self
                }
            };
            Ok(
                (
                    next,
                    BattleRunView {
                        battle: current,
                        remaining: next.remaining(current),
                        clashes_done: 0,
                        total_winner_power: 0,
                    },
                ),
            )
        }
    }

    /// The rewards of a won clash: in a special battle the loser is
    /// rewarded in place of the winner. The power of the rewarded NFT is
    /// awaited for the current battle; rewards awaited for an earlier
    /// battle are computed first. Gives the rewarded owner, its new pending
    /// rewards, the clash event and the rewarded power.
    pub open spec fn reward_update(self, winner: Token, loser: Token) -> Result<
        (Address, PendingView, ClashEvent, u64),
        Error,
    > {
        match self.current_battle_special() {
            Err(e) => Err(e),
            Ok(special) => {
                let w = if special { loser } else { winner };
                let l = if special { winner } else { loser };
                let owner = self.nft_owner[w];
                let power = self.config.token_attributes[w].power as u64;
                let current = self.current_battle;
                let p = self.raw_pending_rewards_for_address[owner];
                let event = ClashEvent {
                    battle_id: current,
                    winner: w,
                    loser: l,
                    is_draw: false,
                    winner_owner: owner,
                    loser_owner: self.nft_owner[l],
                };
                if p.awaiting_battle_id == 0 {
                    Ok(
                        (
                            owner,
                            PendingView { awaiting_battle_id: current, awaiting_power: power, ..p },
                            event,
                            power,
                        ),
                    )
                } else if p.awaiting_battle_id < current {
                    let add = self.clash_rewards(p.awaiting_battle_id, p.awaiting_power);
                    Ok(
                        (
                            owner,
                            PendingView {
                                calculated_rewards: (p.calculated_rewards + add) as nat,
                                awaiting_battle_id: current,
                                awaiting_power: power,
                            },
                            event,
                            power,
                        ),
                    )
                } else if p.awaiting_power + power > u64::MAX {
                    Err(Error::ArithmeticOverflow)
                } else {
                    Ok(
                        (
                            owner,
                            PendingView { awaiting_power: (p.awaiting_power + power) as u64, ..p },
                            event,
                            power,
                        ),
                    )
                }
            },
        }
    }

    /// One step of a battle: with no NFT left to fight the battle is over;
    /// a last NFT alone is reported and the battle is over; otherwise the
    /// NFTs at the drawn positions, counted from 1 among those left to
    /// fight, clash and move to the end of those left.
    pub open spec fn after_battle_step(self, run: BattleRunView, draws: Option<(usize, usize)>) -> Result<
        (GngView, BattleRunView, LoopOp, Option<BattleEvent>),
        Error,
    > {
        let rem = run.remaining as int;
        let stack = self.battle_stack;
        let current = self.current_battle;
        if rem == 0 {
            Ok((self, run, LoopOp::Break, None))
        } else if rem == 1 {
            if stack.len() < 1 {
                Err(Error::IndexOutOfRange)
            } else {
                let event = SingleTokenClashEvent { battle_id: current, token: stack[0], owner: self.nft_owner[stack[0]] };
                Ok(
                    (
                        self,
                        BattleRunView { remaining: 0, ..run },
                        LoopOp::Break,
                        Some(BattleEvent::SingleTokenClash(event)),
                    ),
                )
            }
        } else if rem > stack.len() {
            Err(Error::IndexOutOfRange)
        } else {
            let (d1, d2) = draws->Some_0;
            match self.clash_plan(d1 as int, d2 as int, rem) {
                Err(e) => Err(e),
                Ok((update, event, power)) => {
                    if run.total_winner_power + power > u64::MAX || run.clashes_done + 1 > u64::MAX {
                        Err(Error::ArithmeticOverflow)
                    } else {
                        Ok(
                            (
                                GngView {
                                    battle_stack: stack_after_clash(stack, d1 as int, d2 as int, rem),
                                    raw_pending_rewards_for_address: match update {
                                        Some((owner, pending)) => self.raw_pending_rewards_for_address.insert(
                                            owner,
                                            pending,
                                        ),
                                        None => self.raw_pending_rewards_for_address,
                                    },
                                    ..self
                                },
                                BattleRunView {
                                    remaining: (rem - 2) as usize,
                                    clashes_done: (run.clashes_done + 1) as u64,
                                    total_winner_power: (run.total_winner_power + power) as u64,
                                    ..run
                                },
                                LoopOp::Continue,
                                Some(BattleEvent::Clash(event)),
                            ),
                        )
                    }
                },
            }
        }
    }

    /// A clash between the NFTs at positions `d1` and `d2`, counted from 1:
    /// the first among the `rem` left to fight, the second among the
    /// `rem - 1` left once the first went to the end of them. Gives the
    /// new pending rewards of the rewarded owner (none in a draw), the
    /// event and the rewarded power.
    pub open spec fn clash_plan(self, d1: int, d2: int, rem: int) -> Result<
        (Option<(Address, PendingView)>, ClashEvent, u64),
        Error,
    > {
        let first = self.battle_stack[d1 - 1];
        let second = seq_swap(self.battle_stack, d1 - 1, rem - 1)[d2 - 1];
        let outcome = spec_clash_outcome(
            first,
            self.config.token_attributes[first],
            second,
            self.config.token_attributes[second],
            self.config.tiebreak_collections(),
        );
        match outcome {
            ClashOutcome::Draw => Ok(
                (
                    None,
                    ClashEvent {
                        battle_id: self.current_battle,
                        winner: first,
                        loser: second,
                        is_draw: true,
                        winner_owner: self.nft_owner[first],
                        loser_owner: self.nft_owner[second],
                    },
                    0u64,
                ),
            ),
            ClashOutcome::FirstWins => match self.reward_update(first, second) {
                Err(e) => Err(e),
                Ok((owner, pending, event, power)) => Ok((Some((owner, pending)), event, power)),
            },
            ClashOutcome::SecondWins => match self.reward_update(second, first) {
                Err(e) => Err(e),
                Ok((owner, pending, event, power)) => Ok((Some((owner, pending)), event, power)),
            },
        }
    }

    /// Ends a battle transaction: saves how many NFTs are left to fight;
    /// where clashes were fought, pays their operator and adds the power
    /// of their winners to the battle; a completed battle makes the next
    /// one current. Gives the operator's rewards.
    pub open spec fn after_battle_finish(self, run: BattleRunView, completed: bool) -> Result<
        (GngView, nat),
        Error,
    > {
        let current = self.current_battle;
        let saved = GngView {
            remaining_nfts_in_battle: self.remaining_nfts_in_battle.insert(current, run.remaining),
            ..self
        };
        let paid: Result<(GngView, nat), Error> = if run.clashes_done > 0 {
            match saved.operator_rewards(run.clashes_done, current) {
                Err(e) => Err(e),
                Ok(reward) => if saved.winner_power(current) + run.total_winner_power > u64::MAX {
                    Err(Error::ArithmeticOverflow)
                } else {
                    Ok(
                        (
                            GngView {
                                total_battle_winner_power: saved.total_battle_winner_power.insert(
                                    current,
                                    (saved.winner_power(current) + run.total_winner_power) as u64,
                                ),
                                ..saved
                            },
                            reward,
                        ),
                    )
                },
            }
        } else {
            Ok((saved, 0))
        };
        match paid {
            Err(e) => Err(e),
            Ok((next, reward)) => if completed {
                if current + 1 > u64::MAX {
                    Err(Error::ArithmeticOverflow)
                } else {
                    Ok((GngView { current_battle: (current + 1) as u64, ..next }, reward))
                }
            } else {
                Ok((next, reward))
            },
        }
    }

    /// The NFTs that `address` has staked: collection by collection in the
    /// order of `collections`, each in the order of its staked nonces.
    pub open spec fn staked_listing(self, address: Address, collections: Seq<TokenId>) -> Seq<Token>
        decreases collections.len(),
    {
        if collections.len() == 0 {
            Seq::empty()
        } else {
            let id = collections.last();
            self.staked_listing(address, collections.drop_last()) + self.staked(address, id).map_values(
                |n: Nonce| Token { token_id: id, nonce: n },
            )
        }
    }

    /// The statistics of `address`: its address, all the GNG it earned
    /// (claimed and claimable) and its staked power.
    pub open spec fn global_stats_entry(self, address: Address) -> Result<(Address, nat, u64), Error> {
        if !self.stats_for_address.dom().contains(address) {
            Err(Error::StorageDecode)
        } else {
            let stats = self.stats_for_address[address];
            Ok((address, (stats.gng_claimed + self.pending_total(address)) as nat, stats.power))
        }
    }

    /// The statistics of the first `n` of `addresses`, or the first reason
    /// one cannot be read.
    pub open spec fn global_stats_list(self, addresses: Seq<Address>, n: int) -> Result<
        Seq<(Address, nat, u64)>,
        Error,
    >
        decreases n,
    {
        if n <= 0 {
            Ok(Seq::empty())
        } else {
            match self.global_stats_list(addresses, n - 1) {
                Err(e) => Err(e),
                Ok(list) => match self.global_stats_entry(addresses[n - 1]) {
                    Err(e) => Err(e),
                    Ok(entry) => Ok(list.push(entry)),
                },
            }
        }
    }

    /// The users from position `from`, at most `size` of them.
    pub open spec fn users_window(self, from: int, size: int) -> Seq<Address> {
        let len = self.addresses.len() as int;
        let start = if from < len { from } else { len };
        let end = if from + size < len { from + size } else { len };
        self.addresses.subrange(start, end)
    }

    /// The contract once its configuration changed as `next` says.
    pub open spec fn with_config(self, next: Result<ConfigView, Error>) -> Result<GngView, Error> {
        match next {
            Ok(c) => Ok(GngView { config: c, ..self }),
            Err(e) => Err(e),
        }
    }

    /// Who owns what is told the same way by the owners, the staked nonces
    /// and the battle stack, and every owner has attributes for its NFTs,
    /// statistics and pending rewards.
    pub open spec fn ownership_consistent(self) -> bool {
        &&& forall|t: Token| #[trigger]
            self.battle_stack.contains(t) <==> self.nft_owner.dom().contains(t)
        &&& forall|t: Token| #[trigger]
            self.nft_owner.dom().contains(t) ==> self.staked(self.nft_owner[t], t.token_id).contains(t.nonce)
        &&& forall|a: Address, id: TokenId, n: Nonce| #[trigger]
            self.staked(a, id).contains(n) ==> self.nft_owner.dom().contains(Token { token_id: id, nonce: n })
                && self.nft_owner[Token { token_id: id, nonce: n }] == a
        &&& forall|t: Token| #[trigger]
            self.nft_owner.dom().contains(t) ==> {
                &&& self.config.token_attributes.dom().contains(t)
                &&& self.stats_for_address.dom().contains(self.nft_owner[t])
                &&& self.raw_pending_rewards_for_address.dom().contains(self.nft_owner[t])
            }
        &&& forall|a: Address| #[trigger]
            self.raw_pending_rewards_for_address.dom().contains(a) ==> self.stats_for_address.dom().contains(a)
        &&& forall|a: Address| #[trigger]
            self.addresses.contains(a) ==> self.stats_for_address.dom().contains(a)
    }

    /// Every stored set holds each item once.
    pub open spec fn listed_once(self) -> bool {
        &&& self.battle_stack.no_duplicates()
        &&& self.addresses.no_duplicates()
        &&& self.config.admin.no_duplicates()
        &&& self.config.battle_tokens.no_duplicates()
        &&& forall|k: HolderCollection| #[trigger]
            self.staked_for_address.dom().contains(k) ==> self.staked_for_address[k].no_duplicates()
    }

    /// No user awaits the rewards of a battle after the current one.
    pub open spec fn awaited_not_ahead(self) -> bool {
        forall|a: Address| #[trigger]
            self.raw_pending_rewards_for_address.dom().contains(a)
                ==> self.raw_pending_rewards_for_address[a].awaiting_battle_id <= self.current_battle
    }

    /// What holds of every state that the contract can reach.
    pub open spec fn reachable(self) -> bool {
        &&& self.consistent()
        &&& self.listed_once()
        &&& self.awaited_not_ahead()
    }

    /// Who owns what agrees everywhere, and the battle numbers and the NFT
    /// count agree with the stack.
    pub open spec fn consistent(self) -> bool {
        &&& self.current_battle >= self.past_battle_amount + 1
        &&& self.ownership_consistent()
        &&& self.total_nft_engaged == self.battle_stack.len()
    }
}

proof fn lemma_attributes_after_dom(m: Map<Token, Attributes>, args: Seq<AttributesArg>, t: Token)
    requires
        m.dom().contains(t),
    ensures
        crate::config::attributes_after(m, args).dom().contains(t),
    decreases args.len(),
{
    if args.len() > 0 {
        lemma_attributes_after_dom(m, args.drop_last(), t);
    }
}

proof fn lemma_global_stats_stops(m: GngView, addresses: Seq<Address>, k: int, n: int)
    requires
        0 <= k <= n,
        m.global_stats_list(addresses, k) is Err,
    ensures
        m.global_stats_list(addresses, n) == m.global_stats_list(addresses, k),
    decreases n - k,
{
    if n > k {
        lemma_global_stats_stops(m, addresses, k, n - 1);
    }
}

/// The battle stack once the NFTs drawn at `d1` and `d2` moved to the end
/// of the `rem` left to fight.
pub open spec fn stack_after_clash(stack: Seq<Token>, d1: int, d2: int, rem: int) -> Seq<Token> {
    seq_swap(seq_swap(stack, d1 - 1, rem - 1), d2 - 1, rem - 2)
}

/// The NFT that a payment carries.
pub open spec fn payment_token(p: Payment) -> Token {
    Token { token_id: p.token_id, nonce: p.nonce }
}

/// The owners once the NFTs of `payments` belong to `caller`.
pub open spec fn owners_after(owners: Map<Token, Address>, caller: Address, payments: Seq<Payment>) -> Map<
    Token,
    Address,
> {
    let tokens = payments.map_values(|q: Payment| payment_token(q));
    Map::new(
        |t: Token| owners.dom().contains(t) || tokens.contains(t),
        |t: Token| if tokens.contains(t) { caller } else { owners[t] },
    )
}

/// The staked nonces once `caller` has staked the NFTs of `payments` in
/// order.
pub open spec fn staked_after(
    staked: Map<HolderCollection, Seq<Nonce>>,
    caller: Address,
    payments: Seq<Payment>,
) -> Map<HolderCollection, Seq<Nonce>>
    decreases payments.len(),
{
    if payments.len() == 0 {
        staked
    } else {
        let before = staked_after(staked, caller, payments.drop_last());
        let k = HolderCollection { address: caller, token_id: payments.last().token_id };
        before.insert(k, value_or(before, k, Seq::empty()).push(payments.last().nonce))
    }
}

pub proof fn lemma_staked_after_contains(
    staked: Map<HolderCollection, Seq<Nonce>>,
    caller: Address,
    payments: Seq<Payment>,
    k: HolderCollection,
    n: Nonce,
)
    ensures
        value_or(staked_after(staked, caller, payments), k, Seq::empty()).contains(n) <==> (value_or(
            staked,
            k,
            Seq::empty(),
        ).contains(n) || (k.address == caller && payments.map_values(|q: Payment| payment_token(q)).contains(
            Token { token_id: k.token_id, nonce: n },
        ))),
    decreases payments.len(),
{
    let tokens = payments.map_values(|q: Payment| payment_token(q));
    let t = Token { token_id: k.token_id, nonce: n };
    if payments.len() > 0 {
        let init = payments.drop_last();
        lemma_staked_after_contains(staked, caller, init, k, n);
        let itokens = init.map_values(|q: Payment| payment_token(q));
        let last = payment_token(payments.last());
        assert(tokens =~= itokens.push(last));
        lemma_push_contains(itokens, last, t);
        let before = staked_after(staked, caller, init);
        let k0 = HolderCollection { address: caller, token_id: payments.last().token_id };
        let s0 = value_or(before, k, Seq::empty());
        if k == k0 {
            assert(value_or(staked_after(staked, caller, payments), k, Seq::empty()) == s0.push(
                payments.last().nonce,
            ));
            lemma_push_contains(s0, payments.last().nonce, n);
        }
    }
}

proof fn lemma_push_contains<T>(s: Seq<T>, x: T, y: T)
    ensures
        s.push(x).contains(y) <==> (s.contains(y) || x == y),
{
    if s.contains(y) {
        let j = choose|j: int| 0 <= j < s.len() && s[j] == y;
        assert(s.push(x)[j] == y);
    }
    if x == y {
        assert(s.push(x)[s.len() as int] == y);
    }
}

proof fn lemma_first_error_stable(m: GngView, payments: Seq<Payment>, k: int, n: int)
    requires
        0 <= k <= n,
        m.first_payment_error(payments, k) is Some,
    ensures
        m.first_payment_error(payments, n) == m.first_payment_error(payments, k),
    decreases n - k,
{
    if n > k {
        lemma_first_error_stable(m, payments, k, n - 1);
    }
}

pub proof fn lemma_first_error_none(m: GngView, payments: Seq<Payment>, k: int, i: int)
    requires
        0 <= i < k,
        m.first_payment_error(payments, k) is None,
    ensures
        m.payment_error(payments, i) is None,
        m.first_payment_error(payments, i) is None,
    decreases k - i,
{
    if i < k - 1 {
        lemma_first_error_none(m, payments, k - 1, i);
    }
}

proof fn lemma_concat_contains<T>(a: Seq<T>, b: Seq<T>, x: T)
    ensures
        (a + b).contains(x) <==> (a.contains(x) || b.contains(x)),
{
    if a.contains(x) {
        let j = choose|j: int| 0 <= j < a.len() && a[j] == x;
        assert((a + b)[j] == x);
    }
    if b.contains(x) {
        let j = choose|j: int| 0 <= j < b.len() && b[j] == x;
        assert((a + b)[a.len() + j] == x);
    }
}

/// Staking NFTs that nobody owns, that may battle and have attributes,
/// keeps the contract consistent.
pub proof fn lemma_stake_consistent(m: GngView, caller: Address, payments: Seq<Payment>, v: GngView)
    requires
        m.consistent(),
        m.first_payment_error(payments, payments.len() as int) is None,
        v.current_battle == m.current_battle,
        v.past_battle_amount == m.past_battle_amount,
        v.config.token_attributes == m.config.token_attributes,
        v.nft_owner == owners_after(m.nft_owner, caller, payments),
        v.staked_for_address == staked_after(m.staked_for_address, caller, payments),
        v.battle_stack == m.battle_stack + payments.map_values(|q: Payment| payment_token(q)),
        v.stats_for_address.dom() == m.stats_for_address.dom().insert(caller),
        v.raw_pending_rewards_for_address.dom() == m.raw_pending_rewards_for_address.dom().insert(caller),
        v.addresses == crate::config::set_insert(m.addresses, caller),
        v.total_nft_engaged == m.total_nft_engaged + payments.len(),
    ensures
        v.consistent(),
{
    let tokens = payments.map_values(|q: Payment| payment_token(q));
    assert forall|t: Token| tokens.contains(t) implies !m.nft_owner.dom().contains(t)
        && m.config.token_attributes.dom().contains(t) by {
        let j = choose|j: int| 0 <= j < tokens.len() && tokens[j] == t;
        lemma_first_error_none(m, payments, payments.len() as int, j);
    }
    assert forall|t: Token| #[trigger] v.battle_stack.contains(t) <==> v.nft_owner.dom().contains(t) by {
        lemma_concat_contains(m.battle_stack, tokens, t);
    }
    assert forall|t: Token| #[trigger] v.nft_owner.dom().contains(t) implies v.staked(v.nft_owner[t], t.token_id).contains(
        t.nonce,
    ) by {
        let k = HolderCollection { address: v.nft_owner[t], token_id: t.token_id };
        lemma_staked_after_contains(m.staked_for_address, caller, payments, k, t.nonce);
    }
    assert forall|a: Address, id: TokenId, n: Nonce| #[trigger]
        v.staked(a, id).contains(n) implies v.nft_owner.dom().contains(Token { token_id: id, nonce: n })
        && v.nft_owner[Token { token_id: id, nonce: n }] == a by {
        let k = HolderCollection { address: a, token_id: id };
        lemma_staked_after_contains(m.staked_for_address, caller, payments, k, n);
        let t = Token { token_id: id, nonce: n };
        if m.staked(a, id).contains(n) {
            assert(m.nft_owner[t] == a);
        }
    }
    assert forall|t: Token| #[trigger] v.nft_owner.dom().contains(t) implies {
        &&& v.config.token_attributes.dom().contains(t)
        &&& v.stats_for_address.dom().contains(v.nft_owner[t])
        &&& v.raw_pending_rewards_for_address.dom().contains(v.nft_owner[t])
    } by {
    }
    assert forall|a: Address| #[trigger]
        v.raw_pending_rewards_for_address.dom().contains(a) implies v.stats_for_address.dom().contains(a) by {
    }
    assert forall|a: Address| #[trigger] v.addresses.contains(a) implies v.stats_for_address.dom().contains(a) by {
        if a != caller {
            lemma_push_contains(m.addresses, caller, a);
        }
    }
}

/// Removing `x` from a set without duplicates leaves the other items.
pub proof fn lemma_set_remove<T>(s: Seq<T>, x: T)
    requires
        s.no_duplicates(),
    ensures
        crate::config::set_remove(s, x).no_duplicates(),
        forall|y: T| #[trigger] crate::config::set_remove(s, x).contains(y) <==> (s.contains(y) && y != x),
        crate::config::set_remove(s, x).len() == if s.contains(x) { s.len() - 1 } else { s.len() as int },
{
    if s.contains(x) {
        let i = choose|i: int| 0 <= i < s.len() && s[i] == x;
        crate::store::lemma_index_of_unique(s, i);
        crate::store::lemma_swap_remove_no_duplicates(s, i);
        let r = crate::config::set_remove(s, x);
        assert forall|y: T| #[trigger] r.contains(y) <==> (s.contains(y) && y != x) by {
            assert(s.to_set().contains(y) == s.contains(y));
        }
    }
}

/// Taking one NFT back keeps ownership consistent: it leaves the owners,
/// the staked nonces of its owner and the battle stack.
pub proof fn lemma_withdraw_one(m: GngView, caller: Address, in_battle: bool, t: Token)
    requires
        m.ownership_consistent(),
        m.battle_stack.no_duplicates(),
        forall|k: HolderCollection| #[trigger]
            m.staked_for_address.dom().contains(k) ==> m.staked_for_address[k].no_duplicates(),
        m.nft_owner.dom().contains(t),
        m.nft_owner[t] == caller,
        in_battle ==> m.remaining(m.current_battle) <= m.battle_stack.len(),
    ensures
        ({
            let v = m.withdraw_one(caller, in_battle, t);
            &&& v.ownership_consistent()
            &&& v.battle_stack.no_duplicates()
            &&& forall|k: HolderCollection| #[trigger]
                v.staked_for_address.dom().contains(k) ==> v.staked_for_address[k].no_duplicates()
            &&& v.battle_stack.len() == m.battle_stack.len() - 1
            &&& in_battle ==> v.remaining(v.current_battle) <= v.battle_stack.len()
            &&& v.nft_owner == m.nft_owner.remove(t)
        }),
{
    let v = m.withdraw_one(caller, in_battle, t);
    let nonces = m.staked(caller, t.token_id);
    lemma_set_remove(nonces, t.nonce);
    assert(m.battle_stack.contains(t));
    let index = m.battle_stack.index_of(t) + 1;
    let rem = m.remaining(m.current_battle);
    let swapped = in_battle && index <= rem;
    let stack = if swapped {
        crate::store::seq_swap(m.battle_stack, index - 1, rem - 1)
    } else {
        m.battle_stack
    };
    if swapped {
        crate::store::lemma_swap_no_duplicates(m.battle_stack, index - 1, rem - 1);
        assert forall|y: Token| stack.contains(y) <==> m.battle_stack.contains(y) by {
            assert(m.battle_stack.to_set().contains(y) == m.battle_stack.contains(y));
        }
    }
    lemma_set_remove(stack, t);
    assert forall|y: Token| #[trigger] v.battle_stack.contains(y) <==> v.nft_owner.dom().contains(y) by {
    }
    assert forall|y: Token| #[trigger] v.nft_owner.dom().contains(y) implies v.staked(v.nft_owner[y], y.token_id).contains(
        y.nonce,
    ) by {
    }
    assert forall|a: Address, id: TokenId, n: Nonce| #[trigger]
        v.staked(a, id).contains(n) implies v.nft_owner.dom().contains(Token { token_id: id, nonce: n })
        && v.nft_owner[Token { token_id: id, nonce: n }] == a by {
        assert(m.staked(a, id).contains(n));
    }
    assert forall|y: Token| #[trigger] v.nft_owner.dom().contains(y) implies {
        &&& v.config.token_attributes.dom().contains(y)
        &&& v.stats_for_address.dom().contains(v.nft_owner[y])
        &&& v.raw_pending_rewards_for_address.dom().contains(v.nft_owner[y])
    } by {
    }
    assert forall|k: HolderCollection| #[trigger]
        v.staked_for_address.dom().contains(k) implies v.staked_for_address[k].no_duplicates() by {
    }
}

proof fn lemma_first_withdraw_error_stable(
    m: GngView,
    caller: Address,
    in_battle: bool,
    tokens: Seq<Token>,
    k: int,
    n: int,
)
    requires
        0 <= k <= n,
        m.first_withdraw_error(caller, in_battle, tokens, k) is Some,
    ensures
        m.first_withdraw_error(caller, in_battle, tokens, n) == m.first_withdraw_error(caller, in_battle, tokens, k),
    decreases n - k,
{
    if n > k {
        lemma_first_withdraw_error_stable(m, caller, in_battle, tokens, k, n - 1);
    }
}

proof fn lemma_first_withdraw_error_none(
    m: GngView,
    caller: Address,
    in_battle: bool,
    tokens: Seq<Token>,
    k: int,
    i: int,
)
    requires
        0 <= i < k,
        m.first_withdraw_error(caller, in_battle, tokens, k) is None,
    ensures
        m.withdraw_error(caller, in_battle, tokens, i) is None,
    decreases k - i,
{
    if i < k - 1 {
        lemma_first_withdraw_error_none(m, caller, in_battle, tokens, k - 1, i);
    }
}

/// A state that agrees with a consistent one on what the consistency
/// speaks of is consistent.
pub proof fn lemma_consistent_frame(a: GngView, b: GngView)
    requires
        a.consistent(),
        b.current_battle >= b.past_battle_amount + 1,
        b.battle_stack == a.battle_stack,
        b.nft_owner == a.nft_owner,
        b.staked_for_address == a.staked_for_address,
        b.config.token_attributes.dom() == a.config.token_attributes.dom(),
        b.stats_for_address.dom() == a.stats_for_address.dom(),
        b.raw_pending_rewards_for_address.dom() == a.raw_pending_rewards_for_address.dom(),
        b.addresses == a.addresses,
        b.total_nft_engaged == a.total_nft_engaged,
    ensures
        b.consistent(),
{
    lemma_ownership_frame(a, b);
}

/// The checks of a withdrawal read only who owns what, the attributes and
/// the battle stack.
proof fn lemma_same_withdraw_checks(
    a: GngView,
    b: GngView,
    caller: Address,
    in_battle: bool,
    tokens: Seq<Token>,
    n: int,
)
    requires
        b.nft_owner == a.nft_owner,
        b.config.token_attributes == a.config.token_attributes,
        b.staked_for_address == a.staked_for_address,
        b.remaining_nfts_in_battle == a.remaining_nfts_in_battle,
        b.current_battle == a.current_battle,
        b.battle_stack == a.battle_stack,
    ensures
        b.first_withdraw_error(caller, in_battle, tokens, n) == a.first_withdraw_error(caller, in_battle, tokens, n),
        b.tokens_power(tokens, n) == a.tokens_power(tokens, n),
    decreases n,
{
    if n > 0 {
        lemma_same_withdraw_checks(a, b, caller, in_battle, tokens, n - 1);
    }
}

/// A state that agrees with one of consistent ownership on what that
/// consistency speaks of has consistent ownership.
pub proof fn lemma_ownership_frame(a: GngView, b: GngView)
    requires
        a.ownership_consistent(),
        forall|t: Token| #[trigger] b.battle_stack.contains(t) <==> a.battle_stack.contains(t),
        b.nft_owner == a.nft_owner,
        b.staked_for_address == a.staked_for_address,
        forall|t: Token| #[trigger] a.config.token_attributes.dom().contains(t) ==> b.config.token_attributes.dom().contains(t),
        b.stats_for_address.dom() == a.stats_for_address.dom(),
        b.raw_pending_rewards_for_address.dom() == a.raw_pending_rewards_for_address.dom(),
        b.addresses == a.addresses,
    ensures
        b.ownership_consistent(),
{
    assert forall|t: Token| #[trigger] b.nft_owner.dom().contains(t) implies {
        &&& b.config.token_attributes.dom().contains(t)
        &&& b.stats_for_address.dom().contains(b.nft_owner[t])
        &&& b.raw_pending_rewards_for_address.dom().contains(b.nft_owner[t])
    } by {
    }
    assert forall|t: Token| #[trigger] b.nft_owner.dom().contains(t) implies b.staked(
        b.nft_owner[t],
        t.token_id,
    ).contains(t.nonce) by {
    }
    assert forall|x: Address, id: TokenId, n: Nonce| #[trigger]
        b.staked(x, id).contains(n) implies b.nft_owner.dom().contains(Token { token_id: id, nonce: n })
        && b.nft_owner[Token { token_id: id, nonce: n }] == x by {
        assert(a.staked(x, id).contains(n));
    }
    assert forall|x: Address| #[trigger]
        b.raw_pending_rewards_for_address.dom().contains(x) implies b.stats_for_address.dom().contains(x) by {
    }
    assert forall|x: Address| #[trigger] b.addresses.contains(x) implies b.stats_for_address.dom().contains(x) by {
    }
}

/// The new pending rewards that a clash plan gives, as numbers.
pub open spec fn update_view(u: Option<(Address, PendingRewards)>) -> Option<(Address, PendingView)> {
    match u {
        Some((a, p)) => Some((a, p@)),
        None => None,
    }
}

/// A row of the global statistics, with the GNG as a number.
pub open spec fn stats_row_view(x: (Address, Amount, u64)) -> (Address, nat, u64) {
    (x.0, x.1@, x.2)
}

/// No user can claim less than nothing.
pub proof fn lemma_pending_nonnegative(m: GngView, address: Address)
    ensures
        m.pending_total(address) >= 0,
{
    if m.raw_pending_rewards_for_address.dom().contains(address) {
        let p = m.raw_pending_rewards_for_address[address];
        lemma_clash_rewards_nonnegative(m, p.awaiting_battle_id, p.awaiting_power);
    }
}

/// No clash earns less than nothing.
pub proof fn lemma_clash_rewards_nonnegative(m: GngView, battle: u64, power: u64)
    ensures
        m.clash_rewards(battle, power) >= 0,
        m.winner_power(battle) > 0 ==> m.clash_rewards(battle, power) == floor_mul_div(
            power as nat,
            m.stakers_rewards(battle),
            m.winner_power(battle) as nat,
        ),
{
    let w = m.winner_power(battle) as int;
    if w > 0 {
        vstd::arithmetic::mul::lemma_mul_nonnegative(power as int, m.stakers_rewards(battle) as int);
        vstd::arithmetic::div_mod::lemma_div_pos_is_pos(power * m.stakers_rewards(battle), w);
    }
}

/// The contract: it keeps the NFTs that users stake, lets them clash in
/// battles, and pays GNG to the winners and to those who run the battles.
#[derive(Clone)]
pub struct GngMinting {
    config: ConfigModule,
    first_battle_timestamp: u64,
    first_battle_timestamp_current_period: u64,
    current_battle: u64,
    past_battle_amount: u64,
    battle_mode: BattleMode,
    staked_for_address: Store<HolderCollection, UnorderedSet<Nonce>>,
    battle_stack: UnorderedSet<Token>,
    remaining_nfts_in_battle: Store<u64, usize>,
    has_battle_started: Store<u64, bool>,
    total_nft_engaged: u64,
    total_battle_winner_power: Store<u64, u64>,
    raw_pending_rewards_for_address: Store<Address, PendingRewards>,
    addresses: UnorderedSet<Address>,
    total_rewards_for_stakers: Store<u64, Amount>,
    total_rewards_for_operators: Store<u64, Amount>,
    total_number_clashes_current_battle: usize,
    nft_owner: Store<Token, Address>,
    stats_for_address: Store<Address, UserStats>,
}

impl View for GngMinting {
    type V = GngView;

    closed spec fn view(&self) -> GngView {
        GngView {
            config: self.config@,
            first_battle_timestamp: self.first_battle_timestamp,
            first_battle_timestamp_current_period: self.first_battle_timestamp_current_period,
            current_battle: self.current_battle,
            past_battle_amount: self.past_battle_amount,
            battle_mode: self.battle_mode,
            staked_for_address: self.staked_for_address@.map_values(|s: UnorderedSet<Nonce>| s@),
            battle_stack: self.battle_stack@,
            remaining_nfts_in_battle: self.remaining_nfts_in_battle@,
            has_battle_started: self.has_battle_started@,
            total_nft_engaged: self.total_nft_engaged,
            total_battle_winner_power: self.total_battle_winner_power@,
            raw_pending_rewards_for_address: self.raw_pending_rewards_for_address@.map_values(
                |p: PendingRewards| p@,
            ),
            addresses: self.addresses@,
            total_rewards_for_stakers: self.total_rewards_for_stakers@.map_values(|a: Amount| a@),
            total_rewards_for_operators: self.total_rewards_for_operators@.map_values(|a: Amount| a@),
            total_number_clashes_current_battle: self.total_number_clashes_current_battle,
            nft_owner: self.nft_owner@,
            stats_for_address: self.stats_for_address@.map_values(|s: UserStats| s@),
        }
    }
}

impl GngMinting {
    /// The stores are well formed.
    closed spec fn stores_wf(&self) -> bool {
        &&& self.config.wf()
        &&& self.staked_for_address.wf()
        &&& forall|k: HolderCollection| #[trigger]
            self.staked_for_address@.dom().contains(k) ==> self.staked_for_address@[k]@.no_duplicates()
        &&& self.battle_stack@.no_duplicates()
        &&& self.remaining_nfts_in_battle.wf()
        &&& self.has_battle_started.wf()
        &&& self.total_battle_winner_power.wf()
        &&& self.raw_pending_rewards_for_address.wf()
        &&& self.addresses@.no_duplicates()
        &&& self.total_rewards_for_stakers.wf()
        &&& self.total_rewards_for_operators.wf()
        &&& self.nft_owner.wf()
        &&& self.stats_for_address.wf()
    }

    pub closed spec fn wf(&self) -> bool {
        &&& self.stores_wf()
        &&& self@.consistent()
        &&& self@.awaited_not_ahead()
    }

    /// What holds of every contract holds of this one.
    pub proof fn lemma_reachable(&self)
        requires
            self.wf(),
        ensures
            self@.reachable(),
    {
        self.config.lemma_listed_once();
        assert forall|k: HolderCollection| #[trigger] self@.staked_for_address.dom().contains(k) implies self@.staked_for_address[k].no_duplicates() by {
            assert(self.staked_for_address@.dom().contains(k));
        }
    }

    /// Deploys the contract: the first battle is set in the future, the GNG
    /// collection is named, and the current battle is the first one.
    pub fn init(owner: Address, now: u64, first_battle_timestamp: u64, gng_token_id: TokenId) -> (r: Result<
        GngMinting,
        Error,
    >)
        ensures
            match GngView::initial(owner).after_init(now, first_battle_timestamp, gng_token_id) {
                Ok(v) => r is Ok && r->Ok_0.wf() && r->Ok_0@ == v,
                Err(e) => r == Err::<GngMinting, Error>(e),
            },
    {
        if first_battle_timestamp <= now {
            return Err(Error::CannotBackdateFirstBattle);
        }
        let mut config = ConfigModule::new(owner);
        config.set_gng_token_id_if_empty(gng_token_id);
        let c = GngMinting {
            config,
            first_battle_timestamp,
            first_battle_timestamp_current_period: first_battle_timestamp,
            current_battle: 1,
            past_battle_amount: 0,
            battle_mode: BattleMode::Daily,
            staked_for_address: Store::new(),
            battle_stack: UnorderedSet::new(),
            remaining_nfts_in_battle: Store::new(),
            has_battle_started: Store::new(),
            total_nft_engaged: 0,
            total_battle_winner_power: Store::new(),
            raw_pending_rewards_for_address: Store::new(),
            addresses: UnorderedSet::new(),
            total_rewards_for_stakers: Store::new(),
            total_rewards_for_operators: Store::new(),
            total_number_clashes_current_battle: 0,
            nft_owner: Store::new(),
            stats_for_address: Store::new(),
        };
        proof {
            assert(c.staked_for_address@.map_values(|s: UnorderedSet<Nonce>| s@) =~= Map::empty());
            assert(c.stats_for_address@.map_values(|s: UserStats| s@) =~= Map::empty());
            assert(c.raw_pending_rewards_for_address@.map_values(|p: PendingRewards| p@) =~= Map::empty());
            assert(c.total_rewards_for_stakers@.map_values(|a: Amount| a@) =~= Map::empty());
            assert(c.total_rewards_for_operators@.map_values(|a: Amount| a@) =~= Map::empty());
            assert(c@ =~= GngView {
                first_battle_timestamp,
                first_battle_timestamp_current_period: first_battle_timestamp,
                current_battle: 1,
                config: ConfigView { gng_token_id, ..ConfigView::initial(owner) },
                ..GngView::initial(owner)
            });
            assert(crate::schedule::spec_battle_duration(BattleMode::Daily) * (1int - 0 - 1) == 0) by (nonlinear_arith);
        }
        Ok(c)
    }

    /// Runs the constructor again with the stored first battle and GNG
    /// collection.
    pub fn upgrade(&mut self, now: u64) -> (r: Result<(), Error>)
        requires
            old(self).wf(),
        ensures
            final(self).wf(),
            transition(
                r,
                old(self)@,
                final(self)@,
                old(self)@.after_init(now, old(self)@.first_battle_timestamp, old(self)@.config.gng_token_id),
            ),
    {
        let first = self.first_battle_timestamp;
        if first == 0 && first <= now {
            return Err(Error::CannotBackdateFirstBattle);
        }
        let ghost before = self@;
        if self.first_battle_timestamp_current_period == 0 {
            match self.get_battle_status_with(now, first) {
                Ok(BattleStatus::Preparation) => {},
                Ok(BattleStatus::Battle) => {
                    return Err(Error::BattleInProgress);
                },
                Err(e) => {
                    return Err(e);
                },
            }
            self.first_battle_timestamp_current_period = first;
            proof {
                lemma_consistent_frame(before, self@);
            }
            Ok(())
        } else {
            match self.get_battle_status(now) {
                Ok(BattleStatus::Preparation) => {
                    proof {
                        assert(before == GngView {
                            first_battle_timestamp: before.first_battle_timestamp,
                            ..before
                        });
                    }
                    Ok(())
                },
                Ok(BattleStatus::Battle) => Err(Error::BattleInProgress),
                Err(e) => Err(e),
            }
        }
    }

    /// The status at `now` where the period began at `first_of_period`.
    fn get_battle_status_with(&self, now: u64, first_of_period: u64) -> (r: Result<BattleStatus, Error>)
        requires
            self.wf(),
        ensures
            r == (GngView { first_battle_timestamp_current_period: first_of_period, ..self@ }).battle_status(now),
    {
        match battle_start_timestamp(first_of_period, self.battle_mode, self.current_battle, self.past_battle_amount) {
            Some(start) => {
                if now >= start {
                    Ok(BattleStatus::Battle)
                } else {
                    Ok(BattleStatus::Preparation)
                }
            },
            None => Err(Error::ArithmeticOverflow),
        }
    }

    /// Whether the current battle is being fought at `now`.
    pub fn get_battle_status(&self, now: u64) -> (r: Result<BattleStatus, Error>)
        requires
            self.wf(),
        ensures
            r == self@.battle_status(now),
    {
        self.get_battle_status_with(now, self.first_battle_timestamp_current_period)
    }

    /// Whether `now` falls on a Sunday.
    pub fn is_today_special(&self, now: u64) -> (r: bool)
        ensures
            r == spec_is_sunday(now as int),
    {
        is_sunday(now)
    }

    /// Whether the current battle is special: in it, the loser of each clash
    /// is rewarded in place of the winner.
    pub fn is_current_battle_special(&self) -> (r: Result<bool, Error>)
        requires
            self.wf(),
        ensures
            r == self@.current_battle_special(),
    {
        match self.battle_mode {
            BattleMode::Daily => {
                match battle_start_timestamp(
                    self.first_battle_timestamp_current_period,
                    BattleMode::Daily,
                    self.current_battle,
                    self.past_battle_amount,
                ) {
                    Some(start) => Ok(is_sunday(start)),
                    None => Err(Error::ArithmeticOverflow),
                }
            },
            BattleMode::Weekly => Ok(is_special_week(self.current_battle - self.past_battle_amount)),
        }
    }

    /// Switches between daily and weekly battles between two battles; a new
    /// period starts with the current battle.
    pub fn switch_mode(&mut self, caller: Address, now: u64, mode: BattleMode) -> (r: Result<(), Error>)
        requires
            old(self).wf(),
        ensures
            final(self).wf(),
            transition(r, old(self)@, final(self)@, old(self)@.after_switch_mode(caller, now, mode)),
    {
        if caller != self.config.get_owner() {
            return Err(Error::OnlyOwner);
        }
        match self.get_battle_status(now) {
            Ok(BattleStatus::Preparation) => {},
            Ok(BattleStatus::Battle) => {
                return Err(Error::BattleInProgress);
            },
            Err(_) => {
                return Err(Error::ArithmeticOverflow);
            },
        }
        if self.battle_mode == mode {
            return Err(Error::AlreadyInThisMode);
        }
        let current = self.current_battle;
        let past = self.past_battle_amount;
        let first = self.first_battle_timestamp_current_period;
        let next_first: u64 = match self.battle_mode {
            BattleMode::Daily => {
                match battle_start_timestamp(first, BattleMode::Daily, current, past) {
                    Some(t) => t,
                    None => {
                        return Err(Error::ArithmeticOverflow);
                    },
                }
            },
            BattleMode::Weekly => {
                if current == past + 1 {
                    first
                } else {
                    let last = match battle_start_timestamp(first, BattleMode::Weekly, current - 1, past) {
                        Some(t) => t,
                        None => {
                            return Err(Error::ArithmeticOverflow);
                        },
                    };
                    let next = match last.checked_add(ONE_DAY_TIMESTAMP) {
                        Some(t) => t,
                        None => {
                            return Err(Error::ArithmeticOverflow);
                        },
                    };
                    if next <= now {
                        return Err(Error::SwitchTooLate);
                    }
                    next
                }
            },
        };
        let ghost before = self@;
        self.past_battle_amount = current - 1;
        self.first_battle_timestamp_current_period = next_first;
        self.battle_mode = mode;
        proof {
            assert(self@ =~= GngView {
                past_battle_amount: (current - 1) as u64,
                first_battle_timestamp_current_period: next_first,
                battle_mode: mode,
                ..before
            });
            lemma_consistent_frame(before, self@);
        }
        Ok(())
    }

    /// The stakers' rewards of battle `battle`.
    fn stakers_rewards_of(&self, battle: u64) -> (r: Amount)
        requires
            self.wf(),
        ensures
            r@ == self@.stakers_rewards(battle),
    {
        match self.total_rewards_for_stakers.get_ref(&battle) {
            Some(a) => a.duplicate(),
            None => Amount::zero(),
        }
    }

    /// The operators' rewards of battle `battle`.
    fn operators_rewards_of(&self, battle: u64) -> (r: Amount)
        requires
            self.wf(),
        ensures
            r@ == self@.operators_rewards(battle),
    {
        match self.total_rewards_for_operators.get_ref(&battle) {
            Some(a) => a.duplicate(),
            None => Amount::zero(),
        }
    }

    /// What `power` earns in battle `battle_id`.
    pub fn calculate_clash_rewards(&self, battle_id: u64, power: u64) -> (r: Amount)
        requires
            self.wf(),
        ensures
            r@ == self@.clash_rewards(battle_id, power),
    {
        let total_rewards_for_battle = self.stakers_rewards_of(battle_id);
        let total_winner_power = self.total_battle_winner_power.get_or(&battle_id, 0);
        if total_winner_power == 0 {
            return Amount::zero();
        }
        proof {
            lemma_clash_rewards_nonnegative(self@, battle_id, power);
        }
        total_rewards_for_battle.mul_div(power, total_winner_power)
    }

    /// What the operator of `amount_of_clashes_performed` clashes of battle
    /// `battle_id` earns: its share of the operators' rewards by the number
    /// of clashes of the battle.
    pub fn calculate_clash_operator_rewards(&self, amount_of_clashes_performed: u64, battle_id: u64) -> (r: Result<
        Amount,
        Error,
    >)
        requires
            self.wf(),
        ensures
            match self@.operator_rewards(amount_of_clashes_performed, battle_id) {
                Ok(v) => r is Ok && r->Ok_0@ == v,
                Err(e) => r is Err && r->Err_0 == e,
            },
    {
        let total_rewards_for_one_battle = self.operators_rewards_of(battle_id);
        let total_clashes_amount = self.total_number_clashes_current_battle as u64;
        if total_clashes_amount == 0 {
            return Err(Error::DivisionByZero);
        }
        Ok(total_rewards_for_one_battle.mul_div(amount_of_clashes_performed, total_clashes_amount))
    }

    /// The rewards that `address` can claim; those of the current battle do
    /// not count yet.
    pub fn get_pending_rewards_for_address(&self, address: Address) -> (r: Amount)
        requires
            self.wf(),
        ensures
            r@ == self@.pending_total(address),
    {
        let pending_rewards = match self.raw_pending_rewards_for_address.get_ref(&address) {
            Some(p) => p,
            None => {
                return Amount::zero();
            },
        };
        if pending_rewards.awaiting_battle_id == self.current_battle || pending_rewards.awaiting_battle_id == 0 {
            pending_rewards.calculated_rewards.duplicate()
        } else {
            let rewards_to_add = self.calculate_clash_rewards(
                pending_rewards.awaiting_battle_id,
                pending_rewards.awaiting_power,
            );
            proof {
                lemma_clash_rewards_nonnegative(self@, pending_rewards.awaiting_battle_id, pending_rewards.awaiting_power);
            }
            pending_rewards.calculated_rewards.add(&rewards_to_add)
        }
    }

    /// Forgets the claimable rewards of `address`, keeping what it awaits
    /// from the current battle.
    fn clear_pending_rewards_for_address(&mut self, address: Address)
        requires
            old(self).wf(),
        ensures
            final(self).wf(),
            final(self)@ == (GngView {
                raw_pending_rewards_for_address: old(self)@.cleared_pending(address),
                ..old(self)@
            }),
    {
        let ghost before = self@;
        let pending_rewards = match self.raw_pending_rewards_for_address.get_ref(&address) {
            Some(p) => {
                if p.awaiting_battle_id == self.current_battle {
                    PendingRewards {
                        calculated_rewards: Amount::zero(),
                        awaiting_battle_id: p.awaiting_battle_id,
                        awaiting_power: p.awaiting_power,
                    }
                } else {
                    PendingRewards::default()
                }
            },
            None => {
                proof {
                    assert(self@ =~= GngView {
                        raw_pending_rewards_for_address: before.cleared_pending(address),
                        ..before
                    });
                }
                return;
            },
        };
        self.raw_pending_rewards_for_address.insert(address, pending_rewards);
        proof {
            assert(self@.raw_pending_rewards_for_address =~= before.cleared_pending(address));
            assert(self@ =~= GngView {
                raw_pending_rewards_for_address: before.cleared_pending(address),
                ..before
            });
            assert(self@.raw_pending_rewards_for_address.dom() =~= before.raw_pending_rewards_for_address.dom());
            lemma_consistent_frame(before, self@);
        }
    }

    /// What a claim by `caller` pays, or why it is refused; changes nothing.
    fn check_claim(&self, caller: Address) -> (r: Result<Amount, Error>)
        requires
            self.wf(),
        ensures
            match self@.after_claim_rewards(caller) {
                Ok((_, v)) => r is Ok && r->Ok_0@ == v,
                Err(e) => r is Err && r->Err_0 == e,
            },
    {
        if !self.config.is_active() {
            return Err(Error::NotActive);
        }
        let total_rewards = self.get_pending_rewards_for_address(caller);
        if !total_rewards.is_zero() {
            if !self.stats_for_address.contains_key(&caller) {
                return Err(Error::StorageDecode);
            }
        }
        Ok(total_rewards)
    }

    /// Makes the claim that `check_claim` allowed.
    fn apply_claim(&mut self, caller: Address, total_rewards: &Amount)
        requires
            old(self).wf(),
            old(self)@.after_claim_rewards(caller) matches Ok((_, v)) && v == total_rewards@,
        ensures
            final(self).wf(),
            final(self)@ == old(self)@.after_claim_rewards(caller)->Ok_0.0,
    {
        if !total_rewards.is_zero() {
            let stats = self.stats_for_address.get_ref(&caller).unwrap().duplicate();
            let claimed = stats.gng_claimed.add(total_rewards);
            let ghost before = self@;
            self.clear_pending_rewards_for_address(caller);
            let new_stats = UserStats { power: stats.power, gng_claimed: claimed };
            self.stats_for_address.insert(caller, new_stats);
            proof {
                let mid = GngView { raw_pending_rewards_for_address: before.cleared_pending(caller), ..before };
                assert(self@.stats_for_address =~= before.stats_for_address.insert(caller, new_stats@));
                assert(self@ =~= GngView {
                    stats_for_address: before.stats_for_address.insert(caller, new_stats@),
                    ..mid
                });
                assert(self@.stats_for_address.dom() =~= before.stats_for_address.dom());
                assert(self@.raw_pending_rewards_for_address.dom() =~= before.raw_pending_rewards_for_address.dom());
                lemma_consistent_frame(before, self@);
            }
        }
    }

    /// Pays the caller the rewards that it can claim; returns the amount to
    /// send, nothing where there is none.
    pub fn claim_rewards(&mut self, caller: Address) -> (r: Result<Amount, Error>)
        requires
            old(self).wf(),
        ensures
            final(self).wf(),
            transition_paying(r, old(self)@, final(self)@, old(self)@.after_claim_rewards(caller)),
    {
        let total_rewards = self.check_claim(caller)?;
        self.apply_claim(caller, &total_rewards);
        Ok(total_rewards)
    }

    /// Whether one of the first `n` payments carries the NFT `token`.
    fn carried_before(payments: &Vec<Payment>, n: usize, token: &Token) -> (r: bool)
        requires
            n <= payments@.len(),
        ensures
            r == payments@.take(n as int).map_values(|q: Payment| payment_token(q)).contains(*token),
    {
        let ghost tokens = payments@.take(n as int).map_values(|q: Payment| payment_token(q));
        let mut j: usize = 0;
        while j < n
            invariant
                n <= payments@.len(),
                j <= n,
                tokens == payments@.take(n as int).map_values(|q: Payment| payment_token(q)),
                forall|k: int| 0 <= k < j ==> tokens[k] != *token,
            decreases n - j,
        {
            let p = &payments[j];
            if p.token_id == token.token_id && p.nonce == token.nonce {
                proof {
                    assert(tokens[j as int] == *token);
                }
                return true;
            }
            j = j + 1;
        }
        false
    }

    /// Checks the payments of `stake` in order; returns the power of their
    /// NFTs, or why the first refused one is refused.
    fn check_payments(&self, payments: &Vec<Payment>) -> (r: Result<u128, Error>)
        requires
            self.wf(),
        ensures
            match self@.first_payment_error(payments@, payments@.len() as int) {
                Some(e) => r == Err::<u128, Error>(e),
                None => r is Ok && r->Ok_0 == self@.payments_power(payments@, payments@.len() as int),
            },
            r matches Ok(v) ==> v <= payments@.len() * 0xffff,
    {
        let mut total: u128 = 0;
        let mut i: usize = 0;
        let n = payments.len();
        while i < n
            invariant
                self.wf(),
                n == payments@.len(),
                i <= n,
                self@.first_payment_error(payments@, i as int) is None,
                total == self@.payments_power(payments@, i as int),
                total <= i * 0xffff,
            decreases n - i,
        {
            let p = &payments[i];
            let token = Token { token_id: p.token_id, nonce: p.nonce };
            let error = if !self.config.is_battle_token(p.token_id) {
                Some(Error::WrongToken)
            } else if !p.amount.equals_u64(1) {
                Some(Error::InvalidTokenAmount)
            } else if self.nft_owner.contains_key(&token) || Self::carried_before(payments, i, &token) {
                Some(Error::CannotStakeSft)
            } else {
                match self.config.attributes_of(&token) {
                    None => Some(Error::NoAttributes),
                    Some(attributes) => {
                        total = total + attributes.power as u128;
                        None
                    },
                }
            };
            match error {
                Some(e) => {
                    proof {
                        lemma_first_error_stable(self@, payments@, i + 1, n as int);
                    }
                    return Err(e);
                },
                None => {},
            }
            i = i + 1;
        }
        Ok(total)
    }

    /// Gives the NFTs of `payments` to `caller`: each gets its owner, joins
    /// the nonces staked by `caller` and goes to the end of the battle stack.
    fn record_stakes(&mut self, caller: Address, payments: &Vec<Payment>)
        requires
            old(self).wf(),
            old(self)@.first_payment_error(payments@, payments@.len() as int) is None,
        ensures
            final(self).stores_wf(),
            final(self)@ == (GngView {
                nft_owner: owners_after(old(self)@.nft_owner, caller, payments@),
                staked_for_address: staked_after(old(self)@.staked_for_address, caller, payments@),
                battle_stack: old(self)@.battle_stack + payments@.map_values(|q: Payment| payment_token(q)),
                ..old(self)@
            }),
    {
        let ghost m = self@;
        let n = payments.len();
        let mut i: usize = 0;
        proof {
            let empty = payments@.take(0);
            assert(owners_after(m.nft_owner, caller, empty) =~= m.nft_owner);
            assert(self@ =~= GngView {
                nft_owner: owners_after(m.nft_owner, caller, empty),
                staked_for_address: staked_after(m.staked_for_address, caller, empty),
                battle_stack: m.battle_stack + empty.map_values(|q: Payment| payment_token(q)),
                ..m
            });
        }
        while i < n
            invariant
                n == payments@.len(),
                i <= n,
                m.consistent(),
                m.first_payment_error(payments@, n as int) is None,
                self.stores_wf(),
                self@ == (GngView {
                    nft_owner: owners_after(m.nft_owner, caller, payments@.take(i as int)),
                    staked_for_address: staked_after(m.staked_for_address, caller, payments@.take(i as int)),
                    battle_stack: m.battle_stack + payments@.take(i as int).map_values(
                        |q: Payment| payment_token(q),
                    ),
                    ..m
                }),
            decreases n - i,
        {
            let p = &payments[i];
            let token = Token { token_id: p.token_id, nonce: p.nonce };
            let key = HolderCollection { address: caller, token_id: p.token_id };
            let ghost prefix = payments@.take(i as int);
            let ghost next = payments@.take(i + 1);
            let ghost tokens = prefix.map_values(|q: Payment| payment_token(q));
            proof {
                lemma_first_error_none(m, payments@, n as int, i as int);
                assert(next.drop_last() =~= prefix);
                assert(next.map_values(|q: Payment| payment_token(q)) =~= tokens.push(token));
                lemma_staked_after_contains(m.staked_for_address, caller, prefix, key, p.nonce);
                assert(!m.staked(caller, p.token_id).contains(p.nonce));
                lemma_concat_contains(m.battle_stack, tokens, token);
            }
            self.nft_owner.insert(token, caller);
            let mut nonces = match self.staked_for_address.remove(&key) {
                Some(s) => s,
                None => UnorderedSet::new(),
            };
            nonces.insert(p.nonce);
            self.staked_for_address.insert(key, nonces);
            self.battle_stack.insert(token);
            proof {
                assert forall|t: Token| #[trigger] tokens.push(token).contains(t) <==> (tokens.contains(t) || t == token) by {
                    lemma_push_contains(tokens, token, t);
                }
                assert(self@.nft_owner =~= owners_after(m.nft_owner, caller, next));
                assert(self.staked_for_address@.map_values(|s: UnorderedSet<Nonce>| s@) =~= staked_after(
                    m.staked_for_address,
                    caller,
                    next,
                ));
                assert forall|k: HolderCollection| #[trigger]
                    self.staked_for_address@.dom().contains(k) implies self.staked_for_address@[k]@.no_duplicates() by {
                }
            }
            i = i + 1;
        }
        proof {
            assert(payments@.take(n as int) =~= payments@);
        }
    }

    /// Stakes the NFTs that come with the call: they belong to the caller
    /// and take part in every battle until withdrawn.
    pub fn stake(&mut self, caller: Address, now: u64, payments: &Vec<Payment>) -> (r: Result<(), Error>)
        requires
            old(self).wf(),
        ensures
            final(self).wf(),
            transition(r, old(self)@, final(self)@, old(self)@.after_stake(caller, now, payments@)),
    {
        if !self.config.is_active() {
            return Err(Error::NotActive);
        }
        match self.get_battle_status(now) {
            Ok(BattleStatus::Preparation) => {},
            Ok(BattleStatus::Battle) => {
                return Err(Error::BattleInProgress);
            },
            Err(_) => {
                return Err(Error::ArithmeticOverflow);
            },
        }
        if payments.len() == 0 {
            return Err(Error::NoPayment);
        }
        let total_power = self.check_payments(payments)?;
        let stats = match self.stats_for_address.get_ref(&caller) {
            Some(s) => s.duplicate(),
            None => UserStats::default(),
        };
        let power = stats.power as u128 + total_power;
        if power > u64::MAX as u128 {
            return Err(Error::ArithmeticOverflow);
        }
        let engaged = self.total_nft_engaged as u128 + payments.len() as u128;
        if engaged > u64::MAX as u128 {
            return Err(Error::ArithmeticOverflow);
        }
        let ghost m = self@;
        self.record_stakes(caller, payments);
        let ghost recorded = self@;
        let new_stats = UserStats { power: power as u64, gng_claimed: stats.gng_claimed };
        self.stats_for_address.insert(caller, new_stats);
        let ghost with_stats = self@;
        if !self.raw_pending_rewards_for_address.contains_key(&caller) {
            let fresh = PendingRewards::default();
            self.raw_pending_rewards_for_address.insert(caller, fresh);
            proof {
                assert(self@.raw_pending_rewards_for_address =~= with_stats.raw_pending_rewards_for_address.insert(
                    caller,
                    fresh@,
                ));
            }
        }
        self.addresses.insert(caller);
        self.total_nft_engaged = engaged as u64;
        proof {
            let v = self@;
            assert(with_stats.stats_for_address =~= recorded.stats_for_address.insert(caller, new_stats@));
            assert(v.raw_pending_rewards_for_address.dom() =~= m.raw_pending_rewards_for_address.dom().insert(caller));
            lemma_stake_consistent(m, caller, payments@, v);
        }
        Ok(())
    }

    /// Whether one of the first `n` NFTs of `tokens` is `token`.
    fn listed_before(tokens: &Vec<Token>, n: usize, token: &Token) -> (r: bool)
        requires
            n <= tokens@.len(),
        ensures
            r == tokens@.take(n as int).contains(*token),
    {
        let mut j: usize = 0;
        while j < n
            invariant
                n <= tokens@.len(),
                j <= n,
                forall|k: int| 0 <= k < j ==> tokens@[k] != *token,
            decreases n - j,
        {
            let t = tokens[j];
            if t.token_id == token.token_id && t.nonce == token.nonce {
                proof {
                    assert(tokens@.take(n as int)[j as int] == *token);
                }
                return true;
            }
            j = j + 1;
        }
        proof {
            assert forall|k: int| 0 <= k < n implies tokens@.take(n as int)[k] != *token by {}
        }
        false
    }

    /// Whether `caller` has staked NFT `token`.
    fn has_staked(&self, caller: Address, token: &Token) -> (r: bool)
        requires
            self.wf(),
        ensures
            r == self@.staked(caller, token.token_id).contains(token.nonce),
    {
        match self.staked_for_address.get_ref(&HolderCollection { address: caller, token_id: token.token_id }) {
            Some(nonces) => nonces.contains(&token.nonce),
            None => false,
        }
    }

    /// Checks the NFTs of a withdrawal in order; returns their power, or why
    /// the first refused one is refused.
    fn check_withdraw(&self, caller: Address, in_battle: bool, tokens: &Vec<Token>) -> (r: Result<u128, Error>)
        requires
            self.wf(),
        ensures
            match self@.first_withdraw_error(caller, in_battle, tokens@, tokens@.len() as int) {
                Some(e) => r == Err::<u128, Error>(e),
                None => r is Ok && r->Ok_0 == self@.tokens_power(tokens@, tokens@.len() as int),
            },
            r matches Ok(v) ==> v <= tokens@.len() * 0xffff,
    {
        let remaining = self.remaining_nfts_in_battle.get_or(&self.current_battle, 0);
        let stack_len = self.battle_stack.len();
        let mut total: u128 = 0;
        let mut i: usize = 0;
        let n = tokens.len();
        while i < n
            invariant
                self.wf(),
                n == tokens@.len(),
                i <= n,
                remaining == self@.remaining(self@.current_battle),
                stack_len == self@.battle_stack.len(),
                self@.first_withdraw_error(caller, in_battle, tokens@, i as int) is None,
                total == self@.tokens_power(tokens@, i as int),
                total <= i * 0xffff,
            decreases n - i,
        {
            let token = tokens[i];
            let error = match self.nft_owner.get(&token) {
                None => Some(Error::StorageDecode),
                Some(owner) => {
                    if Self::listed_before(tokens, i, &token) {
                        Some(Error::StorageDecode)
                    } else {
                        match self.config.attributes_of(&token) {
                            None => Some(Error::StorageDecode),
                            Some(attributes) => {
                                if owner != caller || !self.has_staked(caller, &token) {
                                    Some(Error::WrongToken)
                                } else if in_battle && remaining > stack_len {
                                    Some(Error::IndexOutOfRange)
                                } else {
                                    total = total + attributes.power as u128;
                                    None
                                }
                            },
                        }
                    }
                },
            };
            match error {
                Some(e) => {
                    proof {
                        lemma_first_withdraw_error_stable(self@, caller, in_battle, tokens@, i + 1, n as int);
                    }
                    return Err(e);
                },
                None => {},
            }
            i = i + 1;
        }
        Ok(total)
    }

    /// Gives the NFTs of `tokens` back to `caller`, in order.
    fn release_tokens(&mut self, caller: Address, in_battle: bool, tokens: &Vec<Token>)
        requires
            old(self).wf(),
            old(self)@.first_withdraw_error(caller, in_battle, tokens@, tokens@.len() as int) is None,
        ensures
            final(self).stores_wf(),
            final(self)@ == old(self)@.withdraw_all(caller, in_battle, tokens@),
            final(self)@.ownership_consistent(),
            final(self)@.battle_stack.len() == old(self)@.battle_stack.len() - tokens@.len(),
            final(self)@.total_nft_engaged == old(self)@.total_nft_engaged,
            final(self)@.stats_for_address == old(self)@.stats_for_address,
            final(self)@.current_battle == old(self)@.current_battle,
            final(self)@.past_battle_amount == old(self)@.past_battle_amount,
            final(self)@.raw_pending_rewards_for_address == old(self)@.raw_pending_rewards_for_address,
    {
        let ghost m = self@;
        let n = tokens.len();
        let current = self.current_battle;
        let mut rem = self.remaining_nfts_in_battle.get_or(&current, 0);
        let mut i: usize = 0;
        proof {
            if in_battle && n > 0 {
                lemma_first_withdraw_error_none(m, caller, in_battle, tokens@, n as int, 0);
            }
            assert forall|j: int| 0 <= j < n implies {
                &&& m.nft_owner.dom().contains(#[trigger] tokens@[j])
                &&& m.nft_owner[tokens@[j]] == caller
            } by {
                lemma_first_withdraw_error_none(m, caller, in_battle, tokens@, n as int, j);
            }
        }
        while i < n
            invariant
                n == tokens@.len(),
                i <= n,
                current == m.current_battle,
                m.first_withdraw_error(caller, in_battle, tokens@, n as int) is None,
                self.stores_wf(),
                self@ == m.withdraw_all(caller, in_battle, tokens@.take(i as int)),
                self@.ownership_consistent(),
                self@.current_battle == current,
                self@.total_nft_engaged == m.total_nft_engaged,
                self@.stats_for_address == m.stats_for_address,
                self@.past_battle_amount == m.past_battle_amount,
                self@.raw_pending_rewards_for_address == m.raw_pending_rewards_for_address,
                rem == self@.remaining(current),
                in_battle && i < n ==> rem <= self@.battle_stack.len(),
                self@.battle_stack.len() == m.battle_stack.len() - i,
                forall|j: int| i <= j < n ==> {
                    &&& self@.nft_owner.dom().contains(#[trigger] tokens@[j])
                    &&& self@.nft_owner[tokens@[j]] == caller
                },
            decreases n - i,
        {
            let token = tokens[i];
            let ghost before = self@;
            proof {
                assert forall|j: int| i <= j < n implies {
                    &&& m.nft_owner.dom().contains(#[trigger] tokens@[j])
                    &&& m.nft_owner[tokens@[j]] == caller
                    &&& !tokens@.take(j).contains(tokens@[j])
                } by {
                    lemma_first_withdraw_error_none(m, caller, in_battle, tokens@, n as int, j);
                }
                assert forall|k: HolderCollection| #[trigger]
                    before.staked_for_address.dom().contains(k) implies before.staked_for_address[k].no_duplicates() by {
                }
                lemma_withdraw_one(before, caller, in_battle, token);
                assert(tokens@.take(i + 1).drop_last() =~= tokens@.take(i as int));
            }
            let key = HolderCollection { address: caller, token_id: token.token_id };
            self.nft_owner.remove(&token);
            let mut nonces = match self.staked_for_address.remove(&key) {
                Some(s) => s,
                None => UnorderedSet::new(),
            };
            nonces.swap_remove(&token.nonce);
            self.staked_for_address.insert(key, nonces);
            let index = self.battle_stack.get_index(&token);
            proof {
                crate::store::lemma_index_of_unique(before.battle_stack, index - 1);
            }
            if in_battle && index <= rem {
                self.battle_stack.swap_indexes(index, rem);
                rem = rem - 1;
                self.remaining_nfts_in_battle.insert(current, rem);
            }
            self.battle_stack.swap_remove(&token);
            proof {
                let expected = before.withdraw_one(caller, in_battle, token);
                assert(self.staked_for_address@.map_values(|s: UnorderedSet<Nonce>| s@) =~= expected.staked_for_address);
                assert forall|j: int| i + 1 <= j < n implies {
                    &&& self@.nft_owner.dom().contains(#[trigger] tokens@[j])
                    &&& self@.nft_owner[tokens@[j]] == caller
                } by {
                    assert(tokens@.take(j)[i as int] == token);
                }
                assert forall|k: HolderCollection| #[trigger]
                    self.staked_for_address@.dom().contains(k) implies self.staked_for_address@[k]@.no_duplicates() by {
                }
                if in_battle && i + 1 < n {
                    lemma_first_withdraw_error_none(m, caller, in_battle, tokens@, n as int, i + 1);
                }
            }
            i = i + 1;
        }
        proof {
            assert(tokens@.take(n as int) =~= tokens@);
        }
    }

    /// Gives the caller back staked NFTs, after paying the rewards it can
    /// claim; returns those rewards. The NFTs go back as listed.
    pub fn withdraw(&mut self, caller: Address, now: u64, tokens: &Vec<Token>) -> (r: Result<Amount, Error>)
        requires
            old(self).wf(),
        ensures
            final(self).wf(),
            transition_paying(r, old(self)@, final(self)@, old(self)@.after_withdraw(caller, now, tokens@)),
    {
        if !self.config.is_active() {
            return Err(Error::NotActive);
        }
        let rewards = self.check_claim(caller)?;
        let in_battle = match self.get_battle_status(now) {
            Ok(status) => status == BattleStatus::Battle,
            Err(_) => {
                return Err(Error::ArithmeticOverflow);
            },
        };
        let power = self.check_withdraw(caller, in_battle, tokens)?;
        let ghost m0 = self@;
        let ghost claimed = m0.after_claim_rewards(caller)->Ok_0.0;
        let stats_power = match self.stats_for_address.get_ref(&caller) {
            Some(s) => s.power,
            None => {
                return Err(Error::StorageDecode);
            },
        };
        if (stats_power as u128) < power {
            return Err(Error::ArithmeticOverflow);
        }
        self.apply_claim(caller, &rewards);
        proof {
            assert(claimed.first_withdraw_error(caller, in_battle, tokens@, tokens@.len() as int) is None) by {
                lemma_same_withdraw_checks(m0, claimed, caller, in_battle, tokens@, tokens@.len() as int);
            }
        }
        let claimed_stats = self.stats_for_address.get_ref(&caller).unwrap().duplicate();
        self.release_tokens(caller, in_battle, tokens);
        let ghost after = self@;
        let new_stats = UserStats { power: claimed_stats.power - power as u64, gng_claimed: claimed_stats.gng_claimed };
        self.stats_for_address.insert(caller, new_stats);
        self.total_nft_engaged = self.total_nft_engaged - tokens.len() as u64;
        proof {
            assert(self@.stats_for_address =~= after.stats_for_address.insert(caller, new_stats@));
            assert(self@.stats_for_address.dom() =~= after.stats_for_address.dom());
            lemma_ownership_frame(after, self@);
            lemma_same_withdraw_checks(m0, claimed, caller, in_battle, tokens@, tokens@.len() as int);
        }
        Ok(rewards)
    }

    /// Starts a battle transaction once the current battle has begun: the
    /// first transaction of a battle sets its rewards aside from the pool
    /// and puts every staked NFT in it.
    pub fn battle_begin(&mut self, now: u64) -> (r: Result<BattleRun, Error>)
        requires
            old(self).wf(),
        ensures
            final(self).wf(),
            match old(self)@.after_battle_begin(now) {
                Ok((v, run)) => r is Ok && final(self)@ == v && r->Ok_0@ == run,
                Err(e) => r == Err::<BattleRun, Error>(e) && final(self)@ == old(self)@,
            },
    {
        if !self.config.is_active() {
            return Err(Error::NotActive);
        }
        match self.get_battle_status(now) {
            Ok(BattleStatus::Battle) => {},
            Ok(BattleStatus::Preparation) => {
                return Err(Error::BattleInPreparation);
            },
            Err(_) => {
                return Err(Error::ArithmeticOverflow);
            },
        }
        let current = self.current_battle;
        let ghost before = self@;
        if !self.has_battle_started.get_or(&current, false) {
            let stakers = self.config.get_daily_reward_amount();
            let operators = self.config.get_base_battle_reward_amount();
            let total = stakers.add(&operators);
            if !total.le(&self.config.get_reward_capacity()) {
                return Err(Error::NotEnoughRewards);
            }
            let ghost stakers_value = stakers@;
            let ghost operators_value = operators@;
            self.total_rewards_for_stakers.insert(current, stakers);
            self.total_rewards_for_operators.insert(current, operators);
            self.config.take_from_reward_capacity(&total);
            proof {
                assert(self@.total_rewards_for_stakers =~= before.total_rewards_for_stakers.insert(
                    current,
                    stakers_value,
                ));
                assert(self@.total_rewards_for_operators =~= before.total_rewards_for_operators.insert(
                    current,
                    operators_value,
                ));
            }
            let battle_stack_len = self.battle_stack.len();
            self.remaining_nfts_in_battle.insert(current, battle_stack_len);
            self.total_number_clashes_current_battle = battle_stack_len / 2;
            self.has_battle_started.insert(current, true);
            proof {
                lemma_consistent_frame(before, self@);
            }
        }
        let remaining = self.remaining_nfts_in_battle.get_or(&current, 0);
        Ok(BattleRun { battle: current, remaining, clashes_done: 0, total_winner_power: 0 })
    }

    /// Reports the last NFT of a battle, which has no opponent.
    fn drain_stack(&self) -> (r: Result<SingleTokenClashEvent, Error>)
        requires
            self.wf(),
        ensures
            r == (if self@.battle_stack.len() < 1 {
                Err(Error::IndexOutOfRange)
            } else {
                Ok(
                    SingleTokenClashEvent {
                        battle_id: self@.current_battle,
                        token: self@.battle_stack[0],
                        owner: self@.nft_owner[self@.battle_stack[0]],
                    },
                )
            }),
    {
        if self.battle_stack.len() < 1 {
            return Err(Error::IndexOutOfRange);
        }
        let token = self.battle_stack.get_by_index(1);
        proof {
            assert(self@.battle_stack.contains(token));
        }
        let owner = self.nft_owner.get(&token).unwrap();
        Ok(SingleTokenClashEvent { battle_id: self.current_battle, token, owner })
    }

    /// The rewards of a won clash; changes nothing itself.
    fn update_rewards(&self, winner: &Token, loser: &Token) -> (r: Result<
        (Address, PendingRewards, ClashEvent, u64),
        Error,
    >)
        requires
            self.wf(),
            self@.battle_stack.contains(*winner),
            self@.battle_stack.contains(*loser),
        ensures
            match self@.reward_update(*winner, *loser) {
                Ok((o, p, e, pw)) => r is Ok && r->Ok_0.0 == o && r->Ok_0.1@ == p && r->Ok_0.2 == e
                    && r->Ok_0.3 == pw,
                Err(e) => r is Err && r->Err_0 == e,
            },
            r matches Ok((owner, _, _, _)) ==> self@.raw_pending_rewards_for_address.dom().contains(owner),
    {
        let special = match self.is_current_battle_special() {
            Ok(b) => b,
            Err(e) => {
                return Err(e);
            },
        };
        let (w, l) = if special {
            (*loser, *winner)
        } else {
            (*winner, *loser)
        };
        let winner_address = self.nft_owner.get(&w).unwrap();
        let loser_address = self.nft_owner.get(&l).unwrap();
        let winner_power = self.config.attributes_of(&w).unwrap().power as u64;
        let current_battle = self.current_battle;
        let winner_rewards = self.raw_pending_rewards_for_address.get_ref(&winner_address).unwrap();
        let event = ClashEvent {
            battle_id: current_battle,
            winner: w,
            loser: l,
            is_draw: false,
            winner_owner: winner_address,
            loser_owner: loser_address,
        };
        if winner_rewards.awaiting_battle_id == 0 {
            Ok(
                (
                    winner_address,
                    PendingRewards {
                        calculated_rewards: winner_rewards.calculated_rewards.duplicate(),
                        awaiting_battle_id: current_battle,
                        awaiting_power: winner_power,
                    },
                    event,
                    winner_power,
                ),
            )
        } else if winner_rewards.awaiting_battle_id < current_battle {
            let rewards_to_add = self.calculate_clash_rewards(
                winner_rewards.awaiting_battle_id,
                winner_rewards.awaiting_power,
            );
            proof {
                lemma_clash_rewards_nonnegative(self@, winner_rewards.awaiting_battle_id, winner_rewards.awaiting_power);
            }
            Ok(
                (
                    winner_address,
                    PendingRewards {
                        calculated_rewards: winner_rewards.calculated_rewards.add(&rewards_to_add),
                        awaiting_battle_id: current_battle,
                        awaiting_power: winner_power,
                    },
                    event,
                    winner_power,
                ),
            )
        } else {
            match winner_rewards.awaiting_power.checked_add(winner_power) {
                Some(power) => Ok(
                    (
                        winner_address,
                        PendingRewards {
                            calculated_rewards: winner_rewards.calculated_rewards.duplicate(),
                            awaiting_battle_id: winner_rewards.awaiting_battle_id,
                            awaiting_power: power,
                        },
                        event,
                        winner_power,
                    ),
                ),
                None => Err(Error::ArithmeticOverflow),
            }
        }
    }

    /// Decides the clash between the NFTs drawn at `d1` and `d2`; changes
    /// nothing itself.
    fn clash(&self, d1: usize, d2: usize, rem: usize) -> (r: Result<
        (Option<(Address, PendingRewards)>, ClashEvent, u64),
        Error,
    >)
        requires
            self.wf(),
            2 <= rem <= self@.battle_stack.len(),
            1 <= d1 <= rem,
            1 <= d2 <= rem - 1,
        ensures
            match self@.clash_plan(d1 as int, d2 as int, rem as int) {
                Ok((u, e, pw)) => r is Ok && update_view(r->Ok_0.0) == u && r->Ok_0.1 == e && r->Ok_0.2 == pw,
                Err(e) => r is Err && r->Err_0 == e,
            },
            r matches Ok((Some((owner, _)), _, _)) ==> self@.raw_pending_rewards_for_address.dom().contains(owner),
    {
        let first_token = self.battle_stack.get_by_index(d1);
        let second_token = if d2 == d1 {
            self.battle_stack.get_by_index(rem)
        } else {
            self.battle_stack.get_by_index(d2)
        };
        proof {
            assert(self@.battle_stack.contains(first_token));
            assert(self@.battle_stack.contains(second_token));
        }
        let first_token_attributes = self.config.attributes_of(&first_token).unwrap();
        let second_token_attributes = self.config.attributes_of(&second_token).unwrap();
        let ids = self.config.tiebreak_collections();
        match clash_outcome(&first_token, &first_token_attributes, &second_token, &second_token_attributes, &ids) {
            ClashOutcome::FirstWins => {
                let (owner, pending, event, power) = self.update_rewards(&first_token, &second_token)?;
                Ok((Some((owner, pending)), event, power))
            },
            ClashOutcome::SecondWins => {
                let (owner, pending, event, power) = self.update_rewards(&second_token, &first_token)?;
                Ok((Some((owner, pending)), event, power))
            },
            ClashOutcome::Draw => {
                let first_owner = self.nft_owner.get(&first_token).unwrap();
                let second_owner = self.nft_owner.get(&second_token).unwrap();
                Ok(
                    (
                        None,
                        ClashEvent {
                            battle_id: self.current_battle,
                            winner: first_token,
                            loser: second_token,
                            is_draw: true,
                            winner_owner: first_owner,
                            loser_owner: second_owner,
                        },
                        0,
                    ),
                )
            },
        }
    }

    /// One step of a battle transaction. The host draws the positions, at
    /// random, only where at least two NFTs are left to fight: the first in
    /// `1..=remaining`, the second in `1..=remaining - 1`.
    pub fn battle_step(&mut self, run: &mut BattleRun, draws: Option<(usize, usize)>) -> (r: Result<
        (LoopOp, Option<BattleEvent>),
        Error,
    >)
        requires
            old(self).wf(),
            old(run)@.battle == old(self)@.current_battle,
            old(run)@.remaining >= 2 ==> (draws matches Some((d1, d2)) && 1 <= d1 <= old(run)@.remaining && 1
                <= d2 <= old(run)@.remaining - 1),
        ensures
            final(self).wf(),
            final(run)@.battle == final(self)@.current_battle,
            match old(self)@.after_battle_step(old(run)@, draws) {
                Ok((v, next, op, event)) => r == Ok::<(LoopOp, Option<BattleEvent>), Error>((op, event))
                    && final(self)@ == v && final(run)@ == next,
                Err(e) => r == Err::<(LoopOp, Option<BattleEvent>), Error>(e) && final(self)@ == old(self)@
                    && final(run)@ == old(run)@,
            },
    {
        let rem = run.remaining;
        if rem == 0 {
            return Ok((LoopOp::Break, None));
        }
        if rem == 1 {
            let event = self.drain_stack()?;
            run.remaining = 0;
            return Ok((LoopOp::Break, Some(BattleEvent::SingleTokenClash(event))));
        }
        if rem > self.battle_stack.len() {
            return Err(Error::IndexOutOfRange);
        }
        let (d1, d2) = draws.unwrap();
        let (update, event, power) = self.clash(d1, d2, rem)?;
        let total_winner_power = match run.total_winner_power.checked_add(power) {
            Some(p) => p,
            None => {
                return Err(Error::ArithmeticOverflow);
            },
        };
        let clashes_done = match run.clashes_done.checked_add(1) {
            Some(c) => c,
            None => {
                return Err(Error::ArithmeticOverflow);
            },
        };
        let ghost before = self@;
        proof {
            crate::store::lemma_swap_no_duplicates(before.battle_stack, d1 - 1, rem - 1);
            crate::store::lemma_swap_no_duplicates(seq_swap(before.battle_stack, d1 - 1, rem - 1), d2 - 1, rem - 2);
        }
        self.battle_stack.swap_indexes(d1, rem);
        self.battle_stack.swap_indexes(d2, rem - 1);
        let ghost swapped = self@;
        match update {
            Some((owner, pending)) => {
                let ghost pv = pending@;
                self.raw_pending_rewards_for_address.insert(owner, pending);
                proof {
                    assert(self@.raw_pending_rewards_for_address =~= swapped.raw_pending_rewards_for_address.insert(
                        owner,
                        pv,
                    ));
                }
            },
            None => {},
        }
        run.remaining = rem - 2;
        run.clashes_done = clashes_done;
        run.total_winner_power = total_winner_power;
        proof {
            assert(self@.raw_pending_rewards_for_address.dom() =~= before.raw_pending_rewards_for_address.dom());
            assert forall|t: Token| #[trigger] self@.battle_stack.contains(t) <==> before.battle_stack.contains(t) by {
                assert(seq_swap(before.battle_stack, d1 - 1, rem - 1).to_set().contains(t) == seq_swap(
                    before.battle_stack,
                    d1 - 1,
                    rem - 1,
                ).contains(t));
            }
            lemma_ownership_frame(before, self@);
        }
        Ok((LoopOp::Continue, Some(BattleEvent::Clash(event))))
    }

    /// Ends a battle transaction; `status` tells how its steps ended.
    /// Returns the rewards of the operator who ran it.
    pub fn battle_finish(&mut self, run: BattleRun, status: OperationCompletionStatus) -> (r: Result<Amount, Error>)
        requires
            old(self).wf(),
            run@.battle == old(self)@.current_battle,
        ensures
            final(self).wf(),
            transition_paying(
                r,
                old(self)@,
                final(self)@,
                old(self)@.after_battle_finish(run@, status is Completed),
            ),
    {
        let current = self.current_battle;
        let ghost before = self@;
        let saved_power = self.total_battle_winner_power.get_or(&current, 0);
        let mut reward: Amount = Amount::zero();
        let mut new_power: u64 = saved_power;
        if run.clashes_done > 0 {
            reward = self.calculate_clash_operator_rewards(run.clashes_done, current)?;
            new_power = match saved_power.checked_add(run.total_winner_power) {
                Some(p) => p,
                None => {
                    return Err(Error::ArithmeticOverflow);
                },
            };
        }
        let completed = status.is_completed();
        if completed && current == u64::MAX {
            return Err(Error::ArithmeticOverflow);
        }
        self.remaining_nfts_in_battle.insert(current, run.remaining);
        if run.clashes_done > 0 {
            self.total_battle_winner_power.insert(current, new_power);
        }
        if completed {
            self.current_battle = current + 1;
        }
        proof {
            lemma_consistent_frame(before, self@);
        }
        Ok(reward)
    }

    /// The configuration.
    pub fn config(&self) -> (r: &ConfigModule)
        requires
            self.wf(),
        ensures
            r@ == self@.config,
            r.wf(),
    {
        &self.config
    }

    pub fn set_battle_token(
        &mut self,
        caller: Address,
        emidas: TokenId,
        supreme: TokenId,
        gnogon: TokenId,
        validator: TokenId,
        doga: TokenId,
    ) -> (r: Result<(), Error>)
        requires
            old(self).wf(),
        ensures
            final(self).wf(),
            transition(r, old(self)@, final(self)@, old(self)@.with_config(
                old(self)@.config.after_set_battle_token(caller, emidas, supreme, gnogon, validator, doga),
            )),
    {
        let ghost before = self@;
        let r = self.config.set_battle_token(caller, emidas, supreme, gnogon, validator, doga);
        proof {
            lemma_consistent_frame(before, self@);
        }
        r
    }

    pub fn set_attributes(&mut self, caller: Address, args: &Vec<AttributesArg>) -> (r: Result<(), Error>)
        requires
            old(self).wf(),
        ensures
            final(self).wf(),
            transition(r, old(self)@, final(self)@, old(self)@.with_config(
                old(self)@.config.after_set_attributes(caller, args@),
            )),
    {
        let ghost before = self@;
        let r = self.config.set_attributes(caller, args);
        proof {
            assert forall|t: Token| #[trigger] before.config.token_attributes.dom().contains(t) implies self@.config.token_attributes.dom().contains(t) by {
                lemma_attributes_after_dom(before.config.token_attributes, args@, t);
            }
            lemma_ownership_frame(before, self@);
        }
        r
    }

    pub fn pause(&mut self, caller: Address) -> (r: Result<(), Error>)
        requires
            old(self).wf(),
        ensures
            final(self).wf(),
            transition(r, old(self)@, final(self)@, old(self)@.with_config(old(self)@.config.after_pause(caller))),
    {
        let ghost before = self@;
        let r = self.config.pause(caller);
        proof {
            lemma_consistent_frame(before, self@);
        }
        r
    }

    pub fn resume(&mut self, caller: Address) -> (r: Result<(), Error>)
        requires
            old(self).wf(),
        ensures
            final(self).wf(),
            transition(r, old(self)@, final(self)@, old(self)@.with_config(old(self)@.config.after_resume(caller))),
    {
        let ghost before = self@;
        let r = self.config.resume(caller);
        proof {
            lemma_consistent_frame(before, self@);
        }
        r
    }

    pub fn deposit_gng(&mut self, caller: Address, payments: &Vec<Payment>) -> (r: Result<(), Error>)
        requires
            old(self).wf(),
        ensures
            final(self).wf(),
            transition(r, old(self)@, final(self)@, old(self)@.with_config(
                old(self)@.config.after_deposit_gng(caller, payments@),
            )),
    {
        let ghost before = self@;
        let r = self.config.deposit_gng(caller, payments);
        proof {
            lemma_consistent_frame(before, self@);
        }
        r
    }

    pub fn is_active(&self) -> (r: bool)
        requires
            self.wf(),
        ensures
            r == (self@.config.state == State::Active),
    {
        self.config.is_active()
    }

    pub fn add_admin(&mut self, caller: Address, admin: Address) -> (r: Result<(), Error>)
        requires
            old(self).wf(),
        ensures
            final(self).wf(),
            transition(r, old(self)@, final(self)@, old(self)@.with_config(
                old(self)@.config.after_add_admin(caller, admin),
            )),
    {
        let ghost before = self@;
        let r = self.config.add_admin(caller, admin);
        proof {
            lemma_consistent_frame(before, self@);
        }
        r
    }

    pub fn remove_admin(&mut self, caller: Address, admin: Address) -> (r: Result<(), Error>)
        requires
            old(self).wf(),
        ensures
            final(self).wf(),
            transition(r, old(self)@, final(self)@, old(self)@.with_config(
                old(self)@.config.after_remove_admin(caller, admin),
            )),
    {
        let ghost before = self@;
        let r = self.config.remove_admin(caller, admin);
        proof {
            lemma_consistent_frame(before, self@);
        }
        r
    }

    pub fn set_daily_reward_amount(&mut self, caller: Address, amount: Amount) -> (r: Result<(), Error>)
        requires
            old(self).wf(),
        ensures
            final(self).wf(),
            transition(r, old(self)@, final(self)@, old(self)@.with_config(
                old(self)@.config.after_set_daily_reward_amount(caller, amount@),
            )),
    {
        let ghost before = self@;
        let r = self.config.set_daily_reward_amount(caller, amount);
        proof {
            lemma_consistent_frame(before, self@);
        }
        r
    }

    pub fn set_base_battle_reward_amount(&mut self, caller: Address, amount: Amount) -> (r: Result<(), Error>)
        requires
            old(self).wf(),
        ensures
            final(self).wf(),
            transition(r, old(self)@, final(self)@, old(self)@.with_config(
                old(self)@.config.after_set_base_battle_reward_amount(caller, amount@),
            )),
    {
        let ghost before = self@;
        let r = self.config.set_base_battle_reward_amount(caller, amount);
        proof {
            lemma_consistent_frame(before, self@);
        }
        r
    }

    /// The NFTs that `address` has staked, of the collections that may
    /// battle.
    pub fn get_all_staked_for_address(&self, address: Address) -> (r: Vec<Token>)
        requires
            self.wf(),
        ensures
            r@ == self@.staked_listing(address, self@.config.battle_tokens),
    {
        let collections = self.config.get_battle_tokens();
        let mut result: Vec<Token> = Vec::new();
        let mut i: usize = 0;
        while i < collections.len()
            invariant
                self.wf(),
                collections@ == self@.config.battle_tokens,
                i <= collections@.len(),
                result@ == self@.staked_listing(address, collections@.take(i as int)),
            decreases collections@.len() - i,
        {
            let id = collections[i];
            let ghost prefix = result@;
            proof {
                assert(collections@.take(i + 1).drop_last() =~= collections@.take(i as int));
            }
            match self.staked_for_address.get_ref(&HolderCollection { address, token_id: id }) {
                Some(nonces) => {
                    let items = nonces.items();
                    let mut j: usize = 0;
                    while j < items.len()
                        invariant
                            items@ == self@.staked(address, id),
                            j <= items@.len(),
                            result@ == prefix + items@.take(j as int).map_values(
                                |n: Nonce| Token { token_id: id, nonce: n },
                            ),
                        decreases items@.len() - j,
                    {
                        result.push(Token { token_id: id, nonce: items[j] });
                        proof {
                            assert(items@.take(j + 1).map_values(|n: Nonce| Token { token_id: id, nonce: n })
                                =~= items@.take(j as int).map_values(|n: Nonce| Token { token_id: id, nonce: n }).push(
                                Token { token_id: id, nonce: items@[j as int] },
                            ));
                        }
                        j = j + 1;
                    }
                },
                None => {
                    proof {
                        assert(self@.staked(address, id).map_values(|n: Nonce| Token { token_id: id, nonce: n })
                            =~= Seq::<Token>::empty());
                    }
                },
            }
            i = i + 1;
        }
        proof {
            assert(collections@.take(collections@.len() as int) =~= collections@);
        }
        result
    }

    /// The statistics of `address`; none where it never staked.
    pub fn get_stats_for_address(&self, address: Address) -> (r: UserStats)
        requires
            self.wf(),
        ensures
            r@ == value_or(self@.stats_for_address, address, UserStatsView { power: 0, gng_claimed: 0 }),
    {
        match self.stats_for_address.get_ref(&address) {
            Some(s) => s.duplicate(),
            None => UserStats::default(),
        }
    }

    fn global_stats_entry(&self, address: Address) -> (r: Result<(Address, Amount, u64), Error>)
        requires
            self.wf(),
        ensures
            match self@.global_stats_entry(address) {
                Ok(x) => r is Ok && stats_row_view(r->Ok_0) == x,
                Err(e) => r is Err && r->Err_0 == e,
            },
    {
        let stats = match self.stats_for_address.get_ref(&address) {
            Some(s) => s,
            None => {
                return Err(Error::StorageDecode);
            },
        };
        let pending = self.get_pending_rewards_for_address(address);
        proof {
            lemma_pending_nonnegative(self@, address);
        }
        Ok((address, stats.gng_claimed.add(&pending), stats.power))
    }

    /// The statistics of the users from position `from`, at most `size` of
    /// them: address, GNG earned, staked power.
    pub fn get_global_stats(&self, from: usize, size: usize) -> (r: Result<Vec<(Address, Amount, u64)>, Error>)
        requires
            self.wf(),
        ensures
            ({
                let window = self@.users_window(from as int, size as int);
                match self@.global_stats_list(window, window.len() as int) {
                    Ok(list) => r is Ok && r->Ok_0@.map_values(|x: (Address, Amount, u64)| stats_row_view(x)) == list,
                    Err(e) => r is Err && r->Err_0 == e,
                }
            }),
    {
        let addresses = self.addresses.items();
        let len = addresses.len();
        let start = if from < len { from } else { len };
        let end = if (from as u128) + (size as u128) < len as u128 { from + size } else { len };
        let ghost window = self@.users_window(from as int, size as int);
        let mut result: Vec<(Address, Amount, u64)> = Vec::new();
        let mut i: usize = start;
        proof {
            assert(result@.map_values(|x: (Address, Amount, u64)| stats_row_view(x)) =~= Seq::<(Address, nat, u64)>::empty());
        }
        while i < end
            invariant
                self.wf(),
                addresses@ == self@.addresses,
                start <= i <= end <= addresses@.len(),
                window == addresses@.subrange(start as int, end as int),
                window == self@.users_window(from as int, size as int),
                self@.global_stats_list(window, (i - start) as int) == Ok::<Seq<(Address, nat, u64)>, Error>(
                    result@.map_values(|x: (Address, Amount, u64)| stats_row_view(x)),
                ),
            decreases end - i,
        {
            let entry = self.global_stats_entry(addresses[i]);
            match entry {
                Ok(e) => {
                    let ghost before = result@;
                    result.push(e);
                    proof {
                        assert(result@.map_values(|x: (Address, Amount, u64)| stats_row_view(x)) =~= before.map_values(
                            |x: (Address, Amount, u64)| stats_row_view(x),
                        ).push(stats_row_view(e)));
                    }
                },
                Err(e) => {
                    proof {
                        let k = (i - start + 1) as int;
                        lemma_global_stats_stops(self@, window, k, window.len() as int);
                    }
                    return Err(e);
                },
            }
            i = i + 1;
        }
        Ok(result)
    }

    /// The statistics of `address`: address, staked power, GNG earned.
    pub fn get_global_stats_by_address(&self, address: Address) -> (r: Result<(Address, u64, Amount), Error>)
        requires
            self.wf(),
        ensures
            match self@.global_stats_entry(address) {
                Ok((a, gng, power)) => r is Ok && r->Ok_0.0 == a && r->Ok_0.1 == power && r->Ok_0.2@ == gng,
                Err(e) => r is Err && r->Err_0 == e,
            },
    {
        let (a, gng, power) = self.global_stats_entry(address)?;
        Ok((a, power, gng))
    }

    /// How many addresses ever staked.
    pub fn get_amount_of_users(&self) -> (r: usize)
        requires
            self.wf(),
        ensures
            r == self@.addresses.len(),
    {
        self.addresses.len()
    }

    pub fn get_current_battle(&self) -> (r: u64)
        ensures
            r == self@.current_battle,
    {
        self.current_battle
    }

    pub fn get_past_battle_amount(&self) -> (r: u64)
        ensures
            r == self@.past_battle_amount,
    {
        self.past_battle_amount
    }

    pub fn get_battle_mode(&self) -> (r: BattleMode)
        ensures
            r == self@.battle_mode,
    {
        self.battle_mode
    }

    /// The nonces of collection `token_id` that `address` has staked, in
    /// their order.
    pub fn get_staked_for_address(&self, address: Address, token_id: TokenId) -> (r: Vec<Nonce>)
        requires
            self.wf(),
        ensures
            r@ == self@.staked(address, token_id),
    {
        let mut result: Vec<Nonce> = Vec::new();
        match self.staked_for_address.get_ref(&HolderCollection { address, token_id }) {
            Some(nonces) => {
                let items = nonces.items();
                let mut j: usize = 0;
                while j < items.len()
                    invariant
                        items@ == self@.staked(address, token_id),
                        j <= items@.len(),
                        result@ == items@.take(j as int),
                    decreases items@.len() - j,
                {
                    result.push(items[j]);
                    j = j + 1;
                }
            },
            None => {},
        }
        result
    }

    /// The NFTs that may battle: in a battle, the first ones are those left
    /// to fight.
    pub fn get_battle_stack(&self) -> (r: &Vec<Token>)
        ensures
            r@ == self@.battle_stack,
    {
        self.battle_stack.items()
    }

    pub fn get_remaining_nfts_in_battle(&self, battle: u64) -> (r: usize)
        requires
            self.wf(),
        ensures
            r == self@.remaining(battle),
    {
        self.remaining_nfts_in_battle.get_or(&battle, 0)
    }

    pub fn has_battle_started(&self, battle: u64) -> (r: bool)
        requires
            self.wf(),
        ensures
            r == self@.started(battle),
    {
        self.has_battle_started.get_or(&battle, false)
    }

    pub fn get_total_nft_engaged(&self) -> (r: u64)
        ensures
            r == self@.total_nft_engaged,
    {
        self.total_nft_engaged
    }

    pub fn get_total_battle_winner_power(&self, battle: u64) -> (r: u64)
        requires
            self.wf(),
        ensures
            r == self@.winner_power(battle),
    {
        self.total_battle_winner_power.get_or(&battle, 0)
    }

    /// The pending rewards as stored; reading those of an address that
    /// never staked fails.
    pub fn get_raw_pending_rewards_for_address(&self, address: Address) -> (r: Result<PendingRewards, Error>)
        requires
            self.wf(),
        ensures
            if self@.raw_pending_rewards_for_address.dom().contains(address) {
                r is Ok && r->Ok_0@ == self@.raw_pending_rewards_for_address[address]
            } else {
                r is Err && r->Err_0 == Error::StorageDecode
            },
    {
        match self.raw_pending_rewards_for_address.get_ref(&address) {
            Some(p) => Ok(p.duplicate()),
            None => Err(Error::StorageDecode),
        }
    }

    /// The addresses that ever staked, in the order they first did.
    pub fn get_addresses(&self) -> (r: &Vec<Address>)
        ensures
            r@ == self@.addresses,
    {
        self.addresses.items()
    }

    pub fn get_total_rewards_for_stakers(&self, battle: u64) -> (r: Amount)
        requires
            self.wf(),
        ensures
            r@ == self@.stakers_rewards(battle),
    {
        self.stakers_rewards_of(battle)
    }

    pub fn get_total_rewards_for_operators(&self, battle: u64) -> (r: Amount)
        requires
            self.wf(),
        ensures
            r@ == self@.operators_rewards(battle),
    {
        self.operators_rewards_of(battle)
    }

    pub fn get_total_number_clashes_current_battle(&self) -> (r: usize)
        ensures
            r == self@.total_number_clashes_current_battle,
    {
        self.total_number_clashes_current_battle
    }
}

/// Battle transactions run step by step while the gas lasts.
impl OngoingOperationModule for GngMinting {

}

} // verus!
