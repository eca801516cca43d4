use vstd::prelude::*;
use vstd::arithmetic::div_mod::*;
use vstd::arithmetic::mul::*;

use crate::clash::{ClashOutcome, TiebreakCollections, mirror, spec_clash_outcome};
use crate::config::{ConfigView, State};
use crate::error::Error;
use crate::gng::{BattleRunView, GngView, payment_token, value_or};
use crate::model::{Address, Attributes, BattleMode, Nonce, Payment, Token, TokenId, UserStatsView};
use crate::operations::LoopOp;
use crate::rewards::{lemma_div_plus_multiple, lemma_floor_sum};
use crate::schedule::{spec_battle_duration, spec_is_sunday};
use crate::store::{
    lemma_index_of_unique, lemma_swap_no_duplicates, lemma_swap_remove_no_duplicates, lemma_swap_same_items, seq_swap,
};

verus! {

/// The sum of `xs`.
pub open spec fn seq_sum(xs: Seq<u64>) -> int
    decreases xs.len(),
{
    if xs.len() == 0 {
        0
    } else {
        seq_sum(xs.drop_last()) + xs.last()
    }
}

/// What the winners of battle `battle` earn, one winner for each of
/// `powers`.
pub open spec fn rewards_of_winners(m: GngView, battle: u64, powers: Seq<u64>) -> int
    decreases powers.len(),
{
    if powers.len() == 0 {
        0
    } else {
        rewards_of_winners(m, battle, powers.drop_last()) + m.clash_rewards(battle, powers.last())
    }
}

/// What the operators of battle `battle` earn, one transaction for each of
/// `clashes`.
pub open spec fn rewards_of_operators(m: GngView, battle: u64, clashes: Seq<u64>) -> int
    decreases clashes.len(),
{
    if clashes.len() == 0 {
        0
    } else {
        rewards_of_operators(m, battle, clashes.drop_last()) + match m.operator_rewards(clashes.last(), battle) {
            Ok(x) => x as int,
            Err(_) => 0,
        }
    }
}

/// Rounding down each share of a sum loses nothing against rounding down
/// the share of the whole sum.
proof fn lemma_floor_step(a: int, l: int, t: int, d: int)
    requires
        d > 0,
        t >= 0,
    ensures
        a * t / d + l * t / d <= (a + l) * t / d,
{
    lemma_floor_sum(a * t, l * t, d);
    lemma_mul_is_distributive_add_other_way(t, a, l);
}

/// Of shares of `t` by parts of `d` summing to at most `d`, the rounded
/// down total is at most `t`.
proof fn lemma_whole_bound(s: int, t: int, d: int)
    requires
        d > 0,
        t >= 0,
        0 <= s <= d,
    ensures
        s * t / d <= t,
{
    lemma_mul_inequality(s, d, t);
    lemma_div_is_ordered(s * t, d * t, d);
    lemma_div_multiples_vanish(t, d);
    lemma_mul_is_commutative(d, t);
}

proof fn lemma_winners_below_share(m: GngView, battle: u64, powers: Seq<u64>)
    requires
        m.winner_power(battle) > 0,
    ensures
        rewards_of_winners(m, battle, powers) <= seq_sum(powers) * m.stakers_rewards(battle) / (m.winner_power(
            battle,
        ) as int),
    decreases powers.len(),
{
    if powers.len() > 0 {
        lemma_winners_below_share(m, battle, powers.drop_last());
        lemma_floor_step(
            seq_sum(powers.drop_last()),
            powers.last() as int,
            m.stakers_rewards(battle) as int,
            m.winner_power(battle) as int,
        );
    }
}

proof fn lemma_winners_zero(m: GngView, battle: u64, powers: Seq<u64>)
    requires
        m.winner_power(battle) == 0,
    ensures
        rewards_of_winners(m, battle, powers) == 0,
    decreases powers.len(),
{
    if powers.len() > 0 {
        lemma_winners_zero(m, battle, powers.drop_last());
    }
}

proof fn lemma_seq_sum_nonnegative(xs: Seq<u64>)
    ensures
        seq_sum(xs) >= 0,
    decreases xs.len(),
{
    if xs.len() > 0 {
        lemma_seq_sum_nonnegative(xs.drop_last());
    }
}

/// The winners of a battle never earn more than the battle's rewards for
/// stakers: where their powers add up to at most the battle's winner
/// power, their rewards, each rounded down, add up to at most the pool.
pub proof fn law_winners_rewards_within_pool(m: GngView, battle: u64, powers: Seq<u64>)
    requires
        seq_sum(powers) <= m.winner_power(battle),
    ensures
        rewards_of_winners(m, battle, powers) <= m.stakers_rewards(battle),
{
    if m.winner_power(battle) == 0 {
        lemma_winners_zero(m, battle, powers);
    } else {
        lemma_winners_below_share(m, battle, powers);
        lemma_seq_sum_nonnegative(powers);
        lemma_whole_bound(
            seq_sum(powers),
            m.stakers_rewards(battle) as int,
            m.winner_power(battle) as int,
        );
    }
}

proof fn lemma_operators_below_share(m: GngView, battle: u64, clashes: Seq<u64>)
    requires
        m.total_number_clashes_current_battle > 0,
    ensures
        rewards_of_operators(m, battle, clashes) <= seq_sum(clashes) * m.operators_rewards(battle) / (
        m.total_number_clashes_current_battle as int),
    decreases clashes.len(),
{
    if clashes.len() > 0 {
        lemma_operators_below_share(m, battle, clashes.drop_last());
        let c = clashes.last();
        let t = m.operators_rewards(battle) as int;
        let d = m.total_number_clashes_current_battle as int;
        lemma_mul_nonnegative(c as int, t);
        lemma_div_pos_is_pos(c * t, d);
        lemma_floor_step(seq_sum(clashes.drop_last()), c as int, t, d);
    }
}

proof fn lemma_operators_zero(m: GngView, battle: u64, clashes: Seq<u64>)
    requires
        m.total_number_clashes_current_battle == 0,
    ensures
        rewards_of_operators(m, battle, clashes) == 0,
    decreases clashes.len(),
{
    if clashes.len() > 0 {
        lemma_operators_zero(m, battle, clashes.drop_last());
    }
}

/// The operators of a battle never earn more than the battle's rewards for
/// operators: where the clashes of their transactions add up to at most the
/// clashes of the battle, what they are paid adds up to at most the pool.
pub proof fn law_operators_rewards_within_pool(m: GngView, battle: u64, clashes: Seq<u64>)
    requires
        seq_sum(clashes) <= m.total_number_clashes_current_battle,
    ensures
        rewards_of_operators(m, battle, clashes) <= m.operators_rewards(battle),
{
    if m.total_number_clashes_current_battle == 0 {
        lemma_operators_zero(m, battle, clashes);
    } else {
        lemma_operators_below_share(m, battle, clashes);
        lemma_seq_sum_nonnegative(clashes);
        lemma_whole_bound(
            seq_sum(clashes),
            m.operators_rewards(battle) as int,
            m.total_number_clashes_current_battle as int,
        );
    }
}

/// The order in which two NFTs are drawn does not decide the clash: drawn
/// the other way round, the same NFT wins, or it is a draw again. This
/// holds where the Gnogon and Validator collections differ.
pub proof fn law_clash_symmetric(
    first: Token,
    first_attr: Attributes,
    second: Token,
    second_attr: Attributes,
    ids: TiebreakCollections,
)
    requires
        ids.gnogon != ids.validator,
    ensures
        spec_clash_outcome(second, second_attr, first, first_attr, ids) == mirror(
            spec_clash_outcome(first, first_attr, second, second_attr, ids),
        ),
{
}

/// The NFT with the higher power wins its clash, whatever the collections.
pub proof fn law_higher_power_wins(
    first: Token,
    first_attr: Attributes,
    second: Token,
    second_attr: Attributes,
    ids: TiebreakCollections,
)
    requires
        first_attr.power > second_attr.power,
    ensures
        spec_clash_outcome(first, first_attr, second, second_attr, ids) == ClashOutcome::FirstWins,
        spec_clash_outcome(second, second_attr, first, first_attr, ids) == ClashOutcome::SecondWins,
{
}

/// Between NFTs of equal power, an Emidas Genesis beats any NFT of another
/// collection, and a Gnogon beats a Validator.
pub proof fn law_tiebreak_rules(
    first: Token,
    first_attr: Attributes,
    second: Token,
    second_attr: Attributes,
    ids: TiebreakCollections,
)
    requires
        first_attr.power == second_attr.power,
    ensures
        first.token_id == ids.emidas && second.token_id != ids.emidas ==> spec_clash_outcome(
            first,
            first_attr,
            second,
            second_attr,
            ids,
        ) == ClashOutcome::FirstWins,
        first.token_id == ids.gnogon && second.token_id == ids.validator && first.token_id != ids.emidas
            && second.token_id != ids.emidas ==> spec_clash_outcome(first, first_attr, second, second_attr, ids)
            == ClashOutcome::FirstWins,
{
}

/// Sundays come back every week.
pub proof fn law_sunday_every_week(timestamp: int)
    requires
        timestamp >= 0,
    ensures
        spec_is_sunday(timestamp + 604800) == spec_is_sunday(timestamp),
{
    lemma_div_plus_days(timestamp, 7);
    lemma_mod_add_multiples_vanish(timestamp / 86400 + 4, 7);
}

/// The day after a Sunday is no Sunday.
pub proof fn law_no_two_sundays_in_a_row(timestamp: int)
    requires
        timestamp >= 0,
        spec_is_sunday(timestamp),
    ensures
        !spec_is_sunday(timestamp + 86400),
{
    lemma_div_plus_days(timestamp, 1);
    let k = timestamp / 86400 + 4;
    lemma_fundamental_div_mod(k, 7);
    lemma_fundamental_div_mod(k + 1, 7);
    lemma_mod_bound(k + 1, 7);
    assert((k + 1) % 7 == 1) by {
        lemma_mod_add_multiples_vanish(1, 7);
        lemma_mod_multiples_vanish(k / 7, 1, 7);
    }
}

/// Adding whole days to a timestamp adds as many to its day.
proof fn lemma_div_plus_days(timestamp: int, days: int)
    requires
        timestamp >= 0,
        days >= 0,
    ensures
        (timestamp + 86400 * days) / 86400 == timestamp / 86400 + days,
{
    lemma_div_plus_multiple(timestamp, days, 86400);
}

/// Claiming pays out all that is pending: once a claim went through,
/// nothing is left to claim, and a second claim pays nothing and changes
/// nothing.
pub proof fn law_claim_empties_pending(m: GngView, caller: Address)
    requires
        m.after_claim_rewards(caller) is Ok,
    ensures
        ({
            let (v, paid) = m.after_claim_rewards(caller)->Ok_0;
            &&& paid == m.pending_total(caller)
            &&& v.pending_total(caller) == 0
            &&& v.after_claim_rewards(caller) == Ok::<(GngView, nat), Error>((v, 0))
        }),
{
}

/// Claiming does not change what a user earned in all: the GNG it claimed
/// plus the GNG it can still claim, as its statistics report them.
pub proof fn law_claim_keeps_earnings(m: GngView, caller: Address)
    requires
        m.after_claim_rewards(caller) is Ok,
    ensures
        m.after_claim_rewards(caller)->Ok_0.0.global_stats_entry(caller) == m.global_stats_entry(caller),
{
}

/// While the contract is paused, users can neither stake, claim, withdraw
/// nor fight battles.
pub proof fn law_paused_refuses_users(
    m: GngView,
    caller: Address,
    now: u64,
    payments: Seq<Payment>,
    tokens: Seq<Token>,
)
    requires
        m.config.state == State::Inactive,
    ensures
        m.after_stake(caller, now, payments) == Err::<GngView, Error>(Error::NotActive),
        m.after_claim_rewards(caller) == Err::<(GngView, nat), Error>(Error::NotActive),
        m.after_withdraw(caller, now, tokens) == Err::<(GngView, nat), Error>(Error::NotActive),
        m.after_battle_begin(now) == Err::<(GngView, BattleRunView), Error>(Error::NotActive),
{
}

/// Only the owner configures the contract: any other caller is refused and
/// nothing changes.
pub proof fn law_only_owner_configures(
    m: GngView,
    caller: Address,
    now: u64,
    mode: BattleMode,
    ids: Seq<TokenId>,
    amount: nat,
    admin: Address,
)
    requires
        caller != m.config.owner,
        ids.len() == 5,
    ensures
        m.after_switch_mode(caller, now, mode) == Err::<GngView, Error>(Error::OnlyOwner),
        m.config.after_set_battle_token(caller, ids[0], ids[1], ids[2], ids[3], ids[4]) == Err::<
            crate::config::ConfigView,
            Error,
        >(Error::OnlyOwner),
        m.config.after_pause(caller) == Err::<crate::config::ConfigView, Error>(Error::OnlyOwner),
        m.config.after_resume(caller) == Err::<crate::config::ConfigView, Error>(Error::OnlyOwner),
        m.config.after_add_admin(caller, admin) == Err::<crate::config::ConfigView, Error>(Error::OnlyOwner),
        m.config.after_remove_admin(caller, admin) == Err::<crate::config::ConfigView, Error>(Error::OnlyOwner),
        m.config.after_set_daily_reward_amount(caller, amount) == Err::<crate::config::ConfigView, Error>(
            Error::OnlyOwner,
        ),
        m.config.after_set_base_battle_reward_amount(caller, amount) == Err::<crate::config::ConfigView, Error>(
            Error::OnlyOwner,
        ),
{
}

/// Only admins add GNG to the reward pool.
pub proof fn law_only_admins_deposit(m: GngView, caller: Address, payments: Seq<Payment>)
    requires
        !m.config.admin.contains(caller),
    ensures
        m.config.after_deposit_gng(caller, payments) == Err::<crate::config::ConfigView, Error>(Error::OnlyAdmin),
{
}

/// Each step of a battle makes progress: two NFTs fight and leave those
/// still to fight, or the last one is reported, or the battle is over. The
/// NFTs on the battle stack stay the same, only their order changes.
pub proof fn law_battle_step_progress(m: GngView, run: BattleRunView, draws: Option<(usize, usize)>)
    requires
        m.after_battle_step(run, draws) is Ok,
        run.remaining >= 2 ==> (draws matches Some((d1, d2)) && 1 <= d1 <= run.remaining && 1 <= d2
            <= run.remaining - 1),
    ensures
        ({
            let (v, next, op, event) = m.after_battle_step(run, draws)->Ok_0;
            &&& run.remaining >= 2 ==> {
                &&& next.remaining == run.remaining - 2
                &&& next.clashes_done == run.clashes_done + 1
                &&& op == LoopOp::Continue
            }
            &&& run.remaining < 2 ==> next.remaining == 0 && op == LoopOp::Break
            &&& next.battle == run.battle
            &&& v.battle_stack.len() == m.battle_stack.len()
            &&& v.battle_stack.to_set() == m.battle_stack.to_set()
            &&& v.current_battle == m.current_battle
        }),
{
    if run.remaining >= 2 {
        let (d1, d2) = draws->Some_0;
        let rem = run.remaining as int;
        lemma_swap_same_items(m.battle_stack, d1 - 1, rem - 1);
        lemma_swap_same_items(seq_swap(m.battle_stack, d1 - 1, rem - 1), d2 - 1, rem - 2);
    }
}

/// A battle transaction that completes the battle makes the next battle
/// current, one battle duration later; one that was interrupted leaves the
/// current battle as it was.
pub proof fn law_completed_battle_moves_on(m: GngView, run: BattleRunView, completed: bool)
    requires
        m.current_battle >= m.past_battle_amount + 1,
        m.after_battle_finish(run, completed) is Ok,
    ensures
        ({
            let v = m.after_battle_finish(run, completed)->Ok_0.0;
            &&& completed ==> v.current_battle == m.current_battle + 1
                && v.battle_start() == m.battle_start() + spec_battle_duration(m.battle_mode)
            &&& !completed ==> v.current_battle == m.current_battle && v.battle_start() == m.battle_start()
        }),
{
    if completed {
        let d = spec_battle_duration(m.battle_mode);
        let k = m.current_battle - m.past_battle_amount - 1;
        lemma_mul_is_distributive_add(d, k, 1);
    }
}

proof fn lemma_tokens_power_of_payments(a: GngView, b: GngView, payments: Seq<Payment>, n: int)
    requires
        a.config.token_attributes == b.config.token_attributes,
        0 <= n <= payments.len(),
    ensures
        b.tokens_power(payments.map_values(|q: Payment| payment_token(q)), n) == a.payments_power(payments, n),
    decreases n,
{
    if n > 0 {
        lemma_tokens_power_of_payments(a, b, payments, n - 1);
    }
}

proof fn lemma_payments_power_nonnegative(m: GngView, payments: Seq<Payment>, n: int)
    ensures
        m.payments_power(payments, n) >= 0,
    decreases n,
{
    if n > 0 {
        lemma_payments_power_nonnegative(m, payments, n - 1);
    }
}

proof fn lemma_withdraw_all_frame(m: GngView, caller: Address, in_battle: bool, tokens: Seq<Token>)
    ensures
        m.withdraw_all(caller, in_battle, tokens).total_nft_engaged == m.total_nft_engaged,
        m.withdraw_all(caller, in_battle, tokens).stats_for_address == m.stats_for_address,
        m.withdraw_all(caller, in_battle, tokens).raw_pending_rewards_for_address
            == m.raw_pending_rewards_for_address,
        m.withdraw_all(caller, in_battle, tokens).current_battle == m.current_battle,
        m.withdraw_all(caller, in_battle, tokens).total_rewards_for_stakers == m.total_rewards_for_stakers,
        m.withdraw_all(caller, in_battle, tokens).total_battle_winner_power == m.total_battle_winner_power,
        forall|t: Token| #[trigger] tokens.contains(t) ==> !m.withdraw_all(caller, in_battle, tokens).nft_owner.dom().contains(t),
    decreases tokens.len(),
{
    if tokens.len() > 0 {
        let init = tokens.drop_last();
        lemma_withdraw_all_frame(m, caller, in_battle, init);
        assert forall|t: Token| #[trigger] tokens.contains(t) implies !m.withdraw_all(caller, in_battle, tokens).nft_owner.dom().contains(t) by {
            let i = choose|i: int| 0 <= i < tokens.len() && tokens[i] == t;
            if i < tokens.len() - 1 {
                assert(init[i] == t);
                assert(init.contains(t));
            }
        }
    }
}

/// Withdrawing the NFTs just staked undoes the staking: the user's power
/// and the number of engaged NFTs are what they were, and the NFTs have
/// no owner in the contract any more.
pub proof fn law_withdraw_undoes_stake(
    m: GngView,
    caller: Address,
    now: u64,
    payments: Seq<Payment>,
    later: u64,
)
    requires
        m.after_stake(caller, now, payments) is Ok,
        m.after_stake(caller, now, payments)->Ok_0.after_withdraw(
            caller,
            later,
            payments.map_values(|q: Payment| payment_token(q)),
        ) is Ok,
    ensures
        ({
            let tokens = payments.map_values(|q: Payment| payment_token(q));
            let w = m.after_stake(caller, now, payments)->Ok_0.after_withdraw(caller, later, tokens)->Ok_0.0;
            &&& w.stats_for_address[caller].power == value_or(
                m.stats_for_address,
                caller,
                UserStatsView { power: 0, gng_claimed: 0 },
            ).power
            &&& w.total_nft_engaged == m.total_nft_engaged
            &&& forall|t: Token| #[trigger] tokens.contains(t) ==> !w.nft_owner.dom().contains(t)
        }),
{
    let tokens = payments.map_values(|q: Payment| payment_token(q));
    let v = m.after_stake(caller, now, payments)->Ok_0;
    let claimed = v.after_claim_rewards(caller)->Ok_0.0;
    let in_battle = v.battle_status(later) == Ok::<crate::model::BattleStatus, Error>(
        crate::model::BattleStatus::Battle,
    );
    lemma_payments_power_nonnegative(m, payments, payments.len() as int);
    lemma_tokens_power_of_payments(m, v, payments, payments.len() as int);
    lemma_withdraw_all_frame(claimed, caller, in_battle, tokens);
}

/// Staked NFTs take part in the battles: each belongs to the caller and
/// stands on the battle stack.
pub proof fn law_staked_nfts_battle(m: GngView, caller: Address, now: u64, payments: Seq<Payment>)
    requires
        m.after_stake(caller, now, payments) is Ok,
    ensures
        forall|i: int|
            0 <= i < payments.len() ==> {
                let v = m.after_stake(caller, now, payments)->Ok_0;
                let t = #[trigger] payment_token(payments[i]);
                &&& v.battle_stack.contains(t)
                &&& v.nft_owner.dom().contains(t)
                &&& v.nft_owner[t] == caller
                &&& v.staked(caller, t.token_id).contains(t.nonce)
            },
{
    let v = m.after_stake(caller, now, payments)->Ok_0;
    let tokens = payments.map_values(|q: Payment| payment_token(q));
    assert forall|i: int| 0 <= i < payments.len() implies {
        let t = #[trigger] payment_token(payments[i]);
        &&& v.battle_stack.contains(t)
        &&& v.nft_owner.dom().contains(t)
        &&& v.nft_owner[t] == caller
        &&& v.staked(caller, t.token_id).contains(t.nonce)
    } by {
        let t = payment_token(payments[i]);
        assert(tokens[i] == t);
        assert(v.battle_stack[m.battle_stack.len() + i] == t);
        crate::gng::lemma_staked_after_contains(
            m.staked_for_address,
            caller,
            payments,
            crate::model::HolderCollection { address: caller, token_id: t.token_id },
            t.nonce,
        );
    }
}

/// A withdrawal pays first all the rewards that the caller can claim, and
/// leaves nothing to claim.
pub proof fn law_withdraw_claims_first(m: GngView, caller: Address, now: u64, tokens: Seq<Token>)
    requires
        m.after_withdraw(caller, now, tokens) is Ok,
    ensures
        m.after_withdraw(caller, now, tokens)->Ok_0.1 == m.pending_total(caller),
        m.after_withdraw(caller, now, tokens)->Ok_0.0.pending_total(caller) == 0,
{
    let claimed = m.after_claim_rewards(caller)->Ok_0.0;
    let in_battle = m.battle_status(now) == Ok::<crate::model::BattleStatus, Error>(
        crate::model::BattleStatus::Battle,
    );
    lemma_withdraw_all_frame(claimed, caller, in_battle, tokens);
}

/// NFTs are staked only between battles, and clashes are fought only once
/// a battle has started.
pub proof fn law_stake_between_battles(m: GngView, caller: Address, now: u64, payments: Seq<Payment>)
    requires
        m.config.state == State::Active,
    ensures
        m.battle_status(now) == Ok::<crate::model::BattleStatus, Error>(crate::model::BattleStatus::Battle)
            ==> m.after_stake(caller, now, payments) == Err::<GngView, Error>(Error::BattleInProgress),
        m.battle_status(now) == Ok::<crate::model::BattleStatus, Error>(crate::model::BattleStatus::Preparation)
            ==> m.after_battle_begin(now) == Err::<(GngView, BattleRunView), Error>(Error::BattleInPreparation),
{
}

/// A draw rewards nobody.
pub proof fn law_draw_rewards_nobody(m: GngView, d1: int, d2: int, rem: int)
    requires
        ({
            let first = m.battle_stack[d1 - 1];
            let second = seq_swap(m.battle_stack, d1 - 1, rem - 1)[d2 - 1];
            spec_clash_outcome(
                first,
                m.config.token_attributes[first],
                second,
                m.config.token_attributes[second],
                m.config.tiebreak_collections(),
            ) == ClashOutcome::Draw
        }),
    ensures
        m.clash_plan(d1, d2, rem) is Ok,
        m.clash_plan(d1, d2, rem)->Ok_0.0 is None,
        m.clash_plan(d1, d2, rem)->Ok_0.1.is_draw,
        m.clash_plan(d1, d2, rem)->Ok_0.2 == 0,
{
}

/// Pausing the contract does not pause time: the battles keep their
/// schedule.
pub proof fn law_pause_keeps_schedule(m: GngView, caller: Address, now: u64)
    requires
        m.config.after_pause(caller) is Ok,
    ensures
        (GngView { config: m.config.after_pause(caller)->Ok_0, ..m }).battle_status(now) == m.battle_status(now),
{
}

proof fn lemma_withdraw_checks_pass(
    v: GngView,
    caller: Address,
    in_battle: bool,
    tokens: Seq<Token>,
    n: int,
)
    requires
        0 <= n <= tokens.len(),
        forall|i: int| 0 <= i < n ==> #[trigger] v.withdraw_error(caller, in_battle, tokens, i) is None,
    ensures
        v.first_withdraw_error(caller, in_battle, tokens, n) is None,
    decreases n,
{
    if n > 0 {
        lemma_withdraw_checks_pass(v, caller, in_battle, tokens, n - 1);
        assert(v.withdraw_error(caller, in_battle, tokens, n - 1) is None);
    }
}

/// Staked NFTs can be taken back: between battles, withdrawing the NFTs just
/// staked succeeds wherever the rewards that it pays first can be claimed.
pub proof fn law_withdraw_after_stake(m: GngView, caller: Address, now: u64, payments: Seq<Payment>, later: u64)
    requires
        m.after_stake(caller, now, payments) is Ok,
        m.after_stake(caller, now, payments)->Ok_0.battle_status(later) == Ok::<
            crate::model::BattleStatus,
            Error,
        >(crate::model::BattleStatus::Preparation),
        m.after_stake(caller, now, payments)->Ok_0.after_claim_rewards(caller) is Ok,
    ensures
        m.after_stake(caller, now, payments)->Ok_0.after_withdraw(
            caller,
            later,
            payments.map_values(|q: Payment| payment_token(q)),
        ) is Ok,
{
    let v = m.after_stake(caller, now, payments)->Ok_0;
    let tokens = payments.map_values(|q: Payment| payment_token(q));
    let n = payments.len() as int;
    law_staked_nfts_battle(m, caller, now, payments);
    assert forall|i: int| 0 <= i < n implies #[trigger] v.withdraw_error(caller, false, tokens, i) is None by {
        crate::gng::lemma_first_error_none(m, payments, n, i);
        let t = payment_token(payments[i]);
        assert(tokens[i] == t);
        assert(tokens.take(i) =~= payments.take(i).map_values(|q: Payment| payment_token(q)));
    }
    lemma_withdraw_checks_pass(v, caller, false, tokens, n);
    lemma_payments_power_nonnegative(m, payments, n);
    lemma_tokens_power_of_payments(m, v, payments, n);
}

/// A removed admin is an admin no more: it can no longer deposit GNG.
pub proof fn law_removed_admin_cannot_deposit(
    m: ConfigView,
    caller: Address,
    admin: Address,
    payments: Seq<Payment>,
)
    requires
        m.admin.no_duplicates(),
        m.after_remove_admin(caller, admin) is Ok,
    ensures
        !m.after_remove_admin(caller, admin)->Ok_0.admin.contains(admin),
        m.after_remove_admin(caller, admin)->Ok_0.after_deposit_gng(admin, payments) == Err::<ConfigView, Error>(
            Error::OnlyAdmin,
        ),
{
    let i = m.admin.index_of(admin);
    lemma_swap_remove_no_duplicates(m.admin, i);
    let c = m.after_remove_admin(caller, admin)->Ok_0;
    assert(!c.admin.to_set().contains(admin));
}

/// Adding an admin and removing it again gives back the configuration
/// as it was.
pub proof fn law_add_then_remove_admin(m: ConfigView, caller: Address, admin: Address)
    requires
        m.admin.no_duplicates(),
        m.after_add_admin(caller, admin) is Ok,
    ensures
        m.after_add_admin(caller, admin)->Ok_0.after_remove_admin(caller, admin) == Ok::<ConfigView, Error>(m),
{
    let c = m.after_add_admin(caller, admin)->Ok_0;
    let n = m.admin.len() as int;
    assert(c.admin[n] == admin);
    crate::store::lemma_push_no_duplicates(m.admin, admin);
    lemma_index_of_unique(c.admin, n);
    let r = c.after_remove_admin(caller, admin)->Ok_0;
    assert(r.admin =~= m.admin);
    assert(r == m);
}

/// The two NFTs of a clash are different ones. They end at the last two
/// places among those that were left to fight, the first drawn last; the
/// NFTs still to fight are those that were, but these two; past them the
/// stack does not change, and no NFT is gained or lost.
pub proof fn law_clash_moves_two_distinct_nfts(m: GngView, d1: int, d2: int, rem: int)
    requires
        m.battle_stack.no_duplicates(),
        2 <= rem <= m.battle_stack.len(),
        1 <= d1 <= rem,
        1 <= d2 <= rem - 1,
    ensures
        ({
            let s = m.battle_stack;
            let first = s[d1 - 1];
            let second = seq_swap(s, d1 - 1, rem - 1)[d2 - 1];
            let a = crate::gng::stack_after_clash(s, d1, d2, rem);
            &&& first != second
            &&& a.len() == s.len()
            &&& a[rem - 1] == first
            &&& a[rem - 2] == second
            &&& forall|i: int| rem <= i < s.len() ==> #[trigger] a[i] == s[i]
            &&& a.no_duplicates()
            &&& a.to_set() == s.to_set()
            &&& forall|t: Token|
                #[trigger] a.subrange(0, rem - 2).contains(t) <==> (s.subrange(0, rem).contains(t) && t != first
                    && t != second)
        }),
{
    let s = m.battle_stack;
    let first = s[d1 - 1];
    let t1 = seq_swap(s, d1 - 1, rem - 1);
    let second = t1[d2 - 1];
    let a = crate::gng::stack_after_clash(s, d1, d2, rem);
    lemma_swap_no_duplicates(s, d1 - 1, rem - 1);
    lemma_swap_no_duplicates(t1, d2 - 1, rem - 2);
    assert(t1[rem - 1] == first);
    assert(a[rem - 1] == t1[rem - 1]);
    assert forall|t: Token| #[trigger] a.subrange(0, rem - 2).contains(t) <==> (s.subrange(0, rem).contains(t)
        && t != first && t != second) by {
        if a.subrange(0, rem - 2).contains(t) {
            let j = choose|j: int| 0 <= j < rem - 2 && #[trigger] a.subrange(0, rem - 2)[j] == t;
            assert(a[j] == t);
            let k = if j == d2 - 1 { rem - 2 } else { j };
            assert(t1[k] == t);
            let q = if k == d1 - 1 { rem - 1 } else if k == rem - 1 { d1 - 1 } else { k };
            assert(s[q] == t);
            assert(s.subrange(0, rem)[q] == t);
        }
        if s.subrange(0, rem).contains(t) && t != first && t != second {
            let k = choose|k: int| 0 <= k < rem && #[trigger] s.subrange(0, rem)[k] == t;
            assert(s[k] == t);
            assert(a.to_set().contains(t) == s.to_set().contains(t));
            assert(s.contains(t));
            assert(a.contains(t));
            let q = choose|q: int| 0 <= q < a.len() && #[trigger] a[q] == t;
            if q >= rem {
                assert(a[q] == s[q]);
            }
            assert(a.subrange(0, rem - 2)[q] == t);
        }
    }
}

/// A battle step leaves every user's claimable rewards as they were:
/// what is won in a battle is claimable once the battle is over.
pub proof fn law_battle_step_keeps_pending(m: GngView, run: BattleRunView, draws: Option<(usize, usize)>)
    requires
        m.reachable(),
        m.after_battle_step(run, draws) is Ok,
        run.remaining >= 2 ==> (draws matches Some((d1, d2)) && 1 <= d1 <= run.remaining && 1 <= d2
            <= run.remaining - 1),
    ensures
        forall|a: Address| #[trigger]
            m.after_battle_step(run, draws)->Ok_0.0.pending_total(a) == m.pending_total(a),
{
    let v = m.after_battle_step(run, draws)->Ok_0.0;
    if run.remaining >= 2 {
        let (d1, d2) = draws->Some_0;
        let rem = run.remaining as int;
        let s = m.battle_stack;
        let first = s[d1 - 1];
        let t1 = seq_swap(s, d1 - 1, rem - 1);
        let second = t1[d2 - 1];
        lemma_swap_same_items(s, d1 - 1, rem - 1);
        assert(s.contains(first));
        assert(t1.to_set().contains(second));
        assert(s.contains(second));
        match m.clash_plan(d1 as int, d2 as int, rem) {
            Ok((Some((owner, pending)), _, _)) => {
                let special = m.current_battle_special()->Ok_0;
                let out = spec_clash_outcome(first, m.config.token_attributes[first], second,
                    m.config.token_attributes[second], m.config.tiebreak_collections());
                let (winner, loser) = if out == ClashOutcome::FirstWins { (first, second) } else { (second, first) };
                let w = if special { loser } else { winner };
                assert(m.nft_owner.dom().contains(w));
                assert(owner == m.nft_owner[w]);
                assert(m.raw_pending_rewards_for_address.dom().contains(owner));
                let p = m.raw_pending_rewards_for_address[owner];
                if p.awaiting_battle_id != 0 && p.awaiting_battle_id < m.current_battle {
                    let add = m.clash_rewards(p.awaiting_battle_id, p.awaiting_power);
                    let t = m.stakers_rewards(p.awaiting_battle_id) as int;
                    let d = m.winner_power(p.awaiting_battle_id) as int;
                    if d != 0 {
                        lemma_mul_nonnegative(p.awaiting_power as int, t);
                        lemma_div_pos_is_pos(p.awaiting_power * t, d);
                    }
                    assert(add >= 0);
                }
                assert forall|a: Address| #[trigger] v.pending_total(a) == m.pending_total(a) by {
                    if a == owner {
                    }
                }
            },
            _ => {},
        }
    }
}

proof fn lemma_listing_once(m: GngView, address: Address, collections: Seq<TokenId>)
    requires
        m.listed_once(),
        collections.no_duplicates(),
    ensures
        m.staked_listing(address, collections).no_duplicates(),
        forall|t: Token| #[trigger]
            m.staked_listing(address, collections).contains(t) ==> collections.contains(t.token_id),
    decreases collections.len(),
{
    if collections.len() > 0 {
        let init = collections.drop_last();
        let id = collections.last();
        assert forall|i: int, j: int| 0 <= i < j < init.len() implies init[i] != init[j] by {
            assert(init[i] == collections[i] && init[j] == collections[j]);
        }
        lemma_listing_once(m, address, init);
        let before = m.staked_listing(address, init);
        let nonces = m.staked(address, id);
        let group = nonces.map_values(|n: Nonce| Token { token_id: id, nonce: n });
        let all = m.staked_listing(address, collections);
        assert(all == before + group);
        assert(nonces.no_duplicates()) by {
            let k = crate::model::HolderCollection { address, token_id: id };
            if m.staked_for_address.dom().contains(k) {
            }
        }
        assert(!init.contains(id)) by {
            if init.contains(id) {
                let i = choose|i: int| 0 <= i < init.len() && init[i] == id;
                assert(collections[i] == collections[collections.len() - 1]);
            }
        }
        assert forall|i: int, j: int| 0 <= i < all.len() && 0 <= j < all.len() && i != j implies all[i] != all[j] by {
            if i < before.len() && j >= before.len() {
                assert(before.contains(all[i]));
                assert(all[j].token_id == id);
            } else if j < before.len() && i >= before.len() {
                assert(before.contains(all[j]));
                assert(all[i].token_id == id);
            } else if i >= before.len() && j >= before.len() {
                assert(all[i].nonce == nonces[i - before.len()]);
                assert(all[j].nonce == nonces[j - before.len()]);
            }
        }
        assert forall|t: Token| #[trigger] all.contains(t) implies collections.contains(t.token_id) by {
            let i = choose|i: int| 0 <= i < all.len() && all[i] == t;
            if i < before.len() {
                assert(before[i] == t);
                assert(before.contains(t));
                let k = choose|k: int| 0 <= k < init.len() && init[k] == t.token_id;
                assert(collections[k] == t.token_id);
            } else {
                assert(collections[collections.len() - 1] == t.token_id);
            }
        }
    }
}

/// The staked NFTs of a user are listed once each.
pub proof fn law_staked_listing_once(m: GngView, address: Address)
    requires
        m.listed_once(),
    ensures
        m.staked_listing(address, m.config.battle_tokens).no_duplicates(),
{
    lemma_listing_once(m, address, m.config.battle_tokens);
}

proof fn lemma_withdraw_all_owners(b: GngView, caller: Address, in_battle: bool, tokens: Seq<Token>)
    ensures
        b.withdraw_all(caller, in_battle, tokens).nft_owner == b.nft_owner.remove_keys(tokens.to_set()),
    decreases tokens.len(),
{
    if tokens.len() > 0 {
        let init = tokens.drop_last();
        lemma_withdraw_all_owners(b, caller, in_battle, init);
        assert(tokens =~= init.push(tokens.last()));
        assert(tokens.to_set() =~= init.to_set().insert(tokens.last()));
        assert(b.withdraw_all(caller, in_battle, tokens).nft_owner =~= b.nft_owner.remove_keys(tokens.to_set()));
    } else {
        assert(tokens.to_set() =~= Set::empty());
        assert(b.nft_owner.remove_keys(tokens.to_set()) =~= b.nft_owner);
    }
}

proof fn lemma_withdraw_all_consistent(b: GngView, caller: Address, in_battle: bool, tokens: Seq<Token>)
    requires
        b.ownership_consistent(),
        b.battle_stack.no_duplicates(),
        forall|k: crate::model::HolderCollection| #[trigger]
            b.staked_for_address.dom().contains(k) ==> b.staked_for_address[k].no_duplicates(),
        tokens.no_duplicates(),
        forall|t: Token| #[trigger] tokens.contains(t) ==> b.nft_owner.dom().contains(t) && b.nft_owner[t] == caller,
        in_battle ==> b.remaining(b.current_battle) <= b.battle_stack.len(),
    ensures
        ({
            let w = b.withdraw_all(caller, in_battle, tokens);
            &&& w.ownership_consistent()
            &&& w.battle_stack.no_duplicates()
            &&& forall|k: crate::model::HolderCollection| #[trigger]
                w.staked_for_address.dom().contains(k) ==> w.staked_for_address[k].no_duplicates()
            &&& in_battle ==> w.remaining(w.current_battle) <= w.battle_stack.len()
            &&& w.remaining(w.current_battle) <= b.remaining(b.current_battle)
            &&& w.current_battle == b.current_battle
            &&& w.total_number_clashes_current_battle == b.total_number_clashes_current_battle
        }),
    decreases tokens.len(),
{
    if tokens.len() > 0 {
        let init = tokens.drop_last();
        let last = tokens.last();
        assert forall|t: Token| #[trigger] init.contains(t) implies b.nft_owner.dom().contains(t) && b.nft_owner[t] == caller by {
            let i = choose|i: int| 0 <= i < init.len() && init[i] == t;
            assert(tokens[i] == t);
            assert(tokens.contains(t));
        }
        assert forall|i: int, j: int| 0 <= i < j < init.len() implies init[i] != init[j] by {
            assert(tokens[i] == init[i] && tokens[j] == init[j]);
        }
        lemma_withdraw_all_consistent(b, caller, in_battle, init);
        lemma_withdraw_all_owners(b, caller, in_battle, init);
        assert(!init.contains(last)) by {
            if init.contains(last) {
                let i = choose|i: int| 0 <= i < init.len() && init[i] == last;
                assert(tokens[i] == tokens[tokens.len() - 1]);
            }
        }
        assert(tokens.contains(last));
        let w0 = b.withdraw_all(caller, in_battle, init);
        assert(!init.to_set().contains(last));
        assert(w0.nft_owner.dom().contains(last));
        crate::gng::lemma_withdraw_one(w0, caller, in_battle, last);
        assert(w0.battle_stack.contains(last));
        let idx = w0.battle_stack.index_of(last);
        assert(0 <= idx < w0.battle_stack.len());
    }
}

proof fn lemma_stake_staked_once(m: GngView, caller: Address, payments: Seq<Payment>, n: int)
    requires
        m.reachable(),
        m.first_payment_error(payments, payments.len() as int) is None,
        0 <= n <= payments.len(),
    ensures
        forall|k: crate::model::HolderCollection| #[trigger]
            crate::gng::staked_after(m.staked_for_address, caller, payments.take(n)).dom().contains(k)
                ==> crate::gng::staked_after(m.staked_for_address, caller, payments.take(n))[k].no_duplicates(),
    decreases n,
{
    if n == 0 {
        assert(payments.take(0).len() == 0);
    } else {
        lemma_stake_staked_once(m, caller, payments, n - 1);
        let prefix = payments.take(n - 1);
        let cur = payments.take(n);
        assert(cur.drop_last() =~= prefix);
        assert(cur.last() == payments[n - 1]);
        let p = payments[n - 1];
        let key = crate::model::HolderCollection { address: caller, token_id: p.token_id };
        crate::gng::lemma_first_error_none(m, payments, payments.len() as int, n - 1);
        crate::gng::lemma_staked_after_contains(m.staked_for_address, caller, prefix, key, p.nonce);
        let before = crate::gng::staked_after(m.staked_for_address, caller, prefix);
        let t = payment_token(p);
        assert(!m.nft_owner.dom().contains(t));
        assert(!m.staked(caller, p.token_id).contains(p.nonce));
        assert(payments.take(n - 1).map_values(|q: Payment| payment_token(q)) =~= prefix.map_values(
            |q: Payment| payment_token(q),
        ));
        assert(!value_or(before, key, Seq::empty()).contains(p.nonce));
        assert(value_or(before, key, Seq::<Nonce>::empty()).no_duplicates());
        crate::store::lemma_push_no_duplicates(value_or(before, key, Seq::empty()), p.nonce);
    }
}

proof fn lemma_stake_listed_once(m: GngView, caller: Address, now: u64, payments: Seq<Payment>)
    requires
        m.reachable(),
        m.after_stake(caller, now, payments) is Ok,
    ensures
        ({
            let v = m.after_stake(caller, now, payments)->Ok_0;
            &&& v.consistent()
            &&& v.battle_stack.no_duplicates()
            &&& forall|k: crate::model::HolderCollection| #[trigger]
                v.staked_for_address.dom().contains(k) ==> v.staked_for_address[k].no_duplicates()
        }),
{
    let v = m.after_stake(caller, now, payments)->Ok_0;
    let n = payments.len() as int;
    let tokens = payments.map_values(|q: Payment| payment_token(q));
    assert(v.raw_pending_rewards_for_address.dom() =~= m.raw_pending_rewards_for_address.dom().insert(caller));
    assert(v.stats_for_address.dom() =~= m.stats_for_address.dom().insert(caller));
    crate::gng::lemma_stake_consistent(m, caller, payments, v);
    lemma_stake_staked_once(m, caller, payments, n);
    assert(payments.take(n) =~= payments);
    assert forall|i: int, j: int| 0 <= i < v.battle_stack.len() && 0 <= j < v.battle_stack.len() && i != j
        implies v.battle_stack[i] != v.battle_stack[j] by {
        let l = m.battle_stack.len() as int;
        if i >= l {
            crate::gng::lemma_first_error_none(m, payments, n, i - l);
        }
        if j >= l {
            crate::gng::lemma_first_error_none(m, payments, n, j - l);
        }
        if i >= l && j >= l {
            let (lo, hi) = if i < j { (i - l, j - l) } else { (j - l, i - l) };
            crate::gng::lemma_first_error_none(m, payments, n, hi);
            assert(payments.take(hi).map_values(|q: Payment| payment_token(q))[lo] == tokens[lo]);
        } else if i >= l {
            assert(m.battle_stack.contains(v.battle_stack[j]));
        } else if j >= l {
            assert(m.battle_stack.contains(v.battle_stack[i]));
        }
    }
}

/// Between battles, withdrawing the NFTs just staked gives back the
/// contract as it was for who owns what: the same owners, the same NFTs
/// on the battle stack and the same staked nonces.
pub proof fn law_withdraw_restores_holdings(
    m: GngView,
    caller: Address,
    now: u64,
    payments: Seq<Payment>,
    later: u64,
)
    requires
        m.reachable(),
        m.after_stake(caller, now, payments) is Ok,
        m.after_stake(caller, now, payments)->Ok_0.battle_status(later) == Ok::<
            crate::model::BattleStatus,
            Error,
        >(crate::model::BattleStatus::Preparation),
        m.after_stake(caller, now, payments)->Ok_0.after_withdraw(
            caller,
            later,
            payments.map_values(|q: Payment| payment_token(q)),
        ) is Ok,
    ensures
        ({
            let tokens = payments.map_values(|q: Payment| payment_token(q));
            let w = m.after_stake(caller, now, payments)->Ok_0.after_withdraw(caller, later, tokens)->Ok_0.0;
            &&& w.nft_owner == m.nft_owner
            &&& forall|t: Token| #[trigger] w.battle_stack.contains(t) <==> m.battle_stack.contains(t)
            &&& forall|a: Address, id: TokenId, n: Nonce| #[trigger]
                w.staked(a, id).contains(n) <==> m.staked(a, id).contains(n)
        }),
{
    let tokens = payments.map_values(|q: Payment| payment_token(q));
    let n = payments.len() as int;
    let v = m.after_stake(caller, now, payments)->Ok_0;
    let claimed = v.after_claim_rewards(caller)->Ok_0.0;
    lemma_stake_listed_once(m, caller, now, payments);
    law_staked_nfts_battle(m, caller, now, payments);
    assert(claimed.nft_owner == v.nft_owner && claimed.battle_stack == v.battle_stack
        && claimed.staked_for_address == v.staked_for_address);
    assert(claimed.stats_for_address.dom() =~= v.stats_for_address.dom());
    assert(claimed.raw_pending_rewards_for_address.dom() =~= v.raw_pending_rewards_for_address.dom());
    crate::gng::lemma_ownership_frame(v, claimed);
    assert forall|i: int, j: int| 0 <= i < j < tokens.len() implies tokens[i] != tokens[j] by {
        crate::gng::lemma_first_error_none(m, payments, n, j);
        assert(payments.take(j).map_values(|q: Payment| payment_token(q))[i] == tokens[i]);
    }
    assert forall|t: Token| #[trigger] tokens.contains(t) implies claimed.nft_owner.dom().contains(t)
        && claimed.nft_owner[t] == caller by {
        let i = choose|i: int| 0 <= i < tokens.len() && tokens[i] == t;
        assert(payment_token(payments[i]) == t);
    }
    lemma_withdraw_all_consistent(claimed, caller, false, tokens);
    lemma_withdraw_all_owners(claimed, caller, false, tokens);
    lemma_withdraw_all_frame(claimed, caller, false, tokens);
    let after = claimed.withdraw_all(caller, false, tokens);
    let w = v.after_withdraw(caller, later, tokens)->Ok_0.0;
    assert(w.stats_for_address.dom() =~= after.stats_for_address.dom());
    crate::gng::lemma_ownership_frame(after, w);
    assert forall|t: Token| #[trigger] tokens.contains(t) implies !m.nft_owner.dom().contains(t) by {
        let i = choose|i: int| 0 <= i < tokens.len() && tokens[i] == t;
        crate::gng::lemma_first_error_none(m, payments, n, i);
    }
    assert(w.nft_owner =~= m.nft_owner);
    assert forall|t: Token| #[trigger] w.battle_stack.contains(t) <==> m.battle_stack.contains(t) by {
        assert(w.battle_stack.contains(t) <==> w.nft_owner.dom().contains(t));
        assert(m.battle_stack.contains(t) <==> m.nft_owner.dom().contains(t));
    }
    assert forall|a: Address, id: TokenId, k: Nonce| #[trigger]
        w.staked(a, id).contains(k) <==> m.staked(a, id).contains(k) by {
        let t = Token { token_id: id, nonce: k };
        if w.staked(a, id).contains(k) {
            assert(w.nft_owner.dom().contains(t) && w.nft_owner[t] == a);
        }
        if m.staked(a, id).contains(k) {
            assert(m.nft_owner.dom().contains(t) && m.nft_owner[t] == a);
        }
    }
}

/// A battle step uses up two NFTs still to fight for each clash it fights:
/// twice the clashes done plus the NFTs left never grows.
pub proof fn law_step_uses_up_nfts(m: GngView, run: BattleRunView, draws: Option<(usize, usize)>)
    requires
        m.after_battle_step(run, draws) is Ok,
    ensures
        ({
            let next = m.after_battle_step(run, draws)->Ok_0.1;
            2 * next.clashes_done + next.remaining <= 2 * run.clashes_done + run.remaining
        }),
{
}

/// The first transaction of a battle counts its clashes: half the NFTs on
/// the stack, all of them left to fight. A later transaction of the same
/// battle starts from the NFTs left by the one before and changes nothing
/// before its steps. (The stack is held in memory, so its length fits in
/// a `usize`.)
pub proof fn law_battle_begin_counts_clashes(m: GngView, now: u64)
    requires
        m.battle_stack.len() <= usize::MAX,
        m.after_battle_begin(now) is Ok,
    ensures
        ({
            let (v, run) = m.after_battle_begin(now)->Ok_0;
            &&& run.clashes_done == 0
            &&& run.battle == m.current_battle
            &&& !m.started(m.current_battle) ==> {
                &&& run.remaining == m.battle_stack.len()
                &&& v.total_number_clashes_current_battle == m.battle_stack.len() / 2
            }
            &&& m.started(m.current_battle) ==> v == m && run.remaining == m.remaining(m.current_battle)
        }),
{
}

/// The end of a battle transaction saves the NFTs left to fight, and keeps
/// the number of clashes of the battle.
pub proof fn law_battle_finish_saves_remaining(m: GngView, run: BattleRunView, completed: bool)
    requires
        m.after_battle_finish(run, completed) is Ok,
    ensures
        ({
            let v = m.after_battle_finish(run, completed)->Ok_0.0;
            &&& v.remaining(m.current_battle) == run.remaining
            &&& v.total_number_clashes_current_battle == m.total_number_clashes_current_battle
        }),
{
}

/// Over all the transactions of a battle, the operators are paid at most
/// the operators' pool. Transaction `i` starts with `starts[i]` NFTs left
/// to fight, leaves `ends[i]` and fights `clashes[i]` clashes, two NFTs
/// each; the next one starts with at most what the last one left (a
/// withdrawal can only take NFTs away); the first starts with at most the
/// NFTs whose half is the battle's number of clashes.
pub proof fn law_operators_paid_within_pool_over_battle(
    m: GngView,
    battle: u64,
    starts: Seq<int>,
    ends: Seq<int>,
    clashes: Seq<u64>,
)
    requires
        starts.len() == clashes.len(),
        ends.len() == clashes.len(),
        clashes.len() > 0 ==> starts[0] <= 2 * m.total_number_clashes_current_battle + 1,
        forall|i: int| 0 <= i < clashes.len() ==> 2 * clashes[i] + #[trigger] ends[i] <= starts[i] && ends[i] >= 0,
        forall|i: int| 0 < i < clashes.len() ==> #[trigger] starts[i] <= ends[i - 1],
    ensures
        seq_sum(clashes) <= m.total_number_clashes_current_battle,
        rewards_of_operators(m, battle, clashes) <= m.operators_rewards(battle),
{
    if clashes.len() > 0 {
        lemma_clashes_telescope(starts, ends, clashes, clashes.len() as int);
        assert(clashes.take(clashes.len() as int) =~= clashes);
    }
    law_operators_rewards_within_pool(m, battle, clashes);
}

proof fn lemma_clashes_telescope(starts: Seq<int>, ends: Seq<int>, clashes: Seq<u64>, n: int)
    requires
        0 < n <= clashes.len(),
        starts.len() == clashes.len(),
        ends.len() == clashes.len(),
        forall|i: int| 0 <= i < clashes.len() ==> 2 * clashes[i] + #[trigger] ends[i] <= starts[i] && ends[i] >= 0,
        forall|i: int| 0 < i < clashes.len() ==> #[trigger] starts[i] <= ends[i - 1],
    ensures
        2 * seq_sum(clashes.take(n)) + ends[n - 1] <= starts[0],
    decreases n,
{
    assert(clashes.take(n).drop_last() =~= clashes.take(n - 1));
    assert(clashes.take(n).last() == clashes[n - 1]);
    assert(seq_sum(clashes.take(n)) == seq_sum(clashes.take(n - 1)) + clashes[n - 1]);
    assert(2 * clashes[n - 1] + ends[n - 1] <= starts[n - 1]);
    if n > 1 {
        lemma_clashes_telescope(starts, ends, clashes, n - 1);
        assert(ends[n - 1] >= 0);
        assert(starts[n - 1] <= ends[n - 2]);
    } else {
        assert(clashes.take(0) =~= Seq::<u64>::empty());
    }
}

/// A withdrawal never adds NFTs left to fight in the current battle, and
/// keeps the battle's number of clashes.
pub proof fn law_withdraw_never_adds_remaining(m: GngView, caller: Address, now: u64, tokens: Seq<Token>)
    requires
        m.reachable(),
        m.after_withdraw(caller, now, tokens) is Ok,
    ensures
        ({
            let w = m.after_withdraw(caller, now, tokens)->Ok_0.0;
            &&& w.current_battle == m.current_battle
            &&& w.remaining(m.current_battle) <= m.remaining(m.current_battle)
            &&& w.total_number_clashes_current_battle == m.total_number_clashes_current_battle
        }),
{
    let claimed = m.after_claim_rewards(caller)->Ok_0.0;
    let in_battle = m.battle_status(now) == Ok::<crate::model::BattleStatus, Error>(
        crate::model::BattleStatus::Battle,
    );
    let n = tokens.len() as int;
    assert(claimed.stats_for_address.dom() =~= m.stats_for_address.dom());
    assert(claimed.raw_pending_rewards_for_address.dom() =~= m.raw_pending_rewards_for_address.dom());
    crate::gng::lemma_ownership_frame(m, claimed);
    assert forall|i: int, j: int| 0 <= i < j < tokens.len() implies tokens[i] != tokens[j] by {
        lemma_first_withdraw_error_none_at(m, caller, in_battle, tokens, n, j);
        assert(tokens.take(j)[i] == tokens[i]);
    }
    assert forall|t: Token| #[trigger] tokens.contains(t) implies claimed.nft_owner.dom().contains(t)
        && claimed.nft_owner[t] == caller by {
        let i = choose|i: int| 0 <= i < tokens.len() && tokens[i] == t;
        lemma_first_withdraw_error_none_at(m, caller, in_battle, tokens, n, i);
    }
    if n > 0 {
        lemma_first_withdraw_error_none_at(m, caller, in_battle, tokens, n, 0);
        lemma_withdraw_all_consistent(claimed, caller, in_battle, tokens);
    }
}

proof fn lemma_first_withdraw_error_none_at(
    m: GngView,
    caller: Address,
    in_battle: bool,
    tokens: Seq<Token>,
    k: int,
    i: int,
)
    requires
        0 <= i < k,
        m.first_withdraw_error(caller, in_battle, tokens, k) is None,
    ensures
        m.withdraw_error(caller, in_battle, tokens, i) is None,
    decreases k - i,
{
    if i < k - 1 {
        lemma_first_withdraw_error_none_at(m, caller, in_battle, tokens, k - 1, i);
    }
}

/// The NFTs left to fight, as a set.
pub open spec fn left_to_fight(m: GngView) -> Set<Token> {
    m.battle_stack.subrange(0, m.remaining(m.current_battle) as int).to_set()
}

proof fn lemma_withdraw_one_left(b: GngView, caller: Address, t: Token)
    requires
        b.battle_stack.no_duplicates(),
        b.battle_stack.contains(t),
        b.remaining(b.current_battle) <= b.battle_stack.len(),
    ensures
        ({
            let v = b.withdraw_one(caller, true, t);
            &&& left_to_fight(v) == left_to_fight(b).remove(t)
            &&& v.battle_stack.to_set() == b.battle_stack.to_set().remove(t)
            &&& v.battle_stack.no_duplicates()
            &&& v.remaining(v.current_battle) <= v.battle_stack.len()
        }),
{
    let s = b.battle_stack;
    let i = s.index_of(t);
    let rem = b.remaining(b.current_battle) as int;
    let v = b.withdraw_one(caller, true, t);
    assert(0 <= i < s.len() && s[i] == t);
    if i + 1 <= rem {
        let s1 = seq_swap(s, i, rem - 1);
        lemma_swap_no_duplicates(s, i, rem - 1);
        assert(s1[rem - 1] == t);
        lemma_index_of_unique(s1, rem - 1);
        lemma_swap_remove_no_duplicates(s1, rem - 1);
        let a = v.battle_stack;
        assert(v.remaining(v.current_battle) == rem - 1);
        assert forall|x: Token| #[trigger] left_to_fight(v).contains(x) <==> left_to_fight(b).remove(t).contains(x) by {
            if left_to_fight(v).contains(x) {
                assert(a.subrange(0, rem - 1).contains(x));
                let j = choose|j: int| 0 <= j < rem - 1 && #[trigger] a.subrange(0, rem - 1)[j] == x;
                assert(a[j] == s1[j]);
                let q = if j == i { rem - 1 } else { j };
                assert(s[q] == x);
                assert(s.subrange(0, rem)[q] == x);
                assert(s.subrange(0, rem).contains(x));
                assert(x != t);
            }
            if left_to_fight(b).remove(t).contains(x) {
                assert(s.subrange(0, rem).contains(x));
                let k = choose|k: int| 0 <= k < rem && #[trigger] s.subrange(0, rem)[k] == x;
                assert(s[k] == x);
                assert(k != i);
                let q = if k == rem - 1 { i } else { k };
                assert(s1[q] == x);
                assert(q < rem - 1);
                assert(a[q] == x);
                assert(a.subrange(0, rem - 1)[q] == x);
                assert(a.subrange(0, rem - 1).contains(x));
            }
        }
        assert(left_to_fight(v) =~= left_to_fight(b).remove(t));
    } else {
        lemma_index_of_unique(s, i);
        lemma_swap_remove_no_duplicates(s, i);
        let a = v.battle_stack;
        assert(v.remaining(v.current_battle) == rem);
        assert forall|x: Token| #[trigger] left_to_fight(v).contains(x) <==> left_to_fight(b).remove(t).contains(x) by {
            if left_to_fight(v).contains(x) {
                assert(a.subrange(0, rem).contains(x));
                let j = choose|j: int| 0 <= j < rem && #[trigger] a.subrange(0, rem)[j] == x;
                assert(a[j] == s[j]);
                assert(s.subrange(0, rem)[j] == x);
                assert(s.subrange(0, rem).contains(x));
            }
            if left_to_fight(b).remove(t).contains(x) {
                let k = choose|k: int| 0 <= k < rem && #[trigger] s.subrange(0, rem)[k] == x;
                assert(a[k] == x);
                assert(a.subrange(0, rem)[k] == x);
                assert(a.subrange(0, rem).contains(x));
            }
        }
        assert(left_to_fight(v) =~= left_to_fight(b).remove(t));
    }
}

proof fn lemma_withdraw_all_left(b: GngView, caller: Address, in_battle: bool, tokens: Seq<Token>)
    requires
        b.ownership_consistent(),
        b.battle_stack.no_duplicates(),
        forall|k: crate::model::HolderCollection| #[trigger]
            b.staked_for_address.dom().contains(k) ==> b.staked_for_address[k].no_duplicates(),
        tokens.no_duplicates(),
        forall|t: Token| #[trigger] tokens.contains(t) ==> b.nft_owner.dom().contains(t) && b.nft_owner[t] == caller,
        in_battle ==> b.remaining(b.current_battle) <= b.battle_stack.len(),
    ensures
        ({
            let w = b.withdraw_all(caller, in_battle, tokens);
            &&& w.battle_stack.to_set() == b.battle_stack.to_set().difference(tokens.to_set())
            &&& in_battle ==> left_to_fight(w) == left_to_fight(b).difference(tokens.to_set())
            &&& !in_battle ==> w.remaining(w.current_battle) == b.remaining(b.current_battle)
        }),
    decreases tokens.len(),
{
    if tokens.len() > 0 {
        let init = tokens.drop_last();
        let last = tokens.last();
        assert forall|t: Token| #[trigger] init.contains(t) implies b.nft_owner.dom().contains(t) && b.nft_owner[t] == caller by {
            let i = choose|i: int| 0 <= i < init.len() && init[i] == t;
            assert(tokens[i] == t);
            assert(tokens.contains(t));
        }
        assert forall|i: int, j: int| 0 <= i < j < init.len() implies init[i] != init[j] by {
            assert(tokens[i] == init[i] && tokens[j] == init[j]);
        }
        lemma_withdraw_all_left(b, caller, in_battle, init);
        lemma_withdraw_all_consistent(b, caller, in_battle, init);
        lemma_withdraw_all_owners(b, caller, in_battle, init);
        assert(!init.contains(last)) by {
            if init.contains(last) {
                let i = choose|i: int| 0 <= i < init.len() && init[i] == last;
                assert(tokens[i] == tokens[tokens.len() - 1]);
            }
        }
        assert(tokens.contains(last));
        let w0 = b.withdraw_all(caller, in_battle, init);
        assert(!init.to_set().contains(last));
        assert(w0.nft_owner.dom().contains(last));
        assert(w0.battle_stack.contains(last));
        assert(tokens =~= init.push(last));
        assert(tokens.to_set() =~= init.to_set().insert(last));
        if in_battle {
            lemma_withdraw_one_left(w0, caller, last);
            assert(left_to_fight(w0).remove(last) =~= left_to_fight(b).difference(tokens.to_set()));
        } else {
            let i = w0.battle_stack.index_of(last);
            lemma_index_of_unique(w0.battle_stack, i);
            lemma_swap_remove_no_duplicates(w0.battle_stack, i);
        }
        assert(w0.battle_stack.to_set().remove(last) =~= b.battle_stack.to_set().difference(tokens.to_set()));
    } else {
        assert(tokens.to_set() =~= Set::<Token>::empty());
        assert(b.battle_stack.to_set().difference(tokens.to_set()) =~= b.battle_stack.to_set());
        assert(left_to_fight(b).difference(tokens.to_set()) =~= left_to_fight(b));
    }
}

/// A withdrawal takes its NFTs off the battle stack. During a battle, the
/// NFTs left to fight are those that were, but the withdrawn ones; between
/// battles, the number left to fight does not change.
pub proof fn law_withdraw_leaves_the_rest_to_fight(m: GngView, caller: Address, now: u64, tokens: Seq<Token>)
    requires
        m.reachable(),
        m.after_withdraw(caller, now, tokens) is Ok,
    ensures
        ({
            let w = m.after_withdraw(caller, now, tokens)->Ok_0.0;
            let in_battle = m.battle_status(now) == Ok::<crate::model::BattleStatus, Error>(
                crate::model::BattleStatus::Battle,
            );
            &&& w.battle_stack.to_set() == m.battle_stack.to_set().difference(tokens.to_set())
            &&& in_battle ==> left_to_fight(w) == left_to_fight(m).difference(tokens.to_set())
            &&& in_battle ==> w.remaining(w.current_battle) == m.remaining(m.current_battle)
                - left_to_fight(m).intersect(tokens.to_set()).len()
            &&& !in_battle ==> w.remaining(w.current_battle) == m.remaining(m.current_battle)
        }),
{
    let claimed = m.after_claim_rewards(caller)->Ok_0.0;
    let in_battle = m.battle_status(now) == Ok::<crate::model::BattleStatus, Error>(
        crate::model::BattleStatus::Battle,
    );
    let n = tokens.len() as int;
    assert(claimed.stats_for_address.dom() =~= m.stats_for_address.dom());
    assert(claimed.raw_pending_rewards_for_address.dom() =~= m.raw_pending_rewards_for_address.dom());
    crate::gng::lemma_ownership_frame(m, claimed);
    assert forall|i: int, j: int| 0 <= i < j < tokens.len() implies tokens[i] != tokens[j] by {
        lemma_first_withdraw_error_none_at(m, caller, in_battle, tokens, n, j);
        assert(tokens.take(j)[i] == tokens[i]);
    }
    assert forall|t: Token| #[trigger] tokens.contains(t) implies claimed.nft_owner.dom().contains(t)
        && claimed.nft_owner[t] == caller by {
        let i = choose|i: int| 0 <= i < tokens.len() && tokens[i] == t;
        lemma_first_withdraw_error_none_at(m, caller, in_battle, tokens, n, i);
    }
    if n > 0 {
        lemma_first_withdraw_error_none_at(m, caller, in_battle, tokens, n, 0);
    }
    if n > 0 || !in_battle {
        lemma_withdraw_all_left(claimed, caller, in_battle, tokens);
    } else {
        assert(tokens.to_set() =~= Set::<Token>::empty());
        assert(m.battle_stack.to_set().difference(tokens.to_set()) =~= m.battle_stack.to_set());
        assert(left_to_fight(m).difference(tokens.to_set()) =~= left_to_fight(m));
        assert(left_to_fight(m).intersect(tokens.to_set()) =~= Set::<Token>::empty());
    }
    if in_battle && n > 0 {
        lemma_withdraw_all_consistent(claimed, caller, in_battle, tokens);
        let w = m.after_withdraw(caller, now, tokens)->Ok_0.0;
        let after = claimed.withdraw_all(caller, in_battle, tokens);
        lemma_left_count(m);
        lemma_left_count(after);
        assert(left_to_fight(w) == left_to_fight(after));
        vstd::set_lib::lemma_set_difference_len(left_to_fight(m), tokens.to_set());
    }
}

/// Where the NFTs left to fight are on the stack, which holds each NFT
/// once, their number is the size of their set.
proof fn lemma_left_count(m: GngView)
    requires
        m.battle_stack.no_duplicates(),
        m.remaining(m.current_battle) <= m.battle_stack.len(),
    ensures
        left_to_fight(m).len() == m.remaining(m.current_battle),
        left_to_fight(m).finite(),
{
    let p = m.battle_stack.subrange(0, m.remaining(m.current_battle) as int);
    assert(p.no_duplicates());
    p.unique_seq_to_set();
    vstd::seq_lib::seq_to_set_is_finite(p);
}

/// The end of a battle transaction changes what users can claim only when
/// it completes the battle: then each user gains its share of the battle's
/// rewards for the power it won in it. Together with the steps, which
/// change no claimable rewards, a user's claimable rewards add up its
/// shares of the battles it won in since it last claimed.
pub proof fn law_completed_battle_adds_shares(m: GngView, run: BattleRunView, completed: bool)
    requires
        m.reachable(),
        m.after_battle_finish(run, completed) is Ok,
    ensures
        forall|a: Address| #[trigger]
            m.after_battle_finish(run, completed)->Ok_0.0.pending_total(a) == m.pending_total(a) + (
            if completed && m.raw_pending_rewards_for_address.dom().contains(a)
                && m.raw_pending_rewards_for_address[a].awaiting_battle_id == m.current_battle {
                m.after_battle_finish(run, completed)->Ok_0.0.clash_rewards(
                    m.current_battle,
                    m.raw_pending_rewards_for_address[a].awaiting_power,
                )
            } else {
                0
            }),
{
    let v = m.after_battle_finish(run, completed)->Ok_0.0;
    assert forall|a: Address| #[trigger] v.pending_total(a) == m.pending_total(a) + (
        if completed && m.raw_pending_rewards_for_address.dom().contains(a)
            && m.raw_pending_rewards_for_address[a].awaiting_battle_id == m.current_battle {
            v.clash_rewards(m.current_battle, m.raw_pending_rewards_for_address[a].awaiting_power)
        } else {
            0
        }) by {
        if m.raw_pending_rewards_for_address.dom().contains(a) {
            let p = m.raw_pending_rewards_for_address[a];
            assert(v.raw_pending_rewards_for_address == m.raw_pending_rewards_for_address);
            if p.awaiting_battle_id != 0 && p.awaiting_battle_id != m.current_battle {
                assert(v.winner_power(p.awaiting_battle_id) == m.winner_power(p.awaiting_battle_id));
                assert(v.stakers_rewards(p.awaiting_battle_id) == m.stakers_rewards(p.awaiting_battle_id));
                assert(p.awaiting_battle_id != v.current_battle);
            }
            if completed {
                assert(v.current_battle == m.current_battle + 1);
            } else {
                assert(v.current_battle == m.current_battle);
            }
        }
    }
}

/// The state, run and last step after the steps of a battle transaction
/// drawn as `draws` says, stopping at the first step that ends the battle.
pub open spec fn steps_outcome(m: GngView, run: BattleRunView, draws: Seq<Option<(usize, usize)>>) -> Result<
    (GngView, BattleRunView, LoopOp),
    Error,
>
    decreases draws.len(),
{
    if draws.len() == 0 {
        Ok((m, run, LoopOp::Continue))
    } else {
        match m.after_battle_step(run, draws[0]) {
            Err(e) => Err(e),
            Ok((v, next, op, _)) => if op == LoopOp::Break {
                Ok((v, next, op))
            } else {
                steps_outcome(v, next, draws.drop_first())
            },
        }
    }
}

/// Steps that end the battle have fought every pair of NFTs left to fight:
/// as many clashes as half of them, rounded down, and none left.
pub proof fn law_completed_steps_fight_all(
    m: GngView,
    run: BattleRunView,
    draws: Seq<Option<(usize, usize)>>,
)
    requires
        steps_outcome(m, run, draws) matches Ok((_, _, op)) && op == LoopOp::Break,
    ensures
        ({
            let (v, fin, _) = steps_outcome(m, run, draws)->Ok_0;
            &&& fin.remaining == 0
            &&& fin.clashes_done == run.clashes_done + run.remaining / 2
            &&& fin.battle == run.battle
            &&& v.current_battle == m.current_battle
        }),
    decreases draws.len(),
{
    let (v, next, op, _) = m.after_battle_step(run, draws[0])->Ok_0;
    if op != LoopOp::Break {
        law_completed_steps_fight_all(v, next, draws.drop_first());
    }
}

/// The power won in a battle transaction adds up over the transactions of
/// the battle: one that fought clashes adds the power its winners won to the
/// battle's winner power, which the stakers' shares are taken by; one that
/// fought none leaves it as it was.
pub proof fn law_finish_adds_winner_power(m: GngView, run: BattleRunView, completed: bool)
    requires
        m.after_battle_finish(run, completed) is Ok,
    ensures
        ({
            let v = m.after_battle_finish(run, completed)->Ok_0.0;
            &&& run.clashes_done > 0 ==> v.winner_power(m.current_battle) == m.winner_power(m.current_battle)
                + run.total_winner_power
            &&& run.clashes_done == 0 ==> v.winner_power(m.current_battle) == m.winner_power(m.current_battle)
            &&& forall|b: u64| b != m.current_battle ==> #[trigger] v.winner_power(b) == m.winner_power(b)
            &&& v.stakers_rewards(m.current_battle) == m.stakers_rewards(m.current_battle)
        }),
{
}

/// A clash step adds the power of the rewarded NFT to the power won in the
/// transaction, and a draw adds nothing.
pub proof fn law_step_adds_rewarded_power(m: GngView, run: BattleRunView, draws: Option<(usize, usize)>)
    requires
        m.after_battle_step(run, draws) is Ok,
        run.remaining >= 2,
    ensures
        ({
            let (v, next, _, event) = m.after_battle_step(run, draws)->Ok_0;
            match event {
                Some(crate::events::BattleEvent::Clash(e)) => {
                    &&& e.is_draw ==> next.total_winner_power == run.total_winner_power
                    &&& !e.is_draw ==> next.total_winner_power == run.total_winner_power
                        + m.config.token_attributes[e.winner].power
                },
                _ => false,
            }
        }),
{
}

/// A won clash credits the rewarded owner with the rewarded NFT's power for
/// the current battle. Where the owner already awaits the current battle,
/// the power adds to what it awaits, so that all its wins of the battle
/// count; where it awaits an earlier battle, the rewards of that battle are
/// computed first and kept; where it awaits none, the power starts the
/// awaited power.
pub proof fn law_win_adds_awaited_power(m: GngView, winner: Token, loser: Token)
    requires
        m.reachable(),
        m.reward_update(winner, loser) is Ok,
    ensures
        ({
            let (owner, p, e, power) = m.reward_update(winner, loser)->Ok_0;
            let before = m.raw_pending_rewards_for_address[owner];
            &&& power == m.config.token_attributes[e.winner].power
            &&& owner == m.nft_owner[e.winner]
            &&& p.awaiting_battle_id == m.current_battle
                || (before.awaiting_battle_id > m.current_battle && p.awaiting_battle_id == before.awaiting_battle_id)
            &&& before.awaiting_battle_id == m.current_battle ==> {
                &&& p.awaiting_power == before.awaiting_power + power
                &&& p.calculated_rewards == before.calculated_rewards
            }
            &&& before.awaiting_battle_id == 0 ==> {
                &&& p.awaiting_power == power
                &&& p.calculated_rewards == before.calculated_rewards
            }
            &&& 0 < before.awaiting_battle_id < m.current_battle ==> {
                &&& p.awaiting_power == power
                &&& p.calculated_rewards == before.calculated_rewards + m.clash_rewards(
                    before.awaiting_battle_id,
                    before.awaiting_power,
                )
            }
        }),
{
    let (owner, p, e, power) = m.reward_update(winner, loser)->Ok_0;
    let before = m.raw_pending_rewards_for_address[owner];
    if 0 < before.awaiting_battle_id < m.current_battle {
        crate::gng::lemma_clash_rewards_nonnegative(m, before.awaiting_battle_id, before.awaiting_power);
    }
}

/// Between NFTs of equal power, only the listed rules decide: an Emidas
/// Genesis against another collection, a Gnogon against a Validator, two
/// Gnogons by their heart, two Validators by their ram. Any other pair of
/// collections is a draw.
pub proof fn law_other_ties_are_draws(
    first: Token,
    first_attr: Attributes,
    second: Token,
    second_attr: Attributes,
    ids: TiebreakCollections,
)
    requires
        first_attr.power == second_attr.power,
    ensures
        ({
            let a = first.token_id;
            let b = second.token_id;
            let out = spec_clash_outcome(first, first_attr, second, second_attr, ids);
            &&& ((a == ids.emidas) == (b == ids.emidas) && !(a == ids.gnogon && b == ids.validator) && !(a
                == ids.validator && b == ids.gnogon) && !(a == ids.gnogon && b == ids.gnogon) && !(a
                == ids.validator && b == ids.validator)) ==> out == ClashOutcome::Draw
            &&& (a != ids.emidas && b == ids.emidas) ==> out == ClashOutcome::SecondWins
            &&& (a != ids.emidas && b != ids.emidas && a == ids.validator && b == ids.gnogon && ids.gnogon
                != ids.validator) ==> out == ClashOutcome::SecondWins
            &&& (a != ids.emidas && b != ids.emidas && a == ids.gnogon && b == ids.gnogon && ids.gnogon
                != ids.validator) ==> (out
                == ClashOutcome::Draw <==> first_attr.heart == second_attr.heart) && (out
                == ClashOutcome::FirstWins <==> first_attr.heart > second_attr.heart)
            &&& (a != ids.emidas && b != ids.emidas && a != ids.gnogon && b != ids.gnogon && a == ids.validator
                && b == ids.validator) ==> (out == ClashOutcome::Draw <==> first_attr.ram == second_attr.ram)
                && (out == ClashOutcome::FirstWins <==> first_attr.ram > second_attr.ram)
        }),
{
}

/// Switching modes keeps the schedule: from daily battles, the current
/// battle starts when it would have; from weekly battles, it starts a day
/// after the last weekly battle, or when it would have where the period has
/// had no battle yet. The current battle becomes the first of the new
/// period.
pub proof fn law_switch_keeps_schedule(m: GngView, caller: Address, now: u64, mode: BattleMode)
    requires
        m.reachable(),
        m.after_switch_mode(caller, now, mode) is Ok,
    ensures
        ({
            let v = m.after_switch_mode(caller, now, mode)->Ok_0;
            &&& v.battle_mode == mode
            &&& v.current_battle == m.current_battle
            &&& v.current_battle - v.past_battle_amount == 1
            &&& m.battle_mode == BattleMode::Daily ==> v.battle_start() == m.battle_start()
            &&& m.battle_mode == BattleMode::Weekly && m.current_battle == m.past_battle_amount + 1
                ==> v.battle_start() == m.battle_start()
            &&& m.battle_mode == BattleMode::Weekly && m.current_battle != m.past_battle_amount + 1
                ==> v.battle_start() == m.battle_start() - 604800 + 86400
        }),
{
    let v = m.after_switch_mode(caller, now, mode)->Ok_0;
    assert(v.current_battle - v.past_battle_amount - 1 == 0);
    let dv = spec_battle_duration(v.battle_mode);
    assert(dv * (v.current_battle - v.past_battle_amount - 1) == 0) by (nonlinear_arith)
        requires
            v.current_battle - v.past_battle_amount - 1 == 0,
    ;
    let dm = spec_battle_duration(m.battle_mode);
    if m.current_battle == m.past_battle_amount + 1 {
        assert(dm * (m.current_battle - m.past_battle_amount - 1) == 0) by (nonlinear_arith)
            requires
                m.current_battle - m.past_battle_amount - 1 == 0,
        ;
    }
    let k = m.current_battle - m.past_battle_amount - 1;
    if m.battle_mode == BattleMode::Weekly && m.current_battle != m.past_battle_amount + 1 {
        assert(604800 * k == 604800 * (k - 1) + 604800) by (nonlinear_arith);
    }
}

/// In weekly mode a battle is special exactly when its number within the
/// period is a multiple of the recurrence: the seventh, fourteenth, ...
/// battle since the last switch. Shifting the battle and the battles before
/// the period by the same amount keeps it so.
pub proof fn law_weekly_special_by_period(m: GngView, shift: u64)
    requires
        m.battle_mode == BattleMode::Weekly,
        m.current_battle >= m.past_battle_amount,
        m.current_battle + shift <= u64::MAX,
    ensures
        m.current_battle_special() == Ok::<bool, Error>(
            (m.current_battle - m.past_battle_amount) % 7 == 0,
        ),
        m.current_battle - m.past_battle_amount == 7 ==> m.current_battle_special() == Ok::<bool, Error>(true),
        1 <= m.current_battle - m.past_battle_amount < 7 ==> m.current_battle_special() == Ok::<bool, Error>(
            false,
        ),
        (GngView {
            current_battle: (m.current_battle + shift) as u64,
            past_battle_amount: (m.past_battle_amount + shift) as u64,
            ..m
        }).current_battle_special() == m.current_battle_special(),
{
}

} // verus!
