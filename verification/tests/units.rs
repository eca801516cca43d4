use gng_minting::clash::{clash_outcome, handle_tiebreak, ClashOutcome, TiebreakCollections};
use gng_minting::error::Error;
use gng_minting::gng::GngMinting;
use gng_minting::model::{Attributes, BattleMode, BattleStatus, Payment, Token};
use gng_minting::operations::{LoopOp, OngoingOperationModule, OperationCompletionStatus, MIN_GAS_TO_SAVE_PROGRESS};
use gng_minting::amount::Amount;
use gng_minting::schedule::{
    battle_duration, battle_start_timestamp, is_special_week, is_sunday, ONE_DAY_TIMESTAMP, ONE_WEEK_TIMESTAMP,
};
use gng_minting::store::{Store, UnorderedSet};

const OWNER: u64 = 1;
const ADMIN: u64 = 2;
const USER: u64 = 11;
const GNG: u64 = 100;
const EMIDAS: u64 = 201;
const GNOGON: u64 = 203;
const VALIDATOR: u64 = 204;
const OTHER: u64 = 299;

fn gng(x: u128) -> Amount {
    Amount::from_u128(x)
}

fn ids() -> TiebreakCollections {
    TiebreakCollections { emidas: EMIDAS, gnogon: GNOGON, validator: VALIDATOR }
}

fn attrs(power: u16, heart: u16, ram: u16) -> Attributes {
    Attributes { power, heart, ram }
}

fn nft(token_id: u64, nonce: u64) -> Token {
    Token { token_id, nonce }
}

fn active_contract(stakers: u128, operators: u128, deposit: u128) -> GngMinting {
    let mut c = GngMinting::init(OWNER, 1000, 5000, GNG).unwrap();
    c.set_battle_token(OWNER, EMIDAS, 202, GNOGON, VALIDATOR, 205).unwrap();
    c.set_attributes(OWNER, &vec![(GNOGON, 1, 70, 1, 1), (VALIDATOR, 1, 30, 1, 1), (EMIDAS, 1, 15, 1, 1)]).unwrap();
    c.add_admin(OWNER, ADMIN).unwrap();
    c.set_daily_reward_amount(OWNER, gng(stakers)).unwrap();
    c.set_base_battle_reward_amount(OWNER, gng(operators)).unwrap();
    if deposit > 0 {
        c.deposit_gng(ADMIN, &vec![Payment { token_id: GNG, nonce: 0, amount: gng(deposit) }]).unwrap();
    }
    c.resume(OWNER).unwrap();
    c
}

#[test]
fn output_bytes_name_each_status() {
    assert_eq!(OperationCompletionStatus::Completed.output_bytes(), b"completed");
    assert_eq!(OperationCompletionStatus::InterruptedBeforeOutOfGas.output_bytes(), b"interrupted");
    assert_eq!(OperationCompletionStatus::ForcedInterruption.output_bytes(), b"forcedInterruption");
}

#[test]
fn only_completed_is_completed() {
    assert!(OperationCompletionStatus::Completed.is_completed());
    assert!(!OperationCompletionStatus::InterruptedBeforeOutOfGas.is_completed());
    assert!(!OperationCompletionStatus::ForcedInterruption.is_completed());
}

#[test]
fn operation_goes_on_while_gas_lasts() {
    let c = active_contract(10, 10, 0);
    assert!(c.can_continue_operation(MIN_GAS_TO_SAVE_PROGRESS + 101, 100));
    assert!(!c.can_continue_operation(MIN_GAS_TO_SAVE_PROGRESS + 100, 100));
    assert!(!c.can_continue_operation(5, u64::MAX));
    assert_eq!(c.next_operation_status(LoopOp::Break, 0, 0), Some(OperationCompletionStatus::Completed));
    assert_eq!(
        c.next_operation_status(LoopOp::ForceBreakBeforeCompleted, u64::MAX, 0),
        Some(OperationCompletionStatus::ForcedInterruption)
    );
    assert_eq!(c.next_operation_status(LoopOp::Continue, MIN_GAS_TO_SAVE_PROGRESS + 11, 10), None);
    assert_eq!(
        c.next_operation_status(LoopOp::Continue, MIN_GAS_TO_SAVE_PROGRESS + 10, 10),
        Some(OperationCompletionStatus::InterruptedBeforeOutOfGas)
    );
}

#[test]
fn mul_div_rounds_down() {
    assert_eq!(gng(10_000).mul_div(200, 270), gng(7407));
    assert_eq!(gng(10_000).mul_div(70, 270), gng(2592));
    assert_eq!(gng(10_000).mul_div(0, 3), gng(0));
    assert_eq!(gng(u128::MAX).mul_div(u64::MAX, u64::MAX), gng(u128::MAX));
    assert_eq!(gng(u128::MAX / 3).mul_div(3, 3), gng(u128::MAX / 3));
    // Past 128 bits nothing overflows.
    let big = gng(u128::MAX).mul_div(2, 1);
    assert_eq!(big.to_u128(), None);
    assert_eq!(big.mul_div(1, 2), gng(u128::MAX));
    assert_eq!(big.sub(&gng(u128::MAX)), gng(u128::MAX));
}

#[test]
fn amounts_add_subtract_and_compare() {
    let a = gng(u128::MAX);
    let b = a.add(&gng(1));
    assert_eq!(b.to_u128(), None);
    assert!(a.le(&b));
    assert!(!b.le(&a));
    assert_eq!(b.sub(&gng(1)), a);
    assert_eq!(b.sub(&b), gng(0));
    assert!(gng(0).is_zero());
    assert!(gng(1).equals_u64(1));
    assert!(!gng(2).equals_u64(1));
    assert_eq!(Amount::from_u64(7).to_u128(), Some(7));
    assert_eq!(b.duplicate(), b);
    let huge = b.mul_div(u64::MAX, 1).mul_div(u64::MAX, 1);
    assert_eq!(huge.mul_div(1, u64::MAX).mul_div(1, u64::MAX), b);
}

#[test]
fn schedule_of_battles() {
    assert_eq!(battle_duration(BattleMode::Daily), ONE_DAY_TIMESTAMP);
    assert_eq!(battle_duration(BattleMode::Weekly), ONE_WEEK_TIMESTAMP);
    assert_eq!(ONE_WEEK_TIMESTAMP, 7 * ONE_DAY_TIMESTAMP);
    assert_eq!(battle_start_timestamp(5000, BattleMode::Daily, 1, 0), Some(5000));
    assert_eq!(battle_start_timestamp(5000, BattleMode::Daily, 2, 0), Some(91_400));
    assert_eq!(battle_start_timestamp(5000, BattleMode::Daily, 4, 0), Some(264_200));
    assert_eq!(battle_start_timestamp(5000, BattleMode::Weekly, 5, 3), Some(5000 + ONE_WEEK_TIMESTAMP));
    assert_eq!(battle_start_timestamp(u64::MAX, BattleMode::Daily, 2, 0), None);
    assert_eq!(battle_start_timestamp(0, BattleMode::Weekly, u64::MAX, 0), None);
}

#[test]
fn sundays() {
    // Day 0 of the epoch was a Thursday.
    assert!(!is_sunday(0));
    assert!(is_sunday(3 * 86_400));
    assert!(is_sunday(274_200));
    assert!(!is_sunday(274_200 + 86_400));
    assert!(is_sunday(274_200 + 604_800));
    assert!(is_sunday(4 * 86_400 - 1));
    assert!(!is_sunday(4 * 86_400));
    assert!(is_special_week(7));
    assert!(is_special_week(0));
    assert!(!is_special_week(8));
}

#[test]
fn higher_power_wins() {
    assert_eq!(clash_outcome(&nft(OTHER, 1), &attrs(10, 0, 0), &nft(EMIDAS, 1), &attrs(9, 0, 0), &ids()), ClashOutcome::FirstWins);
    assert_eq!(clash_outcome(&nft(EMIDAS, 1), &attrs(9, 0, 0), &nft(OTHER, 1), &attrs(10, 0, 0), &ids()), ClashOutcome::SecondWins);
}

#[test]
fn tiebreak_rules() {
    let a = attrs(5, 1, 1);
    assert_eq!(handle_tiebreak(&nft(EMIDAS, 1), &a, &nft(GNOGON, 1), &a, &ids()), ClashOutcome::FirstWins);
    assert_eq!(handle_tiebreak(&nft(GNOGON, 1), &a, &nft(EMIDAS, 1), &a, &ids()), ClashOutcome::SecondWins);
    assert_eq!(handle_tiebreak(&nft(EMIDAS, 1), &a, &nft(EMIDAS, 2), &a, &ids()), ClashOutcome::Draw);
    assert_eq!(handle_tiebreak(&nft(GNOGON, 1), &a, &nft(VALIDATOR, 1), &a, &ids()), ClashOutcome::FirstWins);
    assert_eq!(handle_tiebreak(&nft(VALIDATOR, 1), &a, &nft(GNOGON, 1), &a, &ids()), ClashOutcome::SecondWins);
    assert_eq!(
        handle_tiebreak(&nft(GNOGON, 1), &attrs(5, 3, 9), &nft(GNOGON, 2), &attrs(5, 4, 0), &ids()),
        ClashOutcome::SecondWins
    );
    assert_eq!(
        handle_tiebreak(&nft(GNOGON, 1), &attrs(5, 4, 9), &nft(GNOGON, 2), &attrs(5, 4, 0), &ids()),
        ClashOutcome::Draw
    );
    assert_eq!(
        handle_tiebreak(&nft(VALIDATOR, 1), &attrs(5, 0, 8), &nft(VALIDATOR, 2), &attrs(5, 9, 2), &ids()),
        ClashOutcome::FirstWins
    );
    assert_eq!(handle_tiebreak(&nft(OTHER, 1), &a, &nft(GNOGON, 1), &a, &ids()), ClashOutcome::Draw);
    assert_eq!(clash_outcome(&nft(OTHER, 1), &a, &nft(OTHER, 2), &a, &ids()), ClashOutcome::Draw);
}

#[test]
fn clash_is_symmetric() {
    let cases = [
        (nft(EMIDAS, 1), attrs(5, 1, 1), nft(GNOGON, 1), attrs(5, 1, 1)),
        (nft(GNOGON, 1), attrs(5, 1, 1), nft(VALIDATOR, 1), attrs(5, 1, 1)),
        (nft(GNOGON, 1), attrs(5, 2, 1), nft(GNOGON, 2), attrs(5, 1, 1)),
        (nft(OTHER, 1), attrs(7, 1, 1), nft(GNOGON, 2), attrs(5, 1, 1)),
        (nft(OTHER, 1), attrs(5, 1, 1), nft(OTHER, 2), attrs(5, 1, 1)),
    ];
    for (a, aa, b, ba) in cases.iter() {
        let forward = clash_outcome(a, aa, b, ba, &ids());
        let backward = clash_outcome(b, ba, a, aa, &ids());
        let mirrored = match forward {
            ClashOutcome::FirstWins => ClashOutcome::SecondWins,
            ClashOutcome::SecondWins => ClashOutcome::FirstWins,
            ClashOutcome::Draw => ClashOutcome::Draw,
        };
        assert_eq!(backward, mirrored);
    }
}

#[test]
fn error_messages() {
    assert_eq!(Error::OnlyOwner.message(), "Endpoint can only be called by owner");
    assert_eq!(Error::NotActive.message(), "Not active");
    assert_eq!(Error::BattleInProgress.message(), "Battle in progress");
    assert_eq!(Error::NoAttributes.message(), "Cant stake NFT without attributes");
    assert_eq!(Error::NotEnoughRewards.message(), "Not enough rewards to start battle");
    assert_eq!(Error::SwitchTooLate.message(), "Cannot switch to daily mode too late");
}

#[test]
fn unordered_set_keeps_positions() {
    let mut s: UnorderedSet<u64> = UnorderedSet::new();
    assert!(s.insert(10));
    assert!(s.insert(20));
    assert!(s.insert(30));
    assert!(!s.insert(20));
    assert_eq!(s.len(), 3);
    assert_eq!(s.get_index(&20), 2);
    assert_eq!(s.get_index(&40), 0);
    assert_eq!(s.get_by_index(3), 30);
    s.swap_indexes(1, 3);
    assert_eq!(s.items(), &vec![30, 20, 10]);
    assert!(s.swap_remove(&30));
    assert_eq!(s.items(), &vec![10, 20]);
    assert!(!s.swap_remove(&30));
    assert!(!s.contains(&30));
    assert!(s.contains(&10));
}

#[test]
fn store_maps_keys() {
    let mut m: Store<u64, u128> = Store::new();
    assert_eq!(m.get(&1), None);
    m.insert(1, 10);
    m.insert(2, 20);
    m.insert(1, 11);
    assert_eq!(m.get(&1), Some(11));
    assert_eq!(m.get_or(&3, 7), 7);
    assert!(m.contains_key(&2));
    assert_eq!(m.remove(&2), Some(20));
    assert!(!m.contains_key(&2));
    assert_eq!(m.get_ref(&1), Some(&11));
}

#[test]
fn paused_contract_refuses_users() {
    let mut c = active_contract(100, 10, 1000);
    c.stake(USER, 2000, &vec![Payment { token_id: GNOGON, nonce: 1, amount: gng(1) }]).unwrap();
    c.pause(OWNER).unwrap();
    assert!(!c.is_active());
    assert_eq!(c.stake(USER, 2000, &vec![Payment { token_id: VALIDATOR, nonce: 1, amount: gng(1) }]), Err(Error::NotActive));
    assert_eq!(c.claim_rewards(USER), Err(Error::NotActive));
    assert_eq!(c.withdraw(USER, 2000, &vec![nft(GNOGON, 1)]), Err(Error::NotActive));
    assert_eq!(c.battle_begin(5000).err(), Some(Error::NotActive));
    assert_eq!(c.pause(USER), Err(Error::OnlyOwner));
    assert_eq!(c.resume(USER), Err(Error::OnlyOwner));
    c.resume(OWNER).unwrap();
    assert_eq!(c.withdraw(USER, 2000, &vec![nft(GNOGON, 1)]), Ok(gng(0)));
}

#[test]
fn admins_are_managed_by_the_owner() {
    let mut c = active_contract(100, 10, 0);
    assert_eq!(c.add_admin(OWNER, ADMIN), Err(Error::AlreadyAdmin));
    assert_eq!(c.add_admin(USER, USER), Err(Error::OnlyOwner));
    assert_eq!(c.remove_admin(OWNER, USER), Err(Error::NotAdmin));
    c.add_admin(OWNER, USER).unwrap();
    assert_eq!(c.config().get_admins(), &vec![ADMIN, USER]);
    c.remove_admin(OWNER, USER).unwrap();
    assert_eq!(c.config().get_admins(), &vec![ADMIN]);
    c.remove_admin(OWNER, ADMIN).unwrap();
    assert!(c.config().get_admins().is_empty());
    assert_eq!(
        c.deposit_gng(ADMIN, &vec![Payment { token_id: GNG, nonce: 0, amount: gng(1) }]),
        Err(Error::OnlyAdmin)
    );
    assert_eq!(c.set_daily_reward_amount(USER, gng(5)), Err(Error::OnlyOwner));
    assert_eq!(c.set_base_battle_reward_amount(USER, gng(5)), Err(Error::OnlyOwner));
    assert_eq!(c.set_battle_token(USER, 1, 2, 3, 4, 5), Err(Error::OnlyOwner));
}

#[test]
fn battle_needs_rewards() {
    let mut c = active_contract(100, 10, 109);
    assert_eq!(c.battle_begin(5000).err(), Some(Error::NotEnoughRewards));
    assert_eq!(c.battle_begin(4999).err(), Some(Error::BattleInPreparation));
    c.deposit_gng(ADMIN, &vec![Payment { token_id: GNG, nonce: 0, amount: gng(1) }]).unwrap();
    let run = c.battle_begin(5000).unwrap();
    assert_eq!(run.remaining(), 0);
    assert_eq!(c.config().get_reward_capacity(), gng(0));
    // A second transaction of the same battle takes nothing more.
    let again = c.battle_begin(5000).unwrap();
    assert_eq!(again.remaining(), 0);
    assert_eq!(c.battle_finish(again, OperationCompletionStatus::Completed), Ok(gng(0)));
    assert_eq!(c.get_current_battle(), 2);
}

#[test]
fn clash_rewards_formulas() {
    let mut c = active_contract(10_000, 900, 1_000_000);
    c.stake(USER, 2000, &vec![
        Payment { token_id: GNOGON, nonce: 1, amount: gng(1) },
        Payment { token_id: VALIDATOR, nonce: 1, amount: gng(1) },
        Payment { token_id: EMIDAS, nonce: 1, amount: gng(1) },
    ]).unwrap();
    assert_eq!(c.calculate_clash_rewards(1, 70), gng(0));
    let mut run = c.battle_begin(5000).unwrap();
    assert_eq!(c.calculate_clash_operator_rewards(1, 1), Ok(gng(900)));
    c.battle_step(&mut run, Some((1, 1))).unwrap();
    assert_eq!(c.battle_finish(run, OperationCompletionStatus::InterruptedBeforeOutOfGas), Ok(gng(900)));
    assert_eq!(c.get_total_battle_winner_power(1), 70);
    assert_eq!(c.calculate_clash_rewards(1, 70), gng(10_000));
    assert_eq!(c.calculate_clash_rewards(1, 35), gng(5_000));
    assert_eq!(c.calculate_clash_rewards(1, 1), gng(142));
    assert_eq!(c.get_current_battle(), 1);
    let fresh = active_contract(10_000, 900, 0);
    assert_eq!(fresh.calculate_clash_operator_rewards(1, 1), Err(Error::DivisionByZero));
}

#[test]
fn switching_between_daily_and_weekly() {
    let mut c = active_contract(0, 0, 0);
    assert_eq!(c.get_battle_mode(), BattleMode::Daily);
    assert_eq!(c.switch_mode(USER, 1000, BattleMode::Weekly), Err(Error::OnlyOwner));
    assert_eq!(c.switch_mode(OWNER, 1000, BattleMode::Daily), Err(Error::AlreadyInThisMode));
    assert_eq!(c.switch_mode(OWNER, 5000, BattleMode::Weekly), Err(Error::BattleInProgress));
    c.switch_mode(OWNER, 1000, BattleMode::Weekly).unwrap();
    assert_eq!(c.get_battle_mode(), BattleMode::Weekly);
    assert_eq!(c.get_past_battle_amount(), 0);
    assert_eq!(c.get_battle_status(5000), Ok(BattleStatus::Battle));
    // Battle 1 of the weekly period.
    let run = c.battle_begin(5000).unwrap();
    c.battle_finish(run, OperationCompletionStatus::Completed).unwrap();
    assert_eq!(c.get_battle_status(5000 + ONE_WEEK_TIMESTAMP - 1), Ok(BattleStatus::Preparation));
    assert_eq!(c.get_battle_status(5000 + ONE_WEEK_TIMESTAMP), Ok(BattleStatus::Battle));
    assert_eq!(c.is_current_battle_special(), Ok(false));
    // Back to daily: the next battle comes a day after the last one.
    assert_eq!(c.switch_mode(OWNER, 5000 + ONE_DAY_TIMESTAMP, BattleMode::Daily), Err(Error::SwitchTooLate));
    c.switch_mode(OWNER, 6000, BattleMode::Daily).unwrap();
    assert_eq!(c.get_past_battle_amount(), 1);
    assert_eq!(c.get_battle_status(5000 + ONE_DAY_TIMESTAMP - 1), Ok(BattleStatus::Preparation));
    assert_eq!(c.get_battle_status(5000 + ONE_DAY_TIMESTAMP), Ok(BattleStatus::Battle));
}

#[test]
fn weekly_special_battles() {
    let mut c = active_contract(0, 0, 0);
    c.switch_mode(OWNER, 1000, BattleMode::Weekly).unwrap();
    let mut now = 5000;
    for _ in 0..6 {
        assert_eq!(c.is_current_battle_special(), Ok(false));
        let run = c.battle_begin(now).unwrap();
        c.battle_finish(run, OperationCompletionStatus::Completed).unwrap();
        now += ONE_WEEK_TIMESTAMP;
    }
    assert_eq!(c.get_current_battle(), 7);
    assert_eq!(c.is_current_battle_special(), Ok(true));
}

#[test]
fn upgrade_keeps_the_schedule() {
    let mut c = active_contract(0, 0, 0);
    assert_eq!(c.upgrade(1000), Ok(()));
    assert_eq!(c.get_current_battle(), 1);
    assert_eq!(c.upgrade(5000), Err(Error::BattleInProgress));
    assert_eq!(c.config().get_gng_token_id(), GNG);
}

#[test]
fn claim_empties_pending() {
    let mut c = active_contract(1000, 0, 10_000);
    c.stake(USER, 2000, &vec![Payment { token_id: GNOGON, nonce: 1, amount: gng(1) }]).unwrap();
    c.stake(ADMIN, 2000, &vec![Payment { token_id: VALIDATOR, nonce: 1, amount: gng(1) }]).unwrap();
    // USER's 70 beats ADMIN's 30.
    let mut run = c.battle_begin(5000).unwrap();
    c.battle_step(&mut run, Some((1, 1))).unwrap();
    c.battle_step(&mut run, None).unwrap();
    assert_eq!(c.battle_finish(run, OperationCompletionStatus::Completed), Ok(gng(0)));
    assert_eq!(c.get_pending_rewards_for_address(USER), gng(1000));
    assert_eq!(c.claim_rewards(USER), Ok(gng(1000)));
    assert_eq!(c.get_pending_rewards_for_address(USER), gng(0));
    assert_eq!(c.claim_rewards(USER), Ok(gng(0)));
    assert_eq!(c.get_global_stats_by_address(USER), Ok((USER, 70, gng(1000))));
    assert_eq!(c.get_pending_rewards_for_address(ADMIN), gng(0));
}

#[test]
fn rewards_stay_within_the_pool() {
    // 200 / 270 and 70 / 270 of 10 000.
    let a = gng(10_000).mul_div(200, 270).to_u128().unwrap();
    let b = gng(10_000).mul_div(70, 270).to_u128().unwrap();
    assert_eq!(a + b, 9_999);
    assert!(a + b <= 10_000);
}

#[test]
fn withdraw_undoes_stake() {
    let mut c = active_contract(0, 0, 0);
    let before = c.get_stats_for_address(USER);
    let payments = vec![
        Payment { token_id: GNOGON, nonce: 1, amount: gng(1) },
        Payment { token_id: EMIDAS, nonce: 1, amount: gng(1) },
    ];
    c.stake(USER, 2000, &payments).unwrap();
    assert_eq!(c.get_stats_for_address(USER).power, 85);
    assert_eq!(c.get_total_nft_engaged(), 2);
    assert_eq!(c.get_battle_stack(), &vec![nft(GNOGON, 1), nft(EMIDAS, 1)]);
    c.withdraw(USER, 3000, &vec![nft(GNOGON, 1), nft(EMIDAS, 1)]).unwrap();
    assert_eq!(c.get_stats_for_address(USER).power, before.power);
    assert!(c.get_all_staked_for_address(USER).is_empty());
    assert!(c.get_staked_for_address(USER, GNOGON).is_empty());
    // The NFTs can be staked again: nobody owns them any more.
    c.stake(ADMIN, 3000, &payments).unwrap();
    c.withdraw(ADMIN, 3000, &vec![nft(EMIDAS, 1), nft(GNOGON, 1)]).unwrap();
    assert_eq!(c.get_total_nft_engaged(), 0);
    assert!(c.get_battle_stack().is_empty());
    assert_eq!(c.withdraw(USER, 3000, &vec![nft(GNOGON, 1)]), Err(Error::StorageDecode));
}

#[test]
fn operators_paid_within_pool_over_a_battle() {
    let mut c = active_contract(0, 1000, 10_000);
    c.stake(USER, 2000, &vec![
        Payment { token_id: GNOGON, nonce: 1, amount: gng(1) },
        Payment { token_id: VALIDATOR, nonce: 1, amount: gng(1) },
    ]).unwrap();
    c.stake(ADMIN, 2000, &vec![
        Payment { token_id: EMIDAS, nonce: 1, amount: gng(1) },
        Payment { token_id: 202, nonce: 9, amount: gng(1) },
    ]).unwrap_err();
    c.set_attributes(OWNER, &vec![(202, 9, 40, 1, 1)]).unwrap();
    c.stake(ADMIN, 2000, &vec![
        Payment { token_id: EMIDAS, nonce: 1, amount: gng(1) },
        Payment { token_id: 202, nonce: 9, amount: gng(1) },
    ]).unwrap();
    // Two transactions of one clash each share the operators' pool.
    let mut paid = gng(0);
    for _ in 0..2 {
        let mut run = c.battle_begin(5000).unwrap();
        c.battle_step(&mut run, Some((1, 1))).unwrap();
        paid = paid.add(&c.battle_finish(run, OperationCompletionStatus::InterruptedBeforeOutOfGas).unwrap());
    }
    assert_eq!(c.get_total_number_clashes_current_battle(), 2);
    assert_eq!(paid, gng(1000));
    let run = c.battle_begin(5000).unwrap();
    assert_eq!(run.remaining(), 0);
    assert_eq!(c.battle_finish(run, OperationCompletionStatus::Completed), Ok(gng(0)));
}

#[test]
fn clash_moves_the_two_nfts_to_the_end() {
    let mut c = active_contract(0, 0, 0);
    c.stake(USER, 2000, &vec![
        Payment { token_id: GNOGON, nonce: 1, amount: gng(1) },
        Payment { token_id: VALIDATOR, nonce: 1, amount: gng(1) },
        Payment { token_id: EMIDAS, nonce: 1, amount: gng(1) },
    ]).unwrap();
    let pending = c.get_pending_rewards_for_address(USER);
    let mut run = c.battle_begin(5000).unwrap();
    // First drawn: position 2; second: position 1 once the first went last.
    c.battle_step(&mut run, Some((2, 1))).unwrap();
    assert_eq!(run.remaining(), 1);
    let stack = c.get_battle_stack();
    assert_eq!(stack[2], nft(VALIDATOR, 1));
    assert_eq!(stack[1], nft(GNOGON, 1));
    assert_eq!(stack[0], nft(EMIDAS, 1));
    // A win of the current battle is not claimable yet.
    assert_eq!(c.get_pending_rewards_for_address(USER), pending);
}
