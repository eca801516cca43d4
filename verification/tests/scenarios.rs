use gng_minting::amount::Amount;
use gng_minting::config::State;
use gng_minting::error::Error;
use gng_minting::events::BattleEvent;
use gng_minting::gng::GngMinting;
use gng_minting::model::{Attributes, BattleStatus, Payment, PendingRewards, Token, UserStats};
use gng_minting::operations::{LoopOp, OperationCompletionStatus};

const OWNER: u64 = 1;
const ADMIN: u64 = 2;
const USER1: u64 = 11;
const USER2: u64 = 12;
const USER3: u64 = 13;
const USER4: u64 = 14;

const GNG: u64 = 100;
const EMIDAS: u64 = 201;
const SUPREME: u64 = 202;
const GNOGON: u64 = 203;
const VALIDATOR: u64 = 204;
const DOGA: u64 = 205;
const OTHER: u64 = 299;

const DEPLOY_TIME: u64 = 1000;
const FIRST_BATTLE: u64 = 5000;
const ONE_DAY: u64 = 86400;

const STAKERS_REWARDS: u128 = 10_000;
const OPERATORS_REWARDS: u128 = 1_000;

fn gng(x: u128) -> Amount {
    Amount::from_u128(x)
}

fn nft(token_id: u64, nonce: u64) -> Token {
    Token { token_id, nonce }
}

fn pay(token: Token) -> Payment {
    Payment { token_id: token.token_id, nonce: token.nonce, amount: gng(1) }
}

// The NFTs of the scenarios and their owners.
fn s1() -> Token {
    nft(SUPREME, 1) // USER1, power 200
}
fn s2() -> Token {
    nft(SUPREME, 2) // USER2, power 50
}
fn d1() -> Token {
    nft(DOGA, 1) // USER2, power 10
}
fn g1() -> Token {
    nft(GNOGON, 1) // USER3, power 70
}
fn v1() -> Token {
    nft(VALIDATOR, 1) // USER4, power 100
}
fn e1() -> Token {
    nft(EMIDAS, 1) // USER1, power 70
}

fn deployed() -> GngMinting {
    GngMinting::init(OWNER, DEPLOY_TIME, FIRST_BATTLE, GNG).unwrap()
}

fn configured() -> GngMinting {
    let mut c = deployed();
    c.set_battle_token(OWNER, EMIDAS, SUPREME, GNOGON, VALIDATOR, DOGA).unwrap();
    let attributes = vec![
        (SUPREME, 1, 200, 1, 1),
        (SUPREME, 2, 50, 1, 1),
        (DOGA, 1, 10, 1, 1),
        (GNOGON, 1, 70, 5, 1),
        (VALIDATOR, 1, 100, 1, 5),
        (EMIDAS, 1, 70, 1, 1),
        (GNOGON, 2, 70, 9, 1),
        (VALIDATOR, 2, 100, 1, 3),
    ];
    c.set_attributes(OWNER, &attributes).unwrap();
    c.add_admin(OWNER, ADMIN).unwrap();
    c.set_daily_reward_amount(OWNER, gng(STAKERS_REWARDS)).unwrap();
    c.set_base_battle_reward_amount(OWNER, gng(OPERATORS_REWARDS)).unwrap();
    c.deposit_gng(ADMIN, &vec![Payment { token_id: GNG, nonce: 0, amount: gng(1_000_000) }]).unwrap();
    c.resume(OWNER).unwrap();
    c
}

fn staked() -> GngMinting {
    let mut c = configured();
    c.stake(USER1, 2000, &vec![pay(s1())]).unwrap();
    c.stake(USER2, 2000, &vec![pay(s2()), pay(d1())]).unwrap();
    c.stake(USER3, 2000, &vec![pay(g1())]).unwrap();
    c.stake(USER4, 2000, &vec![pay(v1())]).unwrap();
    c
}

/// Runs one battle transaction at `now`, drawing the positions of `draws`
/// in turn; returns the operator's rewards, the events and the status.
fn run_battle(
    c: &mut GngMinting,
    now: u64,
    draws: &[(usize, usize)],
    max_steps: usize,
) -> (Amount, Vec<BattleEvent>, OperationCompletionStatus) {
    let mut run = c.battle_begin(now).unwrap();
    let mut events = Vec::new();
    let mut next_draw = 0;
    let mut steps = 0;
    let mut status = OperationCompletionStatus::InterruptedBeforeOutOfGas;
    while steps < max_steps {
        let draw = if run.remaining() >= 2 {
            next_draw += 1;
            Some(draws[next_draw - 1])
        } else {
            None
        };
        let (op, event) = c.battle_step(&mut run, draw).unwrap();
        if let Some(e) = event {
            events.push(e);
        }
        steps += 1;
        if op == LoopOp::Break {
            status = OperationCompletionStatus::Completed;
            break;
        }
    }
    let reward = c.battle_finish(run, status).unwrap();
    (reward, events, status)
}

/// Battle 1: USER1's 200 beats USER4's 100, USER3's 70 beats USER2's 50,
/// USER2's 10 is left alone.
fn after_battle_one() -> GngMinting {
    let mut c = staked();
    let (reward, events, status) = run_battle(&mut c, 5100, &[(1, 1), (1, 2)], 10);
    assert_eq!(status, OperationCompletionStatus::Completed);
    assert_eq!(reward, gng(OPERATORS_REWARDS));
    assert_eq!(events.len(), 3);
    c
}

/// Battle 2, once USER1 took back its NFT: USER4's 100 beats USER2's 50,
/// USER3's 70 beats USER2's 10.
fn after_battle_two() -> GngMinting {
    let mut c = after_battle_one();
    c.claim_rewards(USER1).unwrap();
    c.withdraw(USER1, 6000, &vec![s1()]).unwrap();
    let (reward, _, status) = run_battle(&mut c, 91400, &[(4, 2), (2, 1)], 10);
    assert_eq!(status, OperationCompletionStatus::Completed);
    assert_eq!(reward, gng(OPERATORS_REWARDS));
    c
}

#[test]
fn init_go() {
    let c = deployed();
    assert_eq!(c.get_current_battle(), 1);
    assert_eq!(c.get_past_battle_amount(), 0);
    assert_eq!(c.config().get_gng_token_id(), GNG);
    assert_eq!(c.config().get_owner(), OWNER);
    assert_eq!(c.config().get_state(), State::Inactive);
    assert_eq!(c.get_battle_status(DEPLOY_TIME), Ok(BattleStatus::Preparation));
    assert_eq!(c.get_battle_status(FIRST_BATTLE), Ok(BattleStatus::Battle));
    assert_eq!(
        GngMinting::init(OWNER, FIRST_BATTLE, FIRST_BATTLE, GNG).err(),
        Some(Error::CannotBackdateFirstBattle)
    );
}

#[test]
fn setup_go() {
    let c = configured();
    assert_eq!(c.config().get_emidas_token_id(), EMIDAS);
    assert_eq!(c.config().get_supreme_token_id(), SUPREME);
    assert_eq!(c.config().get_gnogon_token_id(), GNOGON);
    assert_eq!(c.config().get_validator_v2_token_id(), VALIDATOR);
    assert_eq!(c.config().get_doga_token_id(), DOGA);
    assert_eq!(c.config().get_battle_tokens().len(), 5);
    assert!(c.config().is_battle_token(DOGA));
    assert!(!c.config().is_battle_token(OTHER));
    assert_eq!(
        c.config().get_token_attributes(GNOGON, 1),
        Ok(Attributes { power: 70, heart: 5, ram: 1 })
    );
    assert_eq!(c.config().get_token_attributes(GNOGON, 7), Err(Error::StorageDecode));
    assert!(c.is_active());
    assert_eq!(c.config().get_daily_reward_amount(), gng(STAKERS_REWARDS));
    assert_eq!(c.config().get_base_battle_reward_amount(), gng(OPERATORS_REWARDS));
}

#[test]
fn deposit_gng_go() {
    let mut c = configured();
    assert_eq!(c.config().get_reward_capacity(), gng(1_000_000));
    c.deposit_gng(ADMIN, &vec![Payment { token_id: GNG, nonce: 0, amount: gng(500) }]).unwrap();
    assert_eq!(c.config().get_reward_capacity(), gng(1_000_500));
    assert_eq!(
        c.deposit_gng(USER1, &vec![Payment { token_id: GNG, nonce: 0, amount: gng(500) }]),
        Err(Error::OnlyAdmin)
    );
    assert_eq!(
        c.deposit_gng(ADMIN, &vec![Payment { token_id: OTHER, nonce: 0, amount: gng(500) }]),
        Err(Error::InvalidTokenSent)
    );
    assert_eq!(
        c.deposit_gng(ADMIN, &vec![Payment { token_id: GNG, nonce: 3, amount: gng(500) }]),
        Err(Error::FungibleTokenExpected)
    );
    assert_eq!(c.deposit_gng(ADMIN, &vec![]), Err(Error::IncorrectNumberOfTransfers));
    assert_eq!(c.config().get_reward_capacity(), gng(1_000_500));
}

#[test]
fn stake_battle_one_go() {
    let c = staked();
    assert_eq!(c.get_amount_of_users(), 4);
    assert_eq!(c.get_total_nft_engaged(), 5);
    assert_eq!(c.get_battle_stack(), &vec![s1(), s2(), d1(), g1(), v1()]);
    assert_eq!(c.get_stats_for_address(USER1), UserStats { power: 200, gng_claimed: gng(0) });
    assert_eq!(c.get_stats_for_address(USER2), UserStats { power: 60, gng_claimed: gng(0) });
    assert_eq!(c.get_all_staked_for_address(USER2), vec![s2(), d1()]);
    assert_eq!(c.get_staked_for_address(USER2, DOGA), vec![1]);
    assert_eq!(
        c.get_raw_pending_rewards_for_address(USER3),
        Ok(PendingRewards { calculated_rewards: gng(0), awaiting_battle_id: 0, awaiting_power: 0 })
    );
}

#[test]
fn battle_one_go() {
    let c = after_battle_one();
    assert_eq!(c.get_current_battle(), 2);
    assert_eq!(c.get_total_battle_winner_power(1), 270);
    assert_eq!(c.get_total_rewards_for_stakers(1), gng(STAKERS_REWARDS));
    assert_eq!(c.get_total_rewards_for_operators(1), gng(OPERATORS_REWARDS));
    assert_eq!(c.get_total_number_clashes_current_battle(), 2);
    assert_eq!(c.get_remaining_nfts_in_battle(1), 0);
    assert!(c.has_battle_started(1));
    assert_eq!(c.config().get_reward_capacity(), gng(1_000_000 - 11_000));
    // 200 / 270 * 10 000 and 70 / 270 * 10 000, rounded down.
    assert_eq!(c.get_pending_rewards_for_address(USER1), gng(7407));
    assert_eq!(c.get_pending_rewards_for_address(USER3), gng(2592));
    assert_eq!(c.get_pending_rewards_for_address(USER4), gng(0));
    assert_eq!(c.get_pending_rewards_for_address(USER2), gng(0));
    assert_eq!(c.get_battle_status(5100), Ok(BattleStatus::Preparation));
}

#[test]
fn claim_rewards_go() {
    let mut c = after_battle_one();
    assert_eq!(c.claim_rewards(USER1), Ok(gng(7407)));
    assert_eq!(c.get_pending_rewards_for_address(USER1), gng(0));
    assert_eq!(c.get_stats_for_address(USER1), UserStats { power: 200, gng_claimed: gng(7407) });
    assert_eq!(c.claim_rewards(USER1), Ok(gng(0)));
    assert_eq!(c.get_stats_for_address(USER1).gng_claimed, gng(7407));
    assert_eq!(c.get_global_stats_by_address(USER1), Ok((USER1, 200, gng(7407))));
}

#[test]
fn withdraw_go() {
    let mut c = after_battle_one();
    assert_eq!(c.withdraw(USER1, 6000, &vec![s1()]), Ok(gng(7407)));
    assert_eq!(c.get_stats_for_address(USER1), UserStats { power: 0, gng_claimed: gng(7407) });
    assert_eq!(c.get_total_nft_engaged(), 4);
    assert_eq!(c.get_battle_stack(), &vec![d1(), s2(), g1(), v1()]);
    assert!(c.get_all_staked_for_address(USER1).is_empty());
    assert_eq!(c.withdraw(USER1, 6000, &vec![s1()]), Err(Error::StorageDecode));
    assert_eq!(c.withdraw(USER1, 6000, &vec![g1()]), Err(Error::WrongToken));
}

#[test]
fn battle_two_go() {
    let c = after_battle_two();
    assert_eq!(c.get_current_battle(), 3);
    assert_eq!(c.get_total_battle_winner_power(2), 170);
    // 70 / 170 * 10 000 added to the 2592 of battle 1.
    assert_eq!(c.get_pending_rewards_for_address(USER3), gng(6709));
    assert_eq!(c.get_pending_rewards_for_address(USER4), gng(5882));
    assert_eq!(
        c.get_raw_pending_rewards_for_address(USER3),
        Ok(PendingRewards { calculated_rewards: gng(2592), awaiting_battle_id: 2, awaiting_power: 70 })
    );
}

#[test]
fn withdraw_and_claim_go() {
    let mut c = after_battle_two();
    assert_eq!(c.withdraw(USER3, 100_000, &vec![g1()]), Ok(gng(6709)));
    assert_eq!(c.get_stats_for_address(USER3), UserStats { power: 0, gng_claimed: gng(6709) });
    assert_eq!(c.get_pending_rewards_for_address(USER3), gng(0));
    assert_eq!(c.claim_rewards(USER4), Ok(gng(5882)));
    assert_eq!(c.get_global_stats(0, 10), Ok(vec![
        (USER1, gng(7407), 0),
        (USER2, gng(0), 60),
        (USER3, gng(6709), 0),
        (USER4, gng(5882), 100),
    ]));
    assert_eq!(c.get_global_stats(3, 10), Ok(vec![(USER4, gng(5882), 100)]));
    assert_eq!(c.get_global_stats(9, 10), Ok(vec![]));
}

#[test]
fn stake_go() {
    let mut c = after_battle_two();
    c.stake(USER1, 100_000, &vec![pay(e1())]).unwrap();
    assert_eq!(c.get_stats_for_address(USER1).power, 70);
    assert_eq!(c.stake(USER2, 100_000, &vec![pay(e1())]), Err(Error::CannotStakeSft));
    assert_eq!(c.stake(USER2, 100_000, &vec![pay(nft(OTHER, 1))]), Err(Error::WrongToken));
    assert_eq!(
        c.stake(USER2, 100_000, &vec![Payment { token_id: GNOGON, nonce: 2, amount: gng(2) }]),
        Err(Error::InvalidTokenAmount)
    );
    assert_eq!(c.stake(USER2, 100_000, &vec![pay(nft(GNOGON, 5))]), Err(Error::NoAttributes));
    assert_eq!(
        c.stake(USER2, 100_000, &vec![pay(nft(GNOGON, 2)), pay(nft(GNOGON, 2))]),
        Err(Error::CannotStakeSft)
    );
    assert_eq!(c.stake(USER2, 100_000, &vec![]), Err(Error::NoPayment));
    assert_eq!(c.stake(USER2, 177_800, &vec![pay(nft(GNOGON, 2))]), Err(Error::BattleInProgress));
    assert_eq!(c.get_total_nft_engaged(), 5);
    assert_eq!(c.get_amount_of_users(), 4);
}

#[test]
fn battle_three_go() {
    // Battle 3 starts at 177 800, a Saturday: the higher power is rewarded.
    let mut c = after_battle_two();
    c.stake(USER1, 100_000, &vec![pay(e1())]).unwrap();
    assert_eq!(c.is_current_battle_special(), Ok(false));
    // Stack: d1, g1, s2, v1, e1. USER1's Emidas 70 ties USER3's Gnogon 70
    // and wins; USER4's 100 beats USER2's 10; USER2's 50 is left alone.
    let (_, events, _) = run_battle(&mut c, 177_800, &[(5, 2), (2, 1)], 10);
    assert_eq!(events.len(), 3);
    match events[0] {
        BattleEvent::Clash(e) => {
            assert_eq!(e.winner, e1());
            assert_eq!(e.loser, g1());
            assert!(!e.is_draw);
            assert_eq!(e.winner_owner, USER1);
            assert_eq!(e.loser_owner, USER3);
        }
        _ => panic!("a clash was expected"),
    }
    match events[2] {
        BattleEvent::SingleTokenClash(e) => {
            assert_eq!(e.token, s2());
            assert_eq!(e.owner, USER2);
        }
        _ => panic!("a lone NFT was expected"),
    }
    assert_eq!(c.get_total_battle_winner_power(3), 170);
    assert_eq!(c.get_pending_rewards_for_address(USER1), gng(4117));
}

#[test]
fn withdraw_and_claim_two_go() {
    let mut c = after_battle_two();
    assert_eq!(c.withdraw(USER2, 100_000, &vec![s2(), d1()]), Ok(gng(0)));
    assert_eq!(c.get_stats_for_address(USER2).power, 0);
    assert!(c.get_all_staked_for_address(USER2).is_empty());
    assert_eq!(c.withdraw(USER4, 100_000, &vec![v1()]), Ok(gng(5882)));
    assert_eq!(c.get_total_nft_engaged(), 1);
    assert_eq!(c.get_battle_stack(), &vec![g1()]);
}

#[test]
fn battle_four_and_five_go() {
    let mut c = after_battle_two();
    run_battle(&mut c, 177_800, &[(1, 1), (1, 1)], 10);
    assert_eq!(c.get_current_battle(), 4);
    // Battle 4 starts at 264 200, a Sunday: the loser is rewarded.
    assert_eq!(c.is_current_battle_special(), Ok(true));
    let stack = c.get_battle_stack().clone();
    // Draw the first two NFTs of the stack against each other.
    let (_, events, _) = run_battle(&mut c, 264_200, &[(1, 1), (1, 1)], 10);
    match events[0] {
        BattleEvent::Clash(e) => {
            assert!(!e.is_draw);
            let first = stack[0];
            let second = stack[3];
            let p1 = c.config().get_token_attributes(first.token_id, first.nonce).unwrap().power;
            let p2 = c.config().get_token_attributes(second.token_id, second.nonce).unwrap().power;
            let lower = if p1 < p2 { first } else { second };
            assert_eq!(e.winner, lower);
        }
        _ => panic!("a clash was expected"),
    }
    assert_eq!(c.get_current_battle(), 5);
    assert_eq!(c.is_current_battle_special(), Ok(false));
    run_battle(&mut c, 350_600, &[(1, 1), (1, 1)], 10);
    assert_eq!(c.get_current_battle(), 6);
}

#[test]
fn stake_two_go() {
    let mut c = after_battle_two();
    c.stake(USER3, 100_000, &vec![pay(nft(GNOGON, 2)), pay(nft(VALIDATOR, 2))]).unwrap();
    assert_eq!(c.get_stats_for_address(USER3).power, 240);
    assert_eq!(c.get_all_staked_for_address(USER3), vec![g1(), nft(GNOGON, 2), nft(VALIDATOR, 2)]);
    assert_eq!(c.get_staked_for_address(USER3, GNOGON), vec![1, 2]);
    assert_eq!(c.get_total_nft_engaged(), 6);
}

#[test]
fn battle_six_go() {
    // Two Gnogons of equal power: the higher heart wins; two Validators of
    // equal power: the higher ram wins.
    let mut c = configured();
    c.stake(USER1, 2000, &vec![pay(g1()), pay(v1())]).unwrap();
    c.stake(USER2, 2000, &vec![pay(nft(GNOGON, 2)), pay(nft(VALIDATOR, 2))]).unwrap();
    // Stack: g1, v1, g2, v2.
    let (_, events, _) = run_battle(&mut c, 5000, &[(1, 3), (2, 1)], 10);
    match (events[0], events[1]) {
        (BattleEvent::Clash(a), BattleEvent::Clash(b)) => {
            assert_eq!(a.winner, nft(GNOGON, 2));
            assert_eq!(a.winner_owner, USER2);
            assert_eq!(b.winner, v1());
            assert_eq!(b.winner_owner, USER1);
        }
        _ => panic!("two clashes were expected"),
    }
    assert_eq!(c.get_total_battle_winner_power(1), 170);
}

#[test]
fn change_attributes_go() {
    let mut c = after_battle_one();
    c.set_attributes(OWNER, &vec![(SUPREME, 1, 250, 1, 1)]).unwrap();
    assert_eq!(c.config().get_token_attributes(SUPREME, 1), Ok(Attributes { power: 250, heart: 1, ram: 1 }));
    // The staked power was counted with the old attributes.
    assert_eq!(c.get_stats_for_address(USER1).power, 200);
    assert_eq!(c.withdraw(USER1, 6000, &vec![s1()]), Err(Error::ArithmeticOverflow));
    assert_eq!(c.set_attributes(USER1, &vec![(SUPREME, 1, 1, 1, 1)]), Err(Error::OnlyOwner));
}

#[test]
fn claim_rewards_during_battle_go() {
    let mut c = after_battle_two();
    let mut run = c.battle_begin(177_800).unwrap();
    // USER4's 100 (position 4) beats USER3's 70 (position 2).
    c.battle_step(&mut run, Some((4, 2))).unwrap();
    assert_eq!(run.remaining(), 2);
    assert_eq!(run.amount_of_clashes_done(), 1);
    // What USER4 won in battle 2 is paid; what it wins now is not yet.
    assert_eq!(c.claim_rewards(USER4), Ok(gng(5882)));
    assert_eq!(
        c.get_raw_pending_rewards_for_address(USER4),
        Ok(PendingRewards { calculated_rewards: gng(0), awaiting_battle_id: 3, awaiting_power: 100 })
    );
    assert_eq!(c.claim_rewards(USER4), Ok(gng(0)));
}

#[test]
fn withdraw_not_yet_battled_go() {
    let mut c = after_battle_two();
    let mut run = c.battle_begin(177_800).unwrap();
    assert_eq!(run.remaining(), 4);
    // USER4's 100 (position 4) beats USER2's 10 (position 1).
    c.battle_step(&mut run, Some((4, 1))).unwrap();
    c.battle_finish(run, OperationCompletionStatus::InterruptedBeforeOutOfGas).unwrap();
    assert_eq!(c.get_remaining_nfts_in_battle(3), 2);
    // g1 has not fought yet: it leaves the NFTs still to fight.
    let stack = c.get_battle_stack().clone();
    assert!(stack[..2].contains(&g1()));
    assert_eq!(c.withdraw(USER3, 177_900, &vec![g1()]), Ok(gng(6709)));
    assert_eq!(c.get_remaining_nfts_in_battle(3), 1);
    assert_eq!(c.get_battle_stack(), &vec![s2(), v1(), d1()]);
    assert!(!c.get_battle_stack().contains(&g1()));
}

#[test]
fn withdraw_winner_go() {
    let mut c = after_battle_two();
    let mut run = c.battle_begin(177_800).unwrap();
    c.battle_step(&mut run, Some((4, 2))).unwrap();
    c.battle_finish(run, OperationCompletionStatus::InterruptedBeforeOutOfGas).unwrap();
    // v1 has fought and won: the NFTs still to fight stay as they are.
    assert_eq!(c.withdraw(USER4, 177_900, &vec![v1()]), Ok(gng(5882)));
    assert_eq!(c.get_remaining_nfts_in_battle(3), 2);
    assert_eq!(c.get_stats_for_address(USER4).power, 0);
    let (reward, _, status) = run_battle(&mut c, 177_900, &[(1, 1)], 10);
    assert_eq!(status, OperationCompletionStatus::Completed);
    // One clash of the two of the battle.
    assert_eq!(reward, gng(OPERATORS_REWARDS / 2));
    assert_eq!(c.get_current_battle(), 4);
}

#[test]
fn is_today_special_go() {
    let c = deployed();
    assert!(c.is_today_special(274_200));
    assert!(!c.is_today_special(FIRST_BATTLE));
    assert!(!c.is_today_special(274_200 + ONE_DAY));
    assert!(c.is_today_special(274_200 + 7 * ONE_DAY));
}

#[test]
fn status_go() {
    let mut c = configured();
    assert_eq!(c.get_battle_status(5100), Ok(BattleStatus::Battle));
    run_battle(&mut c, 5100, &[], 10);
    assert_eq!(c.get_battle_status(5100), Ok(BattleStatus::Preparation));
    assert_eq!(c.get_battle_status(91_400), Ok(BattleStatus::Battle));
    run_battle(&mut c, 91_400, &[], 10);
    assert_eq!(c.get_battle_status(91_400), Ok(BattleStatus::Preparation));
    assert_eq!(c.get_battle_status(274_200), Ok(BattleStatus::Battle));
    run_battle(&mut c, 274_200, &[], 10);
    // The next battle's start has come already: no preparation between.
    assert_eq!(c.get_battle_status(274_200), Ok(BattleStatus::Battle));
    run_battle(&mut c, 274_200, &[], 10);
    assert_eq!(c.get_battle_status(274_200), Ok(BattleStatus::Preparation));
    assert_eq!(c.battle_begin(274_200).err(), Some(Error::BattleInPreparation));
}
