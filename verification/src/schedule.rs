use vstd::prelude::*;
use vstd::arithmetic::div_mod::*;

use crate::model::BattleMode;

verus! {

pub const ONE_DAY_TIMESTAMP: u64 = 86400;

pub const ONE_WEEK_TIMESTAMP: u64 = 604800;

/// In weekly mode, every battle whose number within the period is a
/// multiple of this is special.
pub const SPECIAL_WEEK_RECURRENCE: u64 = 7;

/// The time between two battles.
pub open spec fn spec_battle_duration(mode: BattleMode) -> int {
    match mode {
        BattleMode::Daily => ONE_DAY_TIMESTAMP as int,
        BattleMode::Weekly => ONE_WEEK_TIMESTAMP as int,
    }
}

/// When the battle numbered `current` starts: the period began with battle
/// `past + 1` at `first_of_period`, and battles follow each other by the
/// duration of the mode.
pub open spec fn spec_battle_start(first_of_period: int, mode: BattleMode, current: int, past: int) -> int {
    first_of_period + spec_battle_duration(mode) * (current - past - 1)
}

/// Whether the day of `timestamp` is a Sunday (day 0 of the epoch was a
/// Thursday).
pub open spec fn spec_is_sunday(timestamp: int) -> bool {
    (timestamp / 86400 + 4) % 7 == 0
}

pub fn battle_duration(mode: BattleMode) -> (r: u64)
    ensures
        r == spec_battle_duration(mode),
{
    match mode {
        BattleMode::Daily => ONE_DAY_TIMESTAMP,
        BattleMode::Weekly => ONE_WEEK_TIMESTAMP,
    }
}

/// The start of battle `current`, where it fits in 64 bits.
pub fn battle_start_timestamp(first_of_period: u64, mode: BattleMode, current: u64, past: u64) -> (r: Option<u64>)
    requires
        current >= past + 1,
    ensures
        match r {
            Some(t) => t == spec_battle_start(first_of_period as int, mode, current as int, past as int),
            None => spec_battle_start(first_of_period as int, mode, current as int, past as int) > u64::MAX,
        },
{
    let duration = battle_duration(mode);
    match duration.checked_mul(current - past - 1) {
        Some(offset) => first_of_period.checked_add(offset),
        None => {
            proof {
                vstd::arithmetic::mul::lemma_mul_nonnegative(duration as int, (current - past - 1) as int);
            }
            None
        },
    }
}

/// Whether `timestamp` falls on a Sunday.
pub fn is_sunday(timestamp: u64) -> (r: bool)
    ensures
        r == spec_is_sunday(timestamp as int),
{
    let days = timestamp / 60 / 60 / 24;
    proof {
        lemma_div_denominator(timestamp as int, 60, 60);
        lemma_div_denominator(timestamp as int, 3600, 24);
    }
    let weekday = (days + 4) % 7;
    weekday == 0
}

/// Whether battle number `battle` of a weekly period is special.
pub fn is_special_week(battle: u64) -> (r: bool)
    ensures
        r == (battle % SPECIAL_WEEK_RECURRENCE == 0),
{
    battle % SPECIAL_WEEK_RECURRENCE == 0
}

} // verus!
