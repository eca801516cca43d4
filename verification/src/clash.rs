use vstd::prelude::*;

use crate::model::{Attributes, Token, TokenId};

verus! {

/// Who wins a clash between the first and the second NFT drawn.
#[derive(Clone, Copy, Debug, PartialEq, Eq, Structural)]
pub enum ClashOutcome {
    FirstWins,
    SecondWins,
    Draw,
}

/// The collections that the tiebreak rules name.
#[derive(Clone, Copy, Debug, PartialEq, Eq, Structural)]
pub struct TiebreakCollections {
    pub emidas: TokenId,
    pub gnogon: TokenId,
    pub validator: TokenId,
}

pub open spec fn compare_outcome(first: int, second: int) -> ClashOutcome {
    if first > second {
        ClashOutcome::FirstWins
    } else if first < second {
        ClashOutcome::SecondWins
    } else {
        ClashOutcome::Draw
    }
}

/// The rules for two NFTs of equal power: an Emidas Genesis beats any other
/// collection, a Gnogon beats a Validator, two Gnogons compare their heart,
/// two Validators their ram; anything else is a draw.
pub open spec fn spec_tiebreak(
    first: Token,
    first_attr: Attributes,
    second: Token,
    second_attr: Attributes,
    ids: TiebreakCollections,
) -> ClashOutcome {
    let a = first.token_id;
    let b = second.token_id;
    if a == ids.emidas && b != ids.emidas {
        ClashOutcome::FirstWins
    } else if a != ids.emidas && b == ids.emidas {
        ClashOutcome::SecondWins
    } else if a == ids.gnogon && b == ids.validator {
        ClashOutcome::FirstWins
    } else if a == ids.validator && b == ids.gnogon {
        ClashOutcome::SecondWins
    } else if a == ids.gnogon && b == ids.gnogon {
        compare_outcome(first_attr.heart as int, second_attr.heart as int)
    } else if a == ids.validator && b == ids.validator {
        compare_outcome(first_attr.ram as int, second_attr.ram as int)
    } else {
        ClashOutcome::Draw
    }
}

/// The higher power wins; equal powers go to the tiebreak rules.
pub open spec fn spec_clash_outcome(
    first: Token,
    first_attr: Attributes,
    second: Token,
    second_attr: Attributes,
    ids: TiebreakCollections,
) -> ClashOutcome {
    if first_attr.power != second_attr.power {
        compare_outcome(first_attr.power as int, second_attr.power as int)
    } else {
        spec_tiebreak(first, first_attr, second, second_attr, ids)
    }
}

/// The outcome seen from the other side.
pub open spec fn mirror(outcome: ClashOutcome) -> ClashOutcome {
    match outcome {
        ClashOutcome::FirstWins => ClashOutcome::SecondWins,
        ClashOutcome::SecondWins => ClashOutcome::FirstWins,
        ClashOutcome::Draw => ClashOutcome::Draw,
    }
}

fn compare_u16(first: u16, second: u16) -> (r: ClashOutcome)
    ensures
        r == compare_outcome(first as int, second as int),
{
    if first > second {
        ClashOutcome::FirstWins
    } else if first < second {
        ClashOutcome::SecondWins
    } else {
        ClashOutcome::Draw
    }
}

/// Decides a clash between two NFTs of equal power.
pub fn handle_tiebreak(
    first_token: &Token,
    first_token_attr: &Attributes,
    second_token: &Token,
    second_token_attr: &Attributes,
    ids: &TiebreakCollections,
) -> (r: ClashOutcome)
    ensures
        r == spec_tiebreak(*first_token, *first_token_attr, *second_token, *second_token_attr, *ids),
{
    let a = first_token.token_id;
    let b = second_token.token_id;
    if a == ids.emidas && b != ids.emidas {
        ClashOutcome::FirstWins
    } else if a != ids.emidas && b == ids.emidas {
        ClashOutcome::SecondWins
    } else if a == ids.gnogon && b == ids.validator {
        ClashOutcome::FirstWins
    } else if a == ids.validator && b == ids.gnogon {
        ClashOutcome::SecondWins
    } else if a == ids.gnogon && b == ids.gnogon {
        compare_u16(first_token_attr.heart, second_token_attr.heart)
    } else if a == ids.validator && b == ids.validator {
        compare_u16(first_token_attr.ram, second_token_attr.ram)
    } else {
        ClashOutcome::Draw
    }
}

/// Decides a clash: the higher power wins, equal powers go to the tiebreak.
pub fn clash_outcome(
    first_token: &Token,
    first_token_attr: &Attributes,
    second_token: &Token,
    second_token_attr: &Attributes,
    ids: &TiebreakCollections,
) -> (r: ClashOutcome)
    ensures
        r == spec_clash_outcome(*first_token, *first_token_attr, *second_token, *second_token_attr, *ids),
{
    if first_token_attr.power > second_token_attr.power {
        ClashOutcome::FirstWins
    } else if first_token_attr.power < second_token_attr.power {
        ClashOutcome::SecondWins
    } else {
        handle_tiebreak(first_token, first_token_attr, second_token, second_token_attr, ids)
    }
}

} // verus!
