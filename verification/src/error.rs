use vstd::prelude::*;

verus! {

/// Why a call is refused; a refused call changes nothing.
#[derive(Clone, Copy, Debug, PartialEq, Eq, Structural)]
pub enum Error {
    OnlyOwner,
    OnlyAdmin,
    NotActive,
    BattleInProgress,
    BattleInPreparation,
    AlreadyInThisMode,
    SwitchTooLate,
    CannotBackdateFirstBattle,
    NoPayment,
    WrongToken,
    InvalidTokenAmount,
    CannotStakeSft,
    NoAttributes,
    NotEnoughRewards,
    InvalidTokenSent,
    AlreadyAdmin,
    NotAdmin,
    IncorrectNumberOfTransfers,
    FungibleTokenExpected,
    /// A stored entry that was never written is read as a value that has
    /// no empty form.
    StorageDecode,
    /// A result does not fit in the width of its number.
    ArithmeticOverflow,
    DivisionByZero,
    /// A position of the battle stack past its end is read.
    IndexOutOfRange,
}

/// A call that returned `r` took the state from `before` to `after` as
/// `expected` says: on success to the state it names, on failure with its
/// error and nothing changed.
pub open spec fn transition<T>(r: Result<(), Error>, before: T, after: T, expected: Result<T, Error>) -> bool {
    match expected {
        Ok(next) => r is Ok && after == next,
        Err(e) => r == Err::<(), Error>(e) && after == before,
    }
}

/// A call that returned `r` took the state from `before` to `after` as
/// `expected` says, and returned the value that it names on success.
pub open spec fn transition_with<T, R>(
    r: Result<R, Error>,
    before: T,
    after: T,
    expected: Result<(T, R), Error>,
) -> bool {
    match expected {
        Ok((next, value)) => r == Ok::<R, Error>(value) && after == next,
        Err(e) => r == Err::<R, Error>(e) && after == before,
    }
}

/// A call that returned the amount `r` took the state from `before` to
/// `after` as `expected` says, and returned the amount that it names on
/// success.
pub open spec fn transition_paying<T>(
    r: Result<crate::amount::Amount, Error>,
    before: T,
    after: T,
    expected: Result<(T, nat), Error>,
) -> bool {
    match expected {
        Ok((next, value)) => r is Ok && r->Ok_0@ == value && after == next,
        Err(e) => r is Err && r->Err_0 == e && after == before,
    }
}

impl Error {
    /// The text with which the call fails.
    pub open spec fn spec_message(&self) -> Seq<char> {
        match self {
            Error::OnlyOwner => "Endpoint can only be called by owner"@,
            Error::OnlyAdmin => "Only admin can call this endpoint"@,
            Error::NotActive => "Not active"@,
            Error::BattleInProgress => "Battle in progress"@,
            Error::BattleInPreparation => "Battle in preparation"@,
            Error::AlreadyInThisMode => "Already in this mode"@,
            Error::SwitchTooLate => "Cannot switch to daily mode too late"@,
            Error::CannotBackdateFirstBattle => "Cannot backdate first battle"@,
            Error::NoPayment => "No payment"@,
            Error::WrongToken => "Wrong token"@,
            Error::InvalidTokenAmount => "Invalid token amount"@,
            Error::CannotStakeSft => "Cannot stake SFT"@,
            Error::NoAttributes => "Cant stake NFT without attributes"@,
            Error::NotEnoughRewards => "Not enough rewards to start battle"@,
            Error::InvalidTokenSent => "Invalid token sent"@,
            Error::AlreadyAdmin => "Address is already an admin"@,
            Error::NotAdmin => "Address is not an admin"@,
            Error::IncorrectNumberOfTransfers => "incorrect number of transfers"@,
            Error::FungibleTokenExpected => "fungible token expected"@,
            Error::StorageDecode => "storage decode error"@,
            Error::ArithmeticOverflow => "arithmetic overflow"@,
            Error::DivisionByZero => "division by zero"@,
            Error::IndexOutOfRange => "index out of range"@,
        }
    }

    pub fn message(&self) -> (r: &'static str)
        ensures
            r@ == self.spec_message(),
    {
        match self {
            Error::OnlyOwner => "Endpoint can only be called by owner",
            Error::OnlyAdmin => "Only admin can call this endpoint",
            Error::NotActive => "Not active",
            Error::BattleInProgress => "Battle in progress",
            Error::BattleInPreparation => "Battle in preparation",
            Error::AlreadyInThisMode => "Already in this mode",
            Error::SwitchTooLate => "Cannot switch to daily mode too late",
            Error::CannotBackdateFirstBattle => "Cannot backdate first battle",
            Error::NoPayment => "No payment",
            Error::WrongToken => "Wrong token",
            Error::InvalidTokenAmount => "Invalid token amount",
            Error::CannotStakeSft => "Cannot stake SFT",
            Error::NoAttributes => "Cant stake NFT without attributes",
            Error::NotEnoughRewards => "Not enough rewards to start battle",
            Error::InvalidTokenSent => "Invalid token sent",
            Error::AlreadyAdmin => "Address is already an admin",
            Error::NotAdmin => "Address is not an admin",
            Error::IncorrectNumberOfTransfers => "incorrect number of transfers",
            Error::FungibleTokenExpected => "fungible token expected",
            Error::StorageDecode => "storage decode error",
            Error::ArithmeticOverflow => "arithmetic overflow",
            Error::DivisionByZero => "division by zero",
            Error::IndexOutOfRange => "index out of range",
        }
    }
}

} // verus!
