use vstd::prelude::*;

use crate::game::{div_round, Amount, MilliBigBlind};
use crate::range_config::PreFlopAction;

verus! {

/// A strategy has no range for the situation.
#[derive(Clone, Copy, Debug, PartialEq, Eq, Structural)]
pub struct ErrorRangeUnimplemented;

/// Why an action for a computer player cannot be made.
#[derive(Clone, Copy, Debug, PartialEq, Eq, Structural)]
pub enum AiError {
    /// Posts and straddles are not decided by a strategy.
    PostOrStraddle,
    /// A bet or raise amount does not convert to chips.
    AmountConversion,
}

/// What a computer player does; posts and straddles are left out.
#[derive(Clone, Copy, Debug, PartialEq, Eq, Structural)]
pub enum AiAction {
    Fold,
    CheckFold,
    CheckCall,
    BetRaise(u32),
    AllIn,
}

/// The kind of an action of a range; amounts in thousandths of a big blind.
#[derive(Clone, Copy, Debug, PartialEq, Eq, Structural)]
pub enum RangeActionKind {
    Post { player: u8, amount: MilliBigBlind },
    Straddle { player: u8, amount: MilliBigBlind },
    Fold,
    Check,
    Call,
    Bet(MilliBigBlind),
    Raise(MilliBigBlind),
}

/// The chips of `m` thousandths of a big blind of `big_blind` chips, rounded to
/// the nearest chip, when that is an amount.
pub open spec fn chips_of(m: MilliBigBlind, big_blind: int) -> Option<int> {
    let v = (m.value() / 1000) * big_blind + div_round((m.value() % 1000) * big_blind, 1000);
    if m.value() < 0 || m.value() / 1000 > u32::MAX || (m.value() / 1000) * big_blind > u32::MAX || v > u32::MAX {
        None
    } else {
        Some(v)
    }
}

/// The action of a bet or raise to `amount` thousandths of a big blind.
pub open spec fn bet_raise_of(amount: MilliBigBlind, big_blind: u32) -> Result<AiAction, AiError> {
    match chips_of(amount, big_blind as int) {
        Some(v) => Ok(AiAction::BetRaise(v as u32)),
        None => Err(AiError::AmountConversion),
    }
}

/// The chips of a bet or raise to `amount` thousandths of a big blind.
fn bet_raise(amount: MilliBigBlind, big_blind: u32) -> (r: Result<AiAction, AiError>)
    ensures
        r == bet_raise_of(amount, big_blind),
{
    match amount.to_amount_rounded(Amount(big_blind)) {
        Some(a) => Ok(AiAction::BetRaise(a.0)),
        None => Err(AiError::AmountConversion),
    }
}

impl AiAction {
    /// The action for a pre flop action of a range configuration; a check
    /// becomes check or fold, a call check or call.
    pub fn from_pre_flop(action: PreFlopAction, big_blind: u32) -> (r: Result<AiAction, AiError>)
        ensures
            r == match action {
                PreFlopAction::Post { .. } => Err(AiError::PostOrStraddle),
                PreFlopAction::Straddle { .. } => Err(AiError::PostOrStraddle),
                PreFlopAction::Fold => Ok(AiAction::Fold),
                PreFlopAction::Check => Ok(AiAction::CheckFold),
                PreFlopAction::Call => Ok(AiAction::CheckCall),
                PreFlopAction::Raise(amount) => bet_raise_of(amount, big_blind),
            },
    {
        match action {
            PreFlopAction::Post { .. } | PreFlopAction::Straddle { .. } => Err(AiError::PostOrStraddle),
            PreFlopAction::Fold => Ok(AiAction::Fold),
            PreFlopAction::Check => Ok(AiAction::CheckFold),
            PreFlopAction::Call => Ok(AiAction::CheckCall),
            PreFlopAction::Raise(amount) => bet_raise(amount, big_blind),
        }
    }

    /// The action for an action of a range.
    pub fn from_range(action: RangeActionKind, big_blind: u32) -> (r: Result<AiAction, AiError>)
        ensures
            r == match action {
                RangeActionKind::Post { .. } => Err(AiError::PostOrStraddle),
                RangeActionKind::Straddle { .. } => Err(AiError::PostOrStraddle),
                RangeActionKind::Fold => Ok(AiAction::Fold),
                RangeActionKind::Check => Ok(AiAction::CheckFold),
                RangeActionKind::Call => Ok(AiAction::CheckCall),
                RangeActionKind::Bet(amount) => bet_raise_of(amount, big_blind),
                RangeActionKind::Raise(amount) => bet_raise_of(amount, big_blind),
            },
    {
        match action {
            RangeActionKind::Post { .. } | RangeActionKind::Straddle { .. } => Err(AiError::PostOrStraddle),
            RangeActionKind::Fold => Ok(AiAction::Fold),
            RangeActionKind::Check => Ok(AiAction::CheckFold),
            RangeActionKind::Call => Ok(AiAction::CheckCall),
            RangeActionKind::Bet(amount) | RangeActionKind::Raise(amount) => bet_raise(amount, big_blind),
        }
    }

    /// Whether the action folds when it cannot check.
    pub fn contains_fold(self) -> (r: bool)
        ensures
            r == (self == AiAction::Fold || self == AiAction::CheckFold),
    {
        match self {
            AiAction::Fold | AiAction::CheckFold => true,
            _ => false,
        }
    }
}

/// A computer player that always folds.
#[derive(Clone, Copy, Debug)]
pub struct AlwaysFold;

/// A computer player that always checks or calls.
#[derive(Clone, Copy, Debug)]
pub struct AlwaysCheckCall;

/// A computer player that always goes all in.
#[derive(Clone, Copy, Debug)]
pub struct AlwaysAllIn;

} // verus!
