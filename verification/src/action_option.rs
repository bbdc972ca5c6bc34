use vstd::prelude::*;

verus! {

/// The set of possible actions that can be performed by a user.
/// A subset of these (a vector of specific variants) is offered to a player through an
/// implementation of the Input trait, and the chosen one is turned into an Action.
#[derive(Debug, Clone, Copy, PartialEq, Eq, Structural)]
pub enum ActionOption {
    Ante,
    Call,
    Bet,
    Raise,
    Check,
    AllIn,
    Fold,
    Replace,
    Win,
    Lose,
}

} // verus!
