use vstd::prelude::*;

verus! {

/// Action types that players can do throughout a game.
/// Money related actions (Ante, Bet, Raise, AllIn) carry the money the player stakes
/// IN TOTAL in the pot so far, not the increment.
///
/// e.g. in a two player game (P1 and P2), if both pay the ante of $2 and P1 then bets
/// $5, the action is Bet(5); if P2 then raises by $5 (to $10) the action is Raise(10);
/// if P1 has a balance of $1000 and goes all in, the action is AllIn(1000).
///
/// Replace carries the number of cards replaced. Win and Lose are for book keeping and
/// carry the amount won or lost in a round; they are added to the pot history after the
/// winnings of a round are divided.
#[derive(Debug, Clone, Copy, PartialEq, Eq, Structural)]
pub enum Action {
    Ante(usize),
    Call,
    Bet(usize),
    Raise(usize),
    Check,
    AllIn(usize),
    Fold,
    Replace(usize),
    Win(usize),
    Lose(usize),
}

} // verus!
