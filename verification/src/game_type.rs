use vstd::prelude::*;

verus! {

/// The poker game types supported by this server.
#[derive(Debug, Clone, Copy, PartialEq, Eq, Structural)]
pub enum GameType {
    FiveCardDraw,
    SevenCardStud,
    TexasHoldem,
}

impl GameType {
    /// The name of the game type as shown to players.
    pub fn name(&self) -> (s: &'static str)
        ensures
            *self == GameType::FiveCardDraw ==> s@ == "Five Card Draw"@,
            *self == GameType::SevenCardStud ==> s@ == "Seven Card Stud"@,
            *self == GameType::TexasHoldem ==> s@ == "Texas Hold'em"@,
    {
        match self {
            GameType::FiveCardDraw => "Five Card Draw",
            GameType::SevenCardStud => "Seven Card Stud",
            GameType::TexasHoldem => "Texas Hold'em",
        }
    }
}

} // verus!
