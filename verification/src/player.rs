use vstd::prelude::*;
use vstd::std_specs::cmp::PartialEqSpecImpl;

use crate::card::Card;

verus! {

/// A player: an account, a name, a wallet balance, and the cards in hand.
/// The account is identified by the 128 bits of its UUID.
#[derive(Debug)]
pub struct Player {
    account_id: u128,
    name: String,
    balance: usize,
    cards: Vec<Card>,
}

/// What a player is: account ID, name, balance and cards in hand.
pub struct PlayerView {
    pub account_id: u128,
    pub name: Seq<char>,
    pub balance: nat,
    pub cards: Seq<Card>,
}

impl View for Player {
    type V = PlayerView;

    closed spec fn view(&self) -> PlayerView {
        PlayerView {
            account_id: self.account_id,
            name: self.name@,
            balance: self.balance as nat,
            cards: self.cards@,
        }
    }
}

impl Player {
    /// create a new player, holding no cards
    pub fn new(account_id: u128, name: String, balance: usize) -> (p: Player)
        ensures
            p@ == (PlayerView { account_id, name: name@, balance: balance as nat, cards: Seq::empty() }),
    {
        let cards: Vec<Card> = Vec::new();
        Player { account_id, name, balance, cards }
    }

    /// get the player's current wallet balance
    pub fn balance(&self) -> (b: usize)
        ensures
            b as nat == self@.balance,
    {
        self.balance
    }

    /// Removes the amount from the Player's wallet.
    /// Returns Ok(amount remaining in wallet) on success,
    /// but if the Player does not have enough funds to make the bet,
    /// Returns Err() and does not remove funds.
    pub fn bet(&mut self, amount: usize) -> (r: Result<usize, &'static str>)
        ensures
            old(self)@.balance >= amount ==> r == Ok::<usize, &'static str>(
                (old(self)@.balance - amount) as usize,
            ) && final(self)@ == (PlayerView {
                balance: (old(self)@.balance - amount) as nat,
                ..old(self)@
            }),
            old(self)@.balance < amount ==> r.is_err() && r->Err_0@
                == "Player does not have enough money remaining to make this bet"@ && final(self)@
                == old(self)@,
    {
        if self.balance >= amount {
            self.balance = self.balance - amount;
            Ok(self.balance)
        } else {
            Err("Player does not have enough money remaining to make this bet")
        }
    }

    /// Adds the amount to the Player's wallet, which occurs when they win a pot
    pub fn win(&mut self, amount: usize)
        requires
            old(self)@.balance + amount <= usize::MAX,
        ensures
            final(self)@ == (PlayerView { balance: old(self)@.balance + amount as nat, ..old(self)@ }),
    {
        self.balance = self.balance + amount;
    }

    /// get the player's account ID
    pub fn account_id(&self) -> (id: u128)
        ensures
            id == self@.account_id,
    {
        self.account_id
    }

    /// get the player's name
    pub fn name(&self) -> (n: &str)
        ensures
            n@ == self@.name,
    {
        self.name.as_str()
    }

    /// the player obtains this card
    pub fn obtain_card(&mut self, card: Card)
        ensures
            final(self)@ == (PlayerView { cards: old(self)@.cards.push(card), ..old(self)@ }),
    {
        self.cards.push(card);
    }

    /// the player returns all of their cards, last obtained first
    pub fn return_cards(&mut self) -> (cards: Vec<Card>)
        ensures
            cards@ == old(self)@.cards.reverse(),
            final(self)@ == (PlayerView { cards: Seq::empty(), ..old(self)@ }),
    {
        let mut cards: Vec<Card> = Vec::new();
        let n = self.cards.len();
        let ghost held = self.cards@;
        let mut k: usize = 0;
        while k < n
            invariant
                k <= n,
                n == held.len(),
                self.account_id == old(self).account_id,
                self.name@ == old(self).name@,
                self.balance == old(self).balance,
                self.cards@ == held.subrange(0, n - k),
                cards@ == held.subrange(n - k, n as int).reverse(),
            decreases n - k,
        {
            let card = self.cards.pop().unwrap();
            cards.push(card);
            k = k + 1;
            assert(self.cards@ =~= held.subrange(0, n - k));
            assert(cards@ =~= held.subrange(n - k, n as int).reverse());
        }
        assert(held.subrange(0, n as int) =~= held);
        assert(cards@ =~= held.reverse());
        assert(self.cards@ =~= Seq::<Card>::empty());
        cards
    }

    /// take a peek at the player's cards without returning them
    pub fn peek_at_cards(&self) -> (cards: Vec<&Card>)
        ensures
            cards@.len() == self@.cards.len(),
            forall|i: int| 0 <= i < cards@.len() ==> *#[trigger] cards@[i] == self@.cards[i],
    {
        let mut out: Vec<&Card> = Vec::new();
        let mut i: usize = 0;
        while i < self.cards.len()
            invariant
                i <= self.cards@.len(),
                out@.len() == i,
                forall|j: int| 0 <= j < i ==> *#[trigger] out@[j] == self.cards@[j],
            decreases self.cards@.len() - i,
        {
            out.push(&self.cards[i]);
            i = i + 1;
        }
        out
    }

    /// the player's cards, in the order obtained
    pub fn cards(&self) -> (cards: &Vec<Card>)
        ensures
            cards@ == self@.cards,
    {
        &self.cards
    }

    /// turn every card in the player's hand face up or face down
    pub fn set_cards_face_up(&mut self, is_face_up: bool)
        ensures
            final(self)@.account_id == old(self)@.account_id,
            final(self)@.name == old(self)@.name,
            final(self)@.balance == old(self)@.balance,
            final(self)@.cards.len() == old(self)@.cards.len(),
            forall|i: int|
                0 <= i < old(self)@.cards.len() ==> (#[trigger] final(self)@.cards[i])@.rank
                    == old(self)@.cards[i]@.rank && final(self)@.cards[i]@.suit
                    == old(self)@.cards[i]@.suit && final(self)@.cards[i]@.face_up == is_face_up,
    {
        let n = self.cards.len();
        let mut i: usize = 0;
        while i < n
            invariant
                i <= n,
                n == self.cards@.len(),
                self.account_id == old(self).account_id,
                self.name@ == old(self).name@,
                self.balance == old(self).balance,
                n == old(self).cards@.len(),
                forall|j: int|
                    0 <= j < n ==> (#[trigger] self.cards@[j])@.rank == old(self).cards@[j]@.rank
                        && self.cards@[j]@.suit == old(self).cards@[j]@.suit,
                forall|j: int| 0 <= j < i ==> (#[trigger] self.cards@[j])@.face_up == is_face_up,
            decreases n - i,
        {
            let mut card = self.cards[i];
            card.set_face_up(is_face_up);
            self.cards.set(i, card);
            i = i + 1;
        }
    }
}

impl PartialEq for Player {
    fn eq(&self, other: &Self) -> (r: bool) {
        self.account_id == other.account_id
    }
}

impl PartialEqSpecImpl for Player {
    open spec fn obeys_eq_spec() -> bool {
        true
    }

    open spec fn eq_spec(&self, other: &Player) -> bool {
        self@.account_id == other@.account_id
    }
}

impl Clone for Player {
    fn clone(&self) -> (p: Self)
        ensures
            p@ == self@,
    {
        Player {
            account_id: self.account_id,
            name: self.name.clone(),
            balance: self.balance,
            cards: self.cards.clone(),
        }
    }
}

} // verus!
