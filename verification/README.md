# Rustaceans poker dealer

A poker dealer for five card draw, seven card stud and Texas hold'em, played on one
command line or through an HTTP server, written in Verus.

- `src/` is the library, verified by Verus: cards, decks and hand ranking; players, the
  pot and how its winnings are divided; the table that every variant plays on (blinds and
  antes, bet phases, dealing, drawing, the showdown) and the three variants' rounds; games
  and lobbies; and the reading of what a user types on the command line.
- `tests/` runs the library on concrete games.
- `app/` is the program around it: the command line menus and input, the HTTP server, and
  the MongoDB records of rounds.

The main properties proved of the library: every card is in exactly one place (deck, a
hand or the community cards) at all times; a bet phase keeps the money at the table; a
round gives back the players it was given, with no more money in all; the pot's division
pays nothing to folded players, never more than the pot, and everything to a sole survivor;
hand ranking is a total preorder and does not depend on the order of the cards.
