//! A simplified blackjack engine: a deck of cards that can be shuffled and
//! dealt from, players that score the cards they receive, and the game that
//! plays the dealer against the seated players until the winners are known.

pub mod card;
pub mod deck;
pub mod error;
pub mod game;
pub mod laws;
pub mod player;
pub mod shuffle;
pub mod supply;
