//! What can go wrong in a game.

use vstd::prelude::*;

verus! {

/// The faults that the engine reports.
#[derive(Clone, Copy, Debug, PartialEq, Eq, Structural)]
pub enum GameError {
    /// A card was asked for and the deck had none left.
    EmptyDeck,
    /// The winners were asked for while the dealer could still take a card.
    InconsistentState,
}

} // verus!
