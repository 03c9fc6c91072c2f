//! Playing cards and what they are worth.

use vstd::prelude::*;

verus! {

/// Number of suits: club, diamond, heart, spade.
pub const NUM_SUITS: i32 = 4;

/// Number of faces: ace, 2 to 10, king, queen, jack, in this order.
pub const NUM_FACES: i32 = 13;

/// Number of cards in a full deck.
pub const DECK_SIZE: usize = 52;

/// A card: the index of its suit and the index of its face.
#[derive(Clone, Copy, Debug, PartialEq, Eq, Structural)]
pub struct Card {
    pub suit: i32,
    pub face: i32,
}

/// What a face adds to a score. The ace (index 0) counts 1, the faces 2 to 10
/// (indices 1 to 9) count their number, and king, queen and jack (indices 10
/// to 12) count 10 each. An index that is no face counts nothing.
pub open spec fn face_value(face: int) -> int {
    if 0 <= face <= 9 {
        face + 1
    } else if 10 <= face <= 12 {
        10
    } else {
        0
    }
}

impl Card {
    /// The card names one of the four suits and one of the thirteen faces.
    pub open spec fn wf(self) -> bool {
        0 <= self.suit < NUM_SUITS && 0 <= self.face < NUM_FACES
    }

    /// What this card adds to a score.
    pub fn value(&self) -> (v: i32)
        ensures
            v == face_value(self.face as int),
            0 <= v <= 10,
    {
        if 0 <= self.face && self.face <= 9 {
            self.face + 1
        } else if 10 <= self.face && self.face <= 12 {
            10
        } else {
            0
        }
    }
}

} // verus!
