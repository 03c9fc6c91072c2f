//! The deck: fifty-two distinct cards, shuffled, dealt from the top.

use crate::card::{Card, DECK_SIZE, NUM_FACES, NUM_SUITS};
use crate::error::GameError;
use crate::shuffle::{is_shuffle_of, shuffle_vec_in_place};
use vstd::prelude::*;

verus! {

/// The card at position `i` of the unshuffled deck: suit by suit, and within
/// a suit face by face.
pub open spec fn canonical_card(i: int) -> Card {
    Card { suit: (i / 13) as i32, face: (i % 13) as i32 }
}

/// The unshuffled deck: every pair of a suit and a face, once.
pub open spec fn full_deck() -> Seq<Card> {
    Seq::new(52, |i: int| canonical_card(i))
}

/// What holds of the cards of a deck at any time: they are at most fifty-two
/// real cards, and no card occurs twice.
pub open spec fn distinct_cards(cards: Seq<Card>) -> bool {
    &&& cards.len() <= 52
    &&& cards.no_duplicates()
    &&& forall|i: int| 0 <= i < cards.len() ==> (#[trigger] cards[i]).wf()
}

/// The unshuffled deck holds each of the fifty-two cards at the position that
/// its suit and face give, and so holds no card twice.
pub proof fn lemma_full_deck_distinct()
    ensures
        distinct_cards(full_deck()),
        full_deck().len() == 52,
        forall|c: Card| c.wf() ==> full_deck().contains(c),
{
    let d = full_deck();
    assert forall|i: int, j: int| 0 <= i < d.len() && 0 <= j < d.len() && i != j implies d[i]
        != d[j] by {
        assert(i == 13 * (i / 13) + i % 13);
        assert(j == 13 * (j / 13) + j % 13);
    }
    assert forall|c: Card| c.wf() implies d.contains(c) by {
        let k = 13 * c.suit + c.face;
        assert(d[k] == c);
    }
}

/// A rearrangement of distinct cards is again a sequence of distinct cards.
pub proof fn lemma_permutation_distinct(a: Seq<Card>, b: Seq<Card>)
    requires
        distinct_cards(a),
        a.to_multiset() == b.to_multiset(),
    ensures
        distinct_cards(b),
        b.len() == a.len(),
{
    vstd::seq_lib::to_multiset_len(a);
    vstd::seq_lib::to_multiset_len(b);
    a.lemma_multiset_has_no_duplicates();
    b.lemma_multiset_has_no_duplicates_conv();
    assert forall|i: int| 0 <= i < b.len() implies (#[trigger] b[i]).wf() by {
        assert(b.contains(b[i]));
        vstd::seq_lib::to_multiset_contains(b, b[i]);
        vstd::seq_lib::to_multiset_contains(a, b[i]);
        let k = choose|k: int| 0 <= k < a.len() && a[k] == b[i];
        assert(a[k].wf());
    }
}

/// A deck of cards. The last card is the top of the deck.
#[derive(Debug)]
pub struct Deck {
    cards: Vec<Card>,
}

impl View for Deck {
    type V = Seq<Card>;

    closed spec fn view(&self) -> Seq<Card> {
        self.cards@
    }
}

impl Deck {
    /// The deck holds distinct cards.
    pub open spec fn wf(&self) -> bool {
        distinct_cards(self@)
    }

    /// The full deck in its unshuffled order.
    pub fn ordered() -> (d: Deck)
        ensures
            d@ == full_deck(),
            d.wf(),
    {
        let mut cards: Vec<Card> = Vec::new();
        let mut s: i32 = 0;
        while s < NUM_SUITS
            invariant
                0 <= s <= NUM_SUITS,
                cards@.len() == 13 * s,
                forall|i: int| 0 <= i < cards@.len() ==> cards@[i] == canonical_card(i),
            decreases NUM_SUITS - s,
        {
            let mut f: i32 = 0;
            while f < NUM_FACES
                invariant
                    0 <= s < NUM_SUITS,
                    0 <= f <= NUM_FACES,
                    cards@.len() == 13 * s + f,
                    forall|i: int| 0 <= i < cards@.len() ==> cards@[i] == canonical_card(i),
                decreases NUM_FACES - f,
            {
                cards.push(Card { suit: s, face: f });
                f += 1;
            }
            s += 1;
        }
        proof {
            assert(cards@ =~= full_deck());
            lemma_full_deck_distinct();
        }
        Deck { cards }
    }

    /// The deck that holds the given cards, the last of them on top. There is
    /// none unless they are at most fifty-two real cards, each of them once.
    pub fn from_cards(cards: Vec<Card>) -> (r: Option<Deck>)
        ensures
            distinct_cards(cards@) ==> (r matches Some(d) && d@ == cards@ && d.wf()),
            !distinct_cards(cards@) ==> r is None,
    {
        let n: usize = cards.len();
        if n > DECK_SIZE {
            return None;
        }
        let mut i: usize = 0;
        while i < n
            invariant
                n == cards@.len(),
                i <= n,
                forall|a: int| 0 <= a < i ==> (#[trigger] cards@[a]).wf(),
                forall|a: int, b: int| 0 <= a < b < i ==> cards@[a] != cards@[b],
            decreases n - i,
        {
            let c: Card = cards[i];
            if !(0 <= c.suit && c.suit < NUM_SUITS && 0 <= c.face && c.face < NUM_FACES) {
                return None;
            }
            let mut j: usize = 0;
            while j < i
                invariant
                    n == cards@.len(),
                    j <= i < n,
                    c == cards@[i as int],
                    forall|a: int| 0 <= a < j ==> cards@[a] != c,
                decreases i - j,
            {
                if cards[j] == c {
                    return None;
                }
                j += 1;
            }
            i += 1;
        }
        Some(Deck { cards })
    }

    /// A full deck, shuffled: each of the fifty-two cards once, in an order
    /// drawn at random.
    pub fn new() -> (d: Deck)
        ensures
            d@.len() == DECK_SIZE,
            d@.to_multiset() == full_deck().to_multiset(),
            d.wf(),
    {
        let mut d = Deck::ordered();
        d.shuffle_deck();
        d
    }

    /// Shuffles the cards that the deck still holds.
    pub fn shuffle_deck(&mut self)
        ensures
            is_shuffle_of(final(self)@, old(self)@),
            final(self)@.len() == old(self)@.len(),
            final(self)@.to_multiset() == old(self)@.to_multiset(),
            old(self).wf() ==> final(self).wf(),
    {
        shuffle_vec_in_place(&mut self.cards);
        proof {
            if old(self).wf() {
                lemma_permutation_distinct(old(self)@, self@);
            }
        }
    }

    /// Takes the top card off the deck. An empty deck gives `EmptyDeck` and
    /// stays empty.
    pub fn pop_card(&mut self) -> (r: Result<Card, GameError>)
        ensures
            old(self)@.len() == 0 ==> r == Err::<Card, GameError>(GameError::EmptyDeck)
                && final(self)@ == old(self)@,
            old(self)@.len() > 0 ==> r == Ok::<Card, GameError>(old(self)@.last())
                && final(self)@ == old(self)@.drop_last(),
            old(self).wf() ==> final(self).wf(),
    {
        match self.cards.pop() {
            Some(c) => Ok(c),
            None => Err(GameError::EmptyDeck),
        }
    }

    /// The number of cards left.
    pub fn len(&self) -> (n: usize)
        ensures
            n == self@.len(),
    {
        self.cards.len()
    }

    /// The cards left, the top card last.
    pub fn cards(&self) -> (r: &Vec<Card>)
        ensures
            r@ == self@,
    {
        &self.cards
    }
}

} // verus!
